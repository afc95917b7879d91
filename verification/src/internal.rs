//! Listings of zip and rar archives whose files carry their sizes, and the
//! choice of how to read an archive.
use vstd::prelude::*;

use crate::paths::{components, extension, extension_of, path_components, string_views};
use crate::text::{joined, same_text};
use crate::model::{
    empty_listing, file_all, file_count, insert_at, lemma_empty_unique, lemma_file_all_count, lemma_file_all_found, lemma_file_all_step, lemma_file_all_unique, lookup, member_dir, member_file_name, names_unique, root_name, DirModel,
};
use crate::tree::{self, new_listing};
use crate::paths::file_name_of;
use crate::paths::file_name;
use crate::zipfile::{
    max_plain_size, plain_zip, stored_entries, zip_builder_open, zip_directory, zip_entry_data, zip_entry_opens, zip_entry_stored, zip_finish, zip_len, zip_member, zip_open, zip_source, zip_start_stored, zip_write_all, zip_writer_new, zip_written, WrittenFile,
};

verus! {

/// A directory of an archive listing whose files carry their sizes.
pub type DirEntry = tree::DirEntry<(String, u64)>;

/// What the specifications see of a listed file: its name and its size.
pub type FileModel = (Seq<char>, u64);

impl tree::DirEntry<(String, u64)> {
    /// Appends the file `file` of `size` bytes to this directory's files.
    pub fn add_file(&mut self, file: String, size: u64)
        ensures
            final(self).model() == (DirModel {
                name: old(self).model().name,
                dirs: old(self).model().dirs,
                files: old(self).model().files.push((file@, size)),
            }),
    {
        let ghost old_files = self.files@;
        self.files.push((file, size));
        proof {
            self.lemma_model_fields();
            assert(Self::file_views(self.files@) =~= Self::file_views(old_files).push((file@, size)));
        }
    }

    /// Lists the archive member called `name` of `size` bytes: under its
    /// directory components when it has more than one component, else as a
    /// file of this directory under its whole name.
    pub fn add_member(&mut self, name: String, size: u64)
        ensures
            final(self).model() == insert_at(
                old(self).model(),
                member_dir(name@),
                (member_file_name(name@), size),
            ),
    {
        let mut comps = path_components(name.as_str());
        if comps.len() > 1 {
            let ghost all = comps@;
            let last = comps.pop().unwrap();
            proof {
                assert(string_views(comps@) =~= components(name@).drop_last());
                assert(last@ == components(name@).last());
            }
            self.file_under(comps, (last, size));
        } else {
            self.add_file(name, size);
        }
    }
}

/// The views of archive members given as name and size.
pub open spec fn member_views(members: Seq<(String, u64)>) -> Seq<FileModel> {
    members.map_values(|m: (String, u64)| m@)
}

/// Where each member of a zip archive is filed, in archive order.
pub open spec fn zip_steps(members: Seq<FileModel>) -> Seq<(Seq<Seq<char>>, FileModel)> {
    members.map_values(|m: FileModel| (member_dir(m.0), (member_file_name(m.0), m.1)))
}

/// The listing of a zip archive whose members, in archive order, have the
/// given names and sizes: each member filed in turn from an empty top
/// directory called `/`.
pub open spec fn zip_listing(members: Seq<FileModel>) -> DirModel<FileModel> {
    file_all(empty_listing(), zip_steps(members))
}

/// Builds the listing of a zip archive from its members' names and sizes,
/// in archive order, and hands back the archive's path with it.
pub fn list_zip(members: Vec<(String, u64)>, filepath: String) -> (r: (DirEntry, String))
    ensures
        r.0.model() == zip_listing(member_views(members@)),
        r.1 == filepath,
{
    let ghost steps = zip_steps(member_views(members@));
    let mut ret: DirEntry = new_listing();
    let n = members.len();
    let mut i: usize = 0;
    while i < n
        invariant
            n == members@.len(),
            steps == zip_steps(member_views(members@)),
            0 <= i <= n,
            ret.model() == file_all(empty_listing(), steps.take(i as int)),
        decreases n - i,
    {
        let name = members[i].0.clone();
        let size = members[i].1;
        ret.add_member(name, size);
        proof {
            lemma_file_all_step(empty_listing(), steps, i as int);
        }
        i = i + 1;
    }
    assert(steps.take(n as int) =~= steps);
    (ret, filepath)
}

/// The members of the zip archive `bytes`, by name and size in archive
/// order, where the zip crate reads its directory and finds the local
/// header of every entry of it; `None` where it does not.
pub open spec fn zip_members_of(bytes: Seq<u8>) -> Option<Seq<FileModel>> {
    match zip_directory(bytes) {
        None => None,
        Some(d) => if forall|i: usize| i < d.len() ==> #[trigger] zip_entry_opens(bytes, i) {
            Some(d)
        } else {
            None
        },
    }
}

/// Reads the zip archive held in `bytes` and builds its listing, handed
/// back with the archive's path; `None` where the archive cannot be read
/// or the local header of one of its entries is not found. Entries are
/// listed from their headers, so encrypted entries are listed too.
pub fn list_zip_bytes(bytes: Vec<u8>, filepath: String) -> (r: Option<(DirEntry, String)>)
    ensures
        r is None <==> zip_members_of(bytes@) is None,
        r matches Some(x) ==> x.0.model() == zip_listing(zip_members_of(bytes@)->0) && x.1 == filepath,
{
    let ghost src = bytes@;
    let mut archive = match zip_open(bytes) {
        None => {
            return None;
        },
        Some(a) => a,
    };
    let ghost d = zip_directory(src)->0;
    let n = zip_len(&archive);
    let mut members: Vec<(String, u64)> = Vec::new();
    let mut i: usize = 0;
    while i < n
        invariant
            src == bytes@,
            zip_source(archive) == src,
            zip_directory(src) == Some(d),
            n == d.len(),
            0 <= i <= n,
            member_views(members@) == d.take(i as int),
            forall|j: usize| j < i ==> #[trigger] zip_entry_opens(src, j),
        decreases n - i,
    {
        match zip_member(&mut archive, i) {
            None => {
                proof {
                    assert(!zip_entry_opens(src, i));
                }
                return None;
            },
            Some(m) => {
                let ghost before = members@;
                let ghost mv = m@;
                assert(mv == d[i as int]);
                members.push(m);
                proof {
                    assert(members@ == before.push(m));
                    assert(member_views(members@) =~= member_views(before).push(mv));
                    assert(d.take(i + 1) =~= d.take(i as int).push(d[i as int]));
                }
            },
        }
        i = i + 1;
    }
    assert(d.take(n as int) =~= d);
    Some(list_zip(members, filepath))
}

/// The contents of files as the specifications see them; `None` for a
/// file that could not be read.
pub open spec fn content_views(contents: Seq<Option<Vec<u8>>>) -> Seq<Option<Seq<u8>>> {
    contents.map_values(
        |c: Option<Vec<u8>>|
            match c {
                Some(v) => Some(v@),
                None => None,
            },
    )
}

/// The files an archive is made of: each file whose contents were read,
/// under the name at its place in `names`, stored without compression,
/// in order.
pub open spec fn kept_files(names: Seq<Seq<char>>, contents: Seq<Option<Seq<u8>>>) -> Seq<WrittenFile>
    decreases contents.len(),
{
    if contents.len() == 0 {
        Seq::empty()
    } else {
        let rest = kept_files(names, contents.drop_last());
        match contents.last() {
            Some(data) => rest.push((names[contents.len() - 1], true, data)),
            None => rest,
        }
    }
}

/// Whether every file that was read fits in a zip archive: at most
/// 4 GiB - 1 bytes.
pub open spec fn contents_fit(contents: Seq<Option<Seq<u8>>>) -> bool {
    forall|i: int| 0 <= i < contents.len() ==> (#[trigger] contents[i] matches Some(d) ==> d.len() <= max_plain_size())
}

/// Whether reading the archive `bytes` back gives exactly `files`: its
/// members are the files by name and number of bytes, in order, and
/// reading each member gives the file's bytes, stored as the file was.
pub open spec fn zip_holds(bytes: Seq<u8>, files: Seq<WrittenFile>) -> bool {
    &&& zip_members_of(bytes) == Some(stored_entries(files))
    &&& forall|i: usize| i < files.len() ==> #[trigger] zip_entry_data(bytes, i) == files[i as int].2
    &&& forall|i: usize| i < files.len() ==> #[trigger] zip_entry_stored(bytes, i) == files[i as int].1
}

/// Writes a new zip archive in memory: for each file whose contents were
/// read, a file stored without compression under the name at its place in
/// `names`, in order; files that could not be read are left out. It
/// succeeds exactly when every file read fits in a zip archive, and where
/// the archive is a plain one, reading it back gives exactly the files
/// kept, with their bytes.
pub fn archive_bytes(names: &Vec<String>, contents: &Vec<Option<Vec<u8>>>) -> (r: Option<Vec<u8>>)
    requires
        contents.len() <= names.len(),
    ensures
        r is Some <==> contents_fit(content_views(contents@)),
        r matches Some(b) ==> ({
            let files = kept_files(string_views(names@), content_views(contents@));
            plain_zip(files, b@) ==> zip_holds(b@, files)
        }),
{
    let ghost ns = string_views(names@);
    let ghost cs = content_views(contents@);
    let mut builder = zip_writer_new();
    let n = contents.len();
    let mut i: usize = 0;
    while i < n
        invariant
            n == contents@.len(),
            n <= names@.len(),
            ns == string_views(names@),
            cs == content_views(contents@),
            0 <= i <= n,
            zip_builder_open(builder),
            zip_written(builder) == kept_files(ns, cs.take(i as int)),
            contents_fit(cs.take(i as int)),
            forall|j: int| 0 <= j < zip_written(builder).len() ==> #[trigger] zip_written(builder)[j].2.len()
                <= max_plain_size(),
        decreases n - i,
    {
        let ghost before = zip_written(builder);
        proof {
            assert(cs.take(i + 1).drop_last() =~= cs.take(i as int));
            if before.len() > 0 {
                assert(before[before.len() - 1].2.len() <= max_plain_size());
            }
        }
        match &contents[i] {
            Some(data) => {
                let ok = zip_start_stored(&mut builder, names[i].as_str());
                assert(ok);
                let ghost started = zip_written(builder);
                assert(started.last().2.len() == 0);
                if !zip_write_all(&mut builder, data.as_slice()) {
                    proof {
                        assert(cs[i as int] == Some(data@));
                        assert(!contents_fit(cs));
                    }
                    return None;
                }
                proof {
                    let entry = (ns[i as int], true, data@);
                    assert(started == before.push((ns[i as int], true, Seq::empty())));
                    assert(Seq::<u8>::empty() + data@ =~= data@);
                    if data@.len() == 0 {
                        assert(data@ =~= Seq::<u8>::empty());
                    }
                    assert(zip_written(builder) =~= before.push(entry));
                    assert(cs.take(i + 1).last() == Some(data@));
                    assert forall|j: int| 0 <= j < cs.take(i + 1).len() implies (#[trigger] cs.take(i + 1)[j] matches Some(d)
                        ==> d.len() <= max_plain_size()) by {
                        if j < i {
                            assert(cs.take(i + 1)[j] == cs.take(i as int)[j]);
                        }
                    }
                }
            },
            None => {
                proof {
                    assert(cs.take(i + 1).last() is None);
                    assert forall|j: int| 0 <= j < cs.take(i + 1).len() implies (#[trigger] cs.take(i + 1)[j] matches Some(d)
                        ==> d.len() <= max_plain_size()) by {
                        if j < i {
                            assert(cs.take(i + 1)[j] == cs.take(i as int)[j]);
                        }
                    }
                }
            },
        }
        i = i + 1;
    }
    assert(cs.take(n as int) =~= cs);
    let r = zip_finish(&mut builder);
    proof {
        if r is Some {
            let b = r->0;
            let files = kept_files(ns, cs);
            if plain_zip(files, b@) {
                let d = stored_entries(files);
                assert(d.len() == files.len());
                assert forall|j: usize| j < d.len() implies #[trigger] zip_entry_opens(b@, j) by {}
            }
        }
    }
    r
}

/// The names that the files at `paths` get in a new archive: the last
/// component of each path.
pub open spec fn path_file_names(paths: Seq<Seq<char>>) -> Seq<Seq<char>> {
    paths.map_values(|p: Seq<char>| file_name_of(p)->0)
}

/// Writes a new zip archive in memory from the files at `filepaths`, whose
/// contents are `contents` (`None` where a file could not be read): each
/// file that was read is stored under the last component of its path, in
/// order, without compression. Every path must end in a file name. It
/// succeeds exactly when every file read fits in a zip archive; where the
/// archive is a plain one, reading it back gives exactly the files kept,
/// with their bytes.
pub fn create_new_zip(filepaths: Vec<String>, contents: Vec<Option<Vec<u8>>>) -> (r: Option<Vec<u8>>)
    requires
        contents@.len() == filepaths@.len(),
        forall|i: int| 0 <= i < filepaths@.len() ==> (#[trigger] file_name_of(filepaths@[i]@)) is Some,
    ensures
        r is Some <==> contents_fit(content_views(contents@)),
        r matches Some(b) ==> ({
            let files = kept_files(path_file_names(string_views(filepaths@)), content_views(contents@));
            plain_zip(files, b@) ==> zip_holds(b@, files)
        }),
{
    let ghost ps = string_views(filepaths@);
    let mut names: Vec<String> = Vec::new();
    let n = filepaths.len();
    let mut i: usize = 0;
    while i < n
        invariant
            n == filepaths@.len(),
            ps == string_views(filepaths@),
            forall|j: int| 0 <= j < filepaths@.len() ==> (#[trigger] file_name_of(filepaths@[j]@)) is Some,
            0 <= i <= n,
            string_views(names@) == path_file_names(ps).take(i as int),
        decreases n - i,
    {
        let name = file_name(filepaths[i].as_str()).unwrap();
        let ghost before = names@;
        let ghost nv = name@;
        assert(nv == path_file_names(ps)[i as int]);
        names.push(name);
        proof {
            assert(names@ == before.push(name));
            assert(string_views(names@) =~= string_views(before).push(nv));
            assert(path_file_names(ps).take(i + 1) =~= path_file_names(ps).take(i as int).push(nv));
        }
        i = i + 1;
    }
    assert(path_file_names(ps).take(n as int) =~= path_file_names(ps));
    archive_bytes(&names, &contents)
}

/// Writes a new zip archive in memory from files whose contents are
/// `contents` (`None` where a file could not be read), each stored under
/// the name at its place in `files`, and hands back the archive's file
/// name, `file` with `.zip` after it. `files` must name every file. The
/// archive is written exactly when every file read fits in a zip archive;
/// where it is a plain one, reading it back gives exactly the files kept,
/// with their bytes, stored without compression.
pub fn zip_files(file: String, files: Vec<String>, contents: Vec<Option<Vec<u8>>>) -> (r: (String, Option<Vec<u8>>))
    requires
        contents@.len() <= files@.len(),
    ensures
        r.0@ == file@ + ".zip"@,
        r.1 is Some <==> contents_fit(content_views(contents@)),
        r.1 matches Some(b) ==> ({
            let kept = kept_files(string_views(files@), content_views(contents@));
            plain_zip(kept, b@) ==> zip_holds(b@, kept)
        }),
{
    let name = zip_file_name(file.as_str());
    (name, archive_bytes(&files, &contents))
}

/// One entry of a rar archive as the listing reads it: its stored file
/// name, whether it is a directory, whether it is split across volumes,
/// and its unpacked size.
pub struct RarEntry {
    pub filename: String,
    pub is_directory: bool,
    pub is_split: bool,
    pub unpacked_size: u32,
}

/// How a rar entry shows itself: its stored name, then `/` for a
/// directory, then ` (partial)` for an entry split across volumes.
pub open spec fn rar_shown_name(filename: Seq<char>, is_directory: bool, is_split: bool) -> Seq<char> {
    filename + (if is_directory {
        seq!['/']
    } else {
        Seq::empty()
    }) + (if is_split {
        seq![' ', '(', 'p', 'a', 'r', 't', 'i', 'a', 'l', ')']
    } else {
        Seq::empty()
    })
}

/// The name that a rar entry with the stored name `filename` shows.
pub fn rar_display_name(filename: &str, is_directory: bool, is_split: bool) -> (r: String)
    ensures
        r@ == rar_shown_name(filename@, is_directory, is_split),
{
    proof {
        reveal_strlit("/");
        reveal_strlit(" (partial)");
    }
    let mut shown = filename.to_string();
    let ghost with_dir = if is_directory { filename@ + seq!['/'] } else { filename@ };
    if is_directory {
        shown.append("/");
    }
    assert(shown@ =~= with_dir);
    if is_split {
        shown.append(" (partial)");
    }
    assert(shown@ =~= rar_shown_name(filename@, is_directory, is_split));
    shown
}

/// What the specifications see of a rar entry: the name it shows, its
/// stored name, whether it is a file, and its unpacked size.
pub open spec fn rar_view(e: RarEntry) -> (Seq<char>, Seq<char>, bool, u32) {
    (rar_shown_name(e.filename@, e.is_directory, e.is_split), e.filename@, !e.is_directory, e.unpacked_size)
}

/// Where a rar file entry is filed: under the directory components of how
/// it shows itself, by its last component, or, with a single component,
/// at the top under its stored file name.
pub open spec fn rar_step(e: (Seq<char>, Seq<char>, bool, u32)) -> (Seq<Seq<char>>, FileModel) {
    let c = components(e.0);
    if c.len() > 1 {
        (c.drop_last(), (c.last(), e.3 as u64))
    } else {
        (Seq::empty(), (e.1, e.3 as u64))
    }
}

/// The filing steps of the file entries of a rar archive, in order;
/// directory entries are skipped.
pub open spec fn rar_steps(es: Seq<(Seq<char>, Seq<char>, bool, u32)>) -> Seq<(Seq<Seq<char>>, FileModel)>
    decreases es.len(),
{
    if es.len() == 0 {
        Seq::empty()
    } else if es.last().2 {
        rar_steps(es.drop_last()).push(rar_step(es.last()))
    } else {
        rar_steps(es.drop_last())
    }
}

/// The listing of a rar archive with the given entries, in order.
pub open spec fn rar_listing(es: Seq<(Seq<char>, Seq<char>, bool, u32)>) -> DirModel<FileModel> {
    file_all(empty_listing(), rar_steps(es))
}

/// The views of a sequence of rar entries.
pub open spec fn rar_views(es: Seq<RarEntry>) -> Seq<(Seq<char>, Seq<char>, bool, u32)> {
    es.map_values(|e: RarEntry| rar_view(e))
}

/// Builds the listing of a rar archive from its entries, in archive order,
/// and hands back the archive's path with it.
pub fn list_rar(entries: Vec<RarEntry>, filepath: String) -> (r: (DirEntry, String))
    ensures
        r.0.model() == rar_listing(rar_views(entries@)),
        r.1 == filepath,
{
    let ghost es = rar_views(entries@);
    let mut ret: DirEntry = new_listing();
    let n = entries.len();
    let mut i: usize = 0;
    while i < n
        invariant
            n == entries@.len(),
            es == rar_views(entries@),
            0 <= i <= n,
            ret.model() == rar_listing(es.take(i as int)),
        decreases n - i,
    {
        proof {
            assert(es.take(i + 1).drop_last() =~= es.take(i as int));
            assert(es.take(i + 1).last() == rar_view(entries@[i as int]));
        }
        if !entries[i].is_directory {
            let size = entries[i].unpacked_size as u64;
            let shown = rar_display_name(entries[i].filename.as_str(), false, entries[i].is_split);
            let comps = path_components(shown.as_str());
            if comps.len() > 1 {
                let mut dirs = comps;
                let last = dirs.pop().unwrap();
                proof {
                    let c = components(rar_view(entries@[i as int]).0);
                    assert(string_views(dirs@) =~= c.drop_last());
                }
                ret.file_under(dirs, (last, size));
            } else {
                let name = entries[i].filename.clone();
                ret.add_file(name, size);
                assert(ret.model() == insert_at(rar_listing(es.take(i as int)), Seq::empty(), (name@, size)));
            }
            proof {
                let s = rar_steps(es.take(i + 1));
                assert(s.drop_last() == rar_steps(es.take(i as int)));
                assert(s.last() == rar_step(es[i as int]));
            }
        }
        i = i + 1;
    }
    assert(es.take(n as int) =~= es);
    (ret, filepath)
}

/// How an archive chosen for opening is read, by its extension.
#[derive(Clone, Copy, PartialEq, Eq, Debug, Structural)]
pub enum ArchiveKind {
    Zip,
    Rar,
    Bzip,
    Other,
}

/// The way to read an archive with the extension `e`.
pub open spec fn kind_of_ext(e: Seq<char>) -> ArchiveKind {
    if e == "zip"@ {
        ArchiveKind::Zip
    } else if e == "rar"@ {
        ArchiveKind::Rar
    } else if e == "bzip2"@ || e == "bz2"@ {
        ArchiveKind::Bzip
    } else {
        ArchiveKind::Other
    }
}

/// The way to read the archive at `path`, by its extension; `None` when
/// the path names no file with an extension.
pub fn archive_kind(path: &str) -> (r: Option<ArchiveKind>)
    ensures
        extension_of(path@) is None ==> r is None,
        extension_of(path@) matches Some(e) ==> r == Some(kind_of_ext(e)),
{
    proof {
        reveal_strlit("zip");
        reveal_strlit("rar");
        reveal_strlit("bzip2");
        reveal_strlit("bz2");
    }
    match extension(path) {
        None => None,
        Some(e) => {
            let e = e.as_str();
            if same_text(e, "zip") {
                Some(ArchiveKind::Zip)
            } else if same_text(e, "rar") {
                Some(ArchiveKind::Rar)
            } else if same_text(e, "bzip2") || same_text(e, "bz2") {
                Some(ArchiveKind::Bzip)
            } else {
                Some(ArchiveKind::Other)
            }
        },
    }
}

/// The file name a new zip archive is written to: the name given, with
/// `.zip` after it.
pub fn zip_file_name(file: &str) -> (r: String)
    ensures
        r@ == file@ + ".zip"@,
{
    joined(file, ".zip")
}

/// Every member of a zip archive is in its listing: following the member's
/// directory components from the top reaches a directory holding the
/// member's file name with its size.
pub proof fn lemma_zip_listing_has_every_member(members: Seq<FileModel>, k: int)
    requires
        0 <= k < members.len(),
    ensures
        lookup(zip_listing(members), member_dir(members[k].0)) is Some,
        lookup(zip_listing(members), member_dir(members[k].0))->0.files.contains(
            (member_file_name(members[k].0), members[k].1),
        ),
{
    lemma_file_all_found(empty_listing(), zip_steps(members), k);
}

/// A zip listing holds exactly one file per member of the archive.
pub proof fn lemma_zip_listing_count(members: Seq<FileModel>)
    ensures
        file_count(zip_listing(members)) == members.len(),
{
    lemma_empty_unique::<FileModel>(root_name());
    lemma_file_all_count(empty_listing(), zip_steps(members));
}

/// No directory of a zip listing has two subdirectories with one name.
pub proof fn lemma_zip_listing_unique(members: Seq<FileModel>)
    ensures
        names_unique(zip_listing(members)),
{
    lemma_empty_unique::<FileModel>(root_name());
    lemma_file_all_unique(empty_listing(), zip_steps(members));
}

/// An archive written by the library lists back every file it kept:
/// where reading its bytes back gives the files written, the listing
/// built from the bytes holds each of them under its directories, by its
/// name and number of bytes, and one file per file written.
pub proof fn lemma_written_archive_lists_its_files(
    bytes: Seq<u8>,
    files: Seq<WrittenFile>,
    k: int,
)
    requires
        zip_members_of(bytes) == Some(stored_entries(files)),
        0 <= k < files.len(),
    ensures
        lookup(zip_listing(zip_members_of(bytes)->0), member_dir(files[k].0)) is Some,
        lookup(zip_listing(zip_members_of(bytes)->0), member_dir(files[k].0))->0.files.contains(
            (member_file_name(files[k].0), files[k].2.len() as u64),
        ),
        file_count(zip_listing(zip_members_of(bytes)->0)) == files.len(),
{
    let es = stored_entries(files);
    assert(es[k] == (files[k].0, files[k].2.len() as u64));
    lemma_zip_listing_has_every_member(es, k);
    lemma_zip_listing_count(es);
}

/// Every member of a zip archive is listed where its path puts it: a
/// member whose name has several components is in the directory reached
/// from the top by all of them but the last, under its last component,
/// with its size; a member whose name has one component or none is at the
/// top under its whole name, with its size.
pub proof fn lemma_zip_member_filed_by_its_path(members: Seq<FileModel>, k: int)
    requires
        0 <= k < members.len(),
    ensures
        components(members[k].0).len() > 1 ==> (lookup(zip_listing(members), components(members[k].0).drop_last())
            matches Some(d) && d.files.contains((components(members[k].0).last(), members[k].1))),
        components(members[k].0).len() <= 1 ==> zip_listing(members).files.contains(members[k]),
{
    lemma_zip_listing_has_every_member(members, k);
    let t = zip_listing(members);
    assert(lookup(t, Seq::<Seq<char>>::empty()) == Some(t));
}

/// Every file entry of a rar archive is listed where the name it shows
/// puts it: with several components, in the directory reached from the
/// top by all of them but the last, under its last component; with one
/// component or none, at the top under its stored name; either way with
/// its unpacked size.
pub proof fn lemma_rar_file_filed_by_its_path(es: Seq<(Seq<char>, Seq<char>, bool, u32)>, k: int)
    requires
        0 <= k < es.len(),
        es[k].2,
    ensures
        components(es[k].0).len() > 1 ==> (lookup(rar_listing(es), components(es[k].0).drop_last()) matches Some(d)
            && d.files.contains((components(es[k].0).last(), es[k].3 as u64))),
        components(es[k].0).len() <= 1 ==> rar_listing(es).files.contains((es[k].1, es[k].3 as u64)),
{
    lemma_rar_listing_has_every_file(es, k);
    let t = rar_listing(es);
    assert(lookup(t, Seq::<Seq<char>>::empty()) == Some(t));
}

/// The number of files among `contents` that were read.
pub open spec fn read_count(contents: Seq<Option<Seq<u8>>>) -> nat
    decreases contents.len(),
{
    if contents.len() == 0 {
        0
    } else if contents.last() is Some {
        read_count(contents.drop_last()) + 1
    } else {
        read_count(contents.drop_last())
    }
}

/// A new archive is made of one file per file read.
pub proof fn lemma_kept_files_count(names: Seq<Seq<char>>, contents: Seq<Option<Seq<u8>>>)
    ensures
        kept_files(names, contents).len() == read_count(contents),
    decreases contents.len(),
{
    if contents.len() > 0 {
        lemma_kept_files_count(names, contents.drop_last());
    }
}

/// The files of a new archive are the files read, in order, each whole:
/// there is one per file read, and the file read at place `i`, after
/// `read_count(contents.take(i))` others were read, is kept there under
/// the name at place `i`, stored without compression, with every one of
/// its bytes.
pub proof fn lemma_kept_files_are_the_files_read(names: Seq<Seq<char>>, contents: Seq<Option<Seq<u8>>>, i: int)
    requires
        contents.len() <= names.len(),
        0 <= i < contents.len(),
        contents[i] is Some,
    ensures
        kept_files(names, contents).len() == read_count(contents),
        read_count(contents.take(i)) < kept_files(names, contents).len(),
        kept_files(names, contents)[read_count(contents.take(i)) as int] == (names[i], true, contents[i]->0),
    decreases contents.len(),
{
    lemma_kept_files_count(names, contents);
    let d = contents.drop_last();
    lemma_kept_files_count(names, d);
    if i == contents.len() - 1 {
        assert(contents.take(i) =~= d);
    } else {
        lemma_kept_files_are_the_files_read(names, d, i);
        assert(d.take(i) =~= contents.take(i));
        assert(d[i] == contents[i]);
    }
}

/// Each file of a new archive made from paths is named by the whole last
/// component of its path.
pub proof fn lemma_new_archive_names_are_file_names(paths: Seq<Seq<char>>, i: int)
    requires
        0 <= i < paths.len(),
        file_name_of(paths[i]) is Some,
    ensures
        path_file_names(paths).len() == paths.len(),
        path_file_names(paths)[i] == components(paths[i]).last(),
{
}

/// A new archive made from paths holds, for the file read at place `i`,
/// a file named by the whole last component of the path at place `i`,
/// stored without compression, with every byte read, at the place given by
/// the files read before it.
pub proof fn lemma_created_archive_holds_each_file_read(paths: Seq<Seq<char>>, contents: Seq<Option<Seq<u8>>>, i: int)
    requires
        contents.len() == paths.len(),
        0 <= i < contents.len(),
        contents[i] is Some,
        file_name_of(paths[i]) is Some,
    ensures
        read_count(contents.take(i)) < kept_files(path_file_names(paths), contents).len(),
        kept_files(path_file_names(paths), contents)[read_count(contents.take(i)) as int] == (
            components(paths[i]).last(),
            true,
            contents[i]->0,
        ),
{
    lemma_new_archive_names_are_file_names(paths, i);
    lemma_kept_files_are_the_files_read(path_file_names(paths), contents, i);
}

/// The number of file entries among `es`.
pub open spec fn rar_file_entries(es: Seq<(Seq<char>, Seq<char>, bool, u32)>) -> nat
    decreases es.len(),
{
    if es.len() == 0 {
        0
    } else if es.last().2 {
        rar_file_entries(es.drop_last()) + 1
    } else {
        rar_file_entries(es.drop_last())
    }
}

/// Each file entry has its filing step, and there is one step per file entry.
proof fn lemma_rar_steps(es: Seq<(Seq<char>, Seq<char>, bool, u32)>)
    ensures
        rar_steps(es).len() == rar_file_entries(es),
        forall|k: int| 0 <= k < es.len() && es[k].2 ==> rar_steps(es).contains(#[trigger] rar_step(es[k])),
    decreases es.len(),
{
    if es.len() > 0 {
        let d = es.drop_last();
        lemma_rar_steps(d);
        assert forall|k: int| 0 <= k < es.len() && es[k].2 implies rar_steps(es).contains(#[trigger] rar_step(es[k])) by {
            if k < es.len() - 1 {
                assert(d[k] == es[k]);
                let j = choose|j: int| 0 <= j < rar_steps(d).len() && rar_steps(d)[j] == rar_step(d[k]);
                assert(rar_steps(es)[j] == rar_step(es[k]));
            } else {
                let s = rar_steps(es);
                assert(s[s.len() - 1] == rar_step(es[k]));
            }
        }
    }
}

/// Every file entry of a rar archive is in its listing, where its filing
/// step puts it; directory entries add nothing.
pub proof fn lemma_rar_listing_has_every_file(es: Seq<(Seq<char>, Seq<char>, bool, u32)>, k: int)
    requires
        0 <= k < es.len(),
        es[k].2,
    ensures
        lookup(rar_listing(es), rar_step(es[k]).0) is Some,
        lookup(rar_listing(es), rar_step(es[k]).0)->0.files.contains(rar_step(es[k]).1),
{
    lemma_rar_steps(es);
    let j = choose|j: int| 0 <= j < rar_steps(es).len() && rar_steps(es)[j] == rar_step(es[k]);
    lemma_file_all_found(empty_listing(), rar_steps(es), j);
}

/// A rar listing holds exactly one file per file entry of the archive.
pub proof fn lemma_rar_listing_count(es: Seq<(Seq<char>, Seq<char>, bool, u32)>)
    ensures
        file_count(rar_listing(es)) == rar_file_entries(es),
{
    lemma_rar_steps(es);
    lemma_empty_unique::<FileModel>(root_name());
    lemma_file_all_count(empty_listing(), rar_steps(es));
}

/// No directory of a rar listing has two subdirectories with one name.
pub proof fn lemma_rar_listing_unique(es: Seq<(Seq<char>, Seq<char>, bool, u32)>)
    ensures
        names_unique(rar_listing(es)),
{
    lemma_empty_unique::<FileModel>(root_name());
    lemma_file_all_unique(empty_listing(), rar_steps(es));
}

} // verus!
