//! Listings of archives whose files are names only.
use vstd::prelude::*;

use crate::paths::{components, path_components, string_views};
use crate::model::{
    empty_listing, file_all, file_count, insert_at, lemma_empty_unique, lemma_file_all_count, lemma_file_all_found, lemma_file_all_step, lemma_file_all_unique, lookup, member_dir, member_file_name, names_unique, root_name, DirModel,
};
use crate::tree::{self, new_listing};
use crate::zipfile::{zip_directory, zip_file_names, zip_open};

verus! {

/// A directory of an archive listing whose files are names only.
pub type DirEntry = tree::DirEntry<String>;

impl tree::DirEntry<String> {
    /// Appends the file `file` to this directory's files.
    pub fn add_file(&mut self, file: String)
        ensures
            final(self).model() == (DirModel {
                name: old(self).model().name,
                dirs: old(self).model().dirs,
                files: old(self).model().files.push(file@),
            }),
    {
        let ghost old_files = self.files@;
        self.files.push(file);
        proof {
            self.lemma_model_fields();
            assert(Self::file_views(self.files@) =~= Self::file_views(old_files).push(file@));
        }
    }

    /// Lists the archive member called `name`: under its directory
    /// components by its last component when it has more than one
    /// component, else as a file of this directory under its whole name.
    pub fn add_member(&mut self, name: String)
        ensures
            final(self).model() == insert_at(old(self).model(), member_dir(name@), member_file_name(name@)),
    {
        let mut comps = path_components(name.as_str());
        if comps.len() > 1 {
            let last = comps.pop().unwrap();
            proof {
                assert(string_views(comps@) =~= components(name@).drop_last());
            }
            self.file_under(comps, last);
        } else {
            self.add_file(name);
        }
    }
}

/// Where each member of an archive is filed, in archive order.
pub open spec fn name_steps(names: Seq<Seq<char>>) -> Seq<(Seq<Seq<char>>, Seq<char>)> {
    names.map_values(|n: Seq<char>| (member_dir(n), member_file_name(n)))
}

/// The listing of an archive whose members, in archive order, have the
/// given names: each filed in turn from an empty top directory called `/`.
pub open spec fn name_listing(names: Seq<Seq<char>>) -> DirModel<Seq<char>> {
    file_all(empty_listing(), name_steps(names))
}

/// Builds the listing of an archive from its members' names, in archive
/// order.
pub fn get_entries(names: Vec<String>) -> (r: DirEntry)
    ensures
        r.model() == name_listing(string_views(names@)),
{
    let ghost steps = name_steps(string_views(names@));
    let mut ret: DirEntry = new_listing();
    let n = names.len();
    let mut i: usize = 0;
    while i < n
        invariant
            n == names@.len(),
            steps == name_steps(string_views(names@)),
            0 <= i <= n,
            ret.model() == file_all(empty_listing(), steps.take(i as int)),
        decreases n - i,
    {
        let name = names[i].clone();
        ret.add_member(name);
        proof {
            lemma_file_all_step(empty_listing(), steps, i as int);
        }
        i = i + 1;
    }
    assert(steps.take(n as int) =~= steps);
    ret
}

/// Reads the zip archive held in `bytes` and builds the listing of its
/// members' names; `None` where the archive cannot be read. The names come
/// in no fixed order, each once: the listing is that of some ordering of
/// the distinct names in the archive's directory.
pub fn list_zip_names(bytes: Vec<u8>) -> (r: Option<DirEntry>)
    ensures
        r is None <==> zip_directory(bytes@) is None,
        r matches Some(d) ==> exists|ns: Seq<Seq<char>>|
            #![trigger name_listing(ns)]
            {
                &&& name_listing(ns) == d.model()
                &&& ns.no_duplicates()
                &&& ns.to_set() == zip_directory(bytes@)->0.map_values(|e: (Seq<char>, u64)| e.0).to_set()
            },
{
    let ghost src = bytes@;
    match zip_open(bytes) {
        None => None,
        Some(archive) => {
            let names = zip_file_names(&archive);
            let ghost ns = string_views(names@);
            let d = get_entries(names);
            assert(name_listing(ns) == d.model());
            Some(d)
        },
    }
}

/// Reads the zip archive held in `bytes` and gives the name of one of its
/// entries, the first its names come in, which no one fixes; `Some(None)`
/// for an archive without entries, and `None` where the archive cannot
/// be read.
pub fn zip_first_name(bytes: Vec<u8>) -> (r: Option<Option<String>>)
    ensures
        r is None <==> zip_directory(bytes@) is None,
        r matches Some(n) ==> (n is None <==> zip_directory(bytes@)->0.len() == 0),
        r matches Some(Some(n)) ==> zip_directory(bytes@)->0.map_values(|e: (Seq<char>, u64)| e.0).contains(n@),
{
    let ghost src = bytes@;
    match zip_open(bytes) {
        None => None,
        Some(archive) => {
            let names = zip_file_names(&archive);
            let ghost d = zip_directory(src)->0;
            let ghost ds = d.map_values(|e: (Seq<char>, u64)| e.0);
            let ghost ns = string_views(names@);
            if names.len() == 0 {
                proof {
                    if d.len() > 0 {
                        assert(ds.to_set().contains(ds[0]));
                        assert(ns.to_set().contains(ds[0]));
                        assert(false);
                    }
                }
                Some(None)
            } else {
                let first = names[0].clone();
                proof {
                    assert(ns[0] == first@);
                    assert(ns.to_set().contains(ns[0]));
                    assert(ds.to_set().contains(first@));
                }
                Some(Some(first))
            }
        },
    }
}

/// Every member of an archive is in its listing: following the member's
/// directory components from the top reaches a directory holding the
/// member's file name.
pub proof fn lemma_name_listing_has_every_member(names: Seq<Seq<char>>, k: int)
    requires
        0 <= k < names.len(),
    ensures
        lookup(name_listing(names), member_dir(names[k])) is Some,
        lookup(name_listing(names), member_dir(names[k]))->0.files.contains(member_file_name(names[k])),
{
    lemma_file_all_found(empty_listing(), name_steps(names), k);
}

/// Every member of an archive is listed where its path puts it: a member
/// whose name has several components is in the directory reached from the
/// top by all of them but the last, under its last component; a member
/// whose name has one component or none is at the top under its whole
/// name.
pub proof fn lemma_name_filed_by_its_path(names: Seq<Seq<char>>, k: int)
    requires
        0 <= k < names.len(),
    ensures
        components(names[k]).len() > 1 ==> (lookup(name_listing(names), components(names[k]).drop_last()) matches Some(d)
            && d.files.contains(components(names[k]).last())),
        components(names[k]).len() <= 1 ==> name_listing(names).files.contains(names[k]),
{
    lemma_name_listing_has_every_member(names, k);
    let t = name_listing(names);
    assert(lookup(t, Seq::<Seq<char>>::empty()) == Some(t));
}

/// A listing holds exactly one file per member of the archive.
pub proof fn lemma_name_listing_count(names: Seq<Seq<char>>)
    ensures
        file_count(name_listing(names)) == names.len(),
{
    lemma_empty_unique::<Seq<char>>(root_name());
    lemma_file_all_count(empty_listing(), name_steps(names));
}

/// No directory of a listing has two subdirectories with one name.
pub proof fn lemma_name_listing_unique(names: Seq<Seq<char>>)
    ensures
        names_unique(name_listing(names)),
{
    lemma_empty_unique::<Seq<char>>(root_name());
    lemma_file_all_unique(empty_listing(), name_steps(names));
}

} // verus!
