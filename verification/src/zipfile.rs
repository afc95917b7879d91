//! Zip archives held in memory, read and written by the zip crate.
//!
//! What the crate computes from an archive's bytes is named here and not
//! spelled out: the entries its reader finds in the central directory,
//! whether it finds a given entry, and what reading an entry gives back. A
//! writer is seen through the files it has been given so far, each with
//! how it is stored and the bytes written to it, and whether it is still
//! open.
use vstd::prelude::*;

use std::io::Cursor;
use std::io::Write;
use zip::write::FileOptions;
use zip::CompressionMethod;
use zip::ZipArchive;
use zip::ZipWriter;

use crate::paths::string_views;

verus! {

#[verifier::external_type_specification]
#[verifier::external_body]
#[verifier::reject_recursive_types(T)]
pub struct ExCursor<T>(std::io::Cursor<T>);

#[verifier::external_type_specification]
#[verifier::external_body]
#[verifier::reject_recursive_types(R)]
pub struct ExZipArchive<R>(zip::ZipArchive<R>);

/// A zip archive being written into a buffer in memory by a
/// `zip::ZipWriter`. Its only field is private, so every builder is made by
/// `zip_writer_new` and changed only by the functions below; the
/// specifications see it through `zip_written` and `zip_builder_open`.
#[verifier::external_body]
pub struct ZipBuilder {
    writer: ZipWriter<Cursor<Vec<u8>>>,
}

/// A file given to a writer: its name, whether it is stored without
/// compression, and the bytes written to it.
pub type WrittenFile = (Seq<char>, bool, Seq<u8>);

/// The entries that `ZipArchive::new` finds in the central directory of
/// the archive `bytes`, each by its name and uncompressed size, in the
/// directory's order; `None` where it refuses the bytes.
pub uninterp spec fn zip_directory(bytes: Seq<u8>) -> Option<Seq<(Seq<char>, u64)>>;

/// Whether `ZipArchive::by_index_raw` finds the entry at `index` of the
/// archive `bytes`: the entry exists and its local header is where the
/// directory says.
pub uninterp spec fn zip_entry_opens(bytes: Seq<u8>, index: usize) -> bool;

/// The bytes that reading the entry at `index` of the archive `bytes` to
/// its end gives, through `ZipArchive::by_index` and `Read::read_to_end`.
pub uninterp spec fn zip_entry_data(bytes: Seq<u8>, index: usize) -> Seq<u8>;

/// Whether `ZipFile::compression` is `CompressionMethod::Stored` for the
/// entry at `index` of the archive `bytes`.
pub uninterp spec fn zip_entry_stored(bytes: Seq<u8>, index: usize) -> bool;

/// The bytes that an opened archive reads.
pub uninterp spec fn zip_source(archive: ZipArchive<Cursor<Vec<u8>>>) -> Seq<u8>;

/// The files given to a writer so far, in order.
pub uninterp spec fn zip_written(builder: ZipBuilder) -> Seq<WrittenFile>;

/// Whether a writer is still open: not finished, and not closed by a file
/// grown past 4 GiB.
pub uninterp spec fn zip_builder_open(builder: ZipBuilder) -> bool;

/// The largest number of bytes a file of a plain zip archive holds.
pub open spec fn max_plain_size() -> int {
    0xFFFF_FFFF
}

/// The entries of an archive as a reader lists them: each file written,
/// by its name and its number of bytes.
pub open spec fn stored_entries(files: Seq<WrittenFile>) -> Seq<(Seq<char>, u64)> {
    files.map_values(|f: WrittenFile| (f.0, f.2.len() as u64))
}

/// Whether the archive `bytes`, written with `files`, stays within what the
/// crate's reader reads back of what its writer wrote: under 96 MiB, fewer
/// than 65535 files, names of at most 16383 characters (so at most 65535
/// bytes, the most a name's length field holds) and without the control
/// character U+0007. Within these bounds the writer needs no zip64 record,
/// and no bytes of the last file's directory record can pass for the zip64
/// locator that the reader looks for before the directory's end; past them
/// the reader may misread an archive the writer wrote.
pub open spec fn plain_zip(files: Seq<WrittenFile>, bytes: Seq<u8>) -> bool {
    &&& bytes.len() < 0x0600_0000
    &&& files.len() < 65535
    &&& forall|i: int| 0 <= i < files.len() ==> #[trigger] files[i].0.len() <= 16383 && !files[i].0.contains('\u{7}')
}

/// Opens the archive held in `bytes` with `ZipArchive::new` over a cursor.
/// Claims: it fails exactly where `zip_directory` is `None` for the bytes,
/// and the archive it gives reads `bytes`.
#[verifier::external_body]
pub(crate) fn zip_open(bytes: Vec<u8>) -> (r: Option<ZipArchive<Cursor<Vec<u8>>>>)
    ensures
        r is None <==> zip_directory(bytes@) is None,
        r matches Some(a) ==> zip_source(a) == bytes@,
{
    ZipArchive::new(Cursor::new(bytes)).ok()
}

/// The number of entries of an archive, by `ZipArchive::len`. Claims: it
/// is the number of entries in the archive's central directory.
#[verifier::external_body]
pub(crate) fn zip_len(archive: &ZipArchive<Cursor<Vec<u8>>>) -> (n: usize)
    ensures
        zip_directory(zip_source(*archive)) matches Some(d) ==> n == d.len(),
{
    archive.len()
}

/// The name and size of the entry at `index`, by
/// `ZipArchive::by_index_raw` and the entry's `name` and `size`. It reads
/// the entry's headers only: unlike `by_index`, it neither refuses an
/// encrypted entry nor one compressed by a method the crate cannot read.
/// Claims: it gives them exactly where `zip_entry_opens` holds, they are
/// those of the directory's entry at `index`, and the archive still reads
/// the same bytes.
#[verifier::external_body]
pub(crate) fn zip_member(archive: &mut ZipArchive<Cursor<Vec<u8>>>, index: usize) -> (r: Option<(String, u64)>)
    ensures
        zip_source(*final(archive)) == zip_source(*old(archive)),
        r is Some <==> zip_entry_opens(zip_source(*old(archive)), index),
        r matches Some(m) ==> zip_directory(zip_source(*old(archive))) matches Some(d) && index < d.len()
            && m@ == d[index as int],
{
    match archive.by_index_raw(index) {
        Ok(file) => Some((file.name().to_string(), file.size())),
        Err(_) => None,
    }
}

/// The names of an archive's entries, by `ZipArchive::file_names`. They
/// come from a hash map, in an order that no one fixes. Claims: no name
/// comes twice, and they are the names of the directory's entries.
#[verifier::external_body]
pub(crate) fn zip_file_names(archive: &ZipArchive<Cursor<Vec<u8>>>) -> (r: Vec<String>)
    ensures
        string_views(r@).no_duplicates(),
        zip_directory(zip_source(*archive)) matches Some(d) ==> string_views(r@).to_set() == d.map_values(
            |e: (Seq<char>, u64)| e.0,
        ).to_set(),
{
    archive.file_names().map(|n| n.to_string()).collect()
}

/// A writer of a new archive into an empty buffer, by `ZipWriter::new`.
/// Claims: it is open, and no file is in it yet.
#[verifier::external_body]
pub(crate) fn zip_writer_new() -> (w: ZipBuilder)
    ensures
        zip_builder_open(w),
        zip_written(w) == Seq::<WrittenFile>::empty(),
{
    ZipBuilder { writer: ZipWriter::new(Cursor::new(Vec::new())) }
}

/// Starts a file called `name`, stored without compression, by
/// `ZipWriter::start_file` with default options but for the method
/// `CompressionMethod::Stored`; the default options stamp the file with the
/// current time. Claims: on an open writer whose last file is within 4 GiB
/// it succeeds; where it succeeds, the writer stays open and the file is
/// added after the others, stored, with no bytes yet.
#[verifier::external_body]
pub(crate) fn zip_start_stored(builder: &mut ZipBuilder, name: &str) -> (ok: bool)
    ensures
        zip_builder_open(*old(builder)) && (zip_written(*old(builder)).len() == 0
            || zip_written(*old(builder)).last().2.len() <= max_plain_size()) ==> ok,
        ok ==> zip_builder_open(*final(builder)),
        ok ==> zip_written(*final(builder)) == zip_written(*old(builder)).push((name@, true, Seq::empty())),
{
    builder.writer.start_file(name, FileOptions::default().compression_method(CompressionMethod::Stored)).is_ok()
}

/// Writes `data` to the file started last, by `Write::write_all` over
/// `ZipWriter`'s `write`. Claims: on an open writer with a file started,
/// it succeeds exactly when that file stays within 4 GiB; where it
/// succeeds, the bytes follow those already in that file, or there is no
/// file and nothing was to be written, and the writer is as open as it was.
#[verifier::external_body]
pub(crate) fn zip_write_all(builder: &mut ZipBuilder, data: &[u8]) -> (ok: bool)
    ensures
        zip_builder_open(*old(builder)) && zip_written(*old(builder)).len() > 0 ==> (ok <==> zip_written(
            *old(builder),
        ).last().2.len() + data@.len() <= max_plain_size()),
        ok ==> zip_builder_open(*final(builder)) == zip_builder_open(*old(builder)),
        ok ==> {
            let before = zip_written(*old(builder));
            ||| data@.len() == 0 && zip_written(*final(builder)) == before
            ||| before.len() > 0 && zip_written(*final(builder)) == before.update(
                before.len() - 1,
                (before.last().0, before.last().1, before.last().2 + data@),
            )
        },
{
    builder.writer.write_all(data).is_ok()
}

/// Finishes the archive, by `ZipWriter::finish`, and hands back its bytes.
/// Claims: on an open writer whose files are each within 4 GiB it
/// succeeds; where it succeeds on a plain archive, reading the bytes back
/// finds the files written, in order, each by its name and number of
/// bytes, finds each of them, and reading each gives the bytes written to
/// it, stored as it was written. Not claimed: the bytes themselves, which
/// hold the time each file was started.
#[verifier::external_body]
pub(crate) fn zip_finish(builder: &mut ZipBuilder) -> (r: Option<Vec<u8>>)
    ensures
        zip_builder_open(*old(builder)) && (forall|i: int|
            0 <= i < zip_written(*old(builder)).len() ==> #[trigger] zip_written(*old(builder))[i].2.len()
                <= max_plain_size()) ==> r is Some,
        r matches Some(b) ==> (plain_zip(zip_written(*old(builder)), b@) ==> {
            let files = zip_written(*old(builder));
            &&& zip_directory(b@) == Some(stored_entries(files))
            &&& forall|i: usize| i < files.len() ==> #[trigger] zip_entry_opens(b@, i)
            &&& forall|i: usize| i < files.len() ==> #[trigger] zip_entry_data(b@, i) == files[i as int].2
            &&& forall|i: usize| i < files.len() ==> #[trigger] zip_entry_stored(b@, i) == files[i as int].1
        }),
{
    match builder.writer.finish() {
        Ok(cursor) => Some(cursor.into_inner()),
        Err(_) => None,
    }
}

} // verus!
