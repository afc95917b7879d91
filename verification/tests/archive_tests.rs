use std::io::{Cursor, Read, Write};

use zip::unstable::write::FileOptionsExt;

use rzip::internal::{create_new_zip, list_zip_bytes, zip_files, DirEntry};
use rzip::rzip::{list_zip_names, zip_first_name};

fn member(name: &str, size: u64) -> (String, u64) {
    (name.to_string(), size)
}

fn dir_names(d: &DirEntry) -> Vec<String> {
    d.get_dirs().iter().map(|x| x.get_name()).collect()
}

#[test]
fn new_archive_lists_back_the_files_read() {
    let paths = vec!["/tmp/x/a.txt".to_string(), "b/c.bin".to_string(), "missing.txt".to_string()];
    let contents = vec![Some(b"hello".to_vec()), Some(vec![0u8, 1, 2]), None];
    let bytes = create_new_zip(paths, contents).expect("the archive is written");
    let (root, path) = list_zip_bytes(bytes, "new.zip".to_string()).expect("the archive is read back");
    assert_eq!(path, "new.zip");
    assert_eq!(root.get_name(), "/");
    assert!(root.dirs.is_empty());
    assert_eq!(root.get_files(), vec![member("a.txt", 5), member("c.bin", 3)]);
}

#[test]
fn new_archive_of_nothing_lists_an_empty_top() {
    let bytes = create_new_zip(Vec::new(), Vec::new()).expect("an empty archive is written");
    let (root, _) = list_zip_bytes(bytes, String::new()).expect("and read back");
    assert!(root.dirs.is_empty());
    assert!(root.files.is_empty());
}

#[test]
fn zipped_files_keep_their_given_names() {
    let (name, bytes) = zip_files(
        "out".to_string(),
        vec!["d/e.txt".to_string(), "f.txt".to_string(), "g.txt".to_string()],
        vec![Some(b"xy".to_vec()), None, Some(Vec::new())],
    );
    assert_eq!(name, "out.zip");
    let (root, _) = list_zip_bytes(bytes.expect("written"), "out.zip".to_string()).expect("read back");
    assert_eq!(dir_names(&root), vec!["d"]);
    assert_eq!(root.get_files(), vec![member("g.txt", 0)]);
    assert_eq!(root.dirs[0].get_files(), vec![member("e.txt", 2)]);
}

#[test]
fn zipped_files_may_name_fewer_contents_than_names() {
    let (_, bytes) = zip_files("a".to_string(), vec!["one".to_string(), "two".to_string()], vec![Some(b"1".to_vec())]);
    let (root, _) = list_zip_bytes(bytes.unwrap(), String::new()).unwrap();
    assert_eq!(root.get_files(), vec![member("one", 1)]);
}

#[test]
fn bytes_that_are_no_archive_are_refused() {
    assert!(list_zip_bytes(b"not a zip archive at all, only text".to_vec(), String::new()).is_none());
    assert!(list_zip_bytes(Vec::new(), String::new()).is_none());
    assert!(list_zip_names(b"PK".to_vec()).is_none());
}

#[test]
fn archive_made_elsewhere_lists_uncompressed_sizes() {
    let mut writer = zip::ZipWriter::new(Cursor::new(Vec::new()));
    let options = zip::write::FileOptions::default().compression_method(zip::CompressionMethod::Deflated);
    writer.start_file("docs/long.txt", options).unwrap();
    writer.write_all(&[b'a'; 1000]).unwrap();
    writer.add_directory("empty/", options).unwrap();
    writer.start_file("top.txt", options).unwrap();
    writer.write_all(b"top").unwrap();
    let bytes = writer.finish().unwrap().into_inner();
    let (root, _) = list_zip_bytes(bytes, "made.zip".to_string()).unwrap();
    assert_eq!(dir_names(&root), vec!["docs"]);
    assert_eq!(root.get_files(), vec![member("empty/", 0), member("top.txt", 3)]);
    assert_eq!(root.dirs[0].get_files(), vec![member("long.txt", 1000)]);
}

#[test]
fn names_only_listing_of_an_archive() {
    let (_, bytes) = zip_files(
        "n".to_string(),
        vec!["x/y.txt".to_string(), "z.txt".to_string()],
        vec![Some(b"1".to_vec()), Some(b"22".to_vec())],
    );
    let root = list_zip_names(bytes.unwrap()).expect("the archive is read");
    assert_eq!(root.get_name(), "/");
    assert_eq!(root.get_files(), vec!["z.txt".to_string()]);
    assert_eq!(root.dirs.len(), 1);
    assert_eq!(root.dirs[0].get_name(), "x");
    assert_eq!(root.dirs[0].get_files(), vec!["y.txt".to_string()]);
}

#[test]
fn names_only_listing_keeps_each_name_once() {
    let (_, bytes) = zip_files(
        "n".to_string(),
        vec!["same".to_string(), "same".to_string()],
        vec![Some(b"1".to_vec()), Some(b"2".to_vec())],
    );
    let bytes = bytes.unwrap();
    let (full, _) = list_zip_bytes(bytes.clone(), String::new()).unwrap();
    assert_eq!(full.get_files(), vec![member("same", 1), member("same", 1)]);
    let root = list_zip_names(bytes).unwrap();
    assert_eq!(root.get_files(), vec!["same".to_string()]);
}

/// Each entry of the archive `bytes`: its name, whether it is stored
/// without compression, and its contents.
fn read_back(bytes: Vec<u8>) -> Vec<(String, bool, Vec<u8>)> {
    let mut archive = zip::ZipArchive::new(Cursor::new(bytes)).unwrap();
    let mut out = Vec::new();
    for i in 0..archive.len() {
        let mut file = archive.by_index(i).unwrap();
        let stored = file.compression() == zip::CompressionMethod::Stored;
        let mut data = Vec::new();
        file.read_to_end(&mut data).unwrap();
        out.push((file.name().to_string(), stored, data));
    }
    out
}

#[test]
fn new_archive_stores_the_bytes_of_each_file_read() {
    let paths = vec!["x/one.txt".to_string(), "gone".to_string(), "two.bin".to_string()];
    let contents = vec![Some(b"first file".to_vec()), None, Some(vec![7u8; 300])];
    let bytes = create_new_zip(paths, contents).unwrap();
    assert_eq!(
        read_back(bytes),
        vec![
            ("one.txt".to_string(), true, b"first file".to_vec()),
            ("two.bin".to_string(), true, vec![7u8; 300]),
        ]
    );
}

#[test]
fn new_archive_of_no_files_holds_no_entries() {
    let bytes = create_new_zip(Vec::new(), Vec::new()).unwrap();
    assert!(read_back(bytes).is_empty());
    let (name, bytes) = zip_files("out".to_string(), Vec::new(), Vec::new());
    assert_eq!(name, "out.zip");
    assert!(read_back(bytes.unwrap()).is_empty());
}

#[test]
fn zipped_files_store_their_bytes_under_their_names() {
    let (_, bytes) = zip_files(
        "z".to_string(),
        vec!["a/b.txt".to_string(), "c.txt".to_string()],
        vec![Some(b"abc".to_vec()), Some(b"".to_vec())],
    );
    assert_eq!(
        read_back(bytes.unwrap()),
        vec![("a/b.txt".to_string(), true, b"abc".to_vec()), ("c.txt".to_string(), true, Vec::new())]
    );
}

#[test]
fn first_name_of_an_archive() {
    let (_, bytes) = zip_files("f".to_string(), vec!["only.txt".to_string()], vec![Some(b"1".to_vec())]);
    assert_eq!(zip_first_name(bytes.unwrap()), Some(Some("only.txt".to_string())));
    let empty = create_new_zip(Vec::new(), Vec::new()).unwrap();
    assert_eq!(zip_first_name(empty), Some(None));
    assert_eq!(zip_first_name(b"no archive".to_vec()), None);
    let (_, bytes) = zip_files(
        "f".to_string(),
        vec!["p".to_string(), "q".to_string()],
        vec![Some(b"1".to_vec()), Some(b"2".to_vec())],
    );
    let first = zip_first_name(bytes.unwrap()).unwrap().unwrap();
    assert!(first == "p" || first == "q");
}

#[test]
fn encrypted_entries_are_listed_by_their_headers() {
    let mut writer = zip::ZipWriter::new(Cursor::new(Vec::new()));
    let options = zip::write::FileOptions::default()
        .compression_method(zip::CompressionMethod::Stored)
        .with_deprecated_encryption(b"secret");
    writer.start_file("hidden.txt", options).unwrap();
    writer.write_all(b"four").unwrap();
    let bytes = writer.finish().unwrap().into_inner();
    let (root, _) = list_zip_bytes(bytes, String::new()).unwrap();
    assert_eq!(root.get_files(), vec![member("hidden.txt", 4)]);
}
