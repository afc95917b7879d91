use rzip::internal::{
    archive_kind, list_rar, list_zip, rar_display_name, zip_file_name, ArchiveKind, DirEntry, RarEntry,
};
use rzip::rzip as names;

fn member(name: &str, size: u64) -> (String, u64) {
    (name.to_string(), size)
}

fn file_names(d: &DirEntry) -> Vec<(String, u64)> {
    d.get_files()
}

fn dir_names(d: &DirEntry) -> Vec<String> {
    d.get_dirs().iter().map(|x| x.get_name()).collect()
}

#[test]
fn contains_and_find_child_dir() {
    let mut root = DirEntry::new("/".to_string());
    assert!(!root.contains_dir("a".to_string()));
    assert_eq!(root.find_child_dir("a".to_string()), 0);
    assert_eq!(root.add_dir(DirEntry::new("a".to_string())), 0);
    assert_eq!(root.add_dir(DirEntry::new("b".to_string())), 1);
    assert_eq!(root.add_dir(DirEntry::new("a".to_string())), 2);
    assert!(root.contains_dir("b".to_string()));
    assert_eq!(root.find_child_dir("a".to_string()), 0);
    assert_eq!(root.find_child_dir("b".to_string()), 1);
    assert_eq!(root.find_child_dir("zz".to_string()), 0);
    assert_eq!(root.get_name(), "/");
    assert_eq!(dir_names(&root), vec!["a", "b", "a"]);
}

#[test]
fn add_file_keeps_order() {
    let mut root = DirEntry::new("/".to_string());
    root.add_file("x".to_string(), 1);
    root.add_file("y".to_string(), 2);
    assert_eq!(file_names(&root), vec![member("x", 1), member("y", 2)]);
}

#[test]
fn duplicate_copies_whole_tree() {
    let (tree, _) = list_zip(vec![member("a/b/c", 1), member("d", 2)], "p.zip".to_string());
    let copy = tree.duplicate();
    assert_eq!(dir_names(&copy), vec!["a"]);
    assert_eq!(file_names(&copy), vec![member("d", 2)]);
    assert_eq!(dir_names(&copy.dirs[0]), vec!["b"]);
    assert_eq!(file_names(&copy.dirs[0].dirs[0]), vec![member("c", 1)]);
}

#[test]
fn zip_listing_files_members_under_their_directories() {
    let members = vec![
        member("a/b/c.txt", 3),
        member("a/d.txt", 4),
        member("top.txt", 5),
        member("a/", 0),
        member("a/b/e.txt", 6),
        member("f/", 0),
        member("f/g/", 0),
    ];
    let (root, path) = list_zip(members, "C:\\x.zip".to_string());
    assert_eq!(path, "C:\\x.zip");
    assert_eq!(root.get_name(), "/");
    assert_eq!(dir_names(&root), vec!["a", "f"]);
    assert_eq!(file_names(&root), vec![member("top.txt", 5), member("a/", 0), member("f/", 0)]);
    let a = &root.dirs[0];
    assert_eq!(dir_names(a), vec!["b"]);
    assert_eq!(file_names(a), vec![member("d.txt", 4)]);
    assert_eq!(file_names(&a.dirs[0]), vec![member("c.txt", 3), member("e.txt", 6)]);
    let f = &root.dirs[1];
    assert!(f.dirs.is_empty());
    assert_eq!(file_names(f), vec![member("g", 0)]);
}

#[test]
fn zip_listing_of_nothing_is_an_empty_top() {
    let (root, _) = list_zip(Vec::new(), String::new());
    assert_eq!(root.get_name(), "/");
    assert!(root.dirs.is_empty());
    assert!(root.files.is_empty());
}

#[test]
fn zip_listing_counts_one_file_per_member() {
    let members = vec![member("a/x", 1), member("a/x", 1), member("b/c/d", 2), member("e", 3)];
    let (root, _) = list_zip(members, String::new());
    fn count(d: &DirEntry) -> usize {
        d.files.len() + d.dirs.iter().map(count).sum::<usize>()
    }
    assert_eq!(count(&root), 4);
    assert_eq!(dir_names(&root), vec!["a", "b"]);
    assert_eq!(file_names(&root.dirs[0]), vec![member("x", 1), member("x", 1)]);
}

fn rar(filename: &str, is_directory: bool, is_split: bool, size: u32) -> RarEntry {
    RarEntry {
        filename: filename.to_string(),
        is_directory,
        is_split,
        unpacked_size: size,
    }
}

#[test]
fn rar_listing_skips_directories_and_uses_stored_names_at_the_top() {
    let entries = vec![
        rar("docs", true, false, 0),
        rar("docs/readme.txt", false, false, 10),
        rar("big.bin", false, true, 70000),
    ];
    let (root, path) = list_rar(entries, "r.rar".to_string());
    assert_eq!(path, "r.rar");
    assert_eq!(dir_names(&root), vec!["docs"]);
    assert_eq!(file_names(&root), vec![member("big.bin", 70000)]);
    assert_eq!(file_names(&root.dirs[0]), vec![member("readme.txt", 10)]);
}

#[test]
fn rar_listing_files_split_entries_under_their_shown_names() {
    let entries = vec![rar("d/part.bin", false, true, 5), rar("d/whole.bin", false, false, 6)];
    let (root, _) = list_rar(entries, String::new());
    assert!(root.files.is_empty());
    assert_eq!(dir_names(&root), vec!["d"]);
    assert_eq!(file_names(&root.dirs[0]), vec![member("part.bin (partial)", 5), member("whole.bin", 6)]);
}

#[test]
fn rar_display_names() {
    assert_eq!(rar_display_name("a/b.txt", false, false), "a/b.txt");
    assert_eq!(rar_display_name("docs", true, false), "docs/");
    assert_eq!(rar_display_name("big.bin", false, true), "big.bin (partial)");
    assert_eq!(rar_display_name("dir", true, true), "dir/ (partial)");
    assert_eq!(rar_display_name("", false, false), "");
}

#[test]
fn name_listing_of_an_archive() {
    let root = names::get_entries(vec![
        "x/y.txt".to_string(),
        "z.txt".to_string(),
        "x/".to_string(),
    ]);
    assert_eq!(root.get_name(), "/");
    assert_eq!(root.get_files(), vec!["z.txt".to_string(), "x/".to_string()]);
    assert_eq!(root.dirs.len(), 1);
    assert_eq!(root.dirs[0].get_name(), "x");
    assert_eq!(root.dirs[0].get_files(), vec!["y.txt".to_string()]);
}

#[test]
fn name_listing_add_file_and_add_dir() {
    let mut d = names::DirEntry::new("top".to_string());
    d.add_file("f".to_string());
    assert_eq!(d.add_dir(names::DirEntry::new("s".to_string())), 0);
    assert_eq!(d.get_files(), vec!["f".to_string()]);
    assert!(d.contains_dir("s".to_string()));
}

#[test]
fn archive_kind_by_extension() {
    assert_eq!(archive_kind("a/b.zip"), Some(ArchiveKind::Zip));
    assert_eq!(archive_kind("b.rar"), Some(ArchiveKind::Rar));
    assert_eq!(archive_kind("b.bzip2"), Some(ArchiveKind::Bzip));
    assert_eq!(archive_kind("b.tar.bz2"), Some(ArchiveKind::Bzip));
    assert_eq!(archive_kind("b.7z"), Some(ArchiveKind::Other));
    assert_eq!(archive_kind("noext"), None);
}

#[test]
fn zip_file_name_appends_extension() {
    assert_eq!(zip_file_name("backup"), "backup.zip");
    assert_eq!(zip_file_name(""), ".zip");
}
