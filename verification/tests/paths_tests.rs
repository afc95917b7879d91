use rzip::events::has_dir;
use rzip::paths::{extension, file_name, file_stem, path_components, prefix_before};
use rzip::text::decimal_string;

fn comps(s: &str) -> Vec<String> {
    path_components(s)
}

#[test]
fn components_of_nested_member() {
    assert_eq!(comps("a/b/c.txt"), vec!["a", "b", "c.txt"]);
}

#[test]
fn components_skip_empty_and_dot_pieces() {
    assert_eq!(comps("/x//y/./z/"), vec!["/", "x", "y", "z"]);
    assert_eq!(comps("a/./b/."), vec!["a", "b"]);
}

#[test]
fn components_keep_leading_dot_and_parent() {
    assert_eq!(comps("./a"), vec![".", "a"]);
    assert_eq!(comps("."), vec!["."]);
    assert_eq!(comps("a/../b"), vec!["a", "..", "b"]);
    assert_eq!(comps(".a/b"), vec![".a", "b"]);
}

#[test]
fn components_of_empty_and_directory_names() {
    assert!(comps("").is_empty());
    assert_eq!(comps("dir/"), vec!["dir"]);
}

#[test]
fn extension_of_paths() {
    assert_eq!(extension("a/b.zip"), Some("zip".to_string()));
    assert_eq!(extension("a.tar.gz"), Some("gz".to_string()));
    assert_eq!(extension("foo."), Some("".to_string()));
    assert_eq!(extension(".bashrc"), None);
    assert_eq!(extension("noext"), None);
    assert_eq!(extension("dir.d/"), Some("d".to_string()));
    assert_eq!(extension(".."), None);
    assert_eq!(extension("/"), None);
}

#[test]
fn file_name_and_stem_of_paths() {
    assert_eq!(file_name("x/archive.zip"), Some("archive.zip".to_string()));
    assert_eq!(file_name("x/.."), None);
    assert_eq!(file_stem("x/archive.zip"), Some("archive".to_string()));
    assert_eq!(file_stem("x/.bashrc"), Some(".bashrc".to_string()));
    assert_eq!(file_stem("a.b.c"), Some("a.b".to_string()));
    assert_eq!(file_stem(""), None);
}

#[test]
fn prefix_before_first_dot() {
    assert_eq!(prefix_before("C:\\dir\\a.zip\\", '.'), "C:\\dir\\a");
    assert_eq!(prefix_before("nodot\\", '.'), "nodot\\");
    assert_eq!(prefix_before(".x", '.'), "");
}

#[test]
fn has_dir_finds_a_slash() {
    assert!(has_dir("a/b".to_string()));
    assert!(!has_dir("a\\b".to_string()));
    assert!(!has_dir(String::new()));
}

#[test]
fn decimal_numerals() {
    assert_eq!(decimal_string(0), "0");
    assert_eq!(decimal_string(7), "7");
    assert_eq!(decimal_string(1234567890), "1234567890");
    assert_eq!(decimal_string(u64::MAX), u64::MAX.to_string());
}
