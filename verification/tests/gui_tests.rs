use rzip::cli::{menu_choice, take_file_line, trim_line, vec_contains, wants_gui};
use rzip::gui::{
    default_archive_path, file_type_for_extension, header_row, is_back_button, listing, menu_entries,
    single_selection, ExtractPlan, FileType, Item, Message, Selection, Viewer,
};
use rzip::internal::list_zip;

fn sample() -> rzip::internal::DirEntry {
    let members = vec![
        ("d1/inner/deep.txt".to_string(), 1),
        ("d1/a.txt".to_string(), 22),
        ("d2/b.txt".to_string(), 333),
        ("top.txt".to_string(), 4444),
    ];
    list_zip(members, String::new()).0
}

#[test]
fn file_types_by_extension() {
    assert_eq!(file_type_for_extension("zip"), FileType::Zip);
    assert_eq!(file_type_for_extension("bzip2"), FileType::Bzip);
    assert_eq!(file_type_for_extension("bz2"), FileType::Unsupported);
    assert_eq!(file_type_for_extension("rar"), FileType::Rar);
    assert_eq!(file_type_for_extension("7z"), FileType::Lz);
    assert_eq!(file_type_for_extension("gz"), FileType::Gzip);
    assert_eq!(file_type_for_extension("tar"), FileType::Tar);
    assert_eq!(file_type_for_extension("ZIP"), FileType::Unsupported);
}

#[test]
fn back_button_area() {
    assert!(is_back_button(2, 28));
    assert!(is_back_button(25, 51));
    assert!(!is_back_button(1, 30));
    assert!(!is_back_button(10, 52));
    assert!(!is_back_button(26, 30));
}

#[test]
fn selection_needs_exactly_one_row() {
    assert_eq!(single_selection(&vec![false, true, false]), Some(1));
    assert_eq!(single_selection(&vec![true, true]), None);
    assert_eq!(single_selection(&vec![false, false]), None);
    assert_eq!(single_selection(&Vec::new()), None);
}

#[test]
fn listing_rows_show_folders_then_files_with_sizes() {
    let (items, rows) = listing(&sample());
    assert_eq!(rows, vec!["d1\t-\t", "d2\t-\t", "top.txt\t4444\t"]);
    assert_eq!(items.len(), 3);
    assert!(matches!(&items[0], Item::Dir(d) if d.get_name() == "d1"));
    assert!(matches!(&items[2], Item::File(n) if n == "top.txt"));
    assert_eq!(header_row(), "File\tSize\t");
}

#[test]
fn open_enter_and_go_back() {
    let mut v = Viewer::new();
    assert!(!v.can_go_back());
    let screen = v.open_archive(sample(), "C:\\arch.v1.zip".to_string());
    assert_eq!(screen.path_text, "C:\\arch.v1.zip\\");
    assert_eq!(screen.rows, vec!["d1\t-\t", "d2\t-\t", "top.txt\t4444\t"]);
    assert_eq!(v.current_filetype, FileType::Zip);
    assert_eq!(v.global_filepath, "C:\\arch.v1.zip");
    assert_eq!(v.extract_path, "C:\\arch");
    assert_eq!(v.nav_dirs.len(), 1);

    match v.select(&vec![true, false, false]) {
        Selection::Entered(s) => {
            assert_eq!(s.path_text, "C:\\arch.v1.zip\\d1\\");
            assert_eq!(s.rows, vec!["inner\t-\t", "a.txt\t22\t"]);
        }
        _ => panic!("expected to enter d1"),
    }
    assert_eq!(v.nav_dirs.len(), 2);

    match v.select(&vec![false, true]) {
        Selection::FileClicked(name) => assert_eq!(name, "a.txt"),
        _ => panic!("expected a file"),
    }
    assert!(matches!(v.select(&vec![true, true]), Selection::Nothing));

    assert!(v.can_go_back());
    let back = v.go_back().expect("there is a directory to go back to");
    assert_eq!(back.path_text, "C:\\arch.v1.zip\\");
    assert_eq!(back.rows, vec!["d1\t-\t", "d2\t-\t", "top.txt\t4444\t"]);
    assert_eq!(v.path, "C:\\arch.v1.zip\\");
    assert_eq!(v.nav_dirs.len(), 1);
    assert!(v.go_back().is_none());
    assert_eq!(v.nav_dirs.len(), 1);
}

#[test]
fn extract_plan_follows_the_open_kind() {
    let mut v = Viewer::new();
    assert!(matches!(v.extract_all(), ExtractPlan::NoArchive));
    v.open_archive(sample(), "a.rar".to_string());
    match v.extract_all() {
        ExtractPlan::Rar { archive, suggested } => {
            assert_eq!(archive, "a.rar");
            assert_eq!(suggested, "a");
        }
        _ => panic!("expected rar"),
    }
    v.open_archive(sample(), "b.tar".to_string());
    assert!(matches!(v.extract_all(), ExtractPlan::NotImplemented(FileType::Tar)));
    v.show_archive(sample(), "c.zip".to_string());
    assert_eq!(v.current_filetype, FileType::Tar);
    assert_eq!(v.extract_path, "abc");
}

#[test]
fn back_from_a_second_archive_reaches_the_first() {
    let mut v = Viewer::new();
    v.open_archive(sample(), "a.zip".to_string());
    v.open_archive(sample(), "b.zip".to_string());
    assert_eq!(v.nav_dirs.len(), 2);
    let s = v.go_back().unwrap();
    assert_eq!(s.path_text, "");
    assert_eq!(v.nav_dirs.len(), 1);
}

#[test]
fn menu_bar_entries() {
    let m = menu_entries();
    assert_eq!(m.len(), 6);
    assert_eq!(m[1].label, "&File/Open \t");
    assert_eq!(m[1].ctrl_key, Some('o'));
    assert_eq!(m[1].message, Message::FileOpen);
    assert_eq!(m[4].label, "&Edit/Select all \t");
    assert_eq!(m[4].message, Message::Exit);
}

#[test]
fn default_path_for_new_archive() {
    assert_eq!(
        default_archive_path(Some("C:".to_string()), Some("\\Users\\me".to_string())),
        "C:\\Users\\me\\Documents\\Archive.zip"
    );
    assert_eq!(default_archive_path(None, None), "\\Documents\\Archive.zip");
}

#[test]
fn command_line_helpers() {
    assert!(vec_contains(vec!["a".to_string(), "--nogui".to_string()], "--nogui".to_string()));
    assert!(!vec_contains(Vec::new(), "x".to_string()));
    assert!(!wants_gui(&vec!["prog".to_string(), "--nogui".to_string()]));
    assert!(wants_gui(&vec!["prog".to_string()]));
    assert!(wants_gui(&Vec::new()));
    assert_eq!(menu_choice("a\r\n"), 'a');
    assert_eq!(menu_choice(""), '/');
    assert_eq!(trim_line("file.txt\r\n".to_string()), "file.txt");
    assert_eq!(trim_line("x".to_string()), "x");
    assert_eq!(trim_line("done\n".to_string()), "done");
    assert_eq!(trim_line("done\r\n".to_string()), "done");
    assert_eq!(trim_line("\n".to_string()), "");
    assert_eq!(trim_line("a\rb".to_string()), "a\rb");
    assert_eq!(trim_line(String::new()), "");
}

#[test]
fn naming_files_for_a_new_archive() {
    let mut paths = Vec::new();
    let mut files = Vec::new();
    assert!(!take_file_line("C:\\w", "a.txt".to_string(), &mut paths, &mut files));
    assert!(!take_file_line("C:\\w", String::new(), &mut paths, &mut files));
    assert!(take_file_line("C:\\w", "done".to_string(), &mut paths, &mut files));
    assert_eq!(paths, vec!["C:\\w\\a.txt"]);
    assert_eq!(files, vec!["a.txt"]);
}

fn item_names(v: &Viewer) -> Vec<String> {
    v.items
        .iter()
        .map(|i| match i {
            Item::Dir(d) => d.get_name(),
            Item::File(n) => n.clone(),
        })
        .collect()
}

#[test]
fn rows_on_screen_follow_navigation() {
    let mut v = Viewer::new();
    assert!(v.items.is_empty());
    v.open_archive(sample(), "a.zip".to_string());
    assert_eq!(item_names(&v), vec!["d1", "d2", "top.txt"]);
    v.select(&vec![true, false, false]);
    assert_eq!(item_names(&v), vec!["inner", "a.txt"]);
    v.select(&vec![true, false]);
    assert_eq!(item_names(&v), vec!["deep.txt"]);
    v.go_back().unwrap();
    assert_eq!(item_names(&v), vec!["inner", "a.txt"]);
    v.go_back().unwrap();
    assert_eq!(item_names(&v), vec!["d1", "d2", "top.txt"]);
}
