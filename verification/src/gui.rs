//! The archive browser's decisions: which kind of archive is open, what
//! each listing row shows, and how the browser's state answers a click, a
//! request to go back, an archive being opened and a request to extract.
use vstd::prelude::*;

use crate::internal::{DirEntry, FileModel};
use crate::paths::{
    before_first, chars_of, extension, extension_of, find_last, find_last_before, join_followed,
    last_index_of, lemma_join_split, lemma_last_index, lemma_last_index_bound, prefix_before,
    split_at_char, string_views,
};
use crate::text::{decimal, decimal_string, joined, same_text};
use crate::model::DirModel;

verus! {

/// The kind of archive that is open, by its file extension.
#[derive(Clone, Copy, PartialEq, Eq, Debug, Structural)]
pub enum FileType {
    /// No archive of a kind the browser knows is open.
    Unsupported,
    Zip,
    Rar,
    Lz,
    Gzip,
    Bzip,
    Tar,
}

/// A request from the menu bar.
#[derive(Clone, Copy, PartialEq, Eq, Debug, Structural)]
pub enum Message {
    FileCreateZip,
    FileOpen,
    ExtractAll,
    About,
    Exit,
}

/// A row of the listing: a directory to enter, or a file.
#[derive(Debug)]
pub enum Item {
    Dir(DirEntry),
    File(String),
}

/// What the specifications see of a listing row.
pub enum ItemModel {
    Dir(DirModel<FileModel>),
    File(Seq<char>),
}

impl Item {
    /// What the specifications see of this row.
    pub open spec fn model(self) -> ItemModel {
        match self {
            Item::Dir(d) => ItemModel::Dir(d.model()),
            Item::File(n) => ItemModel::File(n@),
        }
    }
}

/// The models of a sequence of rows.
pub open spec fn item_models(items: Seq<Item>) -> Seq<ItemModel> {
    items.map_values(|i: Item| i.model())
}

/// The archive kind that a file extension names.
pub open spec fn file_type_of_ext(e: Seq<char>) -> FileType {
    if e == "zip"@ {
        FileType::Zip
    } else if e == "bzip2"@ {
        FileType::Bzip
    } else if e == "rar"@ {
        FileType::Rar
    } else if e == "7z"@ {
        FileType::Lz
    } else if e == "gz"@ {
        FileType::Gzip
    } else if e == "tar"@ {
        FileType::Tar
    } else {
        FileType::Unsupported
    }
}

/// The archive kind that the file extension `ext` names.
pub fn file_type_for_extension(ext: &str) -> (r: FileType)
    ensures
        r == file_type_of_ext(ext@),
{
    proof {
        reveal_strlit("zip");
        reveal_strlit("bzip2");
        reveal_strlit("rar");
        reveal_strlit("7z");
        reveal_strlit("gz");
        reveal_strlit("tar");
    }
    if same_text(ext, "zip") {
        FileType::Zip
    } else if same_text(ext, "bzip2") {
        FileType::Bzip
    } else if same_text(ext, "rar") {
        FileType::Rar
    } else if same_text(ext, "7z") {
        FileType::Lz
    } else if same_text(ext, "gz") {
        FileType::Gzip
    } else if same_text(ext, "tar") {
        FileType::Tar
    } else {
        FileType::Unsupported
    }
}

/// Whether a click at `(x, y)` hits the back button.
pub fn is_back_button(x: i32, y: i32) -> (r: bool)
    ensures
        r == (1 < x < 26 && 27 < y < 52),
{
    (x < 26 && x > 1) && (y < 52 && y > 27)
}

/// The text of the listing row for a directory called `name`.
pub open spec fn folder_row(name: Seq<char>) -> Seq<char> {
    name + seq!['\t', '-', '\t']
}

/// The text of the listing row for a file: its name and its size in bytes.
pub open spec fn file_row(f: FileModel) -> Seq<char> {
    f.0 + seq!['\t'] + decimal(f.1 as nat) + seq!['\t']
}

/// The rows shown for a directory: one per subdirectory, then one per
/// file, in order.
pub open spec fn listing_rows(m: DirModel<FileModel>) -> Seq<Seq<char>> {
    m.dirs.map_values(|d: DirModel<FileModel>| folder_row(d.name)) + m.files.map_values(
        |f: FileModel| file_row(f),
    )
}

/// The rows of a directory as things to act on: its subdirectories, then
/// its files by name, in the order of `listing_rows`.
pub open spec fn listing_items(m: DirModel<FileModel>) -> Seq<ItemModel> {
    m.dirs.map_values(|d: DirModel<FileModel>| ItemModel::Dir(d)) + m.files.map_values(
        |f: FileModel| ItemModel::File(f.0),
    )
}

/// A directory's listing shows every entry once, in order: one row per
/// subdirectory, its name then a tab, a dash and a tab, then one row per
/// file, its name, a tab, its size in decimal and a tab; and the row items
/// are the subdirectories, then the files by name, in the same order.
pub proof fn lemma_listing_shows_every_entry(m: DirModel<FileModel>)
    ensures
        listing_rows(m).len() == m.dirs.len() + m.files.len(),
        listing_items(m).len() == m.dirs.len() + m.files.len(),
        forall|j: int| 0 <= j < m.dirs.len() ==> #[trigger] listing_rows(m)[j] == m.dirs[j].name + seq!['\t', '-', '\t'],
        forall|j: int| 0 <= j < m.dirs.len() ==> #[trigger] listing_items(m)[j] == ItemModel::Dir(m.dirs[j]),
        forall|k: int| 0 <= k < m.files.len() ==> #[trigger] listing_rows(m)[m.dirs.len() + k] == m.files[k].0 + seq!['\t']
            + decimal(m.files[k].1 as nat) + seq!['\t'],
        forall|k: int| 0 <= k < m.files.len() ==> #[trigger] listing_items(m)[m.dirs.len() + k] == ItemModel::File(m.files[k].0),
{
    let dn = m.dirs.len();
    assert forall|k: int| 0 <= k < m.files.len() implies #[trigger] listing_rows(m)[dn + k] == m.files[k].0 + seq!['\t']
        + decimal(m.files[k].1 as nat) + seq!['\t'] by {
        assert(listing_rows(m)[dn + k] == m.files.map_values(|f: FileModel| file_row(f))[k]);
    }
    assert forall|k: int| 0 <= k < m.files.len() implies #[trigger] listing_items(m)[dn + k] == ItemModel::File(m.files[k].0) by {
        assert(listing_items(m)[dn + k] == m.files.map_values(|f: FileModel| ItemModel::File(f.0))[k]);
    }
}

/// The header row of every listing.
pub fn header_row() -> (r: String)
    ensures
        r@ == seq!['F', 'i', 'l', 'e', '\t', 'S', 'i', 'z', 'e', '\t'],
{
    let s = "File\tSize\t".to_string();
    proof {
        reveal_strlit("File\tSize\t");
    }
    assert(s@ =~= seq!['F', 'i', 'l', 'e', '\t', 'S', 'i', 'z', 'e', '\t']);
    s
}

/// The rows and the row items for the directory `d`.
pub fn listing(d: &DirEntry) -> (r: (Vec<Item>, Vec<String>))
    ensures
        item_models(r.0@) == listing_items(d.model()),
        string_views(r.1@) == listing_rows(d.model()),
{
    proof {
        d.lemma_model_fields();
        reveal_strlit("\t-\t");
        reveal_strlit("\t");
    }
    let ghost m = d.model();
    let mut items: Vec<Item> = Vec::new();
    let mut rows: Vec<String> = Vec::new();
    let nd = d.dirs.len();
    let mut i: usize = 0;
    while i < nd
        invariant
            nd == d.dirs@.len(),
            m == d.model(),
            m.dirs.len() == nd,
            forall|j: int| 0 <= j < nd ==> #[trigger] m.dirs[j] == d.dirs@[j].model(),
            0 <= i <= nd,
            item_models(items@) =~= m.dirs.take(i as int).map_values(
                |x: DirModel<FileModel>| ItemModel::Dir(x),
            ),
            string_views(rows@) =~= m.dirs.take(i as int).map_values(
                |x: DirModel<FileModel>| folder_row(x.name),
            ),
        decreases nd - i,
    {
        proof {
            reveal_strlit("\t-\t");
        }
        let ghost old_items = item_models(items@);
        let ghost old_rows = string_views(rows@);
        let sub = d.dirs[i].duplicate();
        let name = sub.get_name();
        let row = joined(name.as_str(), "\t-\t");
        assert(row@ =~= folder_row(m.dirs[i as int].name));
        items.push(Item::Dir(sub));
        rows.push(row);
        proof {
            assert(item_models(items@) =~= old_items.push(ItemModel::Dir(m.dirs[i as int])));
            assert(string_views(rows@) =~= old_rows.push(folder_row(m.dirs[i as int].name)));
        }
        i = i + 1;
    }
    let nf = d.files.len();
    let mut k: usize = 0;
    while k < nf
        invariant
            nd == d.dirs@.len(),
            nf == d.files@.len(),
            m == d.model(),
            m.files == tree_file_views(d),
            0 <= k <= nf,
            item_models(items@) =~= m.dirs.map_values(|x: DirModel<FileModel>| ItemModel::Dir(x))
                + m.files.take(k as int).map_values(|f: FileModel| ItemModel::File(f.0)),
            string_views(rows@) =~= m.dirs.map_values(|x: DirModel<FileModel>| folder_row(x.name))
                + m.files.take(k as int).map_values(|f: FileModel| file_row(f)),
        decreases nf - k,
    {
        proof {
            reveal_strlit("\t");
        }
        let ghost old_items = item_models(items@);
        let ghost old_rows = string_views(rows@);
        let name = d.files[k].0.clone();
        let size = d.files[k].1;
        let mut row = joined(name.as_str(), "\t");
        let num = decimal_string(size);
        row.append(num.as_str());
        row.append("\t");
        assert(m.files[k as int] == d.files@[k as int]@);
        assert(row@ =~= file_row(m.files[k as int]));
        items.push(Item::File(name));
        rows.push(row);
        proof {
            assert(item_models(items@) =~= old_items.push(ItemModel::File(m.files[k as int].0)));
            assert(string_views(rows@) =~= old_rows.push(file_row(m.files[k as int])));
        }
        k = k + 1;
    }
    assert(m.files.take(nf as int) =~= m.files);
    (items, rows)
}

/// The file views of a directory's files.
pub open spec fn tree_file_views(d: &DirEntry) -> Seq<FileModel> {
    DirEntry::file_views(d.files@)
}

/// One entry of the menu bar: its label, the letter that with Ctrl
/// chooses it, if any, and the request it sends.
pub struct MenuEntry {
    pub label: String,
    pub ctrl_key: Option<char>,
    pub message: Message,
}

/// A menu entry with the given label, shortcut and request.
fn menu_entry(label: &str, ctrl_key: Option<char>, message: Message) -> (r: MenuEntry)
    ensures
        r.label@ == label@,
        r.ctrl_key == ctrl_key,
        r.message == message,
{
    MenuEntry { label: label.to_string(), ctrl_key, message }
}

/// The entries of the menu bar, in order.
pub fn menu_entries() -> (r: Vec<MenuEntry>)
    ensures
        r@.len() == 6,
        r@[0].label@ == "&File/New Archive/Zip Archive\t"@ && r@[0].ctrl_key is None
            && r@[0].message == Message::FileCreateZip,
        r@[1].label@ == "&File/Open \t"@ && r@[1].ctrl_key == Some('o') && r@[1].message
            == Message::FileOpen,
        r@[2].label@ == "&File/Extract All \t"@ && r@[2].ctrl_key == Some('a') && r@[2].message
            == Message::ExtractAll,
        r@[3].label@ == "&File/Exit \t"@ && r@[3].ctrl_key == Some('e') && r@[3].message
            == Message::Exit,
        r@[4].label@ == "&Edit/Select all \t"@ && r@[4].ctrl_key is None && r@[4].message
            == Message::Exit,
        r@[5].label@ == "&Help/About rzip \t"@ && r@[5].ctrl_key is None && r@[5].message
            == Message::About,
{
    let mut r: Vec<MenuEntry> = Vec::new();
    r.push(menu_entry("&File/New Archive/Zip Archive\t", None, Message::FileCreateZip));
    r.push(menu_entry("&File/Open \t", Some('o'), Message::FileOpen));
    r.push(menu_entry("&File/Extract All \t", Some('a'), Message::ExtractAll));
    r.push(menu_entry("&File/Exit \t", Some('e'), Message::Exit));
    r.push(menu_entry("&Edit/Select all \t", None, Message::Exit));
    r.push(menu_entry("&Help/About rzip \t", None, Message::About));
    r
}

/// The characters of an optional string, none when it is absent.
pub open spec fn opt_text(s: Option<String>) -> Seq<char> {
    match s {
        Some(t) => t@,
        None => Seq::empty(),
    }
}

/// The path offered for a new archive: the home drive and the home path,
/// each where it is known, then `\\Documents\\Archive.zip`.
pub fn default_archive_path(drive: Option<String>, home: Option<String>) -> (r: String)
    ensures
        r@ == opt_text(drive) + opt_text(home) + "\\Documents\\Archive.zip"@,
{
    let mut p = String::new();
    if let Some(d) = &drive {
        p.append(d.as_str());
    }
    if let Some(h) = &home {
        p.append(h.as_str());
    }
    p.append("\\Documents\\Archive.zip");
    assert(p@ =~= opt_text(drive) + opt_text(home) + "\\Documents\\Archive.zip"@);
    p
}

/// The number of `true`s in `s`.
pub open spec fn count_true(s: Seq<bool>) -> nat
    decreases s.len(),
{
    if s.len() == 0 {
        0
    } else {
        count_true(s.drop_last()) + if s.last() { 1nat } else { 0nat }
    }
}

/// The position of the first `true` in `s`, or -1.
pub open spec fn first_true(s: Seq<bool>) -> int
    decreases s.len(),
{
    if s.len() == 0 {
        -1
    } else if s[0] {
        0
    } else if first_true(s.drop_first()) < 0 {
        -1
    } else {
        first_true(s.drop_first()) + 1
    }
}

/// The selected row when exactly one row is selected.
pub open spec fn single_index(s: Seq<bool>) -> Option<int> {
    if count_true(s) == 1 {
        Some(first_true(s))
    } else {
        None
    }
}

proof fn lemma_first_true(s: Seq<bool>)
    ensures
        -1 <= first_true(s) < s.len(),
        first_true(s) >= 0 ==> s[first_true(s)],
        forall|j: int| 0 <= j < s.len() && (first_true(s) < 0 || j < first_true(s)) ==> !s[j],
    decreases s.len(),
{
    if s.len() > 0 && !s[0] {
        lemma_first_true(s.drop_first());
        assert forall|j: int| 0 <= j < s.len() && (first_true(s) < 0 || j < first_true(s)) implies !s[j] by {
            if j > 0 {
                assert(s[j] == s.drop_first()[j - 1]);
            }
        }
    }
}

/// The row that is selected when exactly one of the rows, whose selection
/// flags are `flags`, is selected.
pub fn single_selection(flags: &Vec<bool>) -> (r: Option<usize>)
    ensures
        r matches Some(i) ==> single_index(flags@) == Some(i as int) && i < flags@.len(),
        r is None ==> single_index(flags@) is None,
{
    let n = flags.len();
    let mut total: usize = 0;
    let mut i: usize = 0;
    while i < n
        invariant
            n == flags@.len(),
            0 <= i <= n,
            total == count_true(flags@.take(i as int)),
            total <= i,
        decreases n - i,
    {
        proof {
            assert(flags@.take(i + 1).drop_last() =~= flags@.take(i as int));
        }
        if flags[i] {
            total = total + 1;
        }
        i = i + 1;
    }
    assert(flags@.take(n as int) =~= flags@);
    if total != 1 {
        return None;
    }
    proof { lemma_first_true(flags@); }
    let mut k: usize = 0;
    while k < n
        invariant
            n == flags@.len(),
            0 <= k <= n,
            forall|j: int| 0 <= j < k ==> !flags@[j],
            count_true(flags@) == 1,
            -1 <= first_true(flags@) < n,
            first_true(flags@) >= 0 ==> flags@[first_true(flags@)],
            forall|j: int| 0 <= j < n && (first_true(flags@) < 0 || j < first_true(flags@)) ==> !flags@[j],
        decreases n - k,
    {
        if flags[k] {
            return Some(k);
        }
        k = k + 1;
    }
    proof {
        lemma_count_none(flags@);
    }
    None
}

proof fn lemma_count_none(s: Seq<bool>)
    requires
        forall|j: int| 0 <= j < s.len() ==> !s[j],
    ensures
        count_true(s) == 0,
    decreases s.len(),
{
    if s.len() > 0 {
        lemma_count_none(s.drop_last());
    }
}

/// The path shown after going back: everything up to and including the
/// second-to-last `\`, or nothing when there is only one `\`.
pub open spec fn back_path(p: Seq<char>) -> Seq<char> {
    let j = last_index_of(p, '\\');
    let i = last_index_of(p.take(j), '\\');
    if i < 0 {
        Seq::empty()
    } else {
        p.take(i + 1)
    }
}

/// Going back keeps the pieces of the path between `\\`s but the last two,
/// each followed by its `\\`: for a path that ends in `\\`, everything but
/// the innermost directory.
pub proof fn lemma_back_path_drops_two_pieces(p: Seq<char>)
    requires
        last_index_of(p, '\\') >= 0,
    ensures
        split_at_char(p, '\\').len() >= 2,
        back_path(p) == join_followed(
            split_at_char(p, '\\').take(split_at_char(p, '\\').len() - 2),
            '\\',
        ),
{
    let c = '\\';
    let j = last_index_of(p, c);
    lemma_last_index_bound(p, c);
    let t = p.take(j);
    let parts = split_at_char(p, c);
    assert(parts.drop_last() == split_at_char(t, c));
    let i = last_index_of(t, c);
    lemma_last_index_bound(t, c);
    let tp = split_at_char(t, c);
    if i < 0 {
        assert(tp =~= seq![t]);
        assert(parts.take(parts.len() - 2) =~= Seq::<Seq<char>>::empty());
        assert(join_followed(Seq::<Seq<char>>::empty(), c) =~= Seq::<char>::empty());
    } else {
        assert(tp.drop_last() == split_at_char(t.take(i), c));
        assert(parts.take(parts.len() - 2) =~= split_at_char(t.take(i), c));
        lemma_join_split(t.take(i), c);
        assert(p.take(i + 1) =~= t.take(i) + seq![c]);
    }
}

/// What the window shows: the path text and the listing rows below the
/// header.
pub struct Screen {
    pub path_text: String,
    pub rows: Vec<String>,
}

/// The outcome of a click on the listing.
pub enum Selection {
    /// No single row is selected.
    Nothing,
    /// A directory row was selected and is now shown.
    Entered(Screen),
    /// A file row was selected.
    FileClicked(String),
}

/// What extracting everything asks for, by the kind of archive open.
pub enum ExtractPlan {
    /// Extract the zip archive at `archive`, offering `suggested` as the
    /// destination.
    Zip { archive: String, suggested: String },
    /// Extract the rar archive at `archive`, offering `suggested` as the
    /// destination.
    Rar { archive: String, suggested: String },
    /// The open archive is of a kind that is recognised but not extracted.
    NotImplemented(FileType),
    /// No archive of a supported kind is open.
    NoArchive,
}

/// The state of the archive browser: the stack of directories navigated
/// into, the rows on screen, the path shown, the destination offered for
/// extraction, the path of the open archive and its kind.
pub struct Viewer {
    pub nav_dirs: Vec<DirEntry>,
    pub items: Vec<Item>,
    pub path: String,
    pub extract_path: String,
    pub global_filepath: String,
    pub current_filetype: FileType,
}

impl Viewer {
    /// The models of the directories navigated into, outermost first.
    pub open spec fn nav_models(self) -> Seq<DirModel<FileModel>> {
        DirEntry::models(self.nav_dirs@)
    }

    /// Whether going back is defined: something is open, and when there is
    /// a directory to go back to, the path has a `\\` to cut at.
    pub open spec fn back_defined(self) -> bool {
        &&& self.nav_dirs@.len() != 0
        &&& self.nav_dirs@.len() != 1 ==> last_index_of(self.path@, '\\') >= 0
    }

    /// Whether the rows on screen are those of the directory navigated into
    /// last; before anything is opened, there are none.
    pub open spec fn rows_follow_navigation(self) -> bool {
        if self.nav_dirs@.len() == 0 {
            self.items@.len() == 0
        } else {
            item_models(self.items@) == listing_items(self.nav_models().last())
        }
    }

    /// The browser before anything is opened.
    pub fn new() -> (r: Viewer)
        ensures
            r.rows_follow_navigation(),
            r.nav_dirs@.len() == 0,
            r.items@.len() == 0,
            r.path@.len() == 0,
            r.extract_path@.len() == 0,
            r.global_filepath@.len() == 0,
            r.current_filetype == FileType::Unsupported,
    {
        Viewer {
            nav_dirs: Vec::new(),
            items: Vec::new(),
            path: String::new(),
            extract_path: String::new(),
            global_filepath: String::new(),
            current_filetype: FileType::Unsupported,
        }
    }

    /// Whether going back is defined in this state.
    pub fn can_go_back(&self) -> (r: bool)
        ensures
            r == self.back_defined(),
    {
        if self.nav_dirs.len() == 0 {
            return false;
        }
        if self.nav_dirs.len() == 1 {
            return true;
        }
        let v = chars_of(self.path.as_str());
        find_last(&v, '\\').is_some()
    }

    /// Goes back to the directory navigated from: with a directory to go
    /// back to, shows it, cuts the last directory off the path and drops
    /// the innermost directory; at the top, changes nothing.
    pub fn go_back(&mut self) -> (r: Option<Screen>)
        requires
            old(self).back_defined(),
        ensures
            old(self).nav_dirs@.len() == 1 ==> r is None && *final(self) == *old(self),
            old(self).nav_dirs@.len() >= 2 ==> {
                let prev = old(self).nav_models()[old(self).nav_dirs@.len() - 2];
                &&& went_back(*old(self), *final(self))
                &&& final(self).path@ == back_path(old(self).path@)
                &&& final(self).extract_path == old(self).extract_path
                &&& final(self).global_filepath == old(self).global_filepath
                &&& final(self).current_filetype == old(self).current_filetype
                &&& r matches Some(s) && s.path_text@ == final(self).path@ && string_views(s.rows@)
                    == listing_rows(prev)
            },
    {
        let n = self.nav_dirs.len();
        if n == 1 {
            return None;
        }
        proof {
            DirEntry::lemma_models(self.nav_dirs@);
        }
        let (items, rows) = listing(&self.nav_dirs[n - 2]);
        let v = chars_of(self.path.as_str());
        let j = find_last(&v, '\\').unwrap();
        proof { lemma_last_index_bound(self.path@, '\\'); }
        let new_path = match find_last_before(&v, '\\', j) {
            Some(i) => {
                proof { lemma_last_index_bound(self.path@.take(j as int), '\\'); }
                let t = self.path.as_str().substring_char(0, i + 1).to_string();
                assert(t@ =~= self.path@.take(i + 1));
                t
            },
            None => {
                let t = String::new();
                assert(t@ =~= Seq::<char>::empty());
                t
            },
        };
        let ghost old_nav = self.nav_dirs@;
        self.path = new_path;
        self.items = items;
        self.nav_dirs.pop();
        proof {
            DirEntry::lemma_models(self.nav_dirs@);
            DirEntry::lemma_models(old_nav);
            assert(self.nav_models() =~= DirEntry::models(old_nav).drop_last());
        }
        let text = self.path.clone();
        Some(Screen { path_text: text, rows })
    }

    /// Acts on a click on the listing whose rows have the selection flags
    /// `flags`, which must not single out a row without an item: when
    /// exactly one row is selected and it is a directory,
    /// enters it, appending its name and a `\\` to the path and showing it;
    /// when it is a file, reports its name; otherwise does nothing.
    pub fn select(&mut self, flags: &Vec<bool>) -> (r: Selection)
        requires
            single_index(flags@) matches Some(i) ==> i < old(self).items@.len(),
        ensures
            single_index(flags@) is None ==> r is Nothing && *final(self) == *old(self),
            single_index(flags@) matches Some(i) ==> match item_models(old(self).items@)[i] {
                ItemModel::Dir(m) => {
                    &&& entered(*old(self), *final(self), m)
                    &&& final(self).path@ == old(self).path@ + m.name + seq!['\\']
                    &&& final(self).extract_path == old(self).extract_path
                    &&& final(self).global_filepath == old(self).global_filepath
                    &&& final(self).current_filetype == old(self).current_filetype
                    &&& r matches Selection::Entered(s) && s.path_text@ == final(self).path@
                        && string_views(s.rows@) == listing_rows(m)
                },
                ItemModel::File(n) => r matches Selection::FileClicked(x) && x@ == n && *final(self)
                    == *old(self),
            },
    {
        let i = match single_selection(flags) {
            None => {
                return Selection::Nothing;
            },
            Some(i) => i,
        };
        assert(item_models(self.items@)[i as int] == self.items@[i as int].model());
        let picked = match &self.items[i] {
            Item::Dir(d) => Ok(d.duplicate()),
            Item::File(n) => Err(n.clone()),
        };
        match picked {
            Err(name) => Selection::FileClicked(name),
            Ok(dir) => {
                let (items, rows) = listing(&dir);
                let name = dir.get_name();
                let ghost old_path = self.path@;
                let ghost old_nav = self.nav_dirs@;
                proof {
                    reveal_strlit("\\");
                }
                self.path.append(name.as_str());
                self.path.append("\\");
                self.items = items;
                let ghost m = dir.model();
                self.nav_dirs.push(dir);
                proof {
                    assert(self.path@ =~= old_path + m.name + seq!['\\']);
                    assert(self.nav_dirs@.drop_last() =~= old_nav);
                }
                let text = self.path.clone();
                Selection::Entered(Screen { path_text: text, rows })
            },
        }
    }

    /// Shows the archive at `filepath`, whose listing is `files`: it
    /// becomes the open archive, the path shown is `filepath` with a `\\`
    /// after it, the part of that before its first `.` is appended to the
    /// destination offered for extraction, and its top directory is pushed
    /// onto the directories navigated into and listed.
    pub fn show_archive(&mut self, files: DirEntry, filepath: String) -> (r: Screen)
        ensures
            final(self).global_filepath == filepath,
            final(self).path@ == filepath@ + seq!['\\'],
            final(self).extract_path@ == old(self).extract_path@ + before_first(
                filepath@ + seq!['\\'],
                '.',
            ),
            entered(*old(self), *final(self), files.model()),
            final(self).current_filetype == old(self).current_filetype,
            r.path_text@ == final(self).path@,
            string_views(r.rows@) == listing_rows(files.model()),
    {
        proof {
            reveal_strlit("\\");
        }
        let shown = joined(filepath.as_str(), "\\");
        assert(shown@ =~= filepath@ + seq!['\\']);
        let prefix = prefix_before(shown.as_str(), '.');
        let ghost old_extract = self.extract_path@;
        self.extract_path.append(prefix.as_str());
        assert(self.extract_path@ == old_extract + before_first(filepath@ + seq!['\\'], '.'));
        self.global_filepath = filepath;
        let (items, rows) = listing(&files);
        self.items = items;
        let ghost old_nav = self.nav_dirs@;
        self.nav_dirs.push(files);
        proof {
            assert(self.nav_dirs@.drop_last() =~= old_nav);
        }
        self.path = shown;
        let text = self.path.clone();
        Screen { path_text: text, rows }
    }

    /// Opens the archive at `filepath`, whose listing is `files`: as
    /// `show_archive`, and its kind becomes the one its extension names.
    pub fn open_archive(&mut self, files: DirEntry, filepath: String) -> (r: Screen)
        requires
            extension_of(filepath@) is Some,
        ensures
            final(self).global_filepath == filepath,
            final(self).path@ == filepath@ + seq!['\\'],
            final(self).extract_path@ == old(self).extract_path@ + before_first(
                filepath@ + seq!['\\'],
                '.',
            ),
            entered(*old(self), *final(self), files.model()),
            final(self).current_filetype == file_type_of_ext(extension_of(filepath@)->0),
            r.path_text@ == final(self).path@,
            string_views(r.rows@) == listing_rows(files.model()),
    {
        let ext = extension(filepath.as_str()).unwrap();
        let kind = file_type_for_extension(ext.as_str());
        let r = self.show_archive(files, filepath);
        self.current_filetype = kind;
        r
    }

    /// What extracting everything asks for: for a zip or rar archive, its
    /// path and the destination to offer; for another recognised kind,
    /// that kind; with nothing supported open, nothing.
    pub fn extract_all(&self) -> (r: ExtractPlan)
        ensures
            self.current_filetype == FileType::Zip ==> (r matches ExtractPlan::Zip { archive, suggested }
                && archive == self.global_filepath && suggested == self.extract_path),
            self.current_filetype == FileType::Rar ==> (r matches ExtractPlan::Rar { archive, suggested }
                && archive == self.global_filepath && suggested == self.extract_path),
            self.current_filetype == FileType::Unsupported ==> r is NoArchive,
            self.current_filetype != FileType::Zip && self.current_filetype != FileType::Rar
                && self.current_filetype != FileType::Unsupported ==> r == ExtractPlan::NotImplemented(
                self.current_filetype,
            ),
    {
        match self.current_filetype {
            FileType::Zip => ExtractPlan::Zip {
                archive: self.global_filepath.clone(),
                suggested: self.extract_path.clone(),
            },
            FileType::Rar => ExtractPlan::Rar {
                archive: self.global_filepath.clone(),
                suggested: self.extract_path.clone(),
            },
            FileType::Unsupported => ExtractPlan::NoArchive,
            other => ExtractPlan::NotImplemented(other),
        }
    }
}

/// `w` is `v` after going back one directory: the innermost directory
/// navigated into is dropped and the one before it is listed.
pub open spec fn went_back(v: Viewer, w: Viewer) -> bool {
    &&& v.nav_dirs@.len() >= 2
    &&& w.nav_models() == v.nav_models().drop_last()
    &&& item_models(w.items@) == listing_items(v.nav_models()[v.nav_dirs@.len() - 2])
}

/// `w` is `v` after entering the directory `m`, a subdirectory or the top
/// of an archive just opened: it is pushed onto the directories navigated
/// into and listed.
pub open spec fn entered(v: Viewer, w: Viewer, m: DirModel<FileModel>) -> bool {
    &&& w.nav_models() == v.nav_models().push(m)
    &&& item_models(w.items@) == listing_items(m)
}

/// The rows on screen are always those of the directory navigated into
/// last: the browser starts with nothing navigated into and no rows, and
/// each event that changes what is navigated (going back, entering a
/// directory, opening an archive) leaves the rows of the innermost
/// directory on screen, whatever was shown before; every other event
/// leaves the state as it was.
pub proof fn lemma_rows_follow_navigation(v: Viewer, w: Viewer, m: DirModel<FileModel>)
    ensures
        went_back(v, w) ==> w.rows_follow_navigation(),
        entered(v, w, m) ==> w.rows_follow_navigation(),
{
    DirEntry::lemma_models(v.nav_dirs@);
    DirEntry::lemma_models(w.nav_dirs@);
}

/// Whether `w` follows `v` by one event of the browser: going back,
/// entering the directory `m` (a subdirectory, or the top of an archive
/// opened), or an event that leaves the state as it was. The contracts of
/// `go_back`, `select`, `show_archive`, `open_archive` and `extract_all`
/// each give one of these.
pub open spec fn browser_step(v: Viewer, w: Viewer, m: DirModel<FileModel>) -> bool {
    ||| went_back(v, w)
    ||| entered(v, w, m)
    ||| w == v
}

/// In every state that the browser reaches by its events from the state
/// it starts in, with nothing navigated into and no rows, the rows on
/// screen are those of the directory navigated into last. `states` are
/// the states in turn, and `dirs[k]` the directory entered between
/// `states[k]` and `states[k + 1]`, if one is.
pub proof fn lemma_rows_follow_navigation_always(states: Seq<Viewer>, dirs: Seq<DirModel<FileModel>>)
    requires
        states.len() == dirs.len() + 1,
        states[0].nav_dirs@.len() == 0,
        states[0].items@.len() == 0,
        forall|k: int| 0 <= k < dirs.len() ==> #[trigger] browser_step(states[k], states[k + 1], dirs[k]),
    ensures
        forall|k: int| 0 <= k < states.len() ==> #[trigger] states[k].rows_follow_navigation(),
    decreases states.len(),
{
    if dirs.len() > 0 {
        let ss = states.drop_last();
        let ds = dirs.drop_last();
        assert forall|k: int| 0 <= k < ds.len() implies #[trigger] browser_step(ss[k], ss[k + 1], ds[k]) by {
            assert(browser_step(states[k], states[k + 1], dirs[k]));
        }
        lemma_rows_follow_navigation_always(ss, ds);
        let last = dirs.len() - 1;
        assert(ss[last].rows_follow_navigation());
        assert(browser_step(states[last], states[last + 1], dirs[last]));
        lemma_rows_follow_navigation(states[last], states[last + 1], dirs[last]);
        assert forall|k: int| 0 <= k < states.len() implies #[trigger] states[k].rows_follow_navigation() by {
            if k < ss.len() {
                assert(ss[k] == states[k]);
            }
        }
    }
}

/// Going back undoes entering a directory: from a path that is empty or
/// ends in `\\`, entering a directory whose name has no `\\` and going back
/// shows the same path again, and the directories navigated into are those
/// before entering, the innermost of them shown again.
pub proof fn lemma_back_undoes_enter(
    p: Seq<char>,
    nav: Seq<DirModel<FileModel>>,
    m: DirModel<FileModel>,
)
    requires
        p.len() == 0 || p.last() == '\\',
        !m.name.contains('\\'),
        nav.len() >= 1,
    ensures
        back_path(p + m.name + seq!['\\']) == p,
        nav.push(m).drop_last() == nav,
        nav.push(m)[nav.push(m).len() - 2] == nav.last(),
{
    let q = p + m.name + seq!['\\'];
    lemma_last_index(q, '\\', q.len() - 1);
    let t = q.take(q.len() - 1);
    assert(t =~= p + m.name);
    assert forall|j: int| p.len() <= j < t.len() implies t[j] != '\\' by {
        assert(t[j] == m.name[j - p.len()]);
    }
    if p.len() == 0 {
        lemma_last_index(t, '\\', -1);
    } else {
        lemma_last_index(t, '\\', p.len() - 1);
        assert(q.take(p.len() as int) =~= p);
    }
    assert(nav.push(m).drop_last() =~= nav);
}

} // verus!
