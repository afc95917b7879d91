//! The decisions of the command-line mode: whether to run the window, what
//! a typed line chooses, and how typed file names are collected.
use vstd::prelude::*;

use crate::text::{joined, same_text};
use vstd::string::StringSliceAdditionalSpecFns;

verus! {

/// Whether some string of `vec` has the same characters as `find`.
pub fn vec_contains(vec: Vec<String>, find: String) -> (r: bool)
    ensures
        r == exists|i: int| 0 <= i < vec@.len() && vec@[i]@ == find@,
{
    let n = vec.len();
    let mut i: usize = 0;
    while i < n
        invariant
            n == vec@.len(),
            0 <= i <= n,
            forall|j: int| 0 <= j < i ==> vec@[j]@ != find@,
        decreases n - i,
    {
        if vec[i] == find {
            return true;
        }
        i = i + 1;
    }
    false
}

/// Whether the program runs its window, given its command-line arguments:
/// always, unless one of them is `--nogui`.
pub fn wants_gui(args: &Vec<String>) -> (r: bool)
    ensures
        r == (args@.len() == 0 || !(exists|i: int| 0 <= i < args@.len() && args@[i]@ == "--nogui"@)),
{
    if args.len() == 0 {
        return true;
    }
    let flag = "--nogui".to_string();
    let mut copy: Vec<String> = Vec::new();
    let n = args.len();
    let mut i: usize = 0;
    while i < n
        invariant
            n == args@.len(),
            0 <= i <= n,
            copy@.len() == i,
            forall|j: int| 0 <= j < i ==> copy@[j] == args@[j],
        decreases n - i,
    {
        copy.push(args[i].clone());
        i = i + 1;
    }
    let found = vec_contains(copy, flag);
    proof {
        if found {
            let k = choose|k: int| 0 <= k < copy@.len() && copy@[k]@ == flag@;
            assert(args@[k]@ == "--nogui"@);
        }
    }
    !found
}

/// The menu choice typed on a line: its first byte, or `/` for an empty
/// line.
pub fn menu_choice(line: &str) -> (r: char)
    ensures
        line.spec_bytes().len() == 0 ==> r == '/',
        line.spec_bytes().len() > 0 ==> r == line.spec_bytes()[0] as char,
{
    let b = line.as_bytes();
    if b.len() == 0 {
        '/'
    } else {
        b[0] as char
    }
}

/// A typed line without its line end: a final `\r\n` or `\n`.
pub open spec fn without_line_end(s: Seq<char>) -> Seq<char> {
    if s.len() >= 2 && s[s.len() - 2] == '\r' && s[s.len() - 1] == '\n' {
        s.take(s.len() - 2)
    } else if s.len() >= 1 && s[s.len() - 1] == '\n' {
        s.take(s.len() - 1)
    } else {
        s
    }
}

/// A typed line with its line end, `\r\n` or `\n`, removed; a line
/// without one is kept whole.
pub fn trim_line(buf: String) -> (r: String)
    ensures
        r@ == without_line_end(buf@),
{
    let n = buf.unicode_len();
    if n >= 2 && buf.as_str().get_char(n - 2) == '\r' && buf.as_str().get_char(n - 1) == '\n' {
        buf.as_str().substring_char(0, n - 2).to_string()
    } else if n >= 1 && buf.as_str().get_char(n - 1) == '\n' {
        buf.as_str().substring_char(0, n - 1).to_string()
    } else {
        buf
    }
}

/// Takes one line typed while naming the files to put in a new archive:
/// `done` ends the list; any other nonempty line names a file of the
/// directory `cwd`, whose path (`cwd`, a `\\`, the line) and name (the line)
/// are appended; an empty line is skipped. Returns whether the list ended.
pub fn take_file_line(cwd: &str, line: String, filepaths: &mut Vec<String>, files: &mut Vec<String>) -> (r: bool)
    ensures
        r == (line@ == "done"@),
        r || line@.len() == 0 ==> final(filepaths)@ == old(filepaths)@ && final(files)@ == old(files)@,
        !r && line@.len() > 0 ==> {
            &&& final(filepaths)@.len() == old(filepaths)@.len() + 1
            &&& final(filepaths)@.drop_last() == old(filepaths)@
            &&& final(filepaths)@.last()@ == cwd@ + seq!['\\'] + line@
            &&& final(files)@ == old(files)@.push(line)
        },
{
    if same_text(line.as_str(), "done") {
        return true;
    }
    if line.unicode_len() == 0 {
        return false;
    }
    proof {
        reveal_strlit("\\");
    }
    let mut path = joined(cwd, "\\");
    path.append(line.as_str());
    let ghost old_paths = filepaths@;
    filepaths.push(path);
    files.push(line);
    assert(filepaths@.drop_last() =~= old_paths);
    false
}

} // verus!
