//! Splitting `/`-separated paths: their components, the file they name,
//! its stem and extension, and the pieces around a character.
//!
//! Paths are read the way std's `Path` reads them on Unix: only `/`
//! separates components, and no path has a prefix. On Windows `Path` also
//! separates components at `\` and reads a prefix such as `C:`; these
//! functions do not, so there they split a path as they would on Unix.
use vstd::prelude::*;

verus! {

/// The position of the last `c` in `s`, or -1 when `s` holds none.
pub open spec fn last_index_of(s: Seq<char>, c: char) -> int
    decreases s.len(),
{
    if s.len() == 0 {
        -1
    } else if s.last() == c {
        s.len() - 1
    } else {
        last_index_of(s.drop_last(), c)
    }
}

/// The position of the first `c` in `s`, or -1 when `s` holds none.
pub open spec fn first_index_of(s: Seq<char>, c: char) -> int
    decreases s.len(),
{
    if s.len() == 0 {
        -1
    } else if s[0] == c {
        0
    } else if first_index_of(s.drop_first(), c) < 0 {
        -1
    } else {
        first_index_of(s.drop_first(), c) + 1
    }
}

/// `s` cut at every `c`: one more piece than there are `c`s, empty pieces
/// included.
pub open spec fn split_at_char(s: Seq<char>, c: char) -> Seq<Seq<char>>
    decreases s.len(),
{
    let j = last_index_of(s, c);
    if j < 0 {
        seq![s]
    } else {
        proof {
            lemma_last_index_bound(s, c);
        }
        split_at_char(s.take(j), c).push(s.skip(j + 1))
    }
}

/// `last_index_of` is -1 or a position of `c` in `s`.
pub proof fn lemma_last_index_bound(s: Seq<char>, c: char)
    ensures
        -1 <= last_index_of(s, c) < s.len(),
        last_index_of(s, c) >= 0 ==> s[last_index_of(s, c)] == c,
        forall|m: int| last_index_of(s, c) < m < s.len() ==> s[m] != c,
    decreases s.len(),
{
    if s.len() > 0 && s.last() != c {
        lemma_last_index_bound(s.drop_last(), c);
        assert forall|m: int| last_index_of(s, c) < m < s.len() implies s[m] != c by {
            if m < s.len() - 1 {
                assert(s[m] == s.drop_last()[m]);
            }
        }
    }
}

/// The pieces `parts`, each followed by `c`, one after the other.
pub open spec fn join_followed(parts: Seq<Seq<char>>, c: char) -> Seq<char>
    decreases parts.len(),
{
    if parts.len() == 0 {
        Seq::empty()
    } else {
        join_followed(parts.drop_last(), c) + parts.last() + seq![c]
    }
}

/// The pieces of `s` cut at `c`, each followed by `c`, give `s` followed
/// by `c`.
pub proof fn lemma_join_split(s: Seq<char>, c: char)
    ensures
        join_followed(split_at_char(s, c), c) == s + seq![c],
    decreases s.len(),
{
    let j = last_index_of(s, c);
    lemma_last_index_bound(s, c);
    if j < 0 {
        let p = split_at_char(s, c);
        assert(p.drop_last() =~= Seq::<Seq<char>>::empty());
        assert(join_followed(p.drop_last(), c) =~= Seq::<char>::empty());
        assert(join_followed(p, c) =~= s + seq![c]);
    } else {
        lemma_join_split(s.take(j), c);
        let p = split_at_char(s, c);
        assert(p.drop_last() =~= split_at_char(s.take(j), c));
        assert(s =~= s.take(j) + seq![c] + s.skip(j + 1));
        assert(join_followed(p, c) =~= s + seq![c]);
    }
}

/// A piece between separators that names something: neither empty nor `.`.
pub open spec fn is_named_segment(x: Seq<char>) -> bool {
    x.len() > 0 && x != seq!['.']
}

/// The pieces that name something, in order.
pub open spec fn named_segments(segs: Seq<Seq<char>>) -> Seq<Seq<char>>
    decreases segs.len(),
{
    if segs.len() == 0 {
        Seq::empty()
    } else if is_named_segment(segs.last()) {
        named_segments(segs.drop_last()).push(segs.last())
    } else {
        named_segments(segs.drop_last())
    }
}

/// The component that a path's start contributes: `/` for a path from the
/// root, `.` for a relative path that starts with the current directory.
pub open spec fn lead_component(s: Seq<char>) -> Seq<Seq<char>> {
    if s.len() > 0 && s[0] == '/' {
        seq![seq!['/']]
    } else if s =~= seq!['.'] || (s.len() >= 2 && s[0] == '.' && s[1] == '/') {
        seq![seq!['.']]
    } else {
        Seq::empty()
    }
}

/// The components of a `/`-separated path: the leading `/` or `.` where
/// there is one, then every piece between separators except empty pieces
/// and `.`, in order. As on Unix, `\` is no separator and no prefix such
/// as `C:` is read: `C:\d\f.txt` is a single component.
pub open spec fn components(s: Seq<char>) -> Seq<Seq<char>> {
    lead_component(s) + named_segments(split_at_char(s, '/'))
}

/// The views of a sequence of strings.
pub open spec fn string_views(s: Seq<String>) -> Seq<Seq<char>> {
    s.map_values(|x: String| x@)
}

/// No piece of `s` cut at `c` holds `c`.
pub proof fn lemma_split_pieces(s: Seq<char>, c: char)
    ensures
        forall|k: int| 0 <= k < split_at_char(s, c).len() ==> !(#[trigger] split_at_char(s, c)[k]).contains(c),
    decreases s.len(),
{
    let j = last_index_of(s, c);
    lemma_last_index_bound(s, c);
    if j >= 0 {
        lemma_split_pieces(s.take(j), c);
        let p = split_at_char(s, c);
        assert forall|k: int| 0 <= k < p.len() implies !(#[trigger] p[k]).contains(c) by {
            if k < p.len() - 1 {
                assert(p[k] == split_at_char(s.take(j), c)[k]);
            } else {
                assert forall|m: int| 0 <= m < p[k].len() implies p[k][m] != c by {
                    assert(p[k][m] == s[j + 1 + m]);
                }
            }
        }
    } else {
        assert forall|m: int| 0 <= m < s.len() implies s[m] != c by {}
    }
}

/// The pieces kept by `named_segments` name something and are pieces of
/// `segs`.
pub proof fn lemma_named_segments(segs: Seq<Seq<char>>)
    ensures
        forall|k: int| 0 <= k < named_segments(segs).len() ==> is_named_segment(
            #[trigger] named_segments(segs)[k],
        ) && segs.contains(named_segments(segs)[k]),
    decreases segs.len(),
{
    if segs.len() > 0 {
        let d = segs.drop_last();
        lemma_named_segments(d);
        let n = named_segments(segs);
        assert forall|k: int| 0 <= k < n.len() implies is_named_segment(#[trigger] n[k]) && segs.contains(n[k]) by {
            if k < named_segments(d).len() {
                assert(n[k] == named_segments(d)[k]);
                let i = choose|i: int| 0 <= i < d.len() && d[i] == n[k];
                assert(segs[i] == n[k]);
            } else {
                assert(n[k] == segs.last());
                assert(segs[segs.len() - 1] == n[k]);
            }
        }
    }
}

/// Every component of a path after the leading `/` or `.` names something
/// (it is neither empty nor `.`) and holds no `/`.
pub proof fn lemma_components_named(s: Seq<char>)
    ensures
        lead_component(s).len() <= 1,
        forall|k: int|
            lead_component(s).len() <= k < components(s).len() ==> is_named_segment(
                #[trigger] components(s)[k],
            ) && !components(s)[k].contains('/'),
{
    let l = lead_component(s);
    let segs = split_at_char(s, '/');
    lemma_named_segments(segs);
    lemma_split_pieces(s, '/');
    assert forall|k: int| l.len() <= k < components(s).len() implies is_named_segment(
        #[trigger] components(s)[k],
    ) && !components(s)[k].contains('/') by {
        let x = named_segments(segs)[k - l.len()];
        assert(components(s)[k] == x);
        let i = choose|i: int| 0 <= i < segs.len() && segs[i] == x;
        assert(!segs[i].contains('/'));
    }
}

/// `k` is the last position of `c` in `s` (or -1 when there is none before
/// the end).
pub proof fn lemma_last_index(s: Seq<char>, c: char, k: int)
    requires
        -1 <= k < s.len(),
        k >= 0 ==> s[k] == c,
        forall|j: int| k < j < s.len() ==> s[j] != c,
    ensures
        last_index_of(s, c) == k,
    decreases s.len(),
{
    if s.len() > 0 && s.last() != c {
        lemma_last_index(s.drop_last(), c, k);
    }
}

/// Cutting a prefix that ends just before a separator at `i`, where the
/// last separator before it is at `start - 1`.
pub proof fn lemma_split_prefix(s: Seq<char>, c: char, start: int, i: int)
    requires
        0 <= start <= i <= s.len(),
        start == 0 || s[start - 1] == c,
        forall|j: int| start <= j < i ==> s[j] != c,
    ensures
        start == 0 ==> split_at_char(s.take(i), c) == seq![s.take(i)],
        start > 0 ==> split_at_char(s.take(i), c) == split_at_char(s.take(start - 1), c).push(
            s.subrange(start, i),
        ),
{
    let t = s.take(i);
    lemma_last_index(t, c, start - 1);
    if start > 0 {
        assert(t.take(start - 1) =~= s.take(start - 1));
        assert(t.skip(start) =~= s.subrange(start, i));
    }
}

/// The characters of `s`, one by one.
pub fn chars_of(s: &str) -> (r: Vec<char>)
    ensures
        r@ == s@,
{
    let n = s.unicode_len();
    let mut v: Vec<char> = Vec::new();
    let mut i: usize = 0;
    while i < n
        invariant
            n == s@.len(),
            0 <= i <= n,
            v@ == s@.take(i as int),
        decreases n - i,
    {
        let c = s.get_char(i);
        v.push(c);
        i = i + 1;
        assert(v@ =~= s@.take(i as int));
    }
    assert(v@ =~= s@);
    v
}

/// Whether `chars[start..end]` names something (neither empty nor `.`).
fn segment_is_named(chars: &Vec<char>, start: usize, end: usize) -> (r: bool)
    requires
        start <= end <= chars@.len(),
    ensures
        r == is_named_segment(chars@.subrange(start as int, end as int)),
{
    let x = Ghost(chars@.subrange(start as int, end as int));
    if end == start {
        false
    } else if end == start + 1 {
        assert(x@ =~= seq![chars@[start as int]]);
        if chars[start] == '.' {
            false
        } else {
            assert(x@[0] != seq!['.'][0]);
            true
        }
    } else {
        assert(x@.len() != seq!['.'].len());
        true
    }
}

/// The components of the path `s`, each as a string.
pub fn path_components(s: &str) -> (r: Vec<String>)
    ensures
        string_views(r@) == components(s@),
{
    let chars = chars_of(s);
    let n = chars.len();
    let mut out: Vec<String> = Vec::new();
    if n > 0 && chars[0] == '/' {
        out.push(s.substring_char(0, 1).to_string());
        assert(s@.subrange(0, 1) =~= seq!['/']);
    } else if (n == 1 && chars[0] == '.') || (n >= 2 && chars[0] == '.' && chars[1] == '/') {
        out.push(s.substring_char(0, 1).to_string());
        assert(s@.subrange(0, 1) =~= seq!['.']);
    }
    let ghost lead = string_views(out@);
    assert(lead =~= lead_component(s@));
    let mut start: usize = 0;
    let mut i: usize = 0;
    while i < n
        invariant
            n == s@.len(),
            chars@ == s@,
            lead == lead_component(s@),
            0 <= start <= i <= n,
            start == 0 || s@[start - 1] == '/',
            forall|j: int| start <= j < i ==> s@[j] != '/',
            start == 0 ==> string_views(out@) == lead,
            start > 0 ==> string_views(out@) == lead + named_segments(
                split_at_char(s@.take(start - 1), '/'),
            ),
        decreases n - i,
    {
        if chars[i] == '/' {
            let ghost prev = string_views(out@);
            let ghost x = s@.subrange(start as int, i as int);
            proof {
                lemma_split_prefix(s@, '/', start as int, i as int);
                let p = split_at_char(s@.take(i as int), '/');
                if start == 0 {
                    assert(p =~= seq![x]);
                    assert(p.drop_last() =~= Seq::<Seq<char>>::empty());
                    assert(named_segments(p.drop_last()) =~= Seq::<Seq<char>>::empty());
                } else {
                    assert(p.drop_last() =~= split_at_char(s@.take(start - 1), '/'));
                }
                assert(p.last() == x);
            }
            let named = segment_is_named(&chars, start, i);
            if named {
                let seg = s.substring_char(start, i).to_string();
                out.push(seg);
            }
            proof {
                let p = split_at_char(s@.take(i as int), '/');
                if named {
                    assert(string_views(out@) =~= prev.push(x));
                } else {
                    assert(string_views(out@) =~= prev);
                }
                assert(string_views(out@) =~= lead + named_segments(p));
            }
            start = i + 1;
        }
        i = i + 1;
    }
    proof {
        lemma_split_prefix(s@, '/', start as int, n as int);
        assert(s@.take(n as int) =~= s@);
    }
    let ghost prev = string_views(out@);
    let named = segment_is_named(&chars, start, n);
    if named {
        let seg = s.substring_char(start, n).to_string();
        out.push(seg);
    }
    proof {
        let x = s@.subrange(start as int, n as int);
        let p = split_at_char(s@, '/');
        if start == 0 {
            assert(p =~= seq![x]);
            assert(p.drop_last() =~= Seq::<Seq<char>>::empty());
            assert(named_segments(p.drop_last()) =~= Seq::<Seq<char>>::empty());
        } else {
            assert(p.drop_last() =~= split_at_char(s@.take(start - 1), '/'));
        }
        if named {
            assert(string_views(out@) =~= prev.push(x));
        } else {
            assert(string_views(out@) =~= prev);
        }
        assert(string_views(out@) =~= components(s@));
    }
    out
}

/// A component that names a file or directory: not the root `/`, nor `.`,
/// nor `..`.
pub open spec fn is_normal_component(c: Seq<char>) -> bool {
    c != seq!['/'] && c != seq!['.'] && c != seq!['.', '.']
}

/// The final component of a path when it names something, as
/// `Path::file_name` takes it on Unix.
pub open spec fn file_name_of(s: Seq<char>) -> Option<Seq<char>> {
    let c = components(s);
    if c.len() > 0 && is_normal_component(c.last()) {
        Some(c.last())
    } else {
        None
    }
}

/// The part of a file name before its last `.`, or the whole name when the
/// name has no `.` other than a leading one.
pub open spec fn stem_of_name(n: Seq<char>) -> Seq<char> {
    let j = last_index_of(n, '.');
    if j <= 0 {
        n
    } else {
        n.take(j)
    }
}

/// The part of a file name after its last `.`, when the name has a `.`
/// other than a leading one.
pub open spec fn extension_of_name(n: Seq<char>) -> Option<Seq<char>> {
    let j = last_index_of(n, '.');
    if j <= 0 {
        None
    } else {
        Some(n.skip(j + 1))
    }
}

/// The extension of the file a path names.
pub open spec fn extension_of(s: Seq<char>) -> Option<Seq<char>> {
    match file_name_of(s) {
        Some(n) => extension_of_name(n),
        None => None,
    }
}

/// The stem of the file a path names.
pub open spec fn file_stem_of(s: Seq<char>) -> Option<Seq<char>> {
    match file_name_of(s) {
        Some(n) => Some(stem_of_name(n)),
        None => None,
    }
}

/// The part of `s` before its first `c`, or all of `s` when it has none:
/// the first piece of `s` split at `c`.
pub open spec fn before_first(s: Seq<char>, c: char) -> Seq<char> {
    let i = first_index_of(s, c);
    if i < 0 {
        s
    } else {
        s.take(i)
    }
}

/// `first_index_of` is -1 or the first position of `c`.
pub proof fn lemma_first_index(s: Seq<char>, c: char)
    ensures
        -1 <= first_index_of(s, c) < s.len(),
        first_index_of(s, c) >= 0 ==> s[first_index_of(s, c)] == c,
        forall|j: int| 0 <= j < s.len() && (first_index_of(s, c) < 0 || j < first_index_of(s, c)) ==> s[j] != c,
    decreases s.len(),
{
    if s.len() > 0 && s[0] != c {
        lemma_first_index(s.drop_first(), c);
        assert forall|j: int| 0 <= j < s.len() && (first_index_of(s, c) < 0 || j < first_index_of(s, c)) implies s[j] != c by {
            if j > 0 {
                assert(s[j] == s.drop_first()[j - 1]);
            }
        }
    }
}

/// The position of the last `c` in `v`, if any.
pub fn find_last(v: &Vec<char>, c: char) -> (r: Option<usize>)
    ensures
        r matches Some(i) ==> i == last_index_of(v@, c),
        r is None ==> last_index_of(v@, c) == -1,
{
    let mut i: usize = v.len();
    while i > 0
        invariant
            0 <= i <= v@.len(),
            forall|j: int| i <= j < v@.len() ==> v@[j] != c,
        decreases i,
    {
        if v[i - 1] == c {
            proof { lemma_last_index(v@, c, i - 1); }
            return Some(i - 1);
        }
        i = i - 1;
    }
    proof { lemma_last_index(v@, c, -1); }
    None
}

/// The position of the last `c` among the first `end` characters of `v`,
/// if any.
pub fn find_last_before(v: &Vec<char>, c: char, end: usize) -> (r: Option<usize>)
    requires
        end <= v@.len(),
    ensures
        r matches Some(i) ==> i == last_index_of(v@.take(end as int), c),
        r is None ==> last_index_of(v@.take(end as int), c) == -1,
{
    let ghost t = v@.take(end as int);
    let mut i: usize = end;
    while i > 0
        invariant
            0 <= i <= end <= v@.len(),
            t == v@.take(end as int),
            forall|j: int| i <= j < end ==> t[j] != c,
        decreases i,
    {
        if v[i - 1] == c {
            proof { lemma_last_index(t, c, i - 1); }
            return Some(i - 1);
        }
        i = i - 1;
    }
    proof { lemma_last_index(t, c, -1); }
    None
}

/// The position of the first `c` in `v`, if any.
pub fn find_first(v: &Vec<char>, c: char) -> (r: Option<usize>)
    ensures
        r matches Some(i) ==> i == first_index_of(v@, c),
        r is None ==> first_index_of(v@, c) == -1,
{
    proof { lemma_first_index(v@, c); }
    let mut i: usize = 0;
    while i < v.len()
        invariant
            0 <= i <= v@.len(),
            forall|j: int| 0 <= j < i ==> v@[j] != c,
            -1 <= first_index_of(v@, c) < v@.len(),
            first_index_of(v@, c) >= 0 ==> v@[first_index_of(v@, c)] == c,
            forall|j: int| 0 <= j < v@.len() && (first_index_of(v@, c) < 0 || j < first_index_of(v@, c)) ==> v@[j] != c,
        decreases v@.len() - i,
    {
        if v[i] == c {
            return Some(i);
        }
        i = i + 1;
    }
    None
}

/// Whether the component `c` names something.
fn component_is_normal(c: &String) -> (r: bool)
    ensures
        r == is_normal_component(c@),
{
    let v = chars_of(c.as_str());
    if v.len() == 1 && (v[0] == '/' || v[0] == '.') {
        assert(c@ =~= seq![v@[0]]);
        false
    } else if v.len() == 2 && v[0] == '.' && v[1] == '.' {
        assert(c@ =~= seq!['.', '.']);
        false
    } else {
        assert(c@ != seq!['/']) by {
            if c@ == seq!['/'] { assert(v@.len() == 1 && v@[0] == '/'); }
        }
        assert(c@ != seq!['.']) by {
            if c@ == seq!['.'] { assert(v@.len() == 1 && v@[0] == '.'); }
        }
        assert(c@ != seq!['.', '.']) by {
            if c@ == seq!['.', '.'] { assert(v@.len() == 2 && v@[0] == '.' && v@[1] == '.'); }
        }
        true
    }
}

/// The final component of the path `s` when it names something.
pub fn file_name(s: &str) -> (r: Option<String>)
    ensures
        r matches Some(n) ==> file_name_of(s@) == Some(n@),
        r is None ==> file_name_of(s@) is None,
{
    let mut comps = path_components(s);
    if comps.len() == 0 {
        return None;
    }
    let last = comps.pop().unwrap();
    assert(last@ == components(s@).last());
    if component_is_normal(&last) {
        Some(last)
    } else {
        None
    }
}

/// The extension of the file that the path `s` names.
pub fn extension(s: &str) -> (r: Option<String>)
    ensures
        r matches Some(e) ==> extension_of(s@) == Some(e@),
        r is None ==> extension_of(s@) is None,
{
    match file_name(s) {
        None => None,
        Some(n) => {
            let v = chars_of(n.as_str());
            proof { lemma_last_index_bound(n@, '.'); }
            match find_last(&v, '.') {
                Some(j) if j > 0 => {
                    let len = v.len();
                    let e = n.as_str().substring_char(j + 1, len).to_string();
                    assert(e@ =~= n@.skip(j + 1));
                    Some(e)
                },
                _ => None,
            }
        },
    }
}

/// The stem of the file that the path `s` names.
pub fn file_stem(s: &str) -> (r: Option<String>)
    ensures
        r matches Some(t) ==> file_stem_of(s@) == Some(t@),
        r is None ==> file_stem_of(s@) is None,
{
    match file_name(s) {
        None => None,
        Some(n) => {
            let v = chars_of(n.as_str());
            proof { lemma_last_index_bound(n@, '.'); }
            match find_last(&v, '.') {
                Some(j) if j > 0 => {
                    let t = n.as_str().substring_char(0, j).to_string();
                    assert(t@ =~= n@.take(j as int));
                    Some(t)
                },
                _ => Some(n),
            }
        },
    }
}

/// The part of `s` before its first `c`, or all of `s` when it has none.
pub fn prefix_before(s: &str, c: char) -> (r: String)
    ensures
        r@ == before_first(s@, c),
{
    let v = chars_of(s);
    proof { lemma_first_index(s@, c); }
    match find_first(&v, c) {
        Some(i) => {
            let t = s.substring_char(0, i).to_string();
            assert(t@ =~= s@.take(i as int));
            t
        },
        None => s.to_string(),
    }
}

} // verus!
