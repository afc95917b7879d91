//! The abstract value of an archive listing and what filing files into it
//! does: the definitions that the listing code is specified against, and
//! the laws that hold of them.
use vstd::prelude::*;

use crate::paths::components;

verus! {

/// The abstract value of a directory in an archive listing: its name, its
/// subdirectories in order, and the files it holds in order.
pub struct DirModel<V> {
    pub name: Seq<char>,
    pub dirs: Seq<DirModel<V>>,
    pub files: Seq<V>,
}

/// An empty directory with the given name.
pub open spec fn empty_dir<V>(name: Seq<char>) -> DirModel<V> {
    DirModel { name, dirs: Seq::empty(), files: Seq::empty() }
}

/// `i` is the position of the first subdirectory called `name`.
pub open spec fn is_first_named<V>(dirs: Seq<DirModel<V>>, name: Seq<char>, i: int) -> bool {
    &&& 0 <= i < dirs.len()
    &&& dirs[i].name == name
    &&& forall|j: int| 0 <= j < i ==> dirs[j].name != name
}

/// Some subdirectory is called `name`.
pub open spec fn has_dir_named<V>(dirs: Seq<DirModel<V>>, name: Seq<char>) -> bool {
    exists|i: int| 0 <= i < dirs.len() && dirs[i].name == name
}

/// The position of the first subdirectory called `name`, or the number of
/// subdirectories when there is none.
pub open spec fn first_named<V>(dirs: Seq<DirModel<V>>, name: Seq<char>) -> int {
    if has_dir_named(dirs, name) {
        choose|i: int| is_first_named(dirs, name, i)
    } else {
        dirs.len() as int
    }
}

/// The first subdirectory called `name` is at `i`, so that is where
/// `first_named` points.
pub proof fn lemma_first_named<V>(dirs: Seq<DirModel<V>>, name: Seq<char>, i: int)
    requires
        is_first_named(dirs, name, i),
    ensures
        first_named(dirs, name) == i,
        has_dir_named(dirs, name),
{
    assert(dirs[i].name == name);
    let j = choose|j: int| is_first_named(dirs, name, j);
    assert(is_first_named(dirs, name, j));
    if j < i {
        assert(dirs[j].name != name);
    } else if i < j {
        assert(dirs[i].name != name);
    }
}

/// `first_named` is a position of the subdirectories or their number; it is
/// the number exactly when no subdirectory has the name, and otherwise the
/// first one with it.
pub proof fn lemma_first_named_found<V>(dirs: Seq<DirModel<V>>, name: Seq<char>)
    ensures
        0 <= first_named(dirs, name) <= dirs.len(),
        first_named(dirs, name) < dirs.len() <==> has_dir_named(dirs, name),
        has_dir_named(dirs, name) ==> is_first_named(dirs, name, first_named(dirs, name)),
{
    if has_dir_named(dirs, name) {
        let k = choose|k: int| 0 <= k < dirs.len() && dirs[k].name == name;
        lemma_exists_first(dirs, name, k);
    }
}

proof fn lemma_exists_first<V>(dirs: Seq<DirModel<V>>, name: Seq<char>, k: int)
    requires
        0 <= k < dirs.len(),
        dirs[k].name == name,
    ensures
        is_first_named(dirs, name, first_named(dirs, name)),
    decreases k,
{
    if exists|j: int| 0 <= j < k && dirs[j].name == name {
        let j = choose|j: int| 0 <= j < k && dirs[j].name == name;
        lemma_exists_first(dirs, name, j);
    } else {
        lemma_first_named(dirs, name, k);
    }
}

/// Files `leaf` under the directory path `path` (a sequence of directory
/// names, outermost first): each directory on the way is the first
/// subdirectory with that name, and is created at the end of its parent's
/// subdirectories where there is none; the file goes at the end of the
/// files of the last directory.
pub open spec fn insert_at<V>(t: DirModel<V>, path: Seq<Seq<char>>, leaf: V) -> DirModel<V>
    decreases path.len(),
{
    if path.len() == 0 {
        DirModel { name: t.name, dirs: t.dirs, files: t.files.push(leaf) }
    } else {
        let i = first_named(t.dirs, path[0]);
        if i < t.dirs.len() {
            DirModel {
                name: t.name,
                dirs: t.dirs.update(i, insert_at(t.dirs[i], path.drop_first(), leaf)),
                files: t.files,
            }
        } else {
            DirModel {
                name: t.name,
                dirs: t.dirs.push(insert_at(empty_dir(path[0]), path.drop_first(), leaf)),
                files: t.files,
            }
        }
    }
}

/// The directory reached from `t` by following `path`, each step into the
/// first subdirectory with the next name; `None` where a step finds none.
pub open spec fn lookup<V>(t: DirModel<V>, path: Seq<Seq<char>>) -> Option<DirModel<V>>
    decreases path.len(),
{
    if path.len() == 0 {
        Some(t)
    } else {
        let i = first_named(t.dirs, path[0]);
        if i < t.dirs.len() {
            lookup(t.dirs[i], path.drop_first())
        } else {
            None
        }
    }
}

/// No two subdirectories of any directory in `t` share a name.
pub open spec fn names_unique<V>(t: DirModel<V>) -> bool
    decreases t,
{
    &&& forall|i: int, j: int|
        0 <= i < t.dirs.len() && 0 <= j < t.dirs.len() && i != j ==> #[trigger] t.dirs[i].name
            != #[trigger] t.dirs[j].name
    &&& forall|i: int| 0 <= i < t.dirs.len() ==> names_unique(#[trigger] t.dirs[i])
}

/// The number of files in `t` and in all the directories below it.
pub open spec fn file_count<V>(t: DirModel<V>) -> nat
    decreases t, 1nat,
{
    t.files.len() + dirs_file_count(t.dirs)
}

/// The number of files in the directories `ds` and below them.
pub open spec fn dirs_file_count<V>(ds: Seq<DirModel<V>>) -> nat
    decreases ds, 0nat,
{
    if ds.len() == 0 {
        0
    } else {
        dirs_file_count(ds.drop_last()) + file_count(ds.last())
    }
}

/// Replacing one directory changes the count by the difference.
pub proof fn lemma_dirs_count_update<V>(ds: Seq<DirModel<V>>, k: int, x: DirModel<V>)
    requires
        0 <= k < ds.len(),
    ensures
        dirs_file_count(ds.update(k, x)) + file_count(ds[k]) == dirs_file_count(ds) + file_count(x),
    decreases ds.len(),
{
    let u = ds.update(k, x);
    if k == ds.len() - 1 {
        assert(u.drop_last() =~= ds.drop_last());
    } else {
        assert(u.drop_last() =~= ds.drop_last().update(k, x));
        lemma_dirs_count_update(ds.drop_last(), k, x);
    }
}

/// Appending one directory adds its count.
pub proof fn lemma_dirs_count_push<V>(ds: Seq<DirModel<V>>, x: DirModel<V>)
    ensures
        dirs_file_count(ds.push(x)) == dirs_file_count(ds) + file_count(x),
{
    assert(ds.push(x).drop_last() =~= ds);
}

/// An empty directory has no files.
pub proof fn lemma_empty_count<V>(name: Seq<char>)
    ensures
        file_count(empty_dir::<V>(name)) == 0,
{
    assert(dirs_file_count(Seq::<DirModel<V>>::empty()) == 0);
}

/// Filing one file adds exactly one file to the tree.
pub proof fn lemma_insert_count<V>(t: DirModel<V>, path: Seq<Seq<char>>, leaf: V)
    ensures
        file_count(insert_at(t, path, leaf)) == file_count(t) + 1,
    decreases path.len(),
{
    if path.len() > 0 {
        let i = first_named(t.dirs, path[0]);
        lemma_first_named_found(t.dirs, path[0]);
        if i < t.dirs.len() {
            lemma_insert_count(t.dirs[i], path.drop_first(), leaf);
            lemma_dirs_count_update(t.dirs, i, insert_at(t.dirs[i], path.drop_first(), leaf));
        } else {
            lemma_insert_count(empty_dir::<V>(path[0]), path.drop_first(), leaf);
            lemma_empty_count::<V>(path[0]);
            lemma_dirs_count_push(t.dirs, insert_at(empty_dir::<V>(path[0]), path.drop_first(), leaf));
        }
    }
}

/// Filing a file keeps the name of the directory it starts from.
pub proof fn lemma_insert_name<V>(t: DirModel<V>, path: Seq<Seq<char>>, leaf: V)
    ensures
        insert_at(t, path, leaf).name == t.name,
{
}

/// Replacing a directory by one of the same name leaves `first_named` alone.
pub proof fn lemma_first_named_update<V>(ds: Seq<DirModel<V>>, k: int, x: DirModel<V>, name: Seq<char>)
    requires
        0 <= k < ds.len(),
        x.name == ds[k].name,
    ensures
        first_named(ds.update(k, x), name) == first_named(ds, name),
{
    let u = ds.update(k, x);
    assert forall|j: int| 0 <= j < ds.len() implies #[trigger] u[j].name == ds[j].name by {}
    if has_dir_named(ds, name) {
        lemma_first_named_found(ds, name);
        let i = first_named(ds, name);
        assert(is_first_named(u, name, i));
        lemma_first_named(u, name, i);
    } else {
        assert(!has_dir_named(u, name));
    }
}

/// Appending a directory with another name leaves `first_named` alone on
/// names that are present.
pub proof fn lemma_first_named_push<V>(ds: Seq<DirModel<V>>, x: DirModel<V>, name: Seq<char>)
    requires
        has_dir_named(ds, name),
    ensures
        first_named(ds.push(x), name) == first_named(ds, name),
{
    lemma_first_named_found(ds, name);
    let i = first_named(ds, name);
    assert(is_first_named(ds.push(x), name, i));
    lemma_first_named(ds.push(x), name, i);
}

/// After filing `leaf` under `path`, following `path` reaches a directory
/// whose last file is `leaf`: the directory that was there, with `leaf`
/// appended to its files, or a new empty directory holding only `leaf`.
pub proof fn lemma_insert_then_lookup<V>(t: DirModel<V>, path: Seq<Seq<char>>, leaf: V)
    ensures
        lookup(insert_at(t, path, leaf), path) is Some,
        lookup(t, path) matches Some(d) ==> lookup(insert_at(t, path, leaf), path)->0 == (DirModel {
            name: d.name,
            dirs: d.dirs,
            files: d.files.push(leaf),
        }),
        lookup(t, path) is None ==> lookup(insert_at(t, path, leaf), path)->0 == (DirModel {
            name: path.last(),
            dirs: Seq::empty(),
            files: seq![leaf],
        }),
    decreases path.len(),
{
    if path.len() > 0 {
        let i = first_named(t.dirs, path[0]);
        lemma_first_named_found(t.dirs, path[0]);
        let r = insert_at(t, path, leaf);
        if i < t.dirs.len() {
            let c = insert_at(t.dirs[i], path.drop_first(), leaf);
            lemma_first_named_update(t.dirs, i, c, path[0]);
            lemma_insert_then_lookup(t.dirs[i], path.drop_first(), leaf);
            if path.len() == 1 {
                assert(path.drop_first().len() == 0);
            }
        } else {
            let e = empty_dir::<V>(path[0]);
            let c = insert_at(e, path.drop_first(), leaf);
            assert(!has_dir_named(t.dirs, path[0]));
            assert(is_first_named(r.dirs, path[0], t.dirs.len() as int));
            lemma_first_named(r.dirs, path[0], t.dirs.len() as int);
            lemma_insert_then_lookup(e, path.drop_first(), leaf);
            lemma_lookup_fresh(e, path.drop_first());
            if path.len() == 1 {
                assert(seq![leaf] =~= Seq::<V>::empty().push(leaf));
            } else {
                assert(path.drop_first().last() == path.last());
            }
        }
    }
}

/// Following a nonempty path from an empty directory finds nothing.
pub proof fn lemma_lookup_fresh<V>(e: DirModel<V>, path: Seq<Seq<char>>)
    requires
        e.dirs.len() == 0,
    ensures
        path.len() > 0 ==> lookup(e, path) is None,
{
}

/// Filing a file under `path` leaves every directory that `q` reached
/// reachable by `q`, with the same name and the same files, except that the
/// directory at `path` itself gains the file at the end.
pub proof fn lemma_insert_keeps<V>(t: DirModel<V>, path: Seq<Seq<char>>, leaf: V, q: Seq<Seq<char>>)
    requires
        lookup(t, q) is Some,
    ensures
        lookup(insert_at(t, path, leaf), q) is Some,
        lookup(insert_at(t, path, leaf), q)->0.name == lookup(t, q)->0.name,
        lookup(insert_at(t, path, leaf), q)->0.files == (if q == path {
            lookup(t, q)->0.files.push(leaf)
        } else {
            lookup(t, q)->0.files
        }),
    decreases q.len(),
{
    let r = insert_at(t, path, leaf);
    if q.len() == 0 {
        if path.len() > 0 {
            assert(q != path);
        } else {
            assert(q =~= path);
        }
    } else {
        let i = first_named(t.dirs, q[0]);
        lemma_first_named_found(t.dirs, q[0]);
        if path.len() == 0 {
            assert(q != path);
        } else {
            let j = first_named(t.dirs, path[0]);
            lemma_first_named_found(t.dirs, path[0]);
            if j < t.dirs.len() {
                let c = insert_at(t.dirs[j], path.drop_first(), leaf);
                lemma_first_named_update(t.dirs, j, c, q[0]);
                if i == j {
                    lemma_insert_keeps(t.dirs[i], path.drop_first(), leaf, q.drop_first());
                    if q == path {
                        assert(q.drop_first() == path.drop_first());
                    } else if q.drop_first() == path.drop_first() {
                        assert(q[0] == path[0]);
                        assert(q =~= seq![q[0]] + q.drop_first());
                        assert(path =~= seq![path[0]] + path.drop_first());
                    }
                } else {
                    lemma_first_named_found(t.dirs, q[0]);
                    assert(q[0] != path[0]) by {
                        if q[0] == path[0] {
                            assert(i == j);
                        }
                    }
                    assert(q != path);
                }
            } else {
                let c = insert_at(empty_dir::<V>(path[0]), path.drop_first(), leaf);
                lemma_first_named_push(t.dirs, c, q[0]);
                assert(q[0] != path[0]) by {
                    if q[0] == path[0] {
                        assert(has_dir_named(t.dirs, path[0]));
                        lemma_first_named_found(t.dirs, path[0]);
                    }
                }
                assert(q != path);
            }
        }
    }
}

/// Filing a file keeps the names of every directory's subdirectories
/// distinct.
pub proof fn lemma_insert_unique<V>(t: DirModel<V>, path: Seq<Seq<char>>, leaf: V)
    requires
        names_unique(t),
    ensures
        names_unique(insert_at(t, path, leaf)),
    decreases path.len(),
{
    let r = insert_at(t, path, leaf);
    if path.len() > 0 {
        let i = first_named(t.dirs, path[0]);
        lemma_first_named_found(t.dirs, path[0]);
        if i < t.dirs.len() {
            lemma_insert_unique(t.dirs[i], path.drop_first(), leaf);
            assert forall|a: int| 0 <= a < r.dirs.len() implies #[trigger] r.dirs[a].name == t.dirs[a].name by {}
            assert forall|a: int| 0 <= a < r.dirs.len() implies names_unique(#[trigger] r.dirs[a]) by {
                if a != i {
                    assert(r.dirs[a] == t.dirs[a]);
                }
            }
        } else {
            let e = empty_dir::<V>(path[0]);
            assert(names_unique(e));
            lemma_insert_unique(e, path.drop_first(), leaf);
            assert(!has_dir_named(t.dirs, path[0]));
            assert forall|a: int| 0 <= a < r.dirs.len() implies names_unique(#[trigger] r.dirs[a]) by {
                if a < t.dirs.len() {
                    assert(r.dirs[a] == t.dirs[a]);
                }
            }
            assert forall|a: int, b: int|
                0 <= a < r.dirs.len() && 0 <= b < r.dirs.len() && a != b implies #[trigger] r.dirs[a].name
                != #[trigger] r.dirs[b].name by {
                if a == t.dirs.len() {
                    assert(t.dirs[b].name != path[0]);
                } else if b == t.dirs.len() {
                    assert(t.dirs[a].name != path[0]);
                } else {
                    assert(r.dirs[a] == t.dirs[a]);
                    assert(r.dirs[b] == t.dirs[b]);
                }
            }
        }
    }
}

/// Files each `(path, leaf)` of `steps` in turn, starting from `t`.
pub open spec fn file_all<V>(t: DirModel<V>, steps: Seq<(Seq<Seq<char>>, V)>) -> DirModel<V>
    decreases steps.len(),
{
    if steps.len() == 0 {
        t
    } else {
        insert_at(file_all(t, steps.drop_last()), steps.last().0, steps.last().1)
    }
}

/// Filing `n` files adds exactly `n` files.
pub proof fn lemma_file_all_count<V>(t: DirModel<V>, steps: Seq<(Seq<Seq<char>>, V)>)
    ensures
        file_count(file_all(t, steps)) == file_count(t) + steps.len(),
    decreases steps.len(),
{
    if steps.len() > 0 {
        lemma_file_all_count(t, steps.drop_last());
        lemma_insert_count(file_all(t, steps.drop_last()), steps.last().0, steps.last().1);
    }
}

/// Filing files keeps subdirectory names distinct.
pub proof fn lemma_file_all_unique<V>(t: DirModel<V>, steps: Seq<(Seq<Seq<char>>, V)>)
    requires
        names_unique(t),
    ensures
        names_unique(file_all(t, steps)),
    decreases steps.len(),
{
    if steps.len() > 0 {
        lemma_file_all_unique(t, steps.drop_last());
        lemma_insert_unique(file_all(t, steps.drop_last()), steps.last().0, steps.last().1);
    }
}

/// Every file filed is found afterwards by following its path.
pub proof fn lemma_file_all_found<V>(t: DirModel<V>, steps: Seq<(Seq<Seq<char>>, V)>, k: int)
    requires
        0 <= k < steps.len(),
    ensures
        lookup(file_all(t, steps), steps[k].0) is Some,
        lookup(file_all(t, steps), steps[k].0)->0.files.contains(steps[k].1),
    decreases steps.len(),
{
    let prev = file_all(t, steps.drop_last());
    let (p, leaf) = steps.last();
    if k == steps.len() - 1 {
        lemma_insert_then_lookup(prev, p, leaf);
        let d = lookup(insert_at(prev, p, leaf), p)->0;
        assert(d.files[d.files.len() - 1] == leaf);
    } else {
        lemma_file_all_found(t, steps.drop_last(), k);
        let q = steps[k].0;
        assert(steps.drop_last()[k] == steps[k]);
        lemma_insert_keeps(prev, p, leaf, q);
        let d0 = lookup(prev, q)->0;
        let d1 = lookup(insert_at(prev, p, leaf), q)->0;
        let j = choose|j: int| 0 <= j < d0.files.len() && d0.files[j] == steps[k].1;
        assert(d1.files[j] == steps[k].1);
    }
}

/// The directory path under which an archive member called `name` is
/// listed: all its components but the last when it has more than one,
/// otherwise the top of the listing.
pub open spec fn member_dir(name: Seq<char>) -> Seq<Seq<char>> {
    let c = components(name);
    if c.len() > 1 {
        c.drop_last()
    } else {
        Seq::empty()
    }
}

/// The file name under which an archive member called `name` is listed:
/// its last component when it has more than one, otherwise the whole name.
pub open spec fn member_file_name(name: Seq<char>) -> Seq<char> {
    let c = components(name);
    if c.len() > 1 {
        c.last()
    } else {
        name
    }
}

/// The name of the top directory of a listing.
pub open spec fn root_name() -> Seq<char> {
    seq!['/']
}

/// The top directory of a listing, before anything is filed.
pub open spec fn empty_listing<V>() -> DirModel<V> {
    empty_dir(root_name())
}

/// The empty directory is trivially free of repeated names.
pub proof fn lemma_empty_unique<V>(name: Seq<char>)
    ensures
        names_unique(empty_dir::<V>(name)),
        file_count(empty_dir::<V>(name)) == 0,
{
    lemma_empty_count::<V>(name);
}

/// `file_all` over one more step files that step last.
pub proof fn lemma_file_all_step<V>(t: DirModel<V>, steps: Seq<(Seq<Seq<char>>, V)>, i: int)
    requires
        0 <= i < steps.len(),
    ensures
        file_all(t, steps.take(i + 1)) == insert_at(file_all(t, steps.take(i)), steps[i].0, steps[i].1),
{
    assert(steps.take(i + 1).drop_last() =~= steps.take(i));
}

} // verus!
