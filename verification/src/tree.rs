//! The directories of an archive listing and their operations.
use vstd::prelude::*;

use crate::model::{
    empty_dir, empty_listing, first_named, has_dir_named, insert_at,
    lemma_first_named, lemma_first_named_found, root_name, DirModel,
};
use crate::paths::string_views;

verus! {

/// A file payload whose copy is known to have the same value.
pub trait Payload: View + Sized {
    fn duplicate(&self) -> (r: Self)
        ensures
            r@ == self@,
    ;
}

impl Payload for String {
    fn duplicate(&self) -> (r: Self) {
        self.clone()
    }
}

impl Payload for (String, u64) {
    fn duplicate(&self) -> (r: Self) {
        (self.0.clone(), self.1)
    }
}

/// A directory of an archive listing, generic in what a file entry holds.
#[derive(Debug)]
pub struct DirEntry<F> {
    pub cdir: String,
    pub dirs: Vec<DirEntry<F>>,
    pub files: Vec<F>,
}

impl<F: View> DirEntry<F> {
    /// The abstract value of this directory.
    pub open spec fn model(self) -> DirModel<F::V>
        decreases self,
    {
        DirModel {
            name: self.cdir@,
            dirs: Self::models(self.dirs@),
            files: Self::file_views(self.files@),
        }
    }

    /// The abstract values of a sequence of directories.
    pub open spec fn models(ds: Seq<DirEntry<F>>) -> Seq<DirModel<F::V>>
        decreases ds,
    {
        if ds.len() == 0 {
            Seq::empty()
        } else {
            Self::models(ds.drop_last()).push(ds.last().model())
        }
    }

    /// The views of a sequence of file entries.
    pub open spec fn file_views(fs: Seq<F>) -> Seq<F::V> {
        fs.map_values(|f: F| f@)
    }

    /// The model of a sequence of directories is taken element by element.
    pub proof fn lemma_models(ds: Seq<DirEntry<F>>)
        ensures
            Self::models(ds).len() == ds.len(),
            forall|i: int| 0 <= i < ds.len() ==> #[trigger] Self::models(ds)[i] == ds[i].model(),
        decreases ds.len(),
    {
        if ds.len() > 0 {
            Self::lemma_models(ds.drop_last());
        }
    }

    /// Sequences of directories with the same element models have the same models.
    pub proof fn lemma_models_ext(a: Seq<DirEntry<F>>, b: Seq<DirEntry<F>>)
        requires
            a.len() == b.len(),
            forall|i: int| 0 <= i < a.len() ==> a[i].model() == b[i].model(),
        ensures
            Self::models(a) == Self::models(b),
    {
        Self::lemma_models(a);
        Self::lemma_models(b);
        assert(Self::models(a) =~= Self::models(b));
    }

    /// The fields of a directory, seen through its model.
    pub proof fn lemma_model_fields(self)
        ensures
            self.model().name == self.cdir@,
            self.model().dirs.len() == self.dirs@.len(),
            forall|i: int|
                0 <= i < self.dirs@.len() ==> #[trigger] self.model().dirs[i] == self.dirs@[i].model(),
            self.model().files == Self::file_views(self.files@),
    {
        Self::lemma_models(self.dirs@);
    }

    /// An empty directory called `name`.
    pub fn new(name: String) -> (r: Self)
        ensures
            r.model() == empty_dir::<F::V>(name@),
    {
        let r = DirEntry { cdir: name, dirs: Vec::new(), files: Vec::new() };
        proof {
            r.lemma_model_fields();
            assert(r.model().dirs =~= Seq::<DirModel<F::V>>::empty());
            assert(r.model().files =~= Seq::<F::V>::empty());
        }
        r
    }

    /// The directory's name.
    pub fn get_name(&self) -> (r: String)
        ensures
            r@ == self.model().name,
    {
        proof { self.lemma_model_fields(); }
        self.cdir.clone()
    }

    /// Whether a subdirectory is called `find`.
    pub fn contains_dir(&self, find: String) -> (r: bool)
        ensures
            r == has_dir_named(self.model().dirs, find@),
    {
        proof { self.lemma_model_fields(); }
        let mut i: usize = 0;
        while i < self.dirs.len()
            invariant
                0 <= i <= self.dirs@.len(),
                self.model().dirs.len() == self.dirs@.len(),
                forall|j: int| 0 <= j < self.dirs@.len() ==> #[trigger] self.model().dirs[j] == self.dirs@[j].model(),
                forall|j: int| 0 <= j < i ==> self.model().dirs[j].name != find@,
            decreases self.dirs@.len() - i,
        {
            proof { self.dirs@[i as int].lemma_model_fields(); }
            if find == self.dirs[i].cdir {
                assert(self.model().dirs[i as int].name == find@);
                return true;
            }
            i = i + 1;
        }
        false
    }

    /// The position of the first subdirectory called `find`, or 0 when none is.
    pub fn find_child_dir(&self, find: String) -> (r: usize)
        ensures
            has_dir_named(self.model().dirs, find@) ==> r == first_named(self.model().dirs, find@),
            !has_dir_named(self.model().dirs, find@) ==> r == 0,
    {
        proof { self.lemma_model_fields(); }
        let n = self.dirs.len();
        let mut i: usize = 0;
        while i < n
            invariant
                n == self.dirs@.len(),
                0 <= i <= n,
                self.model().dirs.len() == n,
                forall|j: int| 0 <= j < n ==> #[trigger] self.model().dirs[j] == self.dirs@[j].model(),
                forall|j: int| 0 <= j < i ==> self.model().dirs[j].name != find@,
            decreases n - i,
        {
            let name = self.dirs[i].get_name();
            if find == name {
                proof { lemma_first_named(self.model().dirs, find@, i as int); }
                return i;
            }
            i = i + 1;
        }
        0
    }

    /// Appends `new_dir` to the subdirectories and returns the position of
    /// the last subdirectory that has its name, which is its own position.
    pub fn add_dir(&mut self, new_dir: DirEntry<F>) -> (r: usize)
        ensures
            r == old(self).dirs@.len(),
            final(self).model() == (DirModel {
                name: old(self).model().name,
                dirs: old(self).model().dirs.push(new_dir.model()),
                files: old(self).model().files,
            }),
    {
        let ghost old_dirs = self.dirs@;
        let name = new_dir.get_name();
        self.dirs.push(new_dir);
        proof {
            assert(self.dirs@.drop_last() =~= old_dirs);
        }
        let mut idx: usize = 0;
        let n = self.dirs.len();
        let mut i: usize = 0;
        while i < n
            invariant
                n == self.dirs@.len(),
                n >= 1,
                0 <= i <= n,
                self.dirs@[n - 1].model().name == name@,
                i >= 1 && self.dirs@[i - 1].model().name == name@ ==> idx == i - 1,
            decreases n - i,
        {
            if self.dirs[i].get_name() == name {
                idx = i;
            }
            i = i + 1;
        }
        idx
    }

    /// Files `leaf` under the directory path `path[k..]`, as `insert_at`
    /// says: each step goes into the first subdirectory with the next name,
    /// which is added when there is none.
    pub fn insert_path(&mut self, path: &Vec<String>, k: usize, leaf: F)
        requires
            k <= path@.len(),
        ensures
            final(self).model() == insert_at(
                old(self).model(),
                string_views(path@.subrange(k as int, path@.len() as int)),
                leaf@,
            ),
        decreases path@.len() - k,
    {
        proof { self.lemma_model_fields(); }
        let ghost rest = string_views(path@.subrange(k as int, path@.len() as int));
        if k == path.len() {
            let ghost old_files = self.files@;
            self.files.push(leaf);
            proof {
                self.lemma_model_fields();
                assert(Self::file_views(self.files@) =~= Self::file_views(old_files).push(leaf@));
                assert(rest.len() == 0);
            }
        } else {
            let ghost old_model = self.model();
            let name = path[k].clone();
            let idx: usize;
            if !self.contains_dir(name.clone()) {
                idx = self.add_dir(DirEntry::new(name));
            } else {
                idx = self.find_child_dir(name);
                proof { lemma_first_named_found(old_model.dirs, path@[k as int]@); }
            }
            let ghost mid = *self;
            proof {
                mid.lemma_model_fields();
                assert(rest[0] == path@[k as int]@);
                assert(rest.drop_first() =~= string_views(path@.subrange(k + 1, path@.len() as int)));
            }
            self.dirs[idx].insert_path(path, k + 1, leaf);
            proof {
                self.lemma_model_fields();
                let child = insert_at(mid.model().dirs[idx as int], rest.drop_first(), leaf@);
                assert(self.model().dirs =~= mid.model().dirs.update(idx as int, child));
                if has_dir_named(old_model.dirs, rest[0]) {
                    assert(first_named(old_model.dirs, rest[0]) == idx);
                    assert(mid.model() == old_model);
                } else {
                    assert(first_named(old_model.dirs, rest[0]) == old_model.dirs.len());
                    assert(mid.model().dirs[idx as int] == empty_dir::<F::V>(rest[0]));
                    assert(self.model().dirs =~= old_model.dirs.push(child));
                }
                assert(self.model() == insert_at(old_model, rest, leaf@));
            }
        }
    }

    /// Files `leaf` under the components `dirs` (all of them), as `insert_at`
    /// says; `dirs` is used up.
    pub fn file_under(&mut self, dirs: Vec<String>, leaf: F)
        ensures
            final(self).model() == insert_at(old(self).model(), string_views(dirs@), leaf@),
    {
        self.insert_path(&dirs, 0, leaf);
        assert(dirs@.subrange(0, dirs@.len() as int) =~= dirs@);
    }
}

impl<F: Payload> DirEntry<F> {
    /// A copy of this directory with the same contents.
    pub fn duplicate(&self) -> (r: Self)
        ensures
            r.model() == self.model(),
        decreases self,
    {
        let mut dirs: Vec<DirEntry<F>> = Vec::new();
        let n = self.dirs.len();
        let mut i: usize = 0;
        while i < n
            invariant
                n == self.dirs@.len(),
                0 <= i <= n,
                dirs@.len() == i,
                forall|j: int| 0 <= j < i ==> #[trigger] dirs@[j].model() == self.dirs@[j].model(),
            decreases n - i,
        {
            proof {
                assert(decreases_to!(self => self.dirs));
                assert(decreases_to!(self.dirs => self.dirs@));
                assert(decreases_to!(self.dirs@ => self.dirs@[i as int]));
            }
            let d = self.dirs[i].duplicate();
            dirs.push(d);
            i = i + 1;
        }
        let files = self.get_files();
        let r = DirEntry { cdir: self.cdir.clone(), dirs, files };
        proof {
            Self::lemma_models_ext(r.dirs@, self.dirs@);
        }
        r
    }

    /// Copies of the subdirectories.
    pub fn get_dirs(&self) -> (r: Vec<DirEntry<F>>)
        ensures
            Self::models(r@) == self.model().dirs,
    {
        let mut dirs: Vec<DirEntry<F>> = Vec::new();
        let n = self.dirs.len();
        let mut i: usize = 0;
        while i < n
            invariant
                n == self.dirs@.len(),
                0 <= i <= n,
                dirs@.len() == i,
                forall|j: int| 0 <= j < i ==> #[trigger] dirs@[j].model() == self.dirs@[j].model(),
            decreases n - i,
        {
            let d = self.dirs[i].duplicate();
            dirs.push(d);
            i = i + 1;
        }
        proof {
            Self::lemma_models_ext(dirs@, self.dirs@);
        }
        dirs
    }

    /// Copies of the file entries.
    pub fn get_files(&self) -> (r: Vec<F>)
        ensures
            Self::file_views(r@) == self.model().files,
    {
        let mut files: Vec<F> = Vec::new();
        let n = self.files.len();
        let mut i: usize = 0;
        while i < n
            invariant
                n == self.files@.len(),
                0 <= i <= n,
                files@.len() == i,
                forall|j: int| 0 <= j < i ==> #[trigger] files@[j]@ == self.files@[j]@,
            decreases n - i,
        {
            let f = self.files[i].duplicate();
            files.push(f);
            i = i + 1;
        }
        assert(Self::file_views(files@) =~= Self::file_views(self.files@));
        files
    }
}


/// A fresh top directory for a listing.
pub fn new_listing<F: View>() -> (r: DirEntry<F>)
    ensures
        r.model() == empty_listing::<F::V>(),
{
    let name = "/".to_string();
    proof {
        reveal_strlit("/");
        assert(name@ =~= root_name());
    }
    DirEntry::new(name)
}

} // verus!
