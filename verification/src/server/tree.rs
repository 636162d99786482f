//! Browsing the cache as a directory tree: a path of directories from a root,
//! and the entries listed at its top.
use vstd::prelude::*;
use crate::server::cache::{Cache, CacheDirEntry, CacheEntry, Pointer};
use crate::server::paths::{basename, basename_of};

verus! {

/// A position in the tree of the cache: the directories entered, from a root
/// down. With no directory entered, the roots are listed.
pub struct Tree<'a> {
    cache: &'a Cache,
    path: Vec<&'a CacheDirEntry>,
    root: Option<usize>,
    ids: Ghost<Seq<usize>>,
}

/// The kind of a listed entry.
#[derive(Debug, Clone, Copy, PartialEq, Eq, Structural)]
pub enum Type {
    Regular,
    Directory,
    Root,
}

/// A listed entry: its name, its path relative to its root, its kind and its
/// index among the files or the directories.
#[derive(Debug)]
pub struct File<'a> {
    pub name: &'a str,
    pub path_relative_root: &'a str,
    pub ty: Type,
    pub id: usize,
}

/// How a pointed-to entry is listed: its name (the root's path for a root, its
/// last path component otherwise), its path, its kind and its index.
pub open spec fn listing(cache: Cache, p: Pointer) -> (Seq<char>, Seq<char>, Type, usize) {
    let e = cache.entry_at(p);
    let (id, ty) = match p {
        Pointer::File(i) => (i, Type::Regular),
        Pointer::Dir(i) => (i, Type::Directory),
    };
    if e.path() == seq!['/'] {
        (cache.roots_view()[e.root_index() as int], e.path(), Type::Root, id)
    } else {
        (basename_of(e.path())->0, e.path(), ty, id)
    }
}

/// The view of a listed entry.
pub open spec fn file_view(f: File) -> (Seq<char>, Seq<char>, Type, usize) {
    (f.name@, f.path_relative_root@, f.ty, f.id)
}

/// The name shown for a directory of the path after the first: its last path
/// component, or `??` when it has none.
pub open spec fn crumb(e: CacheEntry) -> Seq<char> {
    match basename_of(e.path()) {
        Some(b) => b,
        None => "??"@,
    }
}

impl<'a> Tree<'a> {
    #[verifier::type_invariant]
    closed spec fn inv(&self) -> bool {
        &&& self.path@.len() == self.ids@.len()
        &&& forall|k: int|
            0 <= k < self.ids@.len() ==> (#[trigger] self.ids@[k]) < self.cache.dirs_view().len()
                && *self.path@[k] == self.cache.dirs_view()[self.ids@[k] as int]
        &&& (self.root is None <==> self.path@.len() == 0)
        &&& self.path@.len() > 0 ==> self.root == Some(
            self.path@[0].entry_view().root_index(),
        )
    }

    /// The cache browsed.
    pub closed spec fn cache_view(&self) -> Cache {
        *self.cache
    }

    /// The indices of the directories entered, from the root down.
    pub closed spec fn dir_ids(&self) -> Seq<usize> {
        self.ids@
    }

    /// The pointers listed at the top: the roots with no directory entered,
    /// otherwise the children of the last directory entered.
    pub open spec fn top(&self) -> Seq<Pointer> {
        if self.dir_ids().len() == 0 {
            self.cache_view().root_dir_view()
        } else {
            self.cache_view().dirs_view()[self.dir_ids().last() as int].children_view()
        }
    }

    /// The root of the first directory entered, if any, is a root of the cache.
    pub open spec fn crumbs_named(&self) -> bool {
        self.dir_ids().len() > 0 ==> self.cache_view().dirs_view()[self.dir_ids()[0] as int].entry_view().root_index()
            < self.cache_view().roots_view().len()
    }

    /// The pointers at the top name entries of the cache, and those that are roots
    /// name roots of the cache.
    pub open spec fn top_listable(&self) -> bool {
        forall|k: int|
            0 <= k < self.top().len() ==> self.cache_view().valid_pointer(#[trigger] self.top()[k]) && (
            self.cache_view().entry_at(self.top()[k]).path() == seq!['/'] ==> self.cache_view().entry_at(
                self.top()[k],
            ).root_index() < self.cache_view().roots_view().len())
    }

    /// At the roots of `cache`.
    pub fn new(cache: &'a Cache) -> (t: Self)
        ensures
            t.cache_view() == *cache,
            t.dir_ids() == Seq::<usize>::empty(),
    {
        Self { cache, path: Vec::new(), root: None, ids: Ghost(Seq::empty()) }
    }

    /// Leaves the last directory entered; refused at the roots.
    pub fn cd_up(&mut self) -> (r: Result<(), ()>)
        ensures
            final(self).cache_view() == old(self).cache_view(),
            old(self).dir_ids().len() == 0 ==> r is Err && final(self).dir_ids() == old(self).dir_ids(),
            old(self).dir_ids().len() > 0 ==> r is Ok && final(self).dir_ids() == old(self).dir_ids().drop_last(),
    {
        proof {
            use_type_invariant(&*self);
        }
        if self.path.len() == 0 {
            return Err(());
        }
        let ghost new_ids = self.ids@.drop_last();
        let mut path = self.path.clone();
        proof {
            assert(path@ =~= self.path@);
        }
        path.pop();
        let root = if path.len() == 0 {
            None
        } else {
            self.root
        };
        *self = Tree { cache: self.cache, path, root, ids: Ghost(new_ids) };
        Ok(())
    }

    /// Enters directory `dir_id`; refused when the cache has no such directory.
    pub fn cd(&mut self, dir_id: usize) -> (r: Result<(), ()>)
        ensures
            final(self).cache_view() == old(self).cache_view(),
            dir_id >= old(self).cache_view().dirs_view().len() ==> r is Err && final(self).dir_ids() == old(self).dir_ids(),
            dir_id < old(self).cache_view().dirs_view().len() ==> r is Ok && final(self).dir_ids() == old(self).dir_ids().push(dir_id),
    {
        proof {
            use_type_invariant(&*self);
        }
        let dir_pointer = Pointer::Dir(dir_id);
        let entry = match self.cache.deref_dir(dir_pointer) {
            Some(e) => e,
            None => {
                return Err(());
            },
        };
        let root = if self.path.len() == 0 {
            Some(entry.root())
        } else {
            self.root
        };
        let ghost new_ids = self.ids@.push(dir_id);
        let mut path = self.path.clone();
        proof {
            assert(path@ =~= self.path@);
        }
        path.push(entry);
        *self = Tree { cache: self.cache, path, root, ids: Ghost(new_ids) };
        Ok(())
    }

    /// The root of the directories entered, if any.
    pub fn root(&self) -> (r: Option<usize>)
        ensures
            self.dir_ids().len() == 0 ==> r is None,
            self.dir_ids().len() > 0 ==> r == Some(
                self.cache_view().dirs_view()[self.dir_ids()[0] as int].entry_view().root_index(),
            ),
    {
        proof {
            use_type_invariant(self);
        }
        self.root
    }

    /// The names of the directories entered: the root's path first, then the last
    /// component of each following one (see `crumb`).
    pub fn breadcrumbs(&self) -> (r: Vec<String>)
        requires
            self.crumbs_named(),
        ensures
            r@.len() == self.dir_ids().len(),
            forall|k: int|
                0 < k < r@.len() ==> (#[trigger] r@[k])@ == crumb(
                    self.cache_view().dirs_view()[self.dir_ids()[k] as int].entry_view(),
                ),
            r@.len() > 0 ==> r@[0]@ == self.cache_view().roots_view()[self.cache_view().dirs_view()[self.dir_ids()[0] as int].entry_view().root_index() as int],
    {
        proof {
            use_type_invariant(self);
        }
        let ghost c = self.cache_view();
        let ghost ids = self.dir_ids();
        let mut bread: Vec<String> = Vec::new();
        if self.path.len() == 0 {
            return bread;
        }
        let first = self.path[0];
        proof {
            assert(ids[0] < c.dirs_view().len());
            assert(c.dirs_view()[ids[0] as int].entry_view().root_index() < c.roots_view().len());
        }
        let rp = self.cache.root_path(first.cache_entry());
        bread.push(String::from_str(rp));
        let mut k: usize = 1;
        while k < self.path.len()
            invariant
                c == self.cache_view(),
                ids == self.dir_ids(),
                self.path@.len() == ids.len(),
                forall|j: int|
                    0 <= j < ids.len() ==> (#[trigger] ids[j]) < c.dirs_view().len()
                        && *self.path@[j] == c.dirs_view()[ids[j] as int],
                1 <= k <= self.path@.len(),
                bread@.len() == k,
                bread@[0]@ == c.roots_view()[c.dirs_view()[ids[0] as int].entry_view().root_index() as int],
                forall|j: int|
                    0 < j < k ==> (#[trigger] bread@[j])@ == crumb(
                        c.dirs_view()[ids[j] as int].entry_view(),
                    ),
            decreases self.path@.len() - k,
        {
            let p = self.path[k];
            let s = match basename(p.path_relative_root()) {
                Some(b) => String::from_str(b),
                None => {
                    proof {
                        reveal_strlit("??");
                    }
                    String::from_str("??")
                },
            };
            proof {
                assert(*self.path@[k as int] == c.dirs_view()[ids[k as int] as int]);
            }
            bread.push(s);
            k += 1;
        }
        bread
    }

    fn top_pointers(&self) -> (r: &[Pointer])
        ensures
            r@ == self.top(),
    {
        proof {
            use_type_invariant(self);
        }
        let n = self.path.len();
        if n == 0 {
            self.cache.roots()
        } else {
            self.path[n - 1].children()
        }
    }

    /// The entries listed at the top (see `top` and `listing`), in order.
    pub fn files(&self) -> (r: Vec<File<'a>>)
        requires
            self.top_listable(),
        ensures
            r@.len() == self.top().len(),
            forall|k: int|
                0 <= k < r@.len() ==> file_view(#[trigger] r@[k]) == listing(
                    self.cache_view(),
                    self.top()[k],
                ),
    {
        proof {
            use_type_invariant(self);
        }
        let cache: &'a Cache = self.cache;
        let ghost c = *cache;
        let pointers = self.top_pointers();
        let mut res: Vec<File<'a>> = Vec::new();
        let mut k: usize = 0;
        while k < pointers.len()
            invariant
                c == *cache,
                forall|j: int|
                    0 <= j < pointers@.len() ==> c.valid_pointer(#[trigger] pointers@[j]) && (c.entry_at(
                        pointers@[j],
                    ).path() == seq!['/'] ==> c.entry_at(pointers@[j]).root_index() < c.roots_view().len()),
                k <= pointers@.len(),
                res@.len() == k,
                forall|j: int|
                    0 <= j < k ==> file_view(#[trigger] res@[j]) == listing(c, pointers@[j]),
            decreases pointers@.len() - k,
        {
            let point = pointers[k];
            let entry = cache.deref(point).unwrap();
            let relative_root = entry.path_relative_root();
            let (id, ty) = match point {
                Pointer::File(i) => (i, Type::Regular),
                Pointer::Dir(i) => (i, Type::Directory),
            };
            if entry.is_root() {
                let name = cache.root_path(entry);
                res.push(File { ty: Type::Root, name, path_relative_root: relative_root, id });
            } else {
                let name = basename(relative_root).unwrap();
                res.push(File { ty, name, path_relative_root: relative_root, id });
            }
            k += 1;
        }
        res
    }
}

/// Entering a directory and leaving it again gives back the position before:
/// the same cache and the same directories entered, so the same listing.
pub proof fn lemma_cd_up_undoes_cd(before: Tree, entered: Tree, left: Tree, dir_id: usize)
    requires
        entered.cache_view() == before.cache_view(),
        entered.dir_ids() == before.dir_ids().push(dir_id),
        left.cache_view() == entered.cache_view(),
        left.dir_ids() == entered.dir_ids().drop_last(),
    ensures
        left.cache_view() == before.cache_view(),
        left.dir_ids() == before.dir_ids(),
        left.top() == before.top(),
{
    assert(before.dir_ids().push(dir_id).drop_last() =~= before.dir_ids());
}

} // verus!
