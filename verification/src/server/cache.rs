//! A cache of the files and directories found under a list of source directories
//! ("roots"), with each directory pointing at its children.
use vstd::prelude::*;
use std::time::SystemTime;
use crate::server::paths::{dirname, dirname_of, last_slash, find_last_slash};
use crate::text::{seq_le, str_le, lemma_seq_le_total, lemma_seq_le_transitive};

verus! {

#[verifier::external_type_specification]
#[verifier::external_body]
pub struct ExSystemTime(SystemTime);

/// `SystemTime::now`: the current time of the system clock. Nothing is claimed
/// of the value.
#[verifier::external_body]
pub(crate) fn system_now() -> (t: SystemTime) {
    SystemTime::now()
}

/// A file or a directory of the cache, by its index in the files or the
/// directories.
#[derive(Debug, Clone, Copy, PartialEq, Eq, Structural)]
pub enum Pointer {
    File(usize),
    Dir(usize),
}

/// A file or directory: its path relative to its root (starting with `/`; the
/// root itself is `/`) and the index of its root.
#[derive(Debug)]
pub struct CacheEntry {
    relative_path: String,
    root: usize,
}

/// A directory and its children: first the directories, then the files, each
/// kind in ascending order of path.
#[derive(Debug)]
pub struct CacheDirEntry {
    entry: CacheEntry,
    children: Vec<Pointer>,
}

/// The main path separator.
pub const MAIN_SEPARATOR: char = '/';

/// The position of the last separator of `p`, 0 when there is none.
pub open spec fn basename_start(p: Seq<char>) -> int {
    match last_slash(p) {
        Some(k) => k,
        None => 0,
    }
}

/// The path of the directory that holds `p`: its directory part, or `/`.
pub open spec fn parent_path(p: Seq<char>) -> Seq<char> {
    match dirname_of(p) {
        Some(d) => d,
        None => seq!['/'],
    }
}

impl CacheEntry {
    #[verifier::type_invariant]
    closed spec fn inv(&self) -> bool {
        self.relative_path@.len() > 0 && self.relative_path@[0] == '/'
    }

    /// The path relative to the root.
    pub closed spec fn path(&self) -> Seq<char> {
        self.relative_path@
    }

    /// The index of the root.
    pub closed spec fn root_index(&self) -> usize {
        self.root
    }

    /// An entry for a path relative to root `root`; the path starts with `/`.
    pub fn new(relative_path: String, root: usize) -> (r: Self)
        requires
            relative_path@.len() > 0,
            relative_path@[0] == '/',
        ensures
            r.path() == relative_path@,
            r.root_index() == root,
    {
        Self { relative_path, root }
    }

    /// The entry of root `root` itself, whose path is `/`.
    pub fn new_root(root: usize) -> (r: Self)
        ensures
            r.path() == seq!['/'],
            r.root_index() == root,
    {
        let mut s = String::new();
        crate::text::push_char(&mut s, '/');
        Self::new(s, root)
    }

    /// Whether this is the entry of a root itself.
    pub fn is_root(&self) -> (b: bool)
        ensures
            b == (self.path() == seq!['/']),
    {
        let chars = crate::text::chars_of(self.relative_path.as_str());
        let b = chars.len() == 1 && chars[0] == '/';
        proof {
            if b {
                assert(self.path() =~= seq!['/']);
            }
        }
        b
    }

    /// The index of the root.
    pub fn root(&self) -> (r: usize)
        ensures
            r == self.root_index(),
    {
        self.root
    }

    /// The path relative to the root; it starts with `/`.
    pub fn path_relative_root(&self) -> (r: &str)
        ensures
            r@ == self.path(),
            r@.len() > 0,
            r@[0] == '/',
    {
        proof {
            use_type_invariant(self);
        }
        self.relative_path.as_str()
    }

    /// The position (in characters) of the last path separator of the path, where
    /// the last component starts; 0 when there is none.
    pub fn basename_char(&self) -> (r: usize)
        ensures
            r == basename_start(self.path()),
    {
        match find_last_slash(self.relative_path.as_str()) {
            Some(k) => k,
            None => 0,
        }
    }

    /// The directory that holds this entry: same root, the directory part of the
    /// path (`/` when there is none); none for a root itself.
    pub fn parent(&self) -> (r: Option<(&str, usize)>)
        ensures
            self.path() == seq!['/'] ==> r is None,
            self.path() != seq!['/'] ==> (r matches Some((p, root)) && root == self.root_index()
                && p@ == parent_path(self.path())),
    {
        if self.is_root() {
            return None;
        }
        let p = match dirname(self.relative_path.as_str()) {
            Some(d) => d,
            None => {
                proof {
                    reveal_strlit("/");
                    assert("/"@ =~= seq!['/']);
                }
                "/"
            },
        };
        Some((p, self.root))
    }
}

impl CacheDirEntry {
    /// The entry of the directory.
    pub closed spec fn entry_view(&self) -> CacheEntry {
        self.entry
    }

    /// The children of the directory.
    pub closed spec fn children_view(&self) -> Seq<Pointer> {
        self.children@
    }

    /// A directory without children.
    pub fn new(relative_path: String, root: usize) -> (r: Self)
        requires
            relative_path@.len() > 0,
            relative_path@[0] == '/',
        ensures
            r.entry_view().path() == relative_path@,
            r.entry_view().root_index() == root,
            r.children_view() == Seq::<Pointer>::empty(),
    {
        Self { entry: CacheEntry::new(relative_path, root), children: Vec::new() }
    }

    /// Root `root` itself, without children.
    pub fn new_root(root: usize) -> (r: Self)
        ensures
            r.entry_view().path() == seq!['/'],
            r.entry_view().root_index() == root,
            r.children_view() == Seq::<Pointer>::empty(),
    {
        Self { entry: CacheEntry::new_root(root), children: Vec::new() }
    }

    /// Replaces the children.
    pub fn set_children(&mut self, children: Vec<Pointer>)
        ensures
            final(self).entry_view() == old(self).entry_view(),
            final(self).children_view() == children@,
    {
        self.children = children;
    }

    /// The index of the root.
    pub fn root(&self) -> (r: usize)
        ensures
            r == self.entry_view().root_index(),
    {
        self.entry.root()
    }

    /// Whether this is a root itself.
    pub fn is_root(&self) -> (b: bool)
        ensures
            b == (self.entry_view().path() == seq!['/']),
    {
        self.entry.is_root()
    }

    /// The path relative to the root.
    pub fn path_relative_root(&self) -> (r: &str)
        ensures
            r@ == self.entry_view().path(),
    {
        self.entry.path_relative_root()
    }

    /// The directory that holds this one (see `CacheEntry::parent`).
    pub fn parent(&self) -> (r: Option<(&str, usize)>)
        ensures
            self.entry_view().path() == seq!['/'] ==> r is None,
            self.entry_view().path() != seq!['/'] ==> (r matches Some((p, root)) && root
                == self.entry_view().root_index() && p@ == parent_path(self.entry_view().path())),
    {
        self.entry.parent()
    }

    /// The children.
    pub fn children(&self) -> (r: &[Pointer])
        ensures
            r@ == self.children_view(),
    {
        self.children.as_slice()
    }

    /// The entry of the directory.
    pub fn cache_entry(&self) -> (r: &CacheEntry)
        ensures
            *r == self.entry_view(),
    {
        &self.entry
    }
}

/// A cache of all files and directories under a list of roots. Files and
/// directories are each in ascending order of path; pointers index them.
#[derive(Debug)]
pub struct Cache {
    files: Vec<CacheEntry>,
    dirs: Vec<CacheDirEntry>,
    root_dir: Vec<Pointer>,
    updated: Option<SystemTime>,
    roots: Vec<String>,
}

impl Cache {
    /// The files.
    pub closed spec fn files_view(&self) -> Seq<CacheEntry> {
        self.files@
    }

    /// The directories.
    pub closed spec fn dirs_view(&self) -> Seq<CacheDirEntry> {
        self.dirs@
    }

    /// The pointers to the roots' own directories.
    pub closed spec fn root_dir_view(&self) -> Seq<Pointer> {
        self.root_dir@
    }

    /// The paths of the roots.
    pub closed spec fn roots_view(&self) -> Seq<Seq<char>> {
        self.roots@.map_values(|s: String| s@)
    }

    /// When the cache was made.
    pub closed spec fn updated_view(&self) -> Option<SystemTime> {
        self.updated
    }

    /// The pointer names an entry of the cache.
    pub open spec fn valid_pointer(&self, p: Pointer) -> bool {
        match p {
            Pointer::File(i) => i < self.files_view().len(),
            Pointer::Dir(i) => i < self.dirs_view().len(),
        }
    }

    /// The entry a valid pointer names.
    pub open spec fn entry_at(&self, p: Pointer) -> CacheEntry {
        match p {
            Pointer::File(i) => self.files_view()[i as int],
            Pointer::Dir(i) => self.dirs_view()[i as int].entry_view(),
        }
    }

    /// Every pointer of the cache names an entry, and every entry names a root.
    pub open spec fn pointers_valid(&self) -> bool {
        &&& forall|k: int|
            0 <= k < self.root_dir_view().len() ==> self.valid_pointer(
                #[trigger] self.root_dir_view()[k],
            )
        &&& forall|d: int, k: int|
            0 <= d < self.dirs_view().len() && 0 <= k < self.dirs_view()[d].children_view().len()
                ==> self.valid_pointer(#[trigger] self.dirs_view()[d].children_view()[k])
        &&& forall|i: int|
            0 <= i < self.files_view().len() ==> (#[trigger] self.files_view()[i]).root_index()
                < self.roots_view().len()
        &&& forall|i: int|
            0 <= i < self.dirs_view().len() ==> (
            #[trigger] self.dirs_view()[i]).entry_view().root_index() < self.roots_view().len()
    }

    /// An empty cache, never updated.
    pub fn empty() -> (c: Self)
        ensures
            c.files_view().len() == 0,
            c.dirs_view().len() == 0,
            c.root_dir_view().len() == 0,
            c.roots_view().len() == 0,
            c.updated_view() is None,
            c.pointers_valid(),
    {
        Cache {
            files: Vec::new(),
            dirs: Vec::new(),
            root_dir: Vec::new(),
            updated: None,
            roots: Vec::new(),
        }
    }

    /// When the cache was made, if it ever was.
    pub fn updated(&self) -> (r: Option<SystemTime>)
        ensures
            r == self.updated_view(),
    {
        self.updated
    }

    /// All files, in ascending order of path.
    pub fn files(&self) -> (r: &[CacheEntry])
        ensures
            r@ == self.files_view(),
    {
        self.files.as_slice()
    }

    /// The pointers to the roots' own directories.
    pub fn roots(&self) -> (r: &[Pointer])
        ensures
            r@ == self.root_dir_view(),
    {
        self.root_dir.as_slice()
    }

    /// The paths of the roots.
    pub fn roots_path(&self) -> (r: &[String])
        ensures
            r@.map_values(|s: String| s@) == self.roots_view(),
    {
        self.roots.as_slice()
    }

    /// Whether the cache was made for other roots than `roots`.
    pub fn is_outdated(&self, roots: &[String]) -> (b: bool)
        ensures
            b == (self.roots_view() != roots@.map_values(|s: String| s@)),
    {
        let ghost mine = self.roots_view();
        let ghost theirs = roots@.map_values(|s: String| s@);
        if self.roots.len() != roots.len() {
            return true;
        }
        let mut i: usize = 0;
        while i < roots.len()
            invariant
                mine == self.roots_view(),
                theirs == roots@.map_values(|s: String| s@),
                self.roots@.len() == roots@.len(),
                i <= roots@.len(),
                forall|j: int| 0 <= j < i ==> mine[j] == theirs[j],
            decreases roots@.len() - i,
        {
            if self.roots[i] != roots[i] {
                proof {
                    assert(mine[i as int] != theirs[i as int]);
                }
                return true;
            }
            i += 1;
        }
        proof {
            assert(mine =~= theirs);
        }
        false
    }

    /// The entry a pointer names, if it names one.
    pub fn deref(&self, pointer: Pointer) -> (r: Option<&CacheEntry>)
        ensures
            self.valid_pointer(pointer) ==> r == Some(&self.entry_at(pointer)),
            !self.valid_pointer(pointer) ==> r is None,
    {
        match pointer {
            Pointer::Dir(i) => {
                if i < self.dirs.len() {
                    Some(self.dirs[i].cache_entry())
                } else {
                    None
                }
            },
            Pointer::File(i) => {
                if i < self.files.len() {
                    Some(&self.files[i])
                } else {
                    None
                }
            },
        }
    }

    /// The directory a pointer names, if it names one.
    pub fn deref_dir(&self, pointer: Pointer) -> (r: Option<&CacheDirEntry>)
        ensures
            match pointer {
                Pointer::Dir(i) => if i < self.dirs_view().len() {
                    r == Some(&self.dirs_view()[i as int])
                } else {
                    r is None
                },
                Pointer::File(_) => r is None,
            },
    {
        match pointer {
            Pointer::Dir(i) => {
                if i < self.dirs.len() {
                    Some(&self.dirs[i])
                } else {
                    None
                }
            },
            Pointer::File(_) => None,
        }
    }

    /// The file a pointer names, if it names one.
    pub fn deref_file(&self, pointer: Pointer) -> (r: Option<&CacheEntry>)
        ensures
            match pointer {
                Pointer::File(i) => if i < self.files_view().len() {
                    r == Some(&self.files_view()[i as int])
                } else {
                    r is None
                },
                Pointer::Dir(_) => r is None,
            },
    {
        match pointer {
            Pointer::Dir(_) => None,
            Pointer::File(i) => {
                if i < self.files.len() {
                    Some(&self.files[i])
                } else {
                    None
                }
            },
        }
    }

    /// The path of the root of an entry.
    pub fn root_path(&self, entry: &CacheEntry) -> (r: &str)
        requires
            entry.root_index() < self.roots_view().len(),
        ensures
            r@ == self.roots_view()[entry.root_index() as int],
    {
        self.roots[entry.root()].as_str()
    }
}

/// The outcome of reading the saved cache.
#[derive(Debug)]
pub enum CacheRead<E> {
    /// The cache that was read.
    Read(Cache),
    /// No cache was saved yet.
    Missing,
    /// Reading failed otherwise.
    Failed(E),
}

/// The cache to start from after reading the saved one: the cache read, unless
/// it was made for other roots than `roots`; an empty one when it is outdated
/// or none was saved; the error when reading failed otherwise.
pub fn loaded_cache<E>(read: CacheRead<E>, roots: &[String]) -> (r: Result<Cache, E>)
    ensures
        match read {
            CacheRead::Read(c) => if c.roots_view() != roots@.map_values(|s: String| s@) {
                r matches Ok(e) && e.files_view().len() == 0 && e.dirs_view().len() == 0
                    && e.root_dir_view().len() == 0 && e.roots_view().len() == 0
                    && e.updated_view() is None
            } else {
                r == Ok::<Cache, E>(c)
            },
            CacheRead::Missing => r matches Ok(e) && e.files_view().len() == 0
                && e.dirs_view().len() == 0 && e.root_dir_view().len() == 0
                && e.roots_view().len() == 0 && e.updated_view() is None,
            CacheRead::Failed(err) => r == Err::<Cache, E>(err),
        },
{
    match read {
        CacheRead::Read(c) => {
            if c.is_outdated(roots) {
                Ok(Cache::empty())
            } else {
                Ok(c)
            }
        },
        CacheRead::Missing => Ok(Cache::empty()),
        CacheRead::Failed(e) => Err(e),
    }
}

impl Default for Cache {
    fn default() -> (c: Self)
        ensures
            c.files_view().len() == 0,
            c.dirs_view().len() == 0,
            c.root_dir_view().len() == 0,
            c.roots_view().len() == 0,
            c.updated_view() is None,
    {
        Cache::empty()
    }
}

impl crate::order::Ranked for CacheEntry {
    open spec fn rank_le(&self, other: &Self) -> bool {
        seq_le(self.path(), other.path())
    }

    proof fn lemma_rank_total(a: &Self, b: &Self) {
        lemma_seq_le_total(a.path(), b.path());
    }

    proof fn lemma_rank_transitive(a: &Self, b: &Self, c: &Self) {
        lemma_seq_le_transitive(a.path(), b.path(), c.path());
    }

    fn ranks_le(&self, other: &Self) -> (r: bool) {
        str_le(self.relative_path.as_str(), other.relative_path.as_str())
    }
}

impl crate::order::Ranked for CacheDirEntry {
    open spec fn rank_le(&self, other: &Self) -> bool {
        seq_le(self.entry_view().path(), other.entry_view().path())
    }

    proof fn lemma_rank_total(a: &Self, b: &Self) {
        lemma_seq_le_total(a.entry_view().path(), b.entry_view().path());
    }

    proof fn lemma_rank_transitive(a: &Self, b: &Self, c: &Self) {
        lemma_seq_le_transitive(a.entry_view().path(), b.entry_view().path(), c.entry_view().path());
    }

    fn ranks_le(&self, other: &Self) -> (r: bool) {
        str_le(self.entry.relative_path.as_str(), other.entry.relative_path.as_str())
    }
}

/// The entry a valid pointer names, given the files and directories.
pub open spec fn entry_in(files: Seq<CacheEntry>, dirs: Seq<CacheDirEntry>, p: Pointer) -> Option<
    CacheEntry,
> {
    match p {
        Pointer::File(i) => if i < files.len() {
            Some(files[i as int])
        } else {
            None
        },
        Pointer::Dir(i) => if i < dirs.len() {
            Some(dirs[i as int].entry_view())
        } else {
            None
        },
    }
}

/// Two neighbouring children are in order: directories before files, and within
/// a kind by path; both pointers name entries.
pub open spec fn children_pair_ok(
    files: Seq<CacheEntry>,
    dirs: Seq<CacheDirEntry>,
    l: Pointer,
    r: Pointer,
) -> bool {
    match (l, r) {
        (Pointer::File(_), Pointer::Dir(_)) => false,
        (Pointer::Dir(_), Pointer::File(_)) => true,
        _ => match (entry_in(files, dirs, l), entry_in(files, dirs, r)) {
            (Some(a), Some(b)) => seq_le(a.path(), b.path()),
            _ => false,
        },
    }
}

/// The order the cache keeps: in every directory the children are in order
/// (see `children_pair_ok`); no file and no directory occurs twice (by path and
/// root); files and directories are each in ascending order of path; the
/// roots' directories are valid and in ascending order of path.
pub open spec fn cache_ordered(
    files: Seq<CacheEntry>,
    dirs: Seq<CacheDirEntry>,
    root_dir: Seq<Pointer>,
) -> bool {
    &&& forall|d: int, k: int|
        #![trigger dirs[d].children_view()[k]]
        0 <= d < dirs.len() && 0 <= k < dirs[d].children_view().len() - 1 ==> children_pair_ok(
            files,
            dirs,
            dirs[d].children_view()[k],
            dirs[d].children_view()[k + 1],
        )
    &&& forall|j: int, k: int|
        #![trigger files[j], files[k]]
        0 <= j < k < files.len() ==> !(files[j].path() == files[k].path() && files[j].root_index()
            == files[k].root_index())
    &&& forall|j: int, k: int|
        #![trigger dirs[j], dirs[k]]
        0 <= j < k < dirs.len() ==> !(dirs[j].entry_view().path() == dirs[k].entry_view().path()
            && dirs[j].entry_view().root_index() == dirs[k].entry_view().root_index())
    &&& forall|k: int|
        0 <= k < files.len() - 1 ==> seq_le(#[trigger] files[k].path(), files[k + 1].path())
    &&& forall|k: int|
        0 <= k < dirs.len() - 1 ==> seq_le(
            #[trigger] dirs[k].entry_view().path(),
            dirs[k + 1].entry_view().path(),
        )
    &&& forall|k: int|
        #![trigger root_dir[k]]
        0 <= k < root_dir.len() - 1 ==> match (
            entry_in(files, dirs, root_dir[k]),
            entry_in(files, dirs, root_dir[k + 1]),
        ) {
            (Some(a), Some(b)) => seq_le(a.path(), b.path()),
            _ => false,
        }
}

impl Cache {
    /// A cache of the given files and directories, made now. The parts must be in
    /// the order the cache keeps (see `cache_ordered`).
    pub fn new(
        files: Vec<CacheEntry>,
        dirs: Vec<CacheDirEntry>,
        roots: Vec<String>,
        root_dir: Vec<Pointer>,
    ) -> (c: Self)
        requires
            cache_ordered(files@, dirs@, root_dir@),
        ensures
            c.files_view() == files@,
            c.dirs_view() == dirs@,
            c.root_dir_view() == root_dir@,
            c.roots_view() == roots@.map_values(|s: String| s@),
            c.updated_view() is Some,
    {
        Cache { files, dirs, updated: Some(system_now()), roots, root_dir }
    }
}

} // verus!
