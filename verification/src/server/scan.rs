//! Building the cache from the paths found under the roots: which files are
//! kept, the entries relative to their roots, the links from each directory to
//! its children, and the order of everything.
use vstd::prelude::*;
use crate::server::cache::{
    Cache, CacheDirEntry, CacheEntry, Pointer, parent_path, cache_ordered, children_pair_ok, entry_in,
};
use crate::order::Ranked;
use crate::text::{
    chars_of, seq_le, lemma_seq_le_transitive, lemma_seq_le_reflexive, lemma_seq_le_antisymmetric,
    str_le,
};
use crate::server::lang::str_eq;

verus! {

/// The extensions of the files that are kept.
pub open spec fn ext_whitelist() -> Seq<Seq<char>> {
    seq![".mp4"@, ".mkv"@, ".wmv"@, ".webm"@, ".avi"@]
}

/// `s` ends with `suffix`.
pub open spec fn ends_with(s: Seq<char>, suffix: Seq<char>) -> bool {
    suffix.len() <= s.len() && s.subrange(s.len() - suffix.len(), s.len() as int) == suffix
}

/// `s` starts with `prefix`.
pub open spec fn starts_with(s: Seq<char>, prefix: Seq<char>) -> bool {
    prefix.len() <= s.len() && s.subrange(0, prefix.len() as int) == prefix
}

/// Whether `s` ends with `suffix`.
pub fn str_ends_with(s: &str, suffix: &str) -> (b: bool)
    ensures
        b == ends_with(s@, suffix@),
{
    let sc = chars_of(s);
    let xc = chars_of(suffix);
    if xc.len() > sc.len() {
        return false;
    }
    let off = sc.len() - xc.len();
    let mut i: usize = 0;
    while i < xc.len()
        invariant
            sc@ == s@,
            xc@ == suffix@,
            off == sc@.len() - xc@.len(),
            xc@.len() <= sc@.len(),
            sc@.len() <= usize::MAX,
            i <= xc@.len(),
            forall|j: int| 0 <= j < i ==> sc@[off + j] == xc@[j],
        decreases xc@.len() - i,
    {
        if sc[off + i] != xc[i] {
            proof {
                assert(s@.subrange(off as int, s@.len() as int)[i as int] != suffix@[i as int]);
            }
            return false;
        }
        i += 1;
    }
    proof {
        assert(s@.subrange(off as int, s@.len() as int) =~= suffix@);
    }
    true
}

/// The path has one of the kept extensions.
pub open spec fn whitelisted(path: Seq<char>) -> bool {
    exists|k: int| 0 <= k < ext_whitelist().len() && ends_with(path, #[trigger] ext_whitelist()[k])
}

/// Whether the path has one of the kept extensions (see `ext_whitelist`).
pub fn has_whitelisted_extension(path: &str) -> (b: bool)
    ensures
        b == whitelisted(path@),
{
    let exts: [&str; 5] = [".mp4", ".mkv", ".wmv", ".webm", ".avi"];
    proof {
        reveal_strlit(".mp4");
        reveal_strlit(".mkv");
        reveal_strlit(".wmv");
        reveal_strlit(".webm");
        reveal_strlit(".avi");
        assert(exts@.map_values(|e: &str| e@) =~= ext_whitelist());
    }
    let mut k: usize = 0;
    while k < 5
        invariant
            k <= 5,
            exts@.map_values(|e: &str| e@) == ext_whitelist(),
            forall|j: int| 0 <= j < k ==> !ends_with(path@, #[trigger] ext_whitelist()[j]),
        decreases 5 - k,
    {
        proof {
            assert(exts@.map_values(|e: &str| e@)[k as int] == exts@[k as int]@);
        }
        if str_ends_with(path, exts[k]) {
            return true;
        }
        k += 1;
    }
    false
}

/// The path of a found entry relative to its root: what follows the root's path.
pub open spec fn relative_to(path: Seq<char>, root: Seq<char>) -> Seq<char> {
    path.subrange(root.len() as int, path.len() as int)
}

/// A path found under root `i`: it starts with the root's path, followed by `/`.
pub open spec fn found_under(path: Seq<char>, i: int, roots: Seq<Seq<char>>) -> bool {
    &&& 0 <= i < roots.len()
    &&& starts_with(path, roots[i])
    &&& path.len() > roots[i].len()
    &&& path[roots[i].len() as int] == '/'
}

/// The views of the roots.
pub open spec fn root_views(roots: Seq<String>) -> Seq<Seq<char>> {
    roots.map_values(|s: String| s@)
}

fn strip_root<'a>(path: &'a str, root: &str) -> (r: &'a str)
    requires
        starts_with(path@, root@),
    ensures
        r@ == relative_to(path@, root@),
{
    let n = path.unicode_len();
    let k = root.unicode_len();
    path.substring_char(k, n)
}

/// The entry for a file found under root `i`, when it has a kept extension.
pub fn create_cache_entry(path: &str, i: usize, roots: &[String]) -> (r: Option<CacheEntry>)
    requires
        found_under(path@, i as int, root_views(roots@)),
    ensures
        whitelisted(path@) ==> (r matches Some(e) && e.path() == relative_to(
            path@,
            roots@[i as int]@,
        ) && e.root_index() == i),
        !whitelisted(path@) ==> r is None,
{
    if !has_whitelisted_extension(path) {
        return None;
    }
    let root = roots[i].as_str();
    proof {
        assert(root_views(roots@)[i as int] == roots@[i as int]@);
    }
    let rel = strip_root(path, root);
    Some(CacheEntry::new(String::from_str(rel), i))
}

/// The entry for a directory found under root `i`.
pub fn create_cache_dir_entry(path: &str, i: usize, roots: &[String]) -> (r: CacheDirEntry)
    requires
        found_under(path@, i as int, root_views(roots@)),
    ensures
        r.entry_view().path() == relative_to(path@, roots@[i as int]@),
        r.entry_view().root_index() == i,
        r.children_view() == Seq::<Pointer>::empty(),
{
    let root = roots[i].as_str();
    proof {
        assert(root_views(roots@)[i as int] == roots@[i as int]@);
    }
    let rel = strip_root(path, root);
    CacheDirEntry::new(String::from_str(rel), i)
}

/// The roots' own directories, one per root, in order.
pub fn surface_scan(roots: &[String]) -> (r: Vec<CacheDirEntry>)
    ensures
        r@.len() == roots@.len(),
        forall|i: int|
            0 <= i < r@.len() ==> (#[trigger] r@[i]).entry_view().path() == seq!['/']
                && r@[i].entry_view().root_index() == i && r@[i].children_view() == Seq::<
                Pointer,
            >::empty(),
{
    let mut r: Vec<CacheDirEntry> = Vec::new();
    let mut i: usize = 0;
    while i < roots.len()
        invariant
            i <= roots@.len(),
            r@.len() == i,
            forall|j: int|
                0 <= j < i ==> (#[trigger] r@[j]).entry_view().path() == seq!['/']
                    && r@[j].entry_view().root_index() == j && r@[j].children_view() == Seq::<
                    Pointer,
                >::empty(),
        decreases roots@.len() - i,
    {
        r.push(CacheDirEntry::new_root(i));
        i += 1;
    }
    r
}

/// `e` is directly inside directory `d`: same root, and the parent path of `e` is
/// `d`'s path. A root's own directory is inside nothing.
pub open spec fn is_child_of(e: CacheEntry, d: CacheEntry) -> bool {
    &&& e.path() != seq!['/']
    &&& d.root_index() == e.root_index()
    &&& d.path() == parent_path(e.path())
}

/// No two directories have the same path under the same root.
pub open spec fn distinct_dirs(dirs: Seq<CacheDirEntry>) -> bool {
    forall|j: int, k: int|
        #![trigger dirs[j], dirs[k]]
        0 <= j < k < dirs.len() ==> !(dirs[j].entry_view().path() == dirs[k].entry_view().path()
            && dirs[j].entry_view().root_index() == dirs[k].entry_view().root_index())
}

/// Some directory holds `e`.
pub open spec fn has_parent(dirs: Seq<CacheDirEntry>, e: CacheEntry) -> bool {
    exists|j: int| 0 <= j < dirs.len() && is_child_of(e, #[trigger] dirs[j].entry_view())
}

/// Directories in ascending order of path.
pub open spec fn dirs_sorted(dirs: Seq<CacheDirEntry>) -> bool {
    forall|j: int, k: int|
        #![trigger dirs[j], dirs[k]]
        0 <= j < k < dirs.len() ==> seq_le(dirs[j].entry_view().path(), dirs[k].entry_view().path())
}

/// The first position whose path does not come before `p`: every path before it
/// comes before `p`, and `p` comes before every path from it on.
fn lower_bound(dirs: &[CacheDirEntry], p: &str) -> (k: usize)
    requires
        dirs_sorted(dirs@),
    ensures
        k <= dirs@.len(),
        forall|m: int| 0 <= m < k ==> !seq_le(p@, #[trigger] dirs@[m].entry_view().path()),
        forall|m: int| k <= m < dirs@.len() ==> seq_le(p@, #[trigger] dirs@[m].entry_view().path()),
{
    let mut lo: usize = 0;
    let mut hi: usize = dirs.len();
    while lo < hi
        invariant
            dirs_sorted(dirs@),
            lo <= hi <= dirs@.len(),
            forall|m: int| 0 <= m < lo ==> !seq_le(p@, #[trigger] dirs@[m].entry_view().path()),
            forall|m: int| hi <= m < dirs@.len() ==> seq_le(p@, #[trigger] dirs@[m].entry_view().path()),
        decreases hi - lo,
    {
        let mid = lo + (hi - lo) / 2;
        if str_le(p, dirs[mid].path_relative_root()) {
            proof {
                assert forall|m: int| mid <= m < dirs@.len() implies seq_le(
                    p@,
                    #[trigger] dirs@[m].entry_view().path(),
                ) by {
                    if m > mid {
                        assert(seq_le(dirs@[mid as int].entry_view().path(), dirs@[m].entry_view().path()));
                        lemma_seq_le_transitive(p@, dirs@[mid as int].entry_view().path(), dirs@[m].entry_view().path());
                    }
                }
            }
            hi = mid;
        } else {
            proof {
                assert forall|m: int| 0 <= m < mid + 1 implies !seq_le(
                    p@,
                    #[trigger] dirs@[m].entry_view().path(),
                ) by {
                    if m < mid && seq_le(p@, dirs@[m].entry_view().path()) {
                        assert(seq_le(dirs@[m].entry_view().path(), dirs@[mid as int].entry_view().path()));
                        lemma_seq_le_transitive(p@, dirs@[m].entry_view().path(), dirs@[mid as int].entry_view().path());
                    }
                }
            }
            lo = mid + 1;
        }
    }
    lo
}

/// The directory that holds `e`, if there is one among `dirs`.
pub fn find_parent(dirs: &[CacheDirEntry], e: &CacheEntry) -> (r: Option<usize>)
    requires
        dirs_sorted(dirs@),
    ensures
        r matches Some(j) ==> j < dirs@.len() && is_child_of(*e, dirs@[j as int].entry_view()),
        r is None ==> !has_parent(dirs@, *e),
{
    let (p, root) = match e.parent() {
        Some(x) => x,
        None => {
            return None;
        },
    };
    let lb = lower_bound(dirs, p);
    let mut k = lb;
    while k < dirs.len() && str_eq(dirs[k].path_relative_root(), p)
        invariant
            dirs_sorted(dirs@),
            e.path() != seq!['/'],
            root == e.root_index(),
            p@ == parent_path(e.path()),
            lb <= k <= dirs@.len(),
            forall|m: int| 0 <= m < lb ==> !seq_le(p@, #[trigger] dirs@[m].entry_view().path()),
            forall|m: int| lb <= m < dirs@.len() ==> seq_le(p@, #[trigger] dirs@[m].entry_view().path()),
            forall|m: int| lb <= m < k ==> !is_child_of(*e, #[trigger] dirs@[m].entry_view()),
        decreases dirs@.len() - k,
    {
        if dirs[k].root() == root {
            return Some(k);
        }
        k += 1;
    }
    proof {
        assert forall|m: int| 0 <= m < dirs@.len() implies !is_child_of(
            *e,
            #[trigger] dirs@[m].entry_view(),
        ) by {
            if m < lb {
                lemma_seq_le_reflexive(p@);
            } else if m >= k && k < dirs@.len() {
                let dk = dirs@[k as int].entry_view().path();
                if dirs@[m].entry_view().path() == p@ && m > k {
                    assert(seq_le(dk, dirs@[m].entry_view().path()));
                    lemma_seq_le_antisymmetric(dk, p@);
                }
            }
        }
    }
    None
}

/// The directories among the first `n` that `d` holds, in order.
pub open spec fn dir_children(dirs: Seq<CacheDirEntry>, d: CacheEntry, n: int) -> Seq<Pointer>
    decreases n,
{
    if n <= 0 {
        Seq::empty()
    } else {
        dir_children(dirs, d, n - 1) + if is_child_of(dirs[n - 1].entry_view(), d) {
            seq![Pointer::Dir((n - 1) as usize)]
        } else {
            Seq::empty()
        }
    }
}

/// The files among the first `n` that `d` holds, in order.
pub open spec fn file_children(files: Seq<CacheEntry>, d: CacheEntry, n: int) -> Seq<Pointer>
    decreases n,
{
    if n <= 0 {
        Seq::empty()
    } else {
        file_children(files, d, n - 1) + if is_child_of(files[n - 1], d) {
            seq![Pointer::File((n - 1) as usize)]
        } else {
            Seq::empty()
        }
    }
}

/// The children of `d`: the directories it holds, then the files it holds, each
/// in order.
pub open spec fn children_of(dirs: Seq<CacheDirEntry>, files: Seq<CacheEntry>, d: CacheEntry) -> Seq<
    Pointer,
> {
    dir_children(dirs, d, dirs.len() as int) + file_children(files, d, files.len() as int)
}

/// The directories among the first `n` that no directory holds, in order.
pub open spec fn top_dirs(dirs: Seq<CacheDirEntry>, n: int) -> Seq<usize>
    decreases n,
{
    if n <= 0 {
        Seq::empty()
    } else {
        top_dirs(dirs, n - 1) + if !has_parent(dirs, dirs[n - 1].entry_view()) {
            seq![(n - 1) as usize]
        } else {
            Seq::empty()
        }
    }
}

/// Two directories with the same path and root are the same directory.
proof fn lemma_distinct_key(dirs: Seq<CacheDirEntry>, j: int, k: int)
    requires
        distinct_dirs(dirs),
        0 <= j < dirs.len(),
        0 <= k < dirs.len(),
        dirs[j].entry_view().path() == dirs[k].entry_view().path(),
        dirs[j].entry_view().root_index() == dirs[k].entry_view().root_index(),
    ensures
        j == k,
{
    if j < k {
        assert(!(dirs[j].entry_view().path() == dirs[k].entry_view().path()
            && dirs[j].entry_view().root_index() == dirs[k].entry_view().root_index()));
    } else if k < j {
        assert(!(dirs[k].entry_view().path() == dirs[j].entry_view().path()
            && dirs[k].entry_view().root_index() == dirs[j].entry_view().root_index()));
    }
}

/// For every directory, its children (see `children_of`), and the directories
/// that no directory holds.
pub fn link(files: &[CacheEntry], dirs: &[CacheDirEntry]) -> (r: (Vec<Vec<Pointer>>, Vec<usize>))
    requires
        dirs_sorted(dirs@),
        distinct_dirs(dirs@),
    ensures
        r.0@.len() == dirs@.len(),
        forall|j: int|
            0 <= j < dirs@.len() ==> (#[trigger] r.0@[j])@ == children_of(
                dirs@,
                files@,
                dirs@[j].entry_view(),
            ),
        r.1@ == top_dirs(dirs@, dirs@.len() as int),
        dirs@.len() <= usize::MAX,
        files@.len() <= usize::MAX,
{
    let n = dirs.len();
    let mut children: Vec<Vec<Pointer>> = Vec::new();
    let mut j: usize = 0;
    while j < n
        invariant
            n == dirs@.len(),
            j <= n,
            children@.len() == j,
            forall|k: int| 0 <= k < j ==> (#[trigger] children@[k])@ == Seq::<Pointer>::empty(),
        decreases n - j,
    {
        children.push(Vec::new());
        j += 1;
    }
    let mut roots: Vec<usize> = Vec::new();
    let mut i: usize = 0;
    while i < n
        invariant
            n == dirs@.len(),
            dirs_sorted(dirs@),
            distinct_dirs(dirs@),
            i <= n,
            children@.len() == n,
            forall|k: int|
                0 <= k < n ==> (#[trigger] children@[k])@ == dir_children(
                    dirs@,
                    dirs@[k].entry_view(),
                    i as int,
                ),
            roots@ == top_dirs(dirs@, i as int),
        decreases n - i,
    {
        let ghost before = children@;
        match find_parent(dirs, dirs[i].cache_entry()) {
            Some(p) => {
                children[p].push(Pointer::Dir(i));
                proof {
                    assert forall|k: int| 0 <= k < n implies (#[trigger] children@[k])@
                        == dir_children(dirs@, dirs@[k].entry_view(), i + 1) by {
                        if k != p {
                            assert(children@[k] == before[k]);
                            if is_child_of(dirs@[i as int].entry_view(), dirs@[k].entry_view()) {
                                lemma_distinct_key(dirs@, k, p as int);
                            }
                        }
                    }
                }
            },
            None => {
                roots.push(i);
                proof {
                    assert forall|k: int| 0 <= k < n implies (#[trigger] children@[k])@
                        == dir_children(dirs@, dirs@[k].entry_view(), i + 1) by {
                        assert(children@[k] == before[k]);
                        if is_child_of(dirs@[i as int].entry_view(), dirs@[k].entry_view()) {
                            assert(has_parent(dirs@, dirs@[i as int].entry_view()));
                        }
                    }
                }
            },
        }
        i += 1;
    }
    let nf = files.len();
    let mut f: usize = 0;
    while f < nf
        invariant
            n == dirs@.len(),
            nf == files@.len(),
            dirs_sorted(dirs@),
            distinct_dirs(dirs@),
            f <= nf,
            children@.len() == n,
            forall|k: int|
                0 <= k < n ==> (#[trigger] children@[k])@ == dir_children(
                    dirs@,
                    dirs@[k].entry_view(),
                    n as int,
                ) + file_children(files@, dirs@[k].entry_view(), f as int),
        decreases nf - f,
    {
        let ghost before = children@;
        match find_parent(dirs, &files[f]) {
            Some(p) => {
                children[p].push(Pointer::File(f));
                proof {
                    assert forall|k: int| 0 <= k < n implies (#[trigger] children@[k])@
                        == dir_children(dirs@, dirs@[k].entry_view(), n as int) + file_children(
                        files@,
                        dirs@[k].entry_view(),
                        f + 1,
                    ) by {
                        if k != p {
                            assert(children@[k] == before[k]);
                            if is_child_of(files@[f as int], dirs@[k].entry_view()) {
                                lemma_distinct_key(dirs@, k, p as int);
                            }
                        } else {
                            assert(children@[k]@ =~= before[k]@.push(Pointer::File(f)));
                        }
                    }
                }
            },
            None => {
                proof {
                    assert forall|k: int| 0 <= k < n implies (#[trigger] children@[k])@
                        == dir_children(dirs@, dirs@[k].entry_view(), n as int) + file_children(
                        files@,
                        dirs@[k].entry_view(),
                        f + 1,
                    ) by {
                        if is_child_of(files@[f as int], dirs@[k].entry_view()) {
                            assert(has_parent(dirs@, files@[f as int]));
                        }
                        assert(file_children(files@, dirs@[k].entry_view(), f + 1) =~= file_children(
                            files@,
                            dirs@[k].entry_view(),
                            f as int,
                        ));
                    }
                }
            },
        }
        f += 1;
    }
    proof {
        assert forall|k: int| 0 <= k < n implies (#[trigger] children@[k])@ == children_of(
            dirs@,
            files@,
            dirs@[k].entry_view(),
        ) by {
            assert(file_children(files@, dirs@[k].entry_view(), nf as int) == file_children(
                files@,
                dirs@[k].entry_view(),
                files@.len() as int,
            ));
        }
    }
    (children, roots)
}

/// The path of a found entry relative to its root.
pub open spec fn rel_of(found: (usize, String), rv: Seq<Seq<char>>) -> Seq<char> {
    relative_to(found.1@, rv[found.0 as int])
}

/// The key of a file: its path and root.
pub open spec fn file_key(e: CacheEntry) -> (Seq<char>, usize) {
    (e.path(), e.root_index())
}

/// The key of a directory: its path and root.
pub open spec fn dir_key(d: CacheDirEntry) -> (Seq<char>, usize) {
    (d.entry_view().path(), d.entry_view().root_index())
}

/// `file_key` as a function value.
pub open spec fn file_key_fn() -> spec_fn(CacheEntry) -> (Seq<char>, usize) {
    |e: CacheEntry| file_key(e)
}

/// `dir_key` as a function value.
pub open spec fn dir_key_fn() -> spec_fn(CacheDirEntry) -> (Seq<char>, usize) {
    |d: CacheDirEntry| dir_key(d)
}

/// A found path is its root's path followed by its relative path.
proof fn lemma_found_split(path: Seq<char>, i: int, rv: Seq<Seq<char>>)
    requires
        found_under(path, i, rv),
    ensures
        path == rv[i] + relative_to(path, rv[i]),
{
    assert(path =~= rv[i] + relative_to(path, rv[i]));
}

/// The key of the `k`-th found path: its path relative to its root, and the root.
pub open spec fn found_key(found: Seq<(usize, String)>, rv: Seq<Seq<char>>, k: int) -> (
    Seq<char>,
    usize,
) {
    (rel_of(found[k], rv), found[k].0)
}

/// No path is found twice under the same root.
pub open spec fn distinct_found(found: Seq<(usize, String)>) -> bool {
    forall|j: int, k: int|
        #![trigger found[j], found[k]]
        0 <= j < k < found.len() ==> !(found[j].0 == found[k].0 && found[j].1@ == found[k].1@)
}

/// The entries of the kept files (see `whitelisted`), in the order found, and for
/// each the position of the path it came from.
#[verifier::spinoff_prover]
pub(crate) fn cache_files(found: &[(usize, String)], roots: &[String]) -> (r: (
    Vec<CacheEntry>,
    Ghost<Seq<int>>,
    Ghost<Seq<int>>,
))
    requires
        forall|k: int|
            0 <= k < found@.len() ==> found_under(
                (#[trigger] found@[k]).1@,
                found@[k].0 as int,
                root_views(roots@),
            ),
        distinct_found(found@),
    ensures
        r.1@.len() == r.0@.len(),
        forall|j: int|
            0 <= j < r.0@.len() ==> 0 <= #[trigger] r.1@[j] < found@.len() && whitelisted(
                found@[r.1@[j]].1@,
            ) && file_key(r.0@[j]) == found_key(found@, root_views(roots@), r.1@[j]),
        r.2@.len() == found@.len(),
        forall|k: int|
            0 <= k < found@.len() && whitelisted(found@[k].1@) ==> 0 <= #[trigger] r.2@[k] < r.0@.len()
                && r.1@[r.2@[k]] == k,
        crate::order::distinct_by(r.0@, file_key_fn()),
        forall|j: int| 0 <= j < r.0@.len() ==> (#[trigger] r.0@[j]).root_index() < roots@.len(),
{
    let ghost rv = root_views(roots@);
    let mut r: Vec<CacheEntry> = Vec::new();
    let ghost mut src: Seq<int> = Seq::empty();
    let ghost mut pos: Seq<int> = Seq::empty();
    let mut k: usize = 0;
    while k < found.len()
        invariant
            rv == root_views(roots@),
            pos.len() == k,
            forall|m: int|
                0 <= m < found@.len() ==> found_under(
                    (#[trigger] found@[m]).1@,
                    found@[m].0 as int,
                    rv,
                ),
            distinct_found(found@),
            k <= found@.len(),
            src.len() == r@.len(),
            forall|j: int|
                0 <= j < r@.len() ==> 0 <= #[trigger] src[j] < k && whitelisted(found@[src[j]].1@)
                    && file_key(r@[j]) == found_key(found@, rv, src[j]),
            forall|j1: int, j2: int| #![trigger src[j1], src[j2]] 0 <= j1 < j2 < src.len() ==> src[j1] < src[j2],
            forall|m: int|
                0 <= m < k && whitelisted(found@[m].1@) ==> 0 <= #[trigger] pos[m] < r@.len()
                    && src[pos[m]] == m,
            forall|j: int| 0 <= j < r@.len() ==> (#[trigger] r@[j]).root_index() < roots@.len(),
        decreases found@.len() - k,
    {
        let (i, path) = (found[k].0, found[k].1.as_str());
        proof {
            assert(rv[i as int] == roots@[i as int]@);
        }
        match create_cache_entry(path, i, roots) {
            Some(e) => {
                let ghost before = r@;
                r.push(e);
                proof {
                    let old_src = src;
                    let old_pos = pos;
                    src = src.push(k as int);
                    pos = pos.push(before.len() as int);
                    assert forall|j: int|
                        0 <= j < r@.len() implies 0 <= #[trigger] src[j] < k + 1 && whitelisted(
                        found@[src[j]].1@,
                    ) && file_key(r@[j]) == found_key(found@, rv, src[j]) by {
                        if j < before.len() {
                            assert(r@[j] == before[j]);
                            assert(src[j] == old_src[j]);
                        }
                    }
                    assert forall|m: int|
                        0 <= m < k + 1 && whitelisted(found@[m].1@) implies 0 <= #[trigger] pos[m]
                        < r@.len() && src[pos[m]] == m by {
                        if m < k {
                            assert(pos[m] == old_pos[m]);
                            assert(src[pos[m]] == old_src[pos[m]]);
                        }
                    }
                }
            },
            None => {
                proof {
                    pos = pos.push(-1);
                }
            },
        }
        k += 1;
    }
    proof {
        assert forall|j1: int, j2: int| #![trigger r@[j1], r@[j2]] 0 <= j1 < j2 < r@.len() implies file_key(r@[j1])
            != file_key(r@[j2]) by {
            let a = src[j1];
            let b = src[j2];
            assert(a < b);
            if file_key(r@[j1]) == file_key(r@[j2]) {
                lemma_found_split(found@[a].1@, found@[a].0 as int, rv);
                lemma_found_split(found@[b].1@, found@[b].0 as int, rv);
                assert(!(found@[a].0 == found@[b].0 && found@[a].1@ == found@[b].1@));
            }
        }
    }
    (r, Ghost(src), Ghost(pos))
}

/// The entries of the found directories, in the order found, followed by the
/// roots' own directories in order; none has children yet.
pub(crate) fn cache_dirs(found: &[(usize, String)], roots: &[String]) -> (r: Vec<CacheDirEntry>)
    requires
        forall|k: int|
            0 <= k < found@.len() ==> found_under(
                (#[trigger] found@[k]).1@,
                found@[k].0 as int,
                root_views(roots@),
            ) && rel_of(found@[k], root_views(roots@)) != seq!['/'],
        distinct_found(found@),
    ensures
        r@.len() == found@.len() + roots@.len(),
        forall|k: int|
            0 <= k < found@.len() ==> dir_key(#[trigger] r@[k]) == found_key(
                found@,
                root_views(roots@),
                k,
            ),
        forall|q: int|
            0 <= q < roots@.len() ==> dir_key(#[trigger] r@[found@.len() + q]) == root_key(q),
        forall|k: int| 0 <= k < r@.len() ==> (#[trigger] r@[k]).children_view().len() == 0,
        forall|k: int| 0 <= k < r@.len() ==> (#[trigger] r@[k]).entry_view().root_index() < roots@.len(),
        crate::order::distinct_by(r@, dir_key_fn()),
{
    let ghost rv = root_views(roots@);
    let mut r: Vec<CacheDirEntry> = Vec::new();
    let mut k: usize = 0;
    while k < found.len()
        invariant
            rv == root_views(roots@),
            forall|m: int|
                0 <= m < found@.len() ==> found_under(
                    (#[trigger] found@[m]).1@,
                    found@[m].0 as int,
                    rv,
                ) && rel_of(found@[m], rv) != seq!['/'],
            k <= found@.len(),
            r@.len() == k,
            forall|j: int| 0 <= j < k ==> dir_key(#[trigger] r@[j]) == found_key(found@, rv, j),
            forall|j: int| 0 <= j < k ==> (#[trigger] r@[j]).children_view().len() == 0,
            forall|j: int| 0 <= j < k ==> (#[trigger] r@[j]).entry_view().root_index() < roots@.len(),
        decreases found@.len() - k,
    {
        let (i, path) = (found[k].0, found[k].1.as_str());
        proof {
            assert(rv[i as int] == roots@[i as int]@);
        }
        r.push(create_cache_dir_entry(path, i, roots));
        k += 1;
    }
    let n = found.len();
    let mut surface = surface_scan(roots);
    let ghost sv = surface@;
    r.append(&mut surface);
    proof {
        assert forall|q: int| 0 <= q < roots@.len() implies dir_key(#[trigger] r@[n + q]) == root_key(q) by {
            assert(r@[n + q] == sv[q]);
        }
        assert forall|j: int| 0 <= j < r@.len() implies (#[trigger] r@[j]).children_view().len() == 0
            && r@[j].entry_view().root_index() < roots@.len() by {
            if j >= n {
                assert(r@[j] == sv[j - n]);
            }
        }
        assert forall|j1: int, j2: int| #![trigger r@[j1], r@[j2]] 0 <= j1 < j2 < r@.len() implies dir_key(r@[j1])
            != dir_key(r@[j2]) by {
            if j2 < n {
                if dir_key(r@[j1]) == dir_key(r@[j2]) {
                    lemma_found_split(found@[j1].1@, found@[j1].0 as int, rv);
                    lemma_found_split(found@[j2].1@, found@[j2].0 as int, rv);
                    assert(!(found@[j1].0 == found@[j2].0 && found@[j1].1@ == found@[j2].1@));
                }
            } else if j1 < n {
                assert(r@[j2] == sv[j2 - n]);
                assert(dir_key(r@[j1]).0 != seq!['/']);
            } else {
                assert(r@[j1] == sv[j1 - n]);
                assert(r@[j2] == sv[j2 - n]);
            }
        }
    }
    r
}

/// A root's directory as it is ranked among the roots: by the root's path.
pub struct RootKey<'a> {
    pub path: &'a str,
    pub dir: usize,
}

impl<'a> crate::order::Ranked for RootKey<'a> {
    open spec fn rank_le(&self, other: &Self) -> bool {
        seq_le(self.path@, other.path@)
    }

    proof fn lemma_rank_total(a: &Self, b: &Self) {
        crate::text::lemma_seq_le_total(a.path@, b.path@);
    }

    proof fn lemma_rank_transitive(a: &Self, b: &Self, c: &Self) {
        lemma_seq_le_transitive(a.path@, b.path@, c.path@);
    }

    fn ranks_le(&self, other: &Self) -> (r: bool) {
        str_le(self.path, other.path)
    }
}

/// The path of the root of directory `x`.
pub open spec fn root_path_of(dirs: Seq<CacheDirEntry>, rv: Seq<Seq<char>>, x: usize) -> Seq<char> {
    rv[dirs[x as int].entry_view().root_index() as int]
}

/// Pointers to the given directories, in ascending order of their roots' paths.
#[verifier::spinoff_prover]
fn root_pointers(dirs: &[CacheDirEntry], roots: &[String], top: &[usize]) -> (r: Vec<Pointer>)
    requires
        forall|q: int|
            0 <= q < top@.len() ==> #[trigger] top@[q] < dirs@.len() && dirs@[top@[q] as int].entry_view().path()
                == seq!['/'],
        forall|d: int|
            0 <= d < dirs@.len() ==> (#[trigger] dirs@[d]).entry_view().root_index() < roots@.len(),
    ensures
        r@.len() == top@.len(),
        forall|a: int|
            0 <= a < r@.len() ==> ((#[trigger] r@[a]) matches Pointer::Dir(x) && x < dirs@.len()
                && dirs@[x as int].entry_view().path() == seq!['/']),
        forall|q: int| 0 <= q < top@.len() ==> r@.contains(Pointer::Dir(#[trigger] top@[q])),
        forall|a: int, b: int|
            #![trigger r@[a], r@[b]]
            0 <= a < b < r@.len() ==> match (r@[a], r@[b]) {
                (Pointer::Dir(x), Pointer::Dir(y)) => seq_le(
                    root_path_of(dirs@, root_views(roots@), x),
                    root_path_of(dirs@, root_views(roots@), y),
                ),
                _ => false,
            },
{
    let ghost rv = root_views(roots@);
    let mut keys: Vec<RootKey> = Vec::new();
    let mut q: usize = 0;
    while q < top.len()
        invariant
            rv == root_views(roots@),
            forall|m: int|
                0 <= m < top@.len() ==> #[trigger] top@[m] < dirs@.len() && dirs@[top@[m] as int].entry_view().path()
                    == seq!['/'],
            forall|d: int|
                0 <= d < dirs@.len() ==> (#[trigger] dirs@[d]).entry_view().root_index() < roots@.len(),
            q <= top@.len(),
            keys@.len() == q,
            forall|m: int|
                0 <= m < q ==> (#[trigger] keys@[m]).dir == top@[m] && keys@[m].path@
                    == root_path_of(dirs@, rv, top@[m]),
        decreases top@.len() - q,
    {
        let x = top[q];
        let rp = roots[dirs[x].root()].as_str();
        proof {
            assert(rv[dirs@[x as int].entry_view().root_index() as int] == roots@[dirs@[x as int].entry_view().root_index() as int]@);
        }
        keys.push(RootKey { path: rp, dir: x });
        q += 1;
    }
    let ghost k0 = keys@;
    let sorted = crate::order::merge_sort(keys);
    let ghost ks = sorted@;
    proof {
        assert forall|m: int| 0 <= m < ks.len() implies (#[trigger] ks[m]).dir < dirs@.len()
            && dirs@[ks[m].dir as int].entry_view().path() == seq!['/'] && ks[m].path@
            == root_path_of(dirs@, rv, ks[m].dir) by {
            assert(ks.contains(ks[m]));
            crate::order::lemma_perm_contains(k0, ks, ks[m]);
        }
    }
    let mut r: Vec<Pointer> = Vec::new();
    let mut a: usize = 0;
    while a < sorted.len()
        invariant
            ks == sorted@,
            a <= ks.len(),
            r@.len() == a,
            forall|m: int| 0 <= m < a ==> #[trigger] r@[m] == Pointer::Dir(ks[m].dir),
        decreases ks.len() - a,
    {
        r.push(Pointer::Dir(sorted[a].dir));
        a += 1;
    }
    proof {
        vstd::seq_lib::to_multiset_len(k0);
        vstd::seq_lib::to_multiset_len(ks);
        assert forall|q: int| 0 <= q < top@.len() implies r@.contains(Pointer::Dir(#[trigger] top@[q])) by {
            assert(k0.contains(k0[q]));
            crate::order::lemma_perm_contains(ks, k0, k0[q]);
            let w = choose|w: int| 0 <= w < ks.len() && ks[w] == k0[q];
            assert(r@[w] == Pointer::Dir(top@[q]));
        }
        assert forall|m1: int, m2: int| #![trigger r@[m1], r@[m2]] 0 <= m1 < m2 < r@.len() implies match (r@[m1], r@[m2]) {
            (Pointer::Dir(x), Pointer::Dir(y)) => seq_le(
                root_path_of(dirs@, root_views(roots@), x),
                root_path_of(dirs@, root_views(roots@), y),
            ),
            _ => false,
        } by {
            assert(ks[m1].rank_le(&ks[m2]));
        }
    }
    r
}

/// Every directory listed as having no parent has none, and every directory
/// without a parent is listed; the list is in increasing order.
pub proof fn lemma_top_dirs(d: Seq<CacheDirEntry>, n: int)
    requires
        0 <= n <= d.len(),
        d.len() <= usize::MAX,
    ensures
        forall|q: int|
            0 <= q < top_dirs(d, n).len() ==> #[trigger] top_dirs(d, n)[q] < n && !has_parent(
                d,
                d[top_dirs(d, n)[q] as int].entry_view(),
            ),
        forall|i: int|
            0 <= i < n && !has_parent(d, #[trigger] d[i].entry_view()) ==> exists|q: int|
                0 <= q < top_dirs(d, n).len() && top_dirs(d, n)[q] == i,
    decreases n,
{
    if n > 0 {
        lemma_top_dirs(d, n - 1);
        let prev = top_dirs(d, n - 1);
        let cur = top_dirs(d, n);
        assert forall|i: int|
            0 <= i < n && !has_parent(d, #[trigger] d[i].entry_view()) implies exists|q: int|
            0 <= q < cur.len() && cur[q] == i by {
            if i < n - 1 {
                let q = choose|q: int| 0 <= q < prev.len() && prev[q] == i;
                assert(cur[q] == prev[q]);
            } else {
                assert(cur[cur.len() - 1] == i);
            }
        }
    }
}

/// The directories a directory holds are pointers `Dir(x)`, `x` below `n`, with `x`
/// increasing.
pub proof fn lemma_dir_children_shape(dirs: Seq<CacheDirEntry>, e: CacheEntry, n: int)
    requires
        0 <= n <= dirs.len(),
        dirs.len() <= usize::MAX,
    ensures
        forall|a: int|
            0 <= a < dir_children(dirs, e, n).len() ==> ((#[trigger] dir_children(dirs, e, n)[a]) matches Pointer::Dir(x) && x < n),
        forall|a: int, b: int|
            #![trigger dir_children(dirs, e, n)[a], dir_children(dirs, e, n)[b]]
            0 <= a < b < dir_children(dirs, e, n).len() ==> match (dir_children(dirs, e, n)[a], dir_children(dirs, e, n)[b]) {
                (Pointer::Dir(x), Pointer::Dir(y)) => x < y,
                _ => false,
            },
    decreases n,
{
    if n > 0 {
        lemma_dir_children_shape(dirs, e, n - 1);
        let prev = dir_children(dirs, e, n - 1);
        let cur = dir_children(dirs, e, n);
        assert forall|a: int, b: int|
            #![trigger cur[a], cur[b]]
            0 <= a < b < cur.len() implies match (cur[a], cur[b]) {
                (Pointer::Dir(x), Pointer::Dir(y)) => x < y,
                _ => false,
            } by {
            assert(cur[a] == prev[a]);
            if b < prev.len() {
                assert(cur[b] == prev[b]);
            }
        }
    }
}

/// The files a directory holds are pointers `File(x)`, `x` below `n`, with `x`
/// increasing.
pub proof fn lemma_file_children_shape(files: Seq<CacheEntry>, e: CacheEntry, n: int)
    requires
        0 <= n <= files.len(),
        files.len() <= usize::MAX,
    ensures
        forall|a: int|
            0 <= a < file_children(files, e, n).len() ==> ((#[trigger] file_children(files, e, n)[a]) matches Pointer::File(x) && x < n),
        forall|a: int, b: int|
            #![trigger file_children(files, e, n)[a], file_children(files, e, n)[b]]
            0 <= a < b < file_children(files, e, n).len() ==> match (file_children(files, e, n)[a], file_children(files, e, n)[b]) {
                (Pointer::File(x), Pointer::File(y)) => x < y,
                _ => false,
            },
    decreases n,
{
    if n > 0 {
        lemma_file_children_shape(files, e, n - 1);
        let prev = file_children(files, e, n - 1);
        let cur = file_children(files, e, n);
        assert forall|a: int, b: int|
            #![trigger cur[a], cur[b]]
            0 <= a < b < cur.len() implies match (cur[a], cur[b]) {
                (Pointer::File(x), Pointer::File(y)) => x < y,
                _ => false,
            } by {
            assert(cur[a] == prev[a]);
            if b < prev.len() {
                assert(cur[b] == prev[b]);
            }
        }
    }
}

/// What a directory holds depends only on the entries of the directories.
pub proof fn lemma_dir_children_entries(d1: Seq<CacheDirEntry>, d2: Seq<CacheDirEntry>, e: CacheEntry, n: int)
    requires
        0 <= n <= d1.len(),
        d1.len() == d2.len(),
        forall|i: int| 0 <= i < d1.len() ==> (#[trigger] d1[i]).entry_view() == d2[i].entry_view(),
    ensures
        dir_children(d1, e, n) == dir_children(d2, e, n),
    decreases n,
{
    if n > 0 {
        lemma_dir_children_entries(d1, d2, e, n - 1);
        assert(d1[n - 1].entry_view() == d2[n - 1].entry_view());
    }
}

/// The key of root `q`'s own directory.
pub open spec fn root_key(q: int) -> (Seq<char>, usize) {
    (seq!['/'], q as usize)
}

/// The found paths can make up a cache: every path lies under its root, no
/// directory is a root itself, no path is found twice, and the directory that
/// holds a found directory is found too (or is the root).
pub open spec fn scan_input_ok(
    files: Seq<(usize, String)>,
    dirs: Seq<(usize, String)>,
    rv: Seq<Seq<char>>,
) -> bool {
    &&& forall|k: int|
        0 <= k < files.len() ==> found_under((#[trigger] files[k]).1@, files[k].0 as int, rv)
    &&& forall|k: int|
        0 <= k < dirs.len() ==> found_under((#[trigger] dirs[k]).1@, dirs[k].0 as int, rv)
            && rel_of(dirs[k], rv) != seq!['/']
    &&& distinct_found(files)
    &&& distinct_found(dirs)
    &&& forall|k: int|
        0 <= k < dirs.len() ==> parent_path(rel_of(#[trigger] dirs[k], rv)) == seq!['/'] || exists|
            m: int,
        |
            0 <= m < dirs.len() && dirs[m].0 == dirs[k].0 && #[trigger] rel_of(dirs[m], rv)
                == parent_path(rel_of(dirs[k], rv))
}

/// In the directories made from the found ones and the roots, every directory
/// but a root's own has a parent.
proof fn lemma_parents_present(found: Seq<(usize, String)>, rv: Seq<Seq<char>>, dv: Seq<CacheDirEntry>)
    requires
        forall|k: int|
            0 <= k < found.len() ==> found_under((#[trigger] found[k]).1@, found[k].0 as int, rv)
                && rel_of(found[k], rv) != seq!['/'],
        forall|k: int|
            0 <= k < found.len() ==> parent_path(rel_of(#[trigger] found[k], rv)) == seq!['/']
                || exists|m: int|
                0 <= m < found.len() && found[m].0 == found[k].0 && #[trigger] rel_of(found[m], rv)
                    == parent_path(rel_of(found[k], rv)),
        dv.len() == found.len() + rv.len(),
        forall|k: int| 0 <= k < found.len() ==> dir_key(#[trigger] dv[k]) == found_key(found, rv, k),
        forall|q: int| 0 <= q < rv.len() ==> dir_key(#[trigger] dv[found.len() + q]) == root_key(q),
    ensures
        forall|x: int|
            0 <= x < dv.len() && (#[trigger] dv[x]).entry_view().path() != seq!['/'] ==> has_parent(
                dv,
                dv[x].entry_view(),
            ),
{
    let n = found.len() as int;
    assert forall|x: int|
        0 <= x < dv.len() && (#[trigger] dv[x]).entry_view().path() != seq!['/'] implies has_parent(
        dv,
        dv[x].entry_view(),
    ) by {
        if x >= n {
            assert(dir_key(dv[n + (x - n)]) == root_key(x - n));
        } else {
            assert(dir_key(dv[x]) == found_key(found, rv, x));
            let r = rel_of(found[x], rv);
            let root = found[x].0;
            if parent_path(r) == seq!['/'] {
                let w = n + root as int;
                assert(dir_key(dv[n + root as int]) == root_key(root as int));
                assert(is_child_of(dv[x].entry_view(), dv[w].entry_view()));
            } else {
                let m = choose|m: int|
                    0 <= m < found.len() && found[m].0 == found[x].0 && #[trigger] rel_of(found[m], rv)
                        == parent_path(rel_of(found[x], rv));
                assert(dir_key(dv[m]) == found_key(found, rv, m));
                assert(is_child_of(dv[x].entry_view(), dv[m].entry_view()));
            }
        }
    }
}

/// After reordering, the directories with no parent are still the roots' own.
proof fn lemma_parentless_are_roots(dv: Seq<CacheDirEntry>, sd: Seq<CacheDirEntry>)
    requires
        dv.to_multiset() == sd.to_multiset(),
        forall|x: int|
            0 <= x < dv.len() && (#[trigger] dv[x]).entry_view().path() != seq!['/'] ==> has_parent(
                dv,
                dv[x].entry_view(),
            ),
    ensures
        forall|i: int|
            0 <= i < sd.len() && !has_parent(sd, (#[trigger] sd[i]).entry_view()) ==> sd[i].entry_view().path()
                == seq!['/'],
{
    assert forall|i: int|
        0 <= i < sd.len() && !has_parent(sd, (#[trigger] sd[i]).entry_view()) implies sd[i].entry_view().path()
        == seq!['/'] by {
        if sd[i].entry_view().path() != seq!['/'] {
            assert(sd.contains(sd[i]));
            crate::order::lemma_perm_contains(dv, sd, sd[i]);
            let x = choose|x: int| 0 <= x < dv.len() && dv[x] == sd[i];
            assert(has_parent(dv, dv[x].entry_view()));
            let p = choose|p: int| 0 <= p < dv.len() && is_child_of(dv[x].entry_view(), #[trigger] dv[p].entry_view());
            assert(dv.contains(dv[p]));
            crate::order::lemma_perm_contains(sd, dv, dv[p]);
            let q = choose|q: int| 0 <= q < sd.len() && sd[q] == dv[p];
            assert(is_child_of(sd[i].entry_view(), sd[q].entry_view()));
        }
    }
}

/// The parts made by `create_cache_from_files` are in the order the cache keeps.
proof fn lemma_cache_ordered(
    sf: Seq<CacheEntry>,
    sd0: Seq<CacheDirEntry>,
    sdf: Seq<CacheDirEntry>,
    rp: Seq<Pointer>,
)
    requires
        crate::order::rank_sorted(sf),
        crate::order::rank_sorted(sd0),
        crate::order::distinct_by(sf, file_key_fn()),
        crate::order::distinct_by(sd0, dir_key_fn()),
        sf.len() <= usize::MAX,
        sd0.len() <= usize::MAX,
        sdf.len() == sd0.len(),
        forall|i: int| 0 <= i < sd0.len() ==> (#[trigger] sdf[i]).entry_view() == sd0[i].entry_view(),
        forall|j: int|
            0 <= j < sdf.len() ==> (#[trigger] sdf[j]).children_view() == children_of(
                sdf,
                sf,
                sdf[j].entry_view(),
            ),
        forall|a: int|
            0 <= a < rp.len() ==> ((#[trigger] rp[a]) matches Pointer::Dir(x) && x < sdf.len()
                && sdf[x as int].entry_view().path() == seq!['/']),
    ensures
        cache_ordered(sf, sdf, rp),
{
    let n = sd0.len() as int;
    // children of each directory
    assert forall|d: int, k: int|
        #![trigger sdf[d].children_view()[k]]
        0 <= d < sdf.len() && 0 <= k < sdf[d].children_view().len() - 1 implies children_pair_ok(
        sf,
        sdf,
        sdf[d].children_view()[k],
        sdf[d].children_view()[k + 1],
    ) by {
        let e = sdf[d].entry_view();
        let dc = dir_children(sdf, e, n);
        let fc = file_children(sf, e, sf.len() as int);
        lemma_dir_children_shape(sdf, e, n);
        lemma_file_children_shape(sf, e, sf.len() as int);
        let ch = sdf[d].children_view();
        assert(ch == dc + fc);
        if k + 1 < dc.len() {
            assert(ch[k] == dc[k]);
            assert(ch[k + 1] == dc[k + 1]);
            if let (Pointer::Dir(x), Pointer::Dir(y)) = (dc[k], dc[k + 1]) {
                assert(sd0[x as int].rank_le(&sd0[y as int]));
            }
        } else if k + 1 == dc.len() {
            assert(ch[k] == dc[k]);
            assert(ch[k + 1] == fc[0]);
        } else {
            assert(ch[k] == fc[k - dc.len()]);
            assert(ch[k + 1] == fc[k + 1 - dc.len()]);
            if let (Pointer::File(x), Pointer::File(y)) = (fc[k - dc.len()], fc[k + 1 - dc.len()]) {
                assert(sf[x as int].rank_le(&sf[y as int]));
            }
        }
    }
    assert forall|j: int, k: int| #![trigger sf[j], sf[k]] 0 <= j < k < sf.len() implies !(sf[j].path()
        == sf[k].path() && sf[j].root_index() == sf[k].root_index()) by {
        assert(file_key_fn()(sf[j]) != file_key_fn()(sf[k]));
    }
    assert forall|j: int, k: int| #![trigger sdf[j], sdf[k]] 0 <= j < k < sdf.len() implies !(
    sdf[j].entry_view().path() == sdf[k].entry_view().path() && sdf[j].entry_view().root_index()
        == sdf[k].entry_view().root_index()) by {
        assert(dir_key_fn()(sd0[j]) != dir_key_fn()(sd0[k]));
    }
    assert forall|k: int| 0 <= k < sf.len() - 1 implies seq_le(#[trigger] sf[k].path(), sf[k + 1].path()) by {
        assert(sf[k].rank_le(&sf[k + 1]));
    }
    assert forall|k: int| 0 <= k < sdf.len() - 1 implies seq_le(
        #[trigger] sdf[k].entry_view().path(),
        sdf[k + 1].entry_view().path(),
    ) by {
        assert(sd0[k].rank_le(&sd0[k + 1]));
    }
    assert forall|k: int|
        #![trigger rp[k]]
        0 <= k < rp.len() - 1 implies match (entry_in(sf, sdf, rp[k]), entry_in(sf, sdf, rp[k + 1])) {
        (Some(a), Some(b)) => seq_le(a.path(), b.path()),
        _ => false,
    } by {
        lemma_seq_le_reflexive(seq!['/']);
        assert(rp[k] matches Pointer::Dir(x) && x < sdf.len() && sdf[x as int].entry_view().path() == seq!['/']);
        assert(rp[k + 1] matches Pointer::Dir(x) && x < sdf.len() && sdf[x as int].entry_view().path() == seq!['/']);
    }
}

/// Sorting keeps the files and directories distinct, the directories' roots in
/// range, and the directories with no parent the roots' own.
proof fn lemma_sorted_parts(
    fv0: Seq<CacheEntry>,
    sf: Seq<CacheEntry>,
    dv0: Seq<CacheDirEntry>,
    sd0: Seq<CacheDirEntry>,
    nroots: nat,
)
    requires
        fv0.to_multiset() == sf.to_multiset(),
        dv0.to_multiset() == sd0.to_multiset(),
        crate::order::distinct_by(fv0, file_key_fn()),
        crate::order::distinct_by(dv0, dir_key_fn()),
        crate::order::rank_sorted(sd0),
        forall|x: int|
            0 <= x < dv0.len() && (#[trigger] dv0[x]).entry_view().path() != seq!['/'] ==> has_parent(
                dv0,
                dv0[x].entry_view(),
            ),
        forall|k: int| 0 <= k < dv0.len() ==> (#[trigger] dv0[k]).entry_view().root_index() < nroots,
        forall|j: int| 0 <= j < fv0.len() ==> (#[trigger] fv0[j]).root_index() < nroots,
    ensures
        crate::order::distinct_by(sf, file_key_fn()),
        crate::order::distinct_by(sd0, dir_key_fn()),
        dirs_sorted(sd0),
        distinct_dirs(sd0),
        forall|i: int|
            0 <= i < sd0.len() && !has_parent(sd0, (#[trigger] sd0[i]).entry_view()) ==> sd0[i].entry_view().path()
                == seq!['/'],
        forall|d: int| 0 <= d < sd0.len() ==> (#[trigger] sd0[d]).entry_view().root_index() < nroots,
        forall|j: int| 0 <= j < sf.len() ==> (#[trigger] sf[j]).root_index() < nroots,
{
    crate::order::lemma_perm_distinct_by(fv0, sf, file_key_fn());
    crate::order::lemma_perm_distinct_by(dv0, sd0, dir_key_fn());
    lemma_parentless_are_roots(dv0, sd0);
    assert forall|j: int, k: int| #![trigger sd0[j], sd0[k]] 0 <= j < k < sd0.len() implies !(
    sd0[j].entry_view().path() == sd0[k].entry_view().path()
        && sd0[j].entry_view().root_index() == sd0[k].entry_view().root_index()) by {
        assert(dir_key_fn()(sd0[j]) != dir_key_fn()(sd0[k]));
    }
    assert forall|d: int| 0 <= d < sd0.len() implies (#[trigger] sd0[d]).entry_view().root_index()
        < nroots by {
        assert(sd0.contains(sd0[d]));
        crate::order::lemma_perm_contains(dv0, sd0, sd0[d]);
    }
    assert forall|j: int| 0 <= j < sf.len() implies (#[trigger] sf[j]).root_index() < nroots by {
        assert(sf.contains(sf[j]));
        crate::order::lemma_perm_contains(fv0, sf, sf[j]);
    }
}

/// Some file has the key.
pub open spec fn has_file_key(files: Seq<CacheEntry>, key: (Seq<char>, usize)) -> bool {
    exists|j: int| 0 <= j < files.len() && #[trigger] file_key(files[j]) == key
}

/// Some directory has the key.
pub open spec fn has_dir_key(dirs: Seq<CacheDirEntry>, key: (Seq<char>, usize)) -> bool {
    exists|j: int| 0 <= j < dirs.len() && #[trigger] dir_key(dirs[j]) == key
}

/// The key is that of a kept found file.
pub open spec fn kept_file_key(
    found: Seq<(usize, String)>,
    rv: Seq<Seq<char>>,
    key: (Seq<char>, usize),
) -> bool {
    exists|k: int|
        0 <= k < found.len() && whitelisted(found[k].1@) && #[trigger] found_key(found, rv, k) == key
}

/// The sorted files are exactly the kept found files.
proof fn lemma_files_contents(
    files: Seq<(usize, String)>,
    rv: Seq<Seq<char>>,
    fv0: Seq<CacheEntry>,
    sf: Seq<CacheEntry>,
    fsrc: Seq<int>,
    fpos: Seq<int>,
)
    requires
        fv0.to_multiset() == sf.to_multiset(),
        fsrc.len() == fv0.len(),
        forall|j: int|
            0 <= j < fv0.len() ==> 0 <= #[trigger] fsrc[j] < files.len() && whitelisted(
                files[fsrc[j]].1@,
            ) && file_key(fv0[j]) == found_key(files, rv, fsrc[j]),
        fpos.len() == files.len(),
        forall|k: int|
            0 <= k < files.len() && whitelisted(files[k].1@) ==> 0 <= #[trigger] fpos[k] < fv0.len()
                && fsrc[fpos[k]] == k,
    ensures
        forall|j: int| 0 <= j < sf.len() ==> kept_file_key(files, rv, file_key(#[trigger] sf[j])),
        forall|k: int|
            0 <= k < files.len() && whitelisted(files[k].1@) ==> has_file_key(
                sf,
                #[trigger] found_key(files, rv, k),
            ),
{
    assert forall|j: int| 0 <= j < sf.len() implies kept_file_key(files, rv, file_key(#[trigger] sf[j])) by {
        assert(sf.contains(sf[j]));
        crate::order::lemma_perm_contains(fv0, sf, sf[j]);
        let w = choose|w: int| 0 <= w < fv0.len() && fv0[w] == sf[j];
        let src_k = fsrc[w];
        assert(found_key(files, rv, src_k) == file_key(sf[j]));
    }
    assert forall|k: int|
        0 <= k < files.len() && whitelisted(files[k].1@) implies has_file_key(
        sf,
        #[trigger] found_key(files, rv, k),
    ) by {
        let w = fpos[k];
        assert(fv0.contains(fv0[w]));
        crate::order::lemma_perm_contains(sf, fv0, fv0[w]);
        let jj = choose|jj: int| 0 <= jj < sf.len() && sf[jj] == fv0[w];
        assert(file_key(sf[jj]) == found_key(files, rv, k));
    }
}

/// The sorted directories are exactly the found ones and the roots' own.
proof fn lemma_dirs_contents(
    dirs: Seq<(usize, String)>,
    rv: Seq<Seq<char>>,
    dv0: Seq<CacheDirEntry>,
    sd0: Seq<CacheDirEntry>,
    sdf: Seq<CacheDirEntry>,
)
    requires
        dv0.to_multiset() == sd0.to_multiset(),
        dv0.len() == dirs.len() + rv.len(),
        forall|k: int| 0 <= k < dirs.len() ==> dir_key(#[trigger] dv0[k]) == found_key(dirs, rv, k),
        forall|q: int| 0 <= q < rv.len() ==> dir_key(#[trigger] dv0[dirs.len() + q]) == root_key(q),
        sdf.len() == sd0.len(),
        forall|i: int| 0 <= i < sd0.len() ==> (#[trigger] sdf[i]).entry_view() == sd0[i].entry_view(),
    ensures
        sdf.len() == dirs.len() + rv.len(),
        forall|k: int| 0 <= k < dirs.len() ==> has_dir_key(sdf, #[trigger] found_key(dirs, rv, k)),
        forall|q: int| 0 <= q < rv.len() ==> has_dir_key(sdf, #[trigger] root_key(q)),
{
    vstd::seq_lib::to_multiset_len(dv0);
    vstd::seq_lib::to_multiset_len(sd0);
    assert forall|k: int| 0 <= k < dirs.len() implies has_dir_key(sdf, #[trigger] found_key(dirs, rv, k)) by {
        assert(dv0.contains(dv0[k]));
        crate::order::lemma_perm_contains(sd0, dv0, dv0[k]);
        let jj = choose|jj: int| 0 <= jj < sd0.len() && sd0[jj] == dv0[k];
        assert(dir_key(sdf[jj]) == found_key(dirs, rv, k));
    }
    assert forall|q: int| 0 <= q < rv.len() implies has_dir_key(sdf, #[trigger] root_key(q)) by {
        let w = dirs.len() + q;
        assert(dir_key(dv0[w]) == root_key(q));
        assert(dv0.contains(dv0[w]));
        crate::order::lemma_perm_contains(sd0, dv0, dv0[w]);
        let jj = choose|jj: int| 0 <= jj < sd0.len() && sd0[jj] == dv0[w];
        assert(dir_key(sdf[jj]) == root_key(q));
    }
}

/// Gives every directory its children (see `link`).
fn attach_children(dirs: &mut Vec<CacheDirEntry>, children: Vec<Vec<Pointer>>)
    requires
        children@.len() == old(dirs)@.len(),
    ensures
        final(dirs)@.len() == old(dirs)@.len(),
        forall|j: int|
            0 <= j < final(dirs)@.len() ==> (#[trigger] final(dirs)@[j]).entry_view() == old(dirs)@[j].entry_view()
                && final(dirs)@[j].children_view() == children@[j]@,
{
    let ghost d0 = dirs@;
    let ghost c0 = children@;
    let mut children = children;
    let mut j: usize = 0;
    while j < dirs.len()
        invariant
            dirs@.len() == d0.len(),
            children@.len() == d0.len(),
            c0.len() == d0.len(),
            j <= d0.len(),
            forall|i: int| 0 <= i < d0.len() ==> (#[trigger] dirs@[i]).entry_view() == d0[i].entry_view(),
            forall|i: int| 0 <= i < j ==> (#[trigger] dirs@[i]).children_view() == c0[i]@,
            forall|i: int| j <= i < d0.len() ==> (#[trigger] children@[i]) == c0[i],
        decreases d0.len() - j,
    {
        let mut c: Vec<Pointer> = Vec::new();
        std::mem::swap(&mut c, &mut children[j]);
        dirs[j].set_children(c);
        j += 1;
    }
}

/// The kept files and the directories (with the roots' own), each sorted by
/// path.
#[verifier::spinoff_prover]
fn sorted_parts(files: &[(usize, String)], dirs: &[(usize, String)], roots: &[String]) -> (r: (
    Vec<CacheEntry>,
    Vec<CacheDirEntry>,
))
    requires
        scan_input_ok(files@, dirs@, root_views(roots@)),
    ensures
        crate::order::rank_sorted(r.0@),
        crate::order::rank_sorted(r.1@),
        crate::order::distinct_by(r.0@, file_key_fn()),
        crate::order::distinct_by(r.1@, dir_key_fn()),
        dirs_sorted(r.1@),
        distinct_dirs(r.1@),
        forall|i: int|
            0 <= i < r.1@.len() && !has_parent(r.1@, (#[trigger] r.1@[i]).entry_view()) ==> r.1@[i].entry_view().path()
                == seq!['/'],
        forall|d: int| 0 <= d < r.1@.len() ==> (#[trigger] r.1@[d]).entry_view().root_index() < roots@.len(),
        forall|j: int| 0 <= j < r.0@.len() ==> (#[trigger] r.0@[j]).root_index() < roots@.len(),
        forall|j: int|
            0 <= j < r.0@.len() ==> kept_file_key(
                files@,
                root_views(roots@),
                file_key(#[trigger] r.0@[j]),
            ),
        forall|k: int|
            0 <= k < files@.len() && whitelisted(files@[k].1@) ==> has_file_key(
                r.0@,
                #[trigger] found_key(files@, root_views(roots@), k),
            ),
        r.1@.len() == dirs@.len() + roots@.len(),
        forall|k: int|
            0 <= k < dirs@.len() ==> has_dir_key(r.1@, #[trigger] found_key(dirs@, root_views(roots@), k)),
        forall|q: int| 0 <= q < roots@.len() ==> has_dir_key(r.1@, #[trigger] root_key(q)),
{
    let ghost rv = root_views(roots@);
    let (fv, Ghost(fsrc), Ghost(fpos)) = cache_files(files, roots);
    let dv = cache_dirs(dirs, roots);
    let ghost fv0 = fv@;
    let ghost dv0 = dv@;
    proof {
        lemma_parents_present(dirs@, rv, dv0);
    }
    let sf = crate::order::merge_sort(fv);
    let sd = crate::order::merge_sort(dv);
    proof {
        lemma_sorted_parts(fv0, sf@, dv0, sd@, roots@.len());
        lemma_files_contents(files@, rv, fv0, sf@, fsrc, fpos);
        lemma_dirs_contents(dirs@, rv, dv0, sd@, sd@);
    }
    (sf, sd)
}

/// After the children are attached, each directory holds its children, the
/// directories without parent are the roots' own, and the keys are unchanged.
proof fn lemma_attached(
    sf: Seq<CacheEntry>,
    sd0: Seq<CacheDirEntry>,
    sdf: Seq<CacheDirEntry>,
    top: Seq<usize>,
    nroots: nat,
    dirs: Seq<(usize, String)>,
    rv: Seq<Seq<char>>,
)
    requires
        sd0.len() <= usize::MAX,
        rv.len() <= usize::MAX,
        top == top_dirs(sd0, sd0.len() as int),
        sdf.len() == sd0.len(),
        forall|j: int|
            0 <= j < sdf.len() ==> (#[trigger] sdf[j]).entry_view() == sd0[j].entry_view()
                && sdf[j].children_view() == children_of(sd0, sf, sd0[j].entry_view()),
        forall|i: int|
            0 <= i < sd0.len() && !has_parent(sd0, (#[trigger] sd0[i]).entry_view()) ==> sd0[i].entry_view().path()
                == seq!['/'],
        forall|d: int| 0 <= d < sd0.len() ==> (#[trigger] sd0[d]).entry_view().root_index() < nroots,
        forall|k: int| 0 <= k < dirs.len() ==> has_dir_key(sd0, #[trigger] found_key(dirs, rv, k)),
        forall|q: int| 0 <= q < rv.len() ==> has_dir_key(sd0, #[trigger] root_key(q)),
    ensures
        forall|j: int|
            0 <= j < sdf.len() ==> (#[trigger] sdf[j]).children_view() == children_of(
                sdf,
                sf,
                sdf[j].entry_view(),
            ),
        forall|q: int|
            0 <= q < top.len() ==> #[trigger] top[q] < sdf.len() && sdf[top[q] as int].entry_view().path()
                == seq!['/'],
        forall|d: int| 0 <= d < sdf.len() ==> (#[trigger] sdf[d]).entry_view().root_index() < nroots,
        forall|k: int| 0 <= k < dirs.len() ==> has_dir_key(sdf, #[trigger] found_key(dirs, rv, k)),
        forall|q: int| 0 <= q < rv.len() ==> has_dir_key(sdf, #[trigger] root_key(q)),
{
    lemma_top_dirs(sd0, sd0.len() as int);
    assert forall|j: int| 0 <= j < sdf.len() implies (#[trigger] sdf[j]).children_view() == children_of(
        sdf,
        sf,
        sdf[j].entry_view(),
    ) by {
        lemma_dir_children_entries(sd0, sdf, sdf[j].entry_view(), sd0.len() as int);
    }
    assert forall|q: int| 0 <= q < top.len() implies #[trigger] top[q] < sdf.len()
        && sdf[top[q] as int].entry_view().path() == seq!['/'] by {
        assert(!has_parent(sd0, sd0[top[q] as int].entry_view()));
    }
    assert forall|d: int| 0 <= d < sdf.len() implies (#[trigger] sdf[d]).entry_view().root_index()
        < nroots by {
        assert(sd0[d].entry_view().root_index() < nroots);
    }
    assert forall|k: int| 0 <= k < dirs.len() implies has_dir_key(sdf, #[trigger] found_key(dirs, rv, k)) by {
        assert(has_dir_key(sd0, found_key(dirs, rv, k)));
        let jj = choose|jj: int| 0 <= jj < sd0.len() && #[trigger] dir_key(sd0[jj]) == found_key(dirs, rv, k);
        assert(dir_key(sdf[jj]) == dir_key(sd0[jj]));
    }
    assert forall|q: int| 0 <= q < rv.len() implies has_dir_key(sdf, #[trigger] root_key(q)) by {
        assert(has_dir_key(sd0, root_key(q)));
        let jj = choose|jj: int| 0 <= jj < sd0.len() && #[trigger] dir_key(sd0[jj]) == root_key(q);
        assert(dir_key(sdf[jj]) == dir_key(sd0[jj]));
    }
}

/// What the cache made from the found paths holds: files, directories and the
/// roots' directories in the order the cache keeps (see `cache_ordered`); the
/// files are exactly the kept found files and the directories exactly the found
/// ones and the roots' own (by path and root); every directory holds its
/// children (see `children_of`); the roots' directories are valid pointers to
/// directories with path `/`, in ascending order of the roots' paths; every entry
/// names one of the roots.
pub open spec fn built_from(
    files: Seq<(usize, String)>,
    dirs: Seq<(usize, String)>,
    rv: Seq<Seq<char>>,
    fs: Seq<CacheEntry>,
    ds: Seq<CacheDirEntry>,
    rd: Seq<Pointer>,
) -> bool {
    &&& cache_ordered(fs, ds, rd)
    &&& forall|j: int| 0 <= j < fs.len() ==> kept_file_key(files, rv, file_key(#[trigger] fs[j]))
    &&& forall|k: int|
        0 <= k < files.len() && whitelisted(files[k].1@) ==> has_file_key(
            fs,
            #[trigger] found_key(files, rv, k),
        )
    &&& ds.len() == dirs.len() + rv.len()
    &&& forall|k: int| 0 <= k < dirs.len() ==> has_dir_key(ds, #[trigger] found_key(dirs, rv, k))
    &&& forall|q: int| 0 <= q < rv.len() ==> has_dir_key(ds, #[trigger] root_key(q))
    &&& forall|j: int|
        0 <= j < ds.len() ==> (#[trigger] ds[j]).children_view() == children_of(
            ds,
            fs,
            ds[j].entry_view(),
        )
    &&& forall|a: int|
        0 <= a < rd.len() ==> ((#[trigger] rd[a]) matches Pointer::Dir(x) && x < ds.len()
            && ds[x as int].entry_view().path() == seq!['/'])
    &&& rd.len() == rv.len()
    &&& forall|q: int| 0 <= q < rv.len() ==> #[trigger] has_root_pointer(ds, rd, q)
    &&& forall|a: int, b: int|
        #![trigger rd[a], rd[b]]
        0 <= a < b < rd.len() ==> match (rd[a], rd[b]) {
            (Pointer::Dir(x), Pointer::Dir(y)) => seq_le(root_path_of(ds, rv, x), root_path_of(ds, rv, y)),
            _ => false,
        }
    &&& forall|d: int| 0 <= d < ds.len() ==> (#[trigger] ds[d]).entry_view().root_index() < rv.len()
    &&& forall|j: int| 0 <= j < fs.len() ==> (#[trigger] fs[j]).root_index() < rv.len()
    &&& ds.len() <= usize::MAX
    &&& fs.len() <= usize::MAX
}

/// One of the pointers names the directory of root `q`.
pub open spec fn has_root_pointer(ds: Seq<CacheDirEntry>, rd: Seq<Pointer>, q: int) -> bool {
    exists|a: int|
        0 <= a < rd.len() && (#[trigger] rd[a] matches Pointer::Dir(x) && x < ds.len() && dir_key(
            ds[x as int],
        ) == root_key(q))
}

/// The directories without a parent come in increasing order.
proof fn lemma_top_dirs_increasing(d: Seq<CacheDirEntry>, n: int, i: int, j: int)
    requires
        0 <= n <= d.len(),
        d.len() <= usize::MAX,
        0 <= i < j < top_dirs(d, n).len(),
    ensures
        top_dirs(d, n)[i] < top_dirs(d, n)[j],
    decreases n,
{
    if n > 0 {
        let prev = top_dirs(d, n - 1);
        lemma_top_dirs(d, n - 1);
        if j < prev.len() {
            lemma_top_dirs_increasing(d, n - 1, i, j);
        } else {
            assert(top_dirs(d, n)[i] == prev[i]);
        }
    }
}

/// Some directory without a parent is the directory of root `q`.
spec fn top_has_root(sdf: Seq<CacheDirEntry>, top: Seq<usize>, q: int) -> bool {
    exists|w: int|
        0 <= w < top.len() && sdf[#[trigger] top[w] as int].entry_view().root_index() == q
            && sdf[top[w] as int].entry_view().path() == seq!['/']
}

/// The directories without a parent are exactly the roots' own, one per root,
/// so the pointers to them name every root once.
proof fn lemma_roots_listed(
    sd0: Seq<CacheDirEntry>,
    sdf: Seq<CacheDirEntry>,
    top: Seq<usize>,
    rp: Seq<Pointer>,
    rv: Seq<Seq<char>>,
)
    requires
        sd0.len() <= usize::MAX,
        rv.len() <= usize::MAX,
        top == top_dirs(sd0, sd0.len() as int),
        sdf.len() == sd0.len(),
        forall|j: int| 0 <= j < sdf.len() ==> (#[trigger] sdf[j]).entry_view() == sd0[j].entry_view(),
        forall|i: int|
            0 <= i < sd0.len() && !has_parent(sd0, (#[trigger] sd0[i]).entry_view()) ==> sd0[i].entry_view().path()
                == seq!['/'],
        forall|j: int, k: int|
            #![trigger sdf[j], sdf[k]]
            0 <= j < k < sdf.len() ==> !(sdf[j].entry_view().path() == sdf[k].entry_view().path()
                && sdf[j].entry_view().root_index() == sdf[k].entry_view().root_index()),
        forall|d: int| 0 <= d < sdf.len() ==> (#[trigger] sdf[d]).entry_view().root_index() < rv.len(),
        forall|q: int| 0 <= q < rv.len() ==> has_dir_key(sdf, #[trigger] root_key(q)),
        rp.len() == top.len(),
        forall|q: int| 0 <= q < top.len() ==> rp.contains(Pointer::Dir(#[trigger] top[q])),
    ensures
        rp.len() == rv.len(),
        forall|q: int| 0 <= q < rv.len() ==> #[trigger] has_root_pointer(sdf, rp, q),
{
    let n = sd0.len() as int;
    lemma_top_dirs(sd0, n);
    let m = top.map_values(|t: usize| sdf[t as int].entry_view().root_index() as int);
    assert forall|q: int| 0 <= q < rv.len() implies #[trigger] top_has_root(sdf, top, q) by {
        assert(has_dir_key(sdf, root_key(q)));
        let d = choose|d: int| 0 <= d < sdf.len() && #[trigger] dir_key(sdf[d]) == root_key(q);
        assert(sd0[d].entry_view() == sdf[d].entry_view());
        assert(!has_parent(sd0, sd0[d].entry_view()));
        let w = choose|w: int| 0 <= w < top.len() && top[w] == d;
        assert(sdf[top[w] as int].entry_view().root_index() == q);
        assert(sdf[top[w] as int].entry_view().path() == seq!['/']);
    }
    assert(m.no_duplicates()) by {
        assert forall|i: int, j: int| 0 <= i < m.len() && 0 <= j < m.len() && i != j implies m[i]
            != m[j] by {
            let (a, b) = if i < j {
                (i, j)
            } else {
                (j, i)
            };
            lemma_top_dirs_increasing(sd0, n, a, b);
            assert(!has_parent(sd0, sd0[top[a] as int].entry_view()));
            assert(!has_parent(sd0, sd0[top[b] as int].entry_view()));
            assert(sdf[top[a] as int].entry_view() == sd0[top[a] as int].entry_view());
            assert(sdf[top[b] as int].entry_view() == sd0[top[b] as int].entry_view());
            let x = top[a] as int;
            let y = top[b] as int;
            assert(!(sdf[x].entry_view().path() == sdf[y].entry_view().path()
                && sdf[x].entry_view().root_index() == sdf[y].entry_view().root_index()));
        }
    }
    assert(m.to_set() =~= vstd::set_lib::set_int_range(0, rv.len() as int)) by {
        assert forall|v: int| m.to_set().contains(v) implies 0 <= v < rv.len() by {
            assert(m.contains(v));
            let i = choose|i: int| 0 <= i < m.len() && m[i] == v;
            assert(top[i] < sdf.len());
        }
        assert forall|v: int| 0 <= v < rv.len() implies m.to_set().contains(v) by {
            assert(top_has_root(sdf, top, v));
            let w = choose|w: int|
                0 <= w < top.len() && sdf[top[w] as int].entry_view().root_index() == v
                    && sdf[top[w] as int].entry_view().path() == seq!['/'];
            assert(m[w] == v);
            assert(m.contains(v));
        }
    }
    m.unique_seq_to_set();
    vstd::set_lib::lemma_int_range(0, rv.len() as int);
    assert forall|q: int| 0 <= q < rv.len() implies #[trigger] has_root_pointer(sdf, rp, q) by {
        assert(top_has_root(sdf, top, q));
        let w = choose|w: int|
            0 <= w < top.len() && sdf[top[w] as int].entry_view().root_index() == q
                && sdf[top[w] as int].entry_view().path() == seq!['/'];
        assert(rp.contains(Pointer::Dir(top[w])));
        let a = choose|a: int| 0 <= a < rp.len() && rp[a] == Pointer::Dir(top[w]);
        assert(dir_key(sdf[top[w] as int]) == root_key(q));
    }
}

/// A cache built from found paths has only valid pointers.
proof fn lemma_built_valid(
    files: Seq<(usize, String)>,
    dirs: Seq<(usize, String)>,
    rv: Seq<Seq<char>>,
    c: Cache,
)
    requires
        built_from(files, dirs, rv, c.files_view(), c.dirs_view(), c.root_dir_view()),
        c.roots_view().len() == rv.len(),
    ensures
        c.pointers_valid(),
{
    let fs = c.files_view();
    let ds = c.dirs_view();
    assert forall|d: int, k: int|
        0 <= d < ds.len() && 0 <= k < ds[d].children_view().len() implies c.valid_pointer(
        #[trigger] ds[d].children_view()[k],
    ) by {
        let e = ds[d].entry_view();
        lemma_dir_children_shape(ds, e, ds.len() as int);
        lemma_file_children_shape(fs, e, fs.len() as int);
        let dc = dir_children(ds, e, ds.len() as int);
        let ch = ds[d].children_view();
        if k < dc.len() {
            assert(ch[k] == dc[k]);
        } else {
            assert(ch[k] == file_children(fs, e, fs.len() as int)[k - dc.len()]);
        }
    }
}

/// Makes the cache of the found files and directories under the roots: the kept
/// files (see `whitelisted`) and the directories with the roots' own, each in
/// ascending order of path, every directory holding its children (see
/// `children_of`), and the roots' directories in ascending order of the roots'
/// paths.
#[verifier::spinoff_prover]
#[verifier::rlimit(100)]
pub fn create_cache_from_files(
    files: &[(usize, String)],
    dirs: &[(usize, String)],
    roots: Vec<String>,
) -> (c: Cache)
    requires
        scan_input_ok(files@, dirs@, root_views(roots@)),
    ensures
        c.roots_view() == root_views(roots@),
        built_from(
            files@,
            dirs@,
            root_views(roots@),
            c.files_view(),
            c.dirs_view(),
            c.root_dir_view(),
        ),
        c.pointers_valid(),
{
    let (sf, mut sd) = sorted_parts(files, dirs, roots.as_slice());
    let ghost sd0 = sd@;
    let (children, top) = link(sf.as_slice(), sd.as_slice());
    attach_children(&mut sd, children);
    let ghost sdf = sd@;
    proof {
        lemma_attached(sf@, sd0, sdf, top@, roots@.len(), dirs@, root_views(roots@));
    }
    let rp = root_pointers(sd.as_slice(), roots.as_slice(), top.as_slice());
    proof {
        lemma_cache_ordered(sf@, sd0, sdf, rp@);
        lemma_roots_listed(sd0, sdf, top@, rp@, root_views(roots@));
        assert(built_from(files@, dirs@, root_views(roots@), sf@, sdf, rp@));
    }
    let c = Cache::new(sf, sd, roots, rp);
    proof {
        lemma_built_valid(files@, dirs@, root_views(roots@), c);
    }
    c
}

} // verus!
