//! The decisions of the file search's states: its menu, the refresh of the
//! cache, the search and the tree, and what the tree shows.
use vstd::prelude::*;
use crate::server::cache::{Cache, Pointer};
use crate::server::filesearch::{Results, search_files, query_refused, query_hits, reports_the_best, NUM_SEARCH_RESULTS};
use crate::server::machine::{Jump, MpvStart, MpvStartView, Request, Waiting, mpv_start_view};
use crate::server::tree::{Tree, Type, File, listing, crumb, file_view};

verus! {

/// What the file search's menu does for a request.
#[derive(Debug, Clone, Copy, PartialEq, Eq, Structural)]
pub enum FilerStep {
    Leave,
    RefreshCache,
    Search,
    Tree,
    Invalid,
}

/// The menu leaves on `FsStop` or when the connection is gone, and enters the
/// refresh, the search or the tree on their requests.
pub fn filer_step(req: Option<&Request>) -> (s: FilerStep)
    ensures
        s == match req {
            None => FilerStep::Leave,
            Some(Request::FsStop) => FilerStep::Leave,
            Some(Request::FsRefreshCache) => FilerStep::RefreshCache,
            Some(Request::FsSearch) => FilerStep::Search,
            Some(Request::FsTree) => FilerStep::Tree,
            _ => FilerStep::Invalid,
        },
{
    match req {
        None | Some(Request::FsStop) => FilerStep::Leave,
        Some(Request::FsRefreshCache) => FilerStep::RefreshCache,
        Some(Request::FsSearch) => FilerStep::Search,
        Some(Request::FsTree) => FilerStep::Tree,
        _ => FilerStep::Invalid,
    }
}

/// Once the cache is refreshed, the state waits for `FsStop`; it leaves too when
/// the connection is gone.
pub fn refreshed_step(req: Option<&Request>) -> (w: Waiting)
    ensures
        w == (if req is None || (req matches Some(r) && *r is FsStop) {
            Waiting::Leave
        } else {
            Waiting::Invalid
        }),
{
    match req {
        None | Some(Request::FsStop) => Waiting::Leave,
        _ => Waiting::Invalid,
    }
}

/// The jump to play a file of the cache.
pub open spec fn plays_file(j: Jump, root: usize, path: Seq<char>) -> bool {
    j matches Jump::Mpv(m) && mpv_start_view(m) == MpvStartView::File(root, path)
}

/// What the search does for a request.
#[derive(Debug)]
pub enum SearchStep {
    Leave,
    /// Send these results.
    Send(Results),
    Jump(Jump),
    Invalid,
}

/// What the search sends for a query (see `search_files`).
pub open spec fn answers(r: Results, query: Seq<char>, cache: Cache) -> bool {
    &&& r.query@ == query
    &&& r.query_valid == !query_refused(query)
    &&& query_refused(query) ==> r.results@.len() == 0
    &&& !query_refused(query) ==> r.results@.len() == if query_hits(query, cache.files_view()).len()
        < NUM_SEARCH_RESULTS {
        query_hits(query, cache.files_view()).len() as int
    } else {
        NUM_SEARCH_RESULTS as int
    }
    &&& reports_the_best(r.results@, query_hits(query, cache.files_view()), cache.files_view())
}

/// The search leaves on `FsStop` or when the connection is gone, answers each
/// query with its results, and jumps to the player for a file.
pub fn filer_search_step(req: Option<&Request>, cache: &Cache) -> (s: SearchStep)
    ensures
        match req {
            None => s is Leave,
            Some(Request::FsStop) => s is Leave,
            Some(Request::Search(q)) => s matches SearchStep::Send(r) && answers(r, q@, *cache),
            Some(Request::Mpv(MpvStart::File { root, path })) => s matches SearchStep::Jump(j)
                && plays_file(j, *root, path@),
            _ => s is Invalid,
        },
{
    match req {
        None | Some(Request::FsStop) => SearchStep::Leave,
        Some(Request::Search(q)) => SearchStep::Send(search_files(q.clone(), cache)),
        Some(Request::Mpv(MpvStart::File { root, path })) => SearchStep::Jump(
            Jump::Mpv(MpvStart::File { root: *root, path: path.clone() }),
        ),
        _ => SearchStep::Invalid,
    }
}

/// What the tree does for a request.
#[derive(Debug)]
pub enum TreeStep {
    Leave,
    /// Show the tree again: a directory was entered or left.
    Show,
    /// The directory asked for does not exist; the tree is unchanged.
    CdRefused,
    /// The roots are shown already; the tree is unchanged.
    CdUpRefused,
    Jump(Jump),
    Invalid,
}

/// The tree leaves on `FsStop` or when the connection is gone, enters and
/// leaves directories, and jumps to the player for a file.
pub fn filer_tree_step<'a>(tree: &mut Tree<'a>, req: Option<&Request>) -> (s: TreeStep)
    ensures
        final(tree).cache_view() == old(tree).cache_view(),
        match req {
            Some(Request::Cd(i)) => if *i < old(tree).cache_view().dirs_view().len() {
                s is Show && final(tree).dir_ids() == old(tree).dir_ids().push(*i)
            } else {
                s is CdRefused && final(tree).dir_ids() == old(tree).dir_ids()
            },
            Some(Request::CdDotDot) => if old(tree).dir_ids().len() > 0 {
                s is Show && final(tree).dir_ids() == old(tree).dir_ids().drop_last()
            } else {
                s is CdUpRefused && final(tree).dir_ids() == old(tree).dir_ids()
            },
            _ => final(tree).dir_ids() == old(tree).dir_ids() && match req {
                None => s is Leave,
                Some(Request::FsStop) => s is Leave,
                Some(Request::Mpv(MpvStart::File { root, path })) => s matches TreeStep::Jump(j)
                    && plays_file(j, *root, path@),
                _ => s is Invalid,
            },
        },
{
    match req {
        None | Some(Request::FsStop) => TreeStep::Leave,
        Some(Request::Cd(i)) => match tree.cd(*i) {
            Ok(()) => TreeStep::Show,
            Err(()) => TreeStep::CdRefused,
        },
        Some(Request::CdDotDot) => match tree.cd_up() {
            Ok(()) => TreeStep::Show,
            Err(()) => TreeStep::CdUpRefused,
        },
        Some(Request::Mpv(MpvStart::File { root, path })) => TreeStep::Jump(
            Jump::Mpv(MpvStart::File { root: *root, path: path.clone() }),
        ),
        _ => TreeStep::Invalid,
    }
}

/// An entry that the tree shows: a file to play, or a directory to enter.
#[derive(Debug)]
pub enum TreeEntry {
    File { path: String, root: usize, name: String },
    Dir { name: String, id: usize },
}

/// What the tree shows: the names of the directories entered and the entries at
/// the top.
#[derive(Debug)]
pub struct TreeShown {
    pub breadcrumbs: Vec<String>,
    pub contents: Vec<TreeEntry>,
}

/// How a listed entry is shown: a regular file with its path, root and name; a
/// directory or a root with its name and index.
pub open spec fn shows(e: TreeEntry, l: (Seq<char>, Seq<char>, Type, usize), root: Option<usize>) -> bool {
    match e {
        TreeEntry::File { path, root: r, name } => l.2 == Type::Regular && path@ == l.1 && name@
            == l.0 && root == Some(r),
        TreeEntry::Dir { name, id } => l.2 != Type::Regular && name@ == l.0 && id == l.3,
    }
}

/// The root of the directories entered, if any.
pub open spec fn tree_root(tree: Tree) -> Option<usize> {
    if tree.dir_ids().len() == 0 {
        None
    } else {
        Some(tree.cache_view().dirs_view()[tree.dir_ids()[0] as int].entry_view().root_index())
    }
}

/// At the roots, no regular file is listed: every pointer there is a directory
/// or names an entry with path `/`.
pub open spec fn no_file_at_roots(tree: Tree) -> bool {
    tree.dir_ids().len() == 0 ==> forall|k: int|
        0 <= k < tree.top().len() ==> (#[trigger] tree.top()[k]) is Dir || tree.cache_view().entry_at(
            tree.top()[k],
        ).path() == seq!['/']
}

/// What the tree shows (see `Tree::breadcrumbs`, `Tree::files` and `shows`).
pub fn create_tree_state(tree: &Tree) -> (r: TreeShown)
    requires
        tree.crumbs_named(),
        tree.top_listable(),
        no_file_at_roots(*tree),
    ensures
        r.breadcrumbs@.len() == tree.dir_ids().len(),
        forall|k: int|
            0 < k < r.breadcrumbs@.len() ==> (#[trigger] r.breadcrumbs@[k])@ == crumb(
                tree.cache_view().dirs_view()[tree.dir_ids()[k] as int].entry_view(),
            ),
        r.breadcrumbs@.len() > 0 ==> r.breadcrumbs@[0]@ == tree.cache_view().roots_view()[tree.cache_view().dirs_view()[tree.dir_ids()[0] as int].entry_view().root_index() as int],
        r.contents@.len() == tree.top().len(),
        forall|k: int|
            0 <= k < r.contents@.len() ==> shows(
                #[trigger] r.contents@[k],
                listing(tree.cache_view(), tree.top()[k]),
                tree_root(*tree),
            ),
{
    let breadcrumbs = tree.breadcrumbs();
    let files = tree.files();
    let root = tree.root();
    let mut contents: Vec<TreeEntry> = Vec::new();
    let mut k: usize = 0;
    while k < files.len()
        invariant
            files@.len() == tree.top().len(),
            forall|j: int|
                0 <= j < files@.len() ==> file_view(#[trigger] files@[j]) == listing(
                    tree.cache_view(),
                    tree.top()[j],
                ),
            root == tree_root(*tree),
            no_file_at_roots(*tree),
            k <= files@.len(),
            contents@.len() == k,
            forall|j: int|
                0 <= j < k ==> shows(
                    #[trigger] contents@[j],
                    listing(tree.cache_view(), tree.top()[j]),
                    tree_root(*tree),
                ),
        decreases files@.len() - k,
    {
        let f = &files[k];
        proof {
            assert(file_view(files@[k as int]) == listing(tree.cache_view(), tree.top()[k as int]));
        }
        match f.ty {
            Type::Regular => {
                proof {
                    if tree.dir_ids().len() == 0 {
                        assert(tree.top()[k as int] is Dir || tree.cache_view().entry_at(
                            tree.top()[k as int],
                        ).path() == seq!['/']);
                    }
                }
                let r = root.unwrap();
                contents.push(
                    TreeEntry::File {
                        path: f.path_relative_root.to_string(),
                        root: r,
                        name: f.name.to_string(),
                    },
                );
            },
            _ => {
                contents.push(TreeEntry::Dir { name: f.name.to_string(), id: f.id });
            },
        }
        k += 1;
    }
    TreeShown { breadcrumbs, contents }
}

} // verus!
