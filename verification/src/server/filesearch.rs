//! Searching the files of the cache for a query, keeping the best results.
use vstd::prelude::*;
use crate::order::Ranked;
use crate::searcher::compile::{swiper_pattern, swiper_rejects, swiper_trimmed};
use crate::searcher::pattern::regex_compiles;
use crate::searcher::search::{
    Candidate, SearchRes, hits, texts_of, describes, search, result_rank_le, first_of,
};
use crate::fuzzy::matcher::spread_of;
use crate::order::{rank_sorted, distinct_by, lemma_perm_contains, lemma_perm_distinct_by};
use crate::searcher::util::sorted_take;
use crate::server::cache::{Cache, CacheEntry, basename_start};

verus! {

/// The number of results kept.
pub const NUM_SEARCH_RESULTS: usize = 30;

/// A file found by a search: its path relative to its root, its root, the
/// positions of the matched characters, and where its last component starts.
#[derive(Debug, Clone, PartialEq, Eq)]
pub struct SearchResult {
    pub path: String,
    pub root: usize,
    pub indices: Vec<usize>,
    pub basename: usize,
}

/// The answer to a query: the results, the query, and whether it could be
/// compiled.
#[derive(Debug, Clone, PartialEq, Eq)]
pub struct Results {
    pub results: Vec<SearchResult>,
    pub query: String,
    pub query_valid: bool,
}

impl<'a> Candidate for &'a CacheEntry {
    open spec fn text(&self) -> Seq<char> {
        self.path()
    }

    fn as_text(&self) -> (r: &str) {
        self.path_relative_root()
    }
}

/// The query is refused: it is not empty and it does not compile.
pub open spec fn query_refused(q: Seq<char>) -> bool {
    q.len() > 0 && (swiper_rejects(q) || !regex_compiles(swiper_pattern(swiper_trimmed(q))))
}

/// The hits of a query among the files, as `searcher::search` finds them.
pub open spec fn query_hits(q: Seq<char>, files: Seq<CacheEntry>) -> Seq<(int, Seq<usize>)> {
    if q.len() == 0 {
        Seq::new(files.len(), |i: int| (i, Seq::<usize>::empty()))
    } else {
        hits(seq![swiper_pattern(swiper_trimmed(q))], files.map_values(|e: CacheEntry| e.path()), files.len() as int)
    }
}

/// `r` reports hit `h` among the files.
pub open spec fn reports(r: SearchResult, h: (int, Seq<usize>), files: Seq<CacheEntry>) -> bool {
    &&& 0 <= h.0 < files.len()
    &&& r.path@ == files[h.0].path()
    &&& r.root == files[h.0].root_index()
    &&& r.indices@ == h.1
    &&& r.basename == basename_start(files[h.0].path())
}

/// Hit `x` ranks before hit `y`, or with it: by the spread of its matched
/// characters, then by its first matched character, then by its index.
pub open spec fn hit_rank_le(x: (int, Seq<usize>), y: (int, Seq<usize>)) -> bool {
    result_rank_le(spread_of(x.1), first_of(x.1), x.0, spread_of(y.1), first_of(y.1), y.0)
}

/// The results report the hits chosen by `sel`: distinct hits, best first,
/// and no other hit ranks before any of them.
pub open spec fn best_reported(
    results: Seq<SearchResult>,
    hs: Seq<(int, Seq<usize>)>,
    files: Seq<CacheEntry>,
    sel: Seq<int>,
) -> bool {
    &&& sel.len() == results.len()
    &&& forall|a: int|
        0 <= a < sel.len() ==> 0 <= #[trigger] sel[a] < hs.len() && reports(results[a], hs[sel[a]], files)
    &&& forall|a: int, b: int|
        #![trigger sel[a], sel[b]]
        0 <= a < b < sel.len() ==> sel[a] != sel[b] && hit_rank_le(hs[sel[a]], hs[sel[b]])
    &&& forall|a: int, j: int|
        #![trigger sel[a], hs[j]]
        0 <= a < sel.len() && 0 <= j < hs.len() && !sel.contains(j) ==> hit_rank_le(hs[sel[a]], hs[j])
}

/// The results report best-ranked hits, best first (see `best_reported`).
pub open spec fn reports_the_best(
    results: Seq<SearchResult>,
    hs: Seq<(int, Seq<usize>)>,
    files: Seq<CacheEntry>,
) -> bool {
    exists|sel: Seq<int>| best_reported(results, hs, files, sel)
}

/// The index of a search result.
pub open spec fn res_index<T>(r: SearchRes<T>) -> int {
    r.index_of()
}

/// The best results taken out of all, as positions among all: distinct, best
/// first, and ranking before every result not taken.
proof fn lemma_best_selected<T>(
    all: Seq<SearchRes<T>>,
    h: Seq<(int, Seq<usize>)>,
    cands: Seq<T>,
    top: Seq<SearchRes<T>>,
    rest: Seq<SearchRes<T>>,
) -> (sel: Seq<int>)
    requires
        all.len() == h.len(),
        forall|j: int| 0 <= j < all.len() ==> describes(#[trigger] all[j], h[j], cands),
        forall|i: int, j: int| #![trigger h[i], h[j]] 0 <= i < j < h.len() ==> h[i].0 < h[j].0,
        (top + rest).to_multiset() == all.to_multiset(),
        rank_sorted(top),
        forall|a: int, b: int|
            #![trigger top[a], rest[b]]
            0 <= a < top.len() && 0 <= b < rest.len() ==> top[a].rank_le(&rest[b]),
    ensures
        sel.len() == top.len(),
        forall|a: int| 0 <= a < sel.len() ==> 0 <= #[trigger] sel[a] < all.len() && all[sel[a]] == top[a],
        forall|a: int, b: int|
            #![trigger sel[a], sel[b]]
            0 <= a < b < sel.len() ==> sel[a] != sel[b] && hit_rank_le(h[sel[a]], h[sel[b]]),
        forall|a: int, j: int|
            #![trigger sel[a], h[j]]
            0 <= a < sel.len() && 0 <= j < h.len() && !sel.contains(j) ==> hit_rank_le(h[sel[a]], h[j]),
{
    let both = top + rest;
    let key = |r: SearchRes<T>| res_index(r);
    assert forall|a: int| 0 <= a < top.len() implies all.contains(#[trigger] top[a]) by {
        assert(both[a] == top[a]);
        lemma_perm_contains(all, both, top[a]);
    }
    let sel = Seq::new(top.len(), |a: int| choose|j: int| 0 <= j < all.len() && all[j] == top[a]);
    assert(distinct_by(all, key)) by {
        assert forall|j: int, k: int| #![trigger all[j], all[k]] 0 <= j < k < all.len() implies key(all[j])
            != key(all[k]) by {
            assert(describes(all[j], h[j], cands));
            assert(describes(all[k], h[k], cands));
        }
    }
    lemma_perm_distinct_by(all, both, key);
    assert forall|a: int| 0 <= a < sel.len() implies 0 <= #[trigger] sel[a] < all.len() && all[sel[a]]
        == top[a] by {
        assert(all.contains(top[a]));
    }
    assert forall|a: int, b: int| #![trigger sel[a], sel[b]] 0 <= a < b < sel.len() implies sel[a]
        != sel[b] && hit_rank_le(h[sel[a]], h[sel[b]]) by {
        assert(both[a] == top[a]);
        assert(both[b] == top[b]);
        assert(key(both[a]) != key(both[b]));
        assert(top[a].rank_le(&top[b]));
        assert(describes(all[sel[a]], h[sel[a]], cands));
        assert(describes(all[sel[b]], h[sel[b]], cands));
    }
    assert forall|a: int, j: int| #![trigger sel[a], h[j]] 0 <= a < sel.len() && 0 <= j < h.len()
        && !sel.contains(j) implies hit_rank_le(h[sel[a]], h[j]) by {
        assert(all[j] == all[j]);
        assert(all.contains(all[j]));
        lemma_perm_contains(both, all, all[j]);
        let p = choose|p: int| 0 <= p < both.len() && both[p] == all[j];
        assert(describes(all[j], h[j], cands));
        assert(describes(all[sel[a]], h[sel[a]], cands));
        if p < top.len() {
            assert(all[sel[p]] == top[p]);
            assert(describes(all[sel[p]], h[sel[p]], cands));
            if sel[p] != j {
                if sel[p] < j {
                    assert(h[sel[p]].0 < h[j].0);
                } else {
                    assert(h[j].0 < h[sel[p]].0);
                }
            }
            assert(sel[p] == j);
            assert(sel.contains(j));
        } else {
            assert(rest[p - top.len()] == all[j]);
            assert(top[a].rank_le(&rest[p - top.len()]));
        }
    }
    sel
}

fn borrow_files<'a>(files: &'a [CacheEntry]) -> (v: Vec<&'a CacheEntry>)
    ensures
        v@.len() == files@.len(),
        forall|i: int| 0 <= i < v@.len() ==> *(#[trigger] v@[i]) == files@[i],
{
    let mut v: Vec<&'a CacheEntry> = Vec::new();
    let mut i: usize = 0;
    while i < files.len()
        invariant
            i <= files@.len(),
            v@.len() == i,
            forall|j: int| 0 <= j < i ==> *(#[trigger] v@[j]) == files@[j],
        decreases files@.len() - i,
    {
        v.push(&files[i]);
        i += 1;
    }
    v
}

/// Searches the files of the cache for the query (see `searcher::search`) and
/// reports the best results, at most `NUM_SEARCH_RESULTS`, in ranking order; a
/// query that does not compile gives no results and is marked invalid.
pub fn search_files(query: String, cache: &Cache) -> (r: Results)
    ensures
        r.query@ == query@,
        r.query_valid == !query_refused(query@),
        query_refused(query@) ==> r.results@.len() == 0,
        !query_refused(query@) ==> r.results@.len() == if query_hits(
            query@,
            cache.files_view(),
        ).len() < NUM_SEARCH_RESULTS {
            query_hits(query@, cache.files_view()).len() as int
        } else {
            NUM_SEARCH_RESULTS as int
        },
        reports_the_best(r.results@, query_hits(query@, cache.files_view()), cache.files_view()),
{
    let files = cache.files();
    let cands = borrow_files(files);
    let ghost fv = files@;
    proof {
        assert(texts_of(cands@) =~= fv.map_values(|e: CacheEntry| e.path()));
    }
    match search(query.as_str(), cands) {
        Err(_) => {
            let r = Results { results: Vec::new(), query, query_valid: false };
            proof {
                assert(best_reported(r.results@, query_hits(query@, fv), fv, Seq::empty()));
            }
            r
        },
        Ok(mut res) => {
            let ghost h = query_hits(query@, fv);
            let ghost all = res@;
            proof {
                if query@.len() == 0 {
                    assert forall|j: int| 0 <= j < all.len() implies describes(
                        #[trigger] all[j],
                        h[j],
                        cands@,
                    ) by {}
                } else {
                    assert forall|j: int| 0 <= j < all.len() implies 0 <= (#[trigger] h[j]).0 < fv.len() by {
                        crate::fuzzy::search::lemma_hits_index_bound(
                            seq![swiper_pattern(swiper_trimmed(query@))],
                            fv.map_values(|e: CacheEntry| e.path()),
                            fv.len() as int,
                            j,
                        );
                    }
                }
            }
            proof {
                assert forall|i: int, j: int| #![trigger h[i], h[j]] 0 <= i < j < h.len() implies h[i].0
                    < h[j].0 by {
                    if query@.len() > 0 {
                        crate::fuzzy::search::lemma_hits_increasing(
                            seq![swiper_pattern(swiper_trimmed(query@))],
                            fv.map_values(|e: CacheEntry| e.path()),
                            fv.len() as int,
                            i,
                            j,
                        );
                    }
                }
            }
            let top = sorted_take(res.as_mut_slice(), NUM_SEARCH_RESULTS);
            let ghost tv = top@;
            let ghost rest = choose|rest: Seq<SearchRes<&CacheEntry>>|
                (tv + rest).to_multiset() == all.to_multiset() && forall|a: int, b: int|
                    #![trigger tv[a], rest[b]]
                    0 <= a < tv.len() && 0 <= b < rest.len() ==> tv[a].rank_le(&rest[b]);
            let ghost sel = lemma_best_selected(all, h, cands@, tv, rest);
            let mut results: Vec<SearchResult> = Vec::new();
            let mut a: usize = 0;
            while a < top.len()
                invariant
                    a <= top@.len(),
                    fv == files@,
                    all.len() == h.len(),
                    forall|m: int| 0 <= m < top@.len() ==> all.contains(#[trigger] top@[m]),
                    forall|j: int| 0 <= j < all.len() ==> describes(#[trigger] all[j], h[j], cands@),
                    forall|j: int| 0 <= j < all.len() ==> 0 <= (#[trigger] h[j]).0 < fv.len(),
                    forall|i: int| 0 <= i < cands@.len() ==> *(#[trigger] cands@[i]) == fv[i],
                    cands@.len() == fv.len(),
                    results@.len() == a,
                    tv == top@,
                    sel.len() == tv.len(),
                    forall|m: int| 0 <= m < sel.len() ==> 0 <= #[trigger] sel[m] < all.len() && all[sel[m]] == tv[m],
                    forall|m: int| 0 <= m < a ==> reports(#[trigger] results@[m], h[sel[m]], fv),
                decreases top@.len() - a,
            {
                let idx = top[a].get_index();
                let ghost j = sel[a as int];
                proof {
                    assert(describes(all[j], h[j], cands@));
                    assert(0 <= h[j].0 < fv.len());
                }
                let entry = &files[idx];
                let indices = vstd::slice::slice_to_vec(top[a].get_match().indices());
                results.push(
                    SearchResult {
                        path: String::from_str(entry.path_relative_root()),
                        root: entry.root(),
                        indices,
                        basename: entry.basename_char(),
                    },
                );
                proof {
                    assert(*cands@[h[j].0] == fv[h[j].0]);
                    assert(reports(results@[a as int], h[j], fv));
                }
                a += 1;
            }
            proof {
                assert(best_reported(results@, h, fv, sel));
            }
            Results { results, query, query_valid: true }
        },
    }
}

} // verus!
