//! Ranking values in a total preorder, and sorting by it.
use vstd::prelude::*;

verus! {

broadcast use {vstd::seq_lib::to_multiset_update, vstd::seq_lib::lemma_multiset_commutative};

/// A total preorder in which values are ranked, first first.
pub trait Ranked: Sized {
    /// `self` ranks before `other`, or with it.
    spec fn rank_le(&self, other: &Self) -> bool;

    /// Any two values are ranked one way or the other.
    proof fn lemma_rank_total(a: &Self, b: &Self)
        ensures
            a.rank_le(b) || b.rank_le(a),
    ;

    /// Ranking is transitive.
    proof fn lemma_rank_transitive(a: &Self, b: &Self, c: &Self)
        requires
            a.rank_le(b),
            b.rank_le(c),
        ensures
            a.rank_le(c),
    ;

    /// Whether `self` ranks before `other`, or with it.
    fn ranks_le(&self, other: &Self) -> (r: bool)
        ensures
            r == self.rank_le(other),
    ;
}

impl Ranked for i32 {
    open spec fn rank_le(&self, other: &Self) -> bool {
        *self <= *other
    }

    proof fn lemma_rank_total(a: &Self, b: &Self) {
    }

    proof fn lemma_rank_transitive(a: &Self, b: &Self, c: &Self) {
    }

    fn ranks_le(&self, other: &Self) -> (r: bool) {
        *self <= *other
    }
}

impl Ranked for usize {
    open spec fn rank_le(&self, other: &Self) -> bool {
        *self <= *other
    }

    proof fn lemma_rank_total(a: &Self, b: &Self) {
    }

    proof fn lemma_rank_transitive(a: &Self, b: &Self, c: &Self) {
    }

    fn ranks_le(&self, other: &Self) -> (r: bool) {
        *self <= *other
    }
}

impl Ranked for () {
    open spec fn rank_le(&self, other: &Self) -> bool {
        true
    }

    proof fn lemma_rank_total(a: &Self, b: &Self) {
    }

    proof fn lemma_rank_transitive(a: &Self, b: &Self, c: &Self) {
    }

    fn ranks_le(&self, other: &Self) -> (r: bool) {
        true
    }
}

/// In ranking order.
pub open spec fn rank_sorted<T: Ranked>(s: Seq<T>) -> bool {
    forall|i: int, j: int| #![trigger s[i], s[j]] 0 <= i < j < s.len() ==> s[i].rank_le(&s[j])
}

/// The elements in the opposite order.
fn reversed<T>(v: Vec<T>) -> (r: Vec<T>)
    ensures
        r@.len() == v@.len(),
        forall|k: int| 0 <= k < r@.len() ==> #[trigger] r@[k] == v@[v@.len() - 1 - k],
{
    let ghost orig = v@;
    let mut v = v;
    let mut r: Vec<T> = Vec::new();
    while v.len() > 0
        invariant
            v@ == orig.take(v@.len() as int),
            v@.len() + r@.len() == orig.len(),
            forall|k: int| 0 <= k < r@.len() ==> #[trigger] r@[k] == orig[orig.len() - 1 - k],
        decreases v@.len(),
    {
        let x = v.pop().unwrap();
        proof {
            assert(v@ =~= orig.take(v@.len() as int));
        }
        r.push(x);
    }
    r
}

/// Merges two lists in ranking order into one in ranking order; among values
/// ranked alike, those of `a` come first.
fn merge<T: Ranked>(a: Vec<T>, b: Vec<T>) -> (r: Vec<T>)
    requires
        rank_sorted(a@),
        rank_sorted(b@),
    ensures
        rank_sorted(r@),
        r@.to_multiset() == (a@ + b@).to_multiset(),
        r@.len() == a@.len() + b@.len(),
{
    let ghost sa = a@;
    let ghost sb = b@;
    let na = a.len();
    let nb = b.len();
    let mut ra = reversed(a);
    let mut rb = reversed(b);
    let mut out: Vec<T> = Vec::new();
    let ghost mut i: int = 0;
    let ghost mut j: int = 0;
    proof {
        assert(out@ =~= sa.take(0) + sb.take(0));
    }
    while ra.len() > 0 || rb.len() > 0
        invariant
            na == sa.len(),
            nb == sb.len(),
            rank_sorted(sa),
            rank_sorted(sb),
            0 <= i <= sa.len(),
            0 <= j <= sb.len(),
            ra@.len() == sa.len() - i,
            rb@.len() == sb.len() - j,
            forall|k: int| 0 <= k < ra@.len() ==> #[trigger] ra@[k] == sa[sa.len() - 1 - k],
            forall|k: int| 0 <= k < rb@.len() ==> #[trigger] rb@[k] == sb[sb.len() - 1 - k],
            out@.len() == i + j,
            out@.to_multiset() == (sa.take(i) + sb.take(j)).to_multiset(),
            rank_sorted(out@),
            forall|p: int, q: int|
                #![trigger out@[p], sa[q]]
                0 <= p < out@.len() && i <= q < sa.len() ==> out@[p].rank_le(&sa[q]),
            forall|p: int, q: int|
                #![trigger out@[p], sb[q]]
                0 <= p < out@.len() && j <= q < sb.len() ==> out@[p].rank_le(&sb[q]),
        decreases ra@.len() + rb@.len(),
    {
        let take_a = if rb.len() == 0 {
            true
        } else if ra.len() == 0 {
            false
        } else {
            ra[ra.len() - 1].ranks_le(&rb[rb.len() - 1])
        };
        let ghost before = out@;
        if take_a {
            proof {
                assert(ra@[ra@.len() - 1] == sa[i]);
                if rb@.len() > 0 {
                    assert(rb@[rb@.len() - 1] == sb[j]);
                }
            }
            let x = ra.pop().unwrap();
            out.push(x);
            proof {
                assert(sa.take(i + 1) =~= sa.take(i).push(sa[i]));
                assert(out@ =~= before.push(sa[i]));
                assert((sa.take(i + 1) + sb.take(j)).to_multiset() =~= (sa.take(i) + sb.take(
                    j,
                )).to_multiset().insert(sa[i])) by {
                    broadcast use vstd::multiset::group_multiset_properties;

                    vstd::seq_lib::to_multiset_build(sa.take(i), sa[i]);
                }
                vstd::seq_lib::to_multiset_build(before, sa[i]);
                assert forall|p: int, q: int|
                    #![trigger out@[p], sa[q]]
                    0 <= p < out@.len() && i + 1 <= q < sa.len() implies out@[p].rank_le(
                        &sa[q],
                    ) by {
                    if p < before.len() {
                        assert(before[p] == out@[p]);
                    } else {
                        assert(sa[i].rank_le(&sa[q]));
                    }
                }
                assert forall|p: int, q: int|
                    #![trigger out@[p], sb[q]]
                    0 <= p < out@.len() && j <= q < sb.len() implies out@[p].rank_le(&sb[q]) by {
                    if p < before.len() {
                        assert(before[p] == out@[p]);
                    } else {
                        if q > j {
                            assert(sb[j].rank_le(&sb[q]));
                            T::lemma_rank_transitive(&sa[i], &sb[j], &sb[q]);
                        }
                    }
                }
                assert forall|p: int, q: int|
                    #![trigger out@[p], out@[q]]
                    0 <= p < q < out@.len() implies out@[p].rank_le(&out@[q]) by {
                    assert(before[p] == out@[p]);
                    if q < before.len() {
                        assert(before[q] == out@[q]);
                    }
                }
                i = i + 1;
            }
        } else {
            proof {
                assert(rb@[rb@.len() - 1] == sb[j]);
                if ra@.len() > 0 {
                    assert(ra@[ra@.len() - 1] == sa[i]);
                    T::lemma_rank_total(&sa[i], &sb[j]);
                }
            }
            let x = rb.pop().unwrap();
            out.push(x);
            proof {
                assert(sb.take(j + 1) =~= sb.take(j).push(sb[j]));
                assert(out@ =~= before.push(sb[j]));
                assert(sa.take(i) + sb.take(j + 1) =~= (sa.take(i) + sb.take(j)).push(sb[j]));
                vstd::seq_lib::to_multiset_build(sa.take(i) + sb.take(j), sb[j]);
                vstd::seq_lib::to_multiset_build(before, sb[j]);
                assert forall|p: int, q: int|
                    #![trigger out@[p], sb[q]]
                    0 <= p < out@.len() && j + 1 <= q < sb.len() implies out@[p].rank_le(
                        &sb[q],
                    ) by {
                    if p < before.len() {
                        assert(before[p] == out@[p]);
                    } else {
                        assert(sb[j].rank_le(&sb[q]));
                    }
                }
                assert forall|p: int, q: int|
                    #![trigger out@[p], sa[q]]
                    0 <= p < out@.len() && i <= q < sa.len() implies out@[p].rank_le(&sa[q]) by {
                    if p < before.len() {
                        assert(before[p] == out@[p]);
                    } else {
                        if q > i {
                            assert(sa[i].rank_le(&sa[q]));
                            T::lemma_rank_transitive(&sb[j], &sa[i], &sa[q]);
                        }
                    }
                }
                assert forall|p: int, q: int|
                    #![trigger out@[p], out@[q]]
                    0 <= p < q < out@.len() implies out@[p].rank_le(&out@[q]) by {
                    assert(before[p] == out@[p]);
                    if q < before.len() {
                        assert(before[q] == out@[q]);
                    }
                }
                j = j + 1;
            }
        }
    }
    proof {
        assert(sa.take(i) =~= sa);
        assert(sb.take(j) =~= sb);
    }
    out
}

/// The same values in ranking order (merge sort, stable).
pub fn merge_sort<T: Ranked>(v: Vec<T>) -> (r: Vec<T>)
    ensures
        rank_sorted(r@),
        r@.to_multiset() == v@.to_multiset(),
        r@.len() == v@.len(),
    decreases v@.len(),
{
    let n = v.len();
    if n <= 1 {
        return v;
    }
    let ghost orig = v@;
    let mut a = v;
    let b = a.split_off(n / 2);
    proof {
        assert(orig =~= a@ + b@);
    }
    let sa = merge_sort(a);
    let sb = merge_sort(b);
    merge(sa, sb)
}

/// No two elements have the same key.
pub open spec fn distinct_by<T, K>(s: Seq<T>, key: spec_fn(T) -> K) -> bool {
    forall|j: int, k: int| #![trigger s[j], s[k]] 0 <= j < k < s.len() ==> key(s[j]) != key(s[k])
}

/// An element of one of two sequences with the same elements is an element of
/// the other.
pub proof fn lemma_perm_contains<T>(a: Seq<T>, b: Seq<T>, x: T)
    requires
        a.to_multiset() == b.to_multiset(),
        b.contains(x),
    ensures
        a.contains(x),
{
    vstd::seq_lib::to_multiset_contains(b, x);
    vstd::seq_lib::to_multiset_contains(a, x);
}

/// Reordering keeps keys distinct.
pub proof fn lemma_perm_distinct_by<T, K>(a: Seq<T>, b: Seq<T>, key: spec_fn(T) -> K)
    requires
        a.to_multiset() == b.to_multiset(),
        distinct_by(a, key),
    ensures
        distinct_by(b, key),
{
    assert(a.no_duplicates()) by {
        assert forall|i: int, j: int| 0 <= i < a.len() && 0 <= j < a.len() && i != j implies a[i]
            != a[j] by {
            if i < j {
                assert(key(a[i]) != key(a[j]));
            } else {
                assert(key(a[j]) != key(a[i]));
            }
        }
    }
    a.lemma_multiset_has_no_duplicates();
    b.lemma_multiset_has_no_duplicates_conv();
    assert forall|j: int, k: int| #![trigger b[j], b[k]] 0 <= j < k < b.len() implies key(b[j])
        != key(b[k]) by {
        lemma_perm_contains(a, b, b[j]);
        lemma_perm_contains(a, b, b[k]);
        let jj = choose|i: int| 0 <= i < a.len() && a[i] == b[j];
        let kk = choose|i: int| 0 <= i < a.len() && a[i] == b[k];
        assert(b[j] != b[k]);
        if jj < kk {
            assert(key(a[jj]) != key(a[kk]));
        } else {
            assert(key(a[kk]) != key(a[jj]));
        }
    }
}

} // verus!
