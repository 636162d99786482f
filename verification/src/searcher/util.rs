//! Helpers for presenting search results: ranges of matched characters, their
//! complement, slicing by character, and taking the best results in order.
use vstd::prelude::*;
use core::ops::Range;
use crate::fuzzy::matcher::strictly_increasing;
use crate::fuzzy::util::{range_pairs, runs, spaced};
use crate::order::{Ranked, rank_sorted};

verus! {

broadcast use vstd::seq_lib::to_multiset_update;

/// Strictly increasing positions are spaced by at least one.
pub proof fn lemma_strictly_increasing_spaced(s: Seq<usize>)
    requires
        strictly_increasing(s),
    ensures
        spaced(s, 1),
{
    assert forall|i: int| 0 <= i < s.len() - 1 implies s[i] + 1 <= #[trigger] s[i + 1] by {
        assert(s[i] < s[i + 1]);
    }
}

/// Compacts strictly increasing positions into ranges: runs of consecutive
/// positions become one range (see `runs`, with a step of one).
pub fn compact_to_ranges(indices: &[usize]) -> (res: Vec<Range<usize>>)
    requires
        strictly_increasing(indices@),
        indices@.len() > 0 ==> indices@.last() < usize::MAX,
    ensures
        range_pairs(res@) == runs(indices@, 1),
{
    proof {
        lemma_strictly_increasing_spaced(indices@);
    }
    let v = vstd::slice::slice_to_vec(indices);
    crate::fuzzy::util::compact_to_ranges(v, 1)
}

/// The gaps around the ranges inside `cover`: from the start of `cover` to the
/// first range, between consecutive ranges, and from the last range to the end
/// of `cover`.
pub open spec fn gaps(ranges: Seq<(int, int)>, cover: (int, int)) -> Seq<(int, int)> {
    Seq::new(
        ranges.len() + 1,
        |k: int|
            (
                if k == 0 {
                    cover.0
                } else {
                    ranges[k - 1].1
                },
                if k == ranges.len() {
                    cover.1
                } else {
                    ranges[k].0
                },
            ),
    )
}

/// The complement of increasing, non-overlapping ranges inside `cover`: one gap
/// before each range and one after the last (see `gaps`).
pub fn complement(ranges: &[Range<usize>], cover: Range<usize>) -> (res: Vec<Range<usize>>)
    ensures
        range_pairs(res@) == gaps(range_pairs(ranges@), (cover.start as int, cover.end as int)),
{
    let mut res: Vec<Range<usize>> = Vec::new();
    let mut start = cover.start;
    let mut i: usize = 0;
    while i < ranges.len()
        invariant
            i <= ranges@.len(),
            res@.len() == i,
            start == if i == 0 {
                cover.start
            } else {
                ranges@[i - 1].end
            },
            forall|k: int|
                0 <= k < i ==> (#[trigger] range_pairs(res@)[k]) == gaps(
                    range_pairs(ranges@),
                    (cover.start as int, cover.end as int),
                )[k],
        decreases ranges@.len() - i,
    {
        let ghost before = res@;
        res.push(Range { start, end: ranges[i].start });
        proof {
            assert forall|k: int| 0 <= k < i + 1 implies (#[trigger] range_pairs(res@)[k]) == gaps(
                range_pairs(ranges@),
                (cover.start as int, cover.end as int),
            )[k] by {
                if k < i {
                    assert(res@[k] == before[k]);
                    assert(range_pairs(before)[k] == range_pairs(res@)[k]);
                }
            }
        }
        start = ranges[i].end;
        i += 1;
    }
    let ghost before = res@;
    res.push(Range { start, end: cover.end });
    proof {
        assert forall|k: int| 0 <= k < i implies (#[trigger] range_pairs(res@)[k]) == gaps(
            range_pairs(ranges@),
            (cover.start as int, cover.end as int),
        )[k] by {
            assert(res@[k] == before[k]);
            assert(range_pairs(before)[k] == range_pairs(res@)[k]);
        }
        assert(range_pairs(res@) =~= gaps(
            range_pairs(ranges@),
            (cover.start as int, cover.end as int),
        ));
    }
    res
}

/// The characters of `string` at positions `slice.start` up to (not including)
/// `slice.end`.
pub fn slice_chars(string: &str, slice: Range<usize>) -> (r: &str)
    requires
        slice.start <= slice.end <= string@.len(),
    ensures
        r@ == string@.subrange(slice.start as int, slice.end as int),
{
    string.substring_char(slice.start, slice.end)
}

/// `[T]::swap`: exchanges the elements at `i` and `j`.
#[verifier::external_body]
fn slice_swap<T>(s: &mut [T], i: usize, j: usize)
    requires
        i < old(s)@.len(),
        j < old(s)@.len(),
    ensures
        final(s)@ == old(s)@.update(i as int, old(s)@[j as int]).update(j as int, old(s)@[i as int]),
{
    s.swap(i, j)
}

/// Exchanging two elements keeps the multiset of the elements.
proof fn lemma_swap_to_multiset<T>(s: Seq<T>, i: int, j: int)
    requires
        0 <= i < j < s.len(),
    ensures
        s.update(i, s[j]).update(j, s[i]).to_multiset() == s.to_multiset(),
{
    broadcast use vstd::multiset::group_multiset_properties;

    let m = s.to_multiset();
    let s1 = s.update(i, s[j]);
    assert(s1[j] == s[j]);
    assert(s1.to_multiset() == m.insert(s[j]).remove(s[i]));
    assert(s1.update(j, s[i]).to_multiset() == s1.to_multiset().insert(s[i]).remove(s[j]));
    assert(m.count(s[i]) > 0) by {
        assert(s[i] == s[i]);
        vstd::seq_lib::to_multiset_contains(s, s[i]);
        assert(s.contains(s[i]));
    }
    assert(m.insert(s[j]).remove(s[i]).insert(s[i]) =~= m.insert(s[j]));
    assert(m.insert(s[j]).remove(s[j]) =~= m);
}

/// The position of a first-ranked item among `items[from..]`.
fn position_of_best<T: Ranked>(items: &[T], from: usize) -> (m: usize)
    requires
        from < items@.len(),
    ensures
        from <= m < items@.len(),
        forall|x: int| from <= x < items@.len() ==> items@[m as int].rank_le(&#[trigger] items@[x]),
{
    let n = items.len();
    let mut m = from;
    let mut i = from + 1;
    proof {
        T::lemma_rank_total(&items@[from as int], &items@[from as int]);
    }
    while i < n
        invariant
            n == items@.len(),
            from <= m < i <= items@.len(),
            forall|x: int| from <= x < i ==> items@[m as int].rank_le(&#[trigger] items@[x]),
        decreases items@.len() - i,
    {
        if !items[m].ranks_le(&items[i]) {
            proof {
                T::lemma_rank_total(&items@[m as int], &items@[i as int]);
                assert forall|x: int| from <= x < i + 1 implies items@[i as int].rank_le(
                    &#[trigger] items@[x],
                ) by {
                    if x < i {
                        T::lemma_rank_transitive(&items@[i as int], &items@[m as int], &items@[x]);
                    } else {
                        T::lemma_rank_total(&items@[i as int], &items@[i as int]);
                    }
                }
            }
            m = i;
        }
        i += 1;
    }
    m
}

/// Moves the `k` first-ranked items of `items`, in ranking order, to its front
/// (partial selection sort).
fn select_first<T: Ranked>(items: &mut [T], k: usize)
    requires
        k <= old(items)@.len(),
    ensures
        final(items)@.len() == old(items)@.len(),
        final(items)@.to_multiset() == old(items)@.to_multiset(),
        rank_sorted(final(items)@.take(k as int)),
        forall|a: int, b: int|
            #![trigger final(items)@[a], final(items)@[b]]
            0 <= a < k <= b < final(items)@.len() ==> final(items)@[a].rank_le(&final(items)@[b]),
{
    let n = items.len();
    let mut i: usize = 0;
    while i < k
        invariant
            k <= n,
            n == items@.len(),
            i <= k,
            items@.to_multiset() == old(items)@.to_multiset(),
            forall|a: int, b: int|
                #![trigger items@[a], items@[b]]
                0 <= a < b < i ==> items@[a].rank_le(&items@[b]),
            forall|a: int, b: int|
                #![trigger items@[a], items@[b]]
                0 <= a < i <= b < n ==> items@[a].rank_le(&items@[b]),
        decreases k - i,
    {
        let m = position_of_best(items, i);
        let ghost before = items@;
        if m != i {
            slice_swap(items, i, m);
            proof {
                lemma_swap_to_multiset(before, i as int, m as int);
            }
        }
        proof {
            assert(items@[i as int] == before[m as int]);
            assert forall|a: int, b: int|
                #![trigger items@[a], items@[b]]
                0 <= a < i + 1 <= b < n implies items@[a].rank_le(&items@[b]) by {
                if a < i {
                    assert(items@[a] == before[a]);
                    if b == m {
                        assert(items@[b] == before[i as int]);
                    } else {
                        assert(items@[b] == before[b]);
                    }
                } else {
                    if b == m {
                        assert(items@[b] == before[i as int]);
                    } else {
                        assert(items@[b] == before[b]);
                    }
                }
            }
            assert forall|a: int, b: int|
                #![trigger items@[a], items@[b]]
                0 <= a < b < i + 1 implies items@[a].rank_le(&items@[b]) by {
                assert(items@[a] == before[a]);
                if b < i {
                    assert(items@[b] == before[b]);
                }
            }
        }
        i += 1;
    }
    proof {
        assert forall|a: int, b: int|
            #![trigger items@.take(k as int)[a], items@.take(k as int)[b]]
            0 <= a < b < items@.take(k as int).len() implies items@.take(k as int)[a].rank_le(
            &items@.take(k as int)[b],
        ) by {
            assert(items@.take(k as int)[a] == items@[a]);
            assert(items@.take(k as int)[b] == items@[b]);
        }
    }
}

/// The best `len` items, in ranking order: they are moved to the front of
/// `items` (all of them are sorted when there are fewer) and returned.
pub fn sorted_take<T: Ranked>(items: &mut [T], len: usize) -> (r: &mut [T])
    ensures
        r@.len() == if len < old(items)@.len() {
            len as int
        } else {
            old(items)@.len() as int
        },
        rank_sorted(r@),
        len == 0 ==> final(items)@ == old(items)@,
        forall|a: int| 0 <= a < r@.len() ==> old(items)@.contains(#[trigger] r@[a]),
        len > 0 ==> exists|rest: Seq<T>|
            #![trigger final(r)@ + rest]
            final(items)@ == final(r)@ + rest && (r@ + rest).to_multiset() == old(
                items,
            )@.to_multiset() && forall|a: int, b: int|
                #![trigger r@[a], rest[b]]
                0 <= a < r@.len() && 0 <= b < rest.len() ==> r@[a].rank_le(&rest[b]),
{
    if len == 0 {
        let empty: &mut [T] = &mut [];
        return empty;
    }
    let k = if len < items.len() {
        len
    } else {
        items.len()
    };
    select_first(items, k);
    let ghost sorted_items = items@;
    let (beg, rest) = items.split_at_mut(k);
    proof {
        assert(sorted_items =~= beg@ + rest@);
        assert forall|a: int, b: int| 0 <= a < beg@.len() && 0 <= b < rest@.len() implies #[trigger] beg@[a].rank_le(&rest@[b]) by {
            assert(beg@[a] == sorted_items[a]);
            assert(rest@[b] == sorted_items[k + b]);
        }
        assert(beg@ =~= sorted_items.take(k as int));
        assert forall|a: int| 0 <= a < beg@.len() implies old(items)@.contains(#[trigger] beg@[a]) by {
            assert(sorted_items[a] == beg@[a]);
            assert(sorted_items.contains(beg@[a]));
            crate::order::lemma_perm_contains(old(items)@, sorted_items, beg@[a]);
        }
    }
    beg
}

/// Compacted ranges of strictly increasing positions below `n` are non-empty,
/// lie within `0..n`, and are separated by at least one position.
pub proof fn lemma_runs_bounds(s: Seq<usize>, n: int)
    requires
        strictly_increasing(s),
        forall|k: int| 0 <= k < s.len() ==> #[trigger] s[k] < n,
    ensures
        forall|j: int|
            0 <= j < runs(s, 1).len() ==> 0 <= (#[trigger] runs(s, 1)[j]).0 < runs(s, 1)[j].1 <= n,
        forall|j: int|
            0 <= j < runs(s, 1).len() - 1 ==> (#[trigger] runs(s, 1)[j]).1 < runs(s, 1)[j + 1].0,
{
    lemma_strictly_increasing_spaced(s);
    crate::fuzzy::util::lemma_runs_cover(s);
    let r = runs(s, 1);
    assert forall|j: int| 0 <= j < r.len() implies 0 <= (#[trigger] r[j]).0 < r[j].1 <= n by {
        assert(crate::fuzzy::util::in_some_range(r, r[j].0));
        assert(crate::fuzzy::util::in_some_range(r, r[j].1 - 1));
        assert(crate::fuzzy::util::is_position(s, r[j].0));
        assert(crate::fuzzy::util::is_position(s, r[j].1 - 1));
    }
}

/// A gap as a piece of unmatched text, when it is not empty.
pub open spec fn gap_piece(s: Seq<char>, gap: (int, int)) -> Seq<(bool, Seq<char>)> {
    if gap.0 < gap.1 {
        seq![(false, s.subrange(gap.0, gap.1))]
    } else {
        Seq::empty()
    }
}

/// The pieces of `s` up to the end of the `k`-th matched range: each non-empty
/// gap as unmatched text (`false`), each range as matched text (`true`).
pub open spec fn style_pieces(s: Seq<char>, cr: Seq<(int, int)>, k: int) -> Seq<(bool, Seq<char>)>
    decreases k,
{
    if k <= 0 {
        Seq::empty()
    } else {
        style_pieces(s, cr, k - 1) + gap_piece(s, gaps(cr, (0, s.len() as int))[k - 1]) + seq![
            (true, s.subrange(cr[k - 1].0, cr[k - 1].1)),
        ]
    }
}

/// `s` cut into alternating unmatched and matched pieces: the matched ones are
/// the runs of consecutive positions of `indices`.
pub open spec fn stylized(s: Seq<char>, indices: Seq<usize>) -> Seq<(bool, Seq<char>)> {
    let cr = runs(indices, 1);
    style_pieces(s, cr, cr.len() as int) + gap_piece(s, gaps(cr, (0, s.len() as int))[cr.len() as int])
}

/// `out` is what `on_lcs` (matched) or `off_lcs` (unmatched) gives for the piece.
pub open spec fn styled_by<T, ON: Fn(&str) -> T, OFF: Fn(&str) -> T>(
    on_lcs: ON,
    off_lcs: OFF,
    piece: (bool, Seq<char>),
    out: T,
) -> bool {
    exists|x: &str|
        #![trigger on_lcs.ensures((x,), out)]
        #![trigger off_lcs.ensures((x,), out)]
        x@ == piece.1 && if piece.0 {
            on_lcs.ensures((x,), out)
        } else {
            off_lcs.ensures((x,), out)
        }
}

/// Cuts `string` into unmatched and matched pieces (the matched characters are at
/// `indices`, strictly increasing), renders each with `on_lcs` or `off_lcs`, and
/// returns the renderings in order.
#[verifier::spinoff_prover]
#[verifier::rlimit(40)]
pub fn stylize<T, ON: Fn(&str) -> T, OFF: Fn(&str) -> T>(
    string: &str,
    indices: &[usize],
    on_lcs: ON,
    off_lcs: OFF,
) -> (res: Vec<T>)
    requires
        strictly_increasing(indices@),
        forall|k: int| 0 <= k < indices@.len() ==> #[trigger] indices@[k] < string@.len(),
        forall|x: &str| #[trigger] on_lcs.requires((x,)),
        forall|x: &str| #[trigger] off_lcs.requires((x,)),
    ensures
        res@.len() == stylized(string@, indices@).len(),
        forall|j: int|
            0 <= j < res@.len() ==> styled_by(
                on_lcs,
                off_lcs,
                stylized(string@, indices@)[j],
                #[trigger] res@[j],
            ),
{
    let nchars = string.unicode_len();
    proof {
        if indices@.len() > 0 {
            assert(indices@[indices@.len() - 1] < string@.len());
        }
        lemma_runs_bounds(indices@, nchars as int);
    }
    let colored = compact_to_ranges(indices);
    let uncolored = complement(colored.as_slice(), Range { start: 0, end: nchars });
    let ghost s = string@;
    let ghost cr = runs(indices@, 1);
    let ghost g = gaps(cr, (0, s.len() as int));
    let mut res: Vec<T> = Vec::new();
    let mut k: usize = 0;
    proof {
        assert(colored@.len() == range_pairs(colored@).len());
        assert(uncolored@.len() == range_pairs(uncolored@).len());
    }
    while k < colored.len()
        invariant
            s == string@,
            nchars == s.len(),
            cr == runs(indices@, 1),
            g == gaps(cr, (0, s.len() as int)),
            range_pairs(colored@) == cr,
            range_pairs(uncolored@) == g,
            colored@.len() == cr.len(),
            uncolored@.len() == cr.len() + 1,
            forall|j: int| 0 <= j < cr.len() ==> 0 <= (#[trigger] cr[j]).0 < cr[j].1 <= nchars,
            forall|j: int| 0 <= j < cr.len() - 1 ==> (#[trigger] cr[j]).1 < cr[j + 1].0,
            forall|x: &str| #[trigger] on_lcs.requires((x,)),
            forall|x: &str| #[trigger] off_lcs.requires((x,)),
            k <= colored@.len(),
            res@.len() == style_pieces(s, cr, k as int).len(),
            forall|j: int|
                0 <= j < res@.len() ==> styled_by(
                    on_lcs,
                    off_lcs,
                    style_pieces(s, cr, k as int)[j],
                    #[trigger] res@[j],
                ),
        decreases colored@.len() - k,
    {
        let ghost before = res@;
        let ghost prev = style_pieces(s, cr, k as int);
        proof {
            assert(range_pairs(colored@)[k as int] == cr[k as int]);
            assert(range_pairs(uncolored@)[k as int] == g[k as int]);
            if k > 0 {
                assert(cr[k - 1].1 < cr[k as int].0);
            }
        }
        let uc_start = uncolored[k].start;
        let uc_end = uncolored[k].end;
        if uc_start < uc_end {
            let piece = slice_chars(string, Range { start: uc_start, end: uc_end });
            let out = off_lcs(piece);
            res.push(out);
        }
        let c_start = colored[k].start;
        let c_end = colored[k].end;
        let piece = slice_chars(string, Range { start: c_start, end: c_end });
        let out = on_lcs(piece);
        res.push(out);
        proof {
            let cur = style_pieces(s, cr, k + 1);
            assert(cur == prev + gap_piece(s, g[k as int]) + seq![
                (true, s.subrange(cr[k as int].0, cr[k as int].1)),
            ]);
            assert forall|j: int| 0 <= j < res@.len() implies styled_by(
                on_lcs,
                off_lcs,
                cur[j],
                #[trigger] res@[j],
            ) by {
                if j < before.len() {
                    assert(res@[j] == before[j]);
                    assert(cur[j] == prev[j]);
                } else if j == res@.len() - 1 {
                    assert(cur[j] == (true, s.subrange(cr[k as int].0, cr[k as int].1)));
                } else {
                    assert(cur[j] == (false, s.subrange(g[k as int].0, g[k as int].1)));
                }
            }
        }
        k += 1;
    }
    let ghost before = res@;
    let ghost prev = style_pieces(s, cr, k as int);
    proof {
        assert(range_pairs(uncolored@)[k as int] == g[k as int]);
        if k > 0 {
            assert(cr[k - 1].1 <= nchars);
        }
    }
    let uc_start = uncolored[k].start;
    let uc_end = uncolored[k].end;
    if uc_start < uc_end {
        let piece = slice_chars(string, Range { start: uc_start, end: uc_end });
        let out = off_lcs(piece);
        res.push(out);
    }
    proof {
        let all = stylized(s, indices@);
        assert(all == prev + gap_piece(s, g[k as int]));
        assert forall|j: int| 0 <= j < res@.len() implies styled_by(
            on_lcs,
            off_lcs,
            all[j],
            #[trigger] res@[j],
        ) by {
            if j < before.len() {
                assert(res@[j] == before[j]);
                assert(all[j] == prev[j]);
            } else {
                assert(all[j] == (false, s.subrange(g[k as int].0, g[k as int].1)));
            }
        }
    }
    res
}

/// The texts of the pieces, put back together.
pub open spec fn pieces_text(ps: Seq<(bool, Seq<char>)>) -> Seq<char>
    decreases ps.len(),
{
    if ps.len() == 0 {
        Seq::empty()
    } else {
        pieces_text(ps.drop_last()) + ps.last().1
    }
}

proof fn lemma_pieces_text_append(a: Seq<(bool, Seq<char>)>, b: Seq<(bool, Seq<char>)>)
    ensures
        pieces_text(a + b) == pieces_text(a) + pieces_text(b),
    decreases b.len(),
{
    if b.len() == 0 {
        assert(a + b =~= a);
    } else {
        lemma_pieces_text_append(a, b.drop_last());
        assert((a + b).drop_last() =~= a + b.drop_last());
    }
}

proof fn lemma_style_pieces_text(s: Seq<char>, cr: Seq<(int, int)>, k: int)
    requires
        0 <= k <= cr.len(),
        forall|j: int| 0 <= j < cr.len() ==> 0 <= (#[trigger] cr[j]).0 < cr[j].1 <= s.len(),
        forall|j: int| 0 <= j < cr.len() - 1 ==> (#[trigger] cr[j]).1 < cr[j + 1].0,
    ensures
        pieces_text(style_pieces(s, cr, k)) == s.subrange(
            0,
            if k == 0 {
                0
            } else {
                cr[k - 1].1
            },
        ),
    decreases k,
{
    if k > 0 {
        lemma_style_pieces_text(s, cr, k - 1);
        let g = gaps(cr, (0, s.len() as int))[k - 1];
        let prev = style_pieces(s, cr, k - 1);
        let last = seq![(true, s.subrange(cr[k - 1].0, cr[k - 1].1))];
        if k > 1 {
            assert(cr[k - 2].1 < cr[k - 1].0);
        }
        lemma_pieces_text_append(prev, gap_piece(s, g));
        lemma_pieces_text_append(prev + gap_piece(s, g), last);
        assert(pieces_text(last) =~= s.subrange(cr[k - 1].0, cr[k - 1].1)) by {
            reveal_with_fuel(pieces_text, 2);
            assert(last.drop_last() =~= Seq::<(bool, Seq<char>)>::empty());
        }
        if g.0 < g.1 {
            let gp = gap_piece(s, g);
            assert(pieces_text(gp) =~= s.subrange(g.0, g.1)) by {
                reveal_with_fuel(pieces_text, 2);
                assert(gp.drop_last() =~= Seq::<(bool, Seq<char>)>::empty());
            }
        } else {
            assert(gap_piece(s, g) =~= Seq::<(bool, Seq<char>)>::empty());
        }
        assert(s.subrange(0, g.0) + s.subrange(g.0, g.1) + s.subrange(cr[k - 1].0, cr[k - 1].1)
            =~= s.subrange(0, cr[k - 1].1));
    }
}

/// Nothing is lost or added when a string is cut into pieces for highlighting:
/// the texts of the pieces, in order, make up the string.
pub proof fn lemma_stylized_concat(s: Seq<char>, indices: Seq<usize>)
    requires
        strictly_increasing(indices),
        forall|k: int| 0 <= k < indices.len() ==> #[trigger] indices[k] < s.len(),
    ensures
        pieces_text(stylized(s, indices)) == s,
{
    lemma_runs_bounds(indices, s.len() as int);
    let cr = runs(indices, 1);
    let n = cr.len() as int;
    lemma_style_pieces_text(s, cr, n);
    let g = gaps(cr, (0, s.len() as int))[n];
    lemma_pieces_text_append(style_pieces(s, cr, n), gap_piece(s, g));
    if n > 0 {
        assert(0 <= cr[n - 1].0 < cr[n - 1].1 <= s.len());
        assert(g.0 == cr[n - 1].1);
    }
    assert(g.1 == s.len());
    if g.0 < g.1 {
        let gp = gap_piece(s, g);
        assert(pieces_text(gp) =~= s.subrange(g.0, g.1)) by {
            reveal_with_fuel(pieces_text, 2);
            assert(gp.drop_last() =~= Seq::<(bool, Seq<char>)>::empty());
        }
        assert(s.subrange(0, g.0) + s.subrange(g.0, g.1) =~= s);
    } else {
        assert(gap_piece(s, g) =~= Seq::<(bool, Seq<char>)>::empty());
        assert(pieces_text(gap_piece(s, g)) =~= Seq::<char>::empty());
        assert(s.subrange(0, g.0) =~= s);
    }
}

} // verus!
