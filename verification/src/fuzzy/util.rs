use vstd::prelude::*;
use core::ops::Range;
use crate::text::chars_of;

verus! {

/// Views a list of ranges as (start, end) pairs.
pub open spec fn range_pairs(v: Seq<Range<usize>>) -> Seq<(int, int)> {
    Seq::new(v.len(), |i: int| (v[i].start as int, v[i].end as int))
}

/// The ranges built from positions taken in order: a position equal to the end of
/// the current range extends it by `one`, any other position starts a new range
/// `x..x + one`.
pub open spec fn runs(s: Seq<usize>, one: int) -> Seq<(int, int)>
    decreases s.len(),
{
    if s.len() == 0 {
        Seq::empty()
    } else {
        let prev = runs(s.drop_last(), one);
        let x = s.last() as int;
        if prev.len() > 0 && prev.last().1 == x {
            prev.update(prev.len() - 1, (prev.last().0, x + one))
        } else {
            prev.push((x, x + one))
        }
    }
}

/// Each position is at least `one` past the previous one.
pub open spec fn spaced(s: Seq<usize>, one: int) -> bool {
    forall|i: int| 0 <= i < s.len() - 1 ==> s[i] + one <= #[trigger] s[i + 1]
}

proof fn lemma_runs_last(s: Seq<usize>, one: int)
    requires
        s.len() > 0,
    ensures
        runs(s, one).len() > 0,
        runs(s, one).last().1 == s.last() + one,
        runs(s, one).len() <= s.len(),
    decreases s.len(),
{
    if s.len() > 1 {
        lemma_runs_last(s.drop_last(), one);
    } else {
        assert(runs(s.drop_last(), one) == Seq::<(int, int)>::empty());
    }
}

/// Compacts positions into ranges: runs of positions `one` apart become one range
/// (see `runs`). Each position must be at least `one` past the previous one.
pub fn compact_to_ranges(verbose: Vec<usize>, one: usize) -> (res: Vec<Range<usize>>)
    requires
        one > 0,
        spaced(verbose@, one as int),
        verbose@.len() > 0 ==> verbose@.last() + one <= usize::MAX,
    ensures
        range_pairs(res@) == runs(verbose@, one as int),
{
    let mut res: Vec<Range<usize>> = Vec::new();
    let mut i: usize = 0;
    while i < verbose.len()
        invariant
            i <= verbose@.len(),
            one > 0,
            spaced(verbose@, one as int),
            verbose@.len() > 0 ==> verbose@.last() + one <= usize::MAX,
            range_pairs(res@) == runs(verbose@.take(i as int), one as int),
            i > 0 ==> res@.len() > 0 && res@.last().end == verbose@[i - 1] + one,
        decreases verbose@.len() - i,
    {
        let x = verbose[i];
        proof {
            let t = verbose@.take(i + 1);
            assert(t.drop_last() =~= verbose@.take(i as int));
            if i + 1 < verbose@.len() {
                assert(verbose@[i as int] + one <= verbose@[i + 1]);
                assert(x + one <= usize::MAX);
            } else {
                assert(x == verbose@.last());
            }
        }
        let n = res.len();
        if n > 0 && res[n - 1].end == x {
            let start = res[n - 1].start;
            res.set(n - 1, Range { start, end: x + one });
        } else {
            res.push(Range { start: x, end: x + one });
        }
        i += 1;
        proof {
            assert(range_pairs(res@) =~= runs(verbose@.take(i as int), one as int));
        }
    }
    proof {
        assert(verbose@.take(i as int) =~= verbose@);
    }
    res
}

/// Whether `x` lies in one of the ranges.
pub open spec fn in_some_range(r: Seq<(int, int)>, x: int) -> bool {
    exists|j: int| 0 <= j < r.len() && (#[trigger] r[j]).0 <= x < r[j].1
}

/// Whether `x` is one of the positions.
pub open spec fn is_position(s: Seq<usize>, x: int) -> bool {
    exists|i: int| 0 <= i < s.len() && (#[trigger] s[i]) as int == x
}

/// Ranges compacted from strictly increasing positions (with a step of one) are
/// non-empty, increasing, never touch each other, and cover exactly the given
/// positions.
pub proof fn lemma_runs_cover(s: Seq<usize>)
    requires
        spaced(s, 1),
    ensures
        forall|j: int| 0 <= j < runs(s, 1).len() ==> (#[trigger] runs(s, 1)[j]).0 < runs(s, 1)[j].1,
        forall|j: int|
            0 <= j < runs(s, 1).len() - 1 ==> (#[trigger] runs(s, 1)[j]).1 < runs(s, 1)[j + 1].0,
        forall|x: int| is_position(s, x) <==> #[trigger] in_some_range(runs(s, 1), x),
    decreases s.len(),
{
    let r = runs(s, 1);
    if s.len() == 0 {
        assert forall|x: int| !in_some_range(r, x) by {}
    } else {
        let s0 = s.drop_last();
        assert(spaced(s0, 1));
        lemma_runs_cover(s0);
        let prev = runs(s0, 1);
        let x = s.last() as int;
        if s0.len() > 0 {
            lemma_runs_last(s0, 1);
            assert(s0.last() + 1 <= x) by {
                assert(s[s.len() - 2] + 1 <= s[s.len() - 2 + 1]);
            }
        }
        assert(r.last().0 <= x < r.last().1);
        assert forall|y: int| is_position(s, y) <==> #[trigger] in_some_range(r, y) by {
            if is_position(s, y) {
                let i = choose|i: int| 0 <= i < s.len() && (#[trigger] s[i]) as int == y;
                if i < s.len() - 1 {
                    assert(s0[i] == s[i]);
                    assert(is_position(s0, y));
                    assert(in_some_range(prev, y));
                    let j = choose|j: int| 0 <= j < prev.len() && (#[trigger] prev[j]).0 <= y < prev[j].1;
                    assert(r[j].0 <= y < r[j].1);
                    assert(in_some_range(r, y));
                } else {
                    assert(r[r.len() - 1].0 <= y < r[r.len() - 1].1);
                    assert(in_some_range(r, y));
                }
            }
            if in_some_range(r, y) {
                let j = choose|j: int| 0 <= j < r.len() && (#[trigger] r[j]).0 <= y < r[j].1;
                if y == x {
                    assert(s[s.len() - 1] as int == y);
                    assert(is_position(s, y));
                } else if j < prev.len() && (j < prev.len() - 1 || r.len() > prev.len()) {
                    assert(prev[j] == r[j]);
                    assert(in_some_range(prev, y));
                    let i = choose|i: int| 0 <= i < s0.len() && (#[trigger] s0[i]) as int == y;
                    assert(s[i] as int == y);
                    assert(is_position(s, y));
                } else {
                    assert(j == prev.len() - 1);
                    assert(prev[j].0 <= y < prev[j].1);
                    assert(in_some_range(prev, y));
                    let i = choose|i: int| 0 <= i < s0.len() && (#[trigger] s0[i]) as int == y;
                    assert(s[i] as int == y);
                    assert(is_position(s, y));
                }
            }
        }
    }
}

/// The concatenation of the strings, in order.
pub open spec fn concat_views(outs: Seq<String>) -> Seq<char>
    decreases outs.len(),
{
    if outs.len() == 0 {
        Seq::empty()
    } else {
        concat_views(outs.drop_last()) + outs.last()@
    }
}

/// `outs` holds, for every character of `chars`, a result of `on_lcs` when its
/// position is listed in `indices` and of `off_lcs` otherwise.
pub open spec fn interspersed_pieces<ON: Fn(char) -> String, OFF: Fn(char) -> String>(
    on_lcs: ON,
    off_lcs: OFF,
    chars: Seq<char>,
    indices: Seq<usize>,
    outs: Seq<String>,
) -> bool {
    &&& outs.len() == chars.len()
    &&& forall|i: int|
        0 <= i < chars.len() ==> if indices.contains(i as usize) {
            on_lcs.ensures((chars[i],), #[trigger] outs[i])
        } else {
            off_lcs.ensures((chars[i],), outs[i])
        }
}

/// Whether `x` occurs in `v`.
pub fn slice_contains(v: &[usize], x: usize) -> (b: bool)
    ensures
        b == v@.contains(x),
{
    let mut i: usize = 0;
    while i < v.len()
        invariant
            i <= v@.len(),
            forall|j: int| 0 <= j < i ==> v@[j] != x,
        decreases v@.len() - i,
    {
        if v[i] == x {
            return true;
        }
        i += 1;
    }
    false
}

/// Renders every character of `string` with `on_lcs` when its position is listed
/// in `indices`, with `off_lcs` otherwise, and concatenates the renderings.
pub fn get_interspersed<ON: Fn(char) -> String, OFF: Fn(char) -> String>(
    string: &str,
    indices: &[usize],
    on_lcs: ON,
    off_lcs: OFF,
) -> (res: String)
    requires
        forall|c: char| #[trigger] on_lcs.requires((c,)),
            forall|c: char| #[trigger] off_lcs.requires((c,)),
    ensures
        exists|outs: Seq<String>|
            interspersed_pieces(on_lcs, off_lcs, string@, indices@, outs) && res@ == concat_views(
                outs,
            ),
{
    let chars = chars_of(string);
    let mut res = String::new();
    let ghost mut outs: Seq<String> = Seq::empty();
    let mut i: usize = 0;
    while i < chars.len()
        invariant
            chars@ == string@,
            i <= chars@.len(),
            forall|c: char| #[trigger] on_lcs.requires((c,)),
            forall|c: char| #[trigger] off_lcs.requires((c,)),
            outs.len() == i,
            forall|j: int|
                0 <= j < i ==> if indices@.contains(j as usize) {
                    on_lcs.ensures((chars@[j],), #[trigger] outs[j])
                } else {
                    off_lcs.ensures((chars@[j],), outs[j])
                },
            res@ == concat_views(outs),
        decreases chars@.len() - i,
    {
        let c = chars[i];
        let piece = if slice_contains(indices, i) {
            on_lcs(c)
        } else {
            off_lcs(c)
        };
        res.append(piece.as_str());
        proof {
            let old_outs = outs;
            outs = outs.push(piece);
            assert(outs.drop_last() =~= old_outs);
        }
        i += 1;
    }
    proof {
        assert(interspersed_pieces(on_lcs, off_lcs, string@, indices@, outs));
    }
    res
}

} // verus!
