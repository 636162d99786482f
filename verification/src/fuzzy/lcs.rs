use vstd::prelude::*;
use crate::fuzzy::dp::{Element, Grid, ELEMENT_MAX, max_u8};
use crate::text::{ci_eq, eq_ignore_ascii_case, chars_of, string_from_chars};
use crate::fuzzy::iterator::{diag_pairs, path_rows, spec_is_upleft, path_to_indices, LCSIterator, lcs_paths, lemma_every_path_handed_out, lemma_all_from_same};

verus! {

pub open spec fn max_nat(a: nat, b: nat) -> nat {
    if a >= b {
        a
    } else {
        b
    }
}

/// The length of a longest common subsequence of `a` and `b`, characters compared
/// ignoring ASCII case.
pub open spec fn lcs_len(a: Seq<char>, b: Seq<char>) -> nat
    decreases a.len() + b.len(),
{
    if a.len() == 0 || b.len() == 0 {
        0
    } else if ci_eq(a.last(), b.last()) {
        lcs_len(a.drop_last(), b.drop_last()) + 1
    } else {
        max_nat(lcs_len(a.drop_last(), b), lcs_len(a, b.drop_last()))
    }
}

/// Appending `c` to `pushed` would need a subsequence length above the largest
/// representable one: some character of `compare` equal to `c` follows a prefix
/// whose common subsequence with `pushed` already has the largest length.
pub open spec fn push_overflows(compare: Seq<char>, pushed: Seq<char>, c: char) -> bool {
    exists|r: int|
        1 <= r <= compare.len() && ci_eq(#[trigger] compare[r - 1], c) && lcs_len(
            compare.take(r - 1),
            pushed,
        ) >= ELEMENT_MAX
}

/// `idx` lists strictly increasing positions of `a`, and `ks` strictly increasing
/// positions of `b`, pairing characters that are equal ignoring ASCII case.
pub open spec fn common_positions(a: Seq<char>, b: Seq<char>, idx: Seq<usize>, ks: Seq<int>) -> bool {
    &&& idx.len() == ks.len()
    &&& forall|i: int| 0 <= i < idx.len() ==> #[trigger] idx[i] < a.len()
    &&& forall|i: int| 0 <= i < ks.len() ==> 0 <= #[trigger] ks[i] < b.len()
    &&& forall|i: int, j: int| 0 <= i < j < idx.len() ==> idx[i] < idx[j] && ks[i] < ks[j]
    &&& forall|i: int| 0 <= i < idx.len() ==> ci_eq(a[#[trigger] idx[i] as int], b[ks[i]])
}

/// `idx` are the positions in `a` of a common subsequence of `a` and `b`.
pub open spec fn is_common_subsequence(a: Seq<char>, b: Seq<char>, idx: Seq<usize>) -> bool {
    exists|ks: Seq<int>| common_positions(a, b, idx, ks)
}

/// Common positions stay common when either string is extended.
proof fn lemma_common_widen(a: Seq<char>, b: Seq<char>, a2: Seq<char>, b2: Seq<char>, idx: Seq<usize>, ks: Seq<int>)
    requires
        common_positions(a, b, idx, ks),
        a.len() <= a2.len(),
        b.len() <= b2.len(),
        forall|i: int| 0 <= i < a.len() ==> a2[i] == a[i],
        forall|i: int| 0 <= i < b.len() ==> b2[i] == b[i],
    ensures
        common_positions(a2, b2, idx, ks),
{
    assert forall|i: int| 0 <= i < idx.len() implies ci_eq(a2[#[trigger] idx[i] as int], b2[ks[i]]) by {
        assert(ci_eq(a[idx[i] as int], b[ks[i]]));
    }
}

/// Common positions that all lie below `ra` in `a` and below `rb` in `b` are
/// common positions of the prefixes.
proof fn lemma_common_narrow(a: Seq<char>, b: Seq<char>, ra: int, rb: int, idx: Seq<usize>, ks: Seq<int>)
    requires
        common_positions(a, b, idx, ks),
        0 <= ra <= a.len(),
        0 <= rb <= b.len(),
        forall|i: int| 0 <= i < idx.len() ==> #[trigger] idx[i] < ra,
        forall|i: int| 0 <= i < ks.len() ==> #[trigger] ks[i] < rb,
    ensures
        common_positions(a.take(ra), b.take(rb), idx, ks),
{
    assert forall|i: int| 0 <= i < idx.len() implies ci_eq(
        a.take(ra)[#[trigger] idx[i] as int],
        b.take(rb)[ks[i]],
    ) by {
        assert(ci_eq(a[idx[i] as int], b[ks[i]]));
    }
}

/// No common subsequence is longer than `lcs_len`.
pub proof fn lemma_lcs_len_is_longest(a: Seq<char>, b: Seq<char>, idx: Seq<usize>, ks: Seq<int>)
    requires
        common_positions(a, b, idx, ks),
    ensures
        idx.len() <= lcs_len(a, b),
    decreases a.len() + b.len(),
{
    if idx.len() == 0 {
        return;
    }
    let n = idx.len() - 1;
    let la = a.len() - 1;
    let lb = b.len() - 1;
    assert(idx[n] < a.len());
    assert(0 <= ks[n] < b.len());
    assert(a.drop_last() =~= a.take(la));
    assert(b.drop_last() =~= b.take(lb));
    if ci_eq(a.last(), b.last()) {
        let i2 = idx.drop_last();
        let k2 = ks.drop_last();
        assert forall|i: int| 0 <= i < i2.len() implies #[trigger] i2[i] < la by {
            assert(idx[i] < idx[n]);
        }
        assert forall|i: int| 0 <= i < k2.len() implies #[trigger] k2[i] < lb by {
            assert(ks[i] < ks[n]);
        }
        assert(common_positions(a, b, i2, k2));
        lemma_common_narrow(a, b, la, lb, i2, k2);
        lemma_lcs_len_is_longest(a.drop_last(), b.drop_last(), i2, k2);
    } else if idx[n] < la {
        assert forall|i: int| 0 <= i < idx.len() implies #[trigger] idx[i] < la by {
            if i < n {
                assert(idx[i] < idx[n]);
            }
        }
        lemma_common_narrow(a, b, la, b.len() as int, idx, ks);
        assert(b.take(b.len() as int) =~= b);
        lemma_lcs_len_is_longest(a.drop_last(), b, idx, ks);
    } else {
        assert(ks[n] != lb) by {
            if ks[n] == lb {
                assert(ci_eq(a[idx[n] as int], b[ks[n]]));
            }
        }
        assert forall|i: int| 0 <= i < ks.len() implies #[trigger] ks[i] < lb by {
            if i < n {
                assert(ks[i] < ks[n]);
            }
        }
        lemma_common_narrow(a, b, a.len() as int, lb, idx, ks);
        assert(a.take(a.len() as int) =~= a);
        lemma_lcs_len_is_longest(a, b.drop_last(), idx, ks);
    }
}

/// Some common subsequence is as long as `lcs_len`: it is the length of a
/// longest common subsequence.
pub proof fn lemma_lcs_len_attained(a: Seq<char>, b: Seq<char>)
    requires
        a.len() <= usize::MAX,
    ensures
        exists|idx: Seq<usize>, ks: Seq<int>|
            common_positions(a, b, idx, ks) && idx.len() == lcs_len(a, b),
    decreases a.len() + b.len(),
{
    if a.len() == 0 || b.len() == 0 {
        assert(common_positions(a, b, Seq::<usize>::empty(), Seq::<int>::empty()));
    } else if ci_eq(a.last(), b.last()) {
        let a2 = a.drop_last();
        let b2 = b.drop_last();
        lemma_lcs_len_attained(a2, b2);
        let (idx, ks) = choose|idx: Seq<usize>, ks: Seq<int>|
            common_positions(a2, b2, idx, ks) && idx.len() == lcs_len(a2, b2);
        lemma_common_widen(a2, b2, a, b, idx, ks);
        let i3 = idx.push((a.len() - 1) as usize);
        let k3 = ks.push(b.len() - 1);
        assert(common_positions(a, b, i3, k3));
    } else if lcs_len(a.drop_last(), b) >= lcs_len(a, b.drop_last()) {
        let a2 = a.drop_last();
        lemma_lcs_len_attained(a2, b);
        let (idx, ks) = choose|idx: Seq<usize>, ks: Seq<int>|
            common_positions(a2, b, idx, ks) && idx.len() == lcs_len(a2, b);
        lemma_common_widen(a2, b, a, b, idx, ks);
    } else {
        let b2 = b.drop_last();
        lemma_lcs_len_attained(a, b2);
        let (idx, ks) = choose|idx: Seq<usize>, ks: Seq<int>|
            common_positions(a, b2, idx, ks) && idx.len() == lcs_len(a, b2);
        lemma_common_widen(a, b2, a, b, idx, ks);
    }
}

/// One of the lists of positions is `idx`.
pub open spec fn has_indices(res: Seq<Vec<usize>>, idx: Seq<usize>) -> bool {
    exists|j: int| 0 <= j < res.len() && (#[trigger] res[j])@ == idx
}

proof fn lemma_take_drop_last<A>(s: Seq<A>, r: int)
    requires
        0 < r <= s.len(),
    ensures
        s.take(r).drop_last() == s.take(r - 1),
        s.take(r).last() == s[r - 1],
        s.take(r).len() == r,
{
    assert(s.take(r).drop_last() =~= s.take(r - 1));
}

/// A column computed from the recurrence holds the subsequence lengths for the
/// pushed characters extended by `c`.
proof fn lemma_new_column(a: Seq<char>, p: Seq<char>, c: char, col: Seq<Element>, r: int)
    requires
        1 <= r <= a.len(),
        col.len() == a.len(),
        forall|i: int|
            1 <= i <= a.len() ==> (#[trigger] col[i - 1]).length == (if ci_eq(a[i - 1], c) {
                lcs_len(a.take(i - 1), p) + 1
            } else {
                max_nat(
                    lcs_len(a.take(i), p),
                    if i == 1 {
                        0
                    } else {
                        col[i - 2].length as nat
                    },
                )
            }),
    ensures
        forall|i: int| 1 <= i <= r ==> (#[trigger] col[i - 1]).length == lcs_len(a.take(i), p.push(c)),
    decreases r,
{
    if r > 1 {
        lemma_new_column(a, p, c, col, r - 1);
    }
    assert forall|i: int| 1 <= i <= r implies (#[trigger] col[i - 1]).length == lcs_len(
        a.take(i),
        p.push(c),
    ) by {
        if i == r {
            lemma_take_drop_last(a, i);
            let ap = a.take(i);
            let pc = p.push(c);
            assert(pc.drop_last() =~= p);
            assert(pc.last() == c);
            if i == 1 {
                assert(a.take(0).len() == 0);
                assert(lcs_len(a.take(0), pc) == 0);
            } else {
                assert(col[(i - 1) - 1].length == lcs_len(a.take(i - 1), pc));
            }
            assert(lcs_len(ap, pc) == if ci_eq(ap.last(), pc.last()) {
                lcs_len(ap.drop_last(), pc.drop_last()) + 1
            } else {
                max_nat(lcs_len(ap.drop_last(), pc), lcs_len(ap, pc.drop_last()))
            });
        }
    }
}

proof fn lemma_push_ok(old: LCS, new: LCS, c: char)
    requires
        old.wf(),
        new.dp.wf(),
        new.dp.height() == old.dp.height(),
        new.dp@ == old.dp@.push(new.dp@.last()),
        new.chars@ == old.chars@,
        new.compare@ == old.compare@,
        new.pushed@ == old.pushed@.push(c),
        forall|i: int| 1 <= i <= old.chars@.len() ==> #[trigger] old.column_step(c, new.dp@.last(), i),
    ensures
        new.wf(),
        !push_overflows(old.compare(), old.pushed(), c),
{
    let a = old.chars@;
    let p = old.pushed@;
    let n = old.dp.ncols() as int;
    let col = new.dp@.last();
    assert(p.take(n) =~= p);
    assert forall|i: int| 1 <= i <= a.len() implies (#[trigger] col[i - 1]).length == (if ci_eq(
        a[i - 1],
        c,
    ) {
        lcs_len(a.take(i - 1), p) + 1
    } else {
        max_nat(
            lcs_len(a.take(i), p),
            if i == 1 {
                0
            } else {
                col[i - 2].length as nat
            },
        )
    }) && col[i - 1].matched == ci_eq(a[i - 1], c) by {
        assert(old.column_step(c, col, i));
        assert(old.cell_ok(i, n));
        assert(old.cell_ok(i - 1, n));
    }
    lemma_new_column(a, p, c, col, a.len() as int);
    assert forall|r: int| 1 <= r <= a.len() && ci_eq(#[trigger] a[r - 1], c) implies lcs_len(
        a.take(r - 1),
        p,
    ) < ELEMENT_MAX by {
        assert(old.column_step(c, col, r));
        assert(old.cell_ok(r - 1, n));
    }
    assert forall|r: int, k: int|
        0 <= r <= new.dp.height() && 0 <= k <= new.dp.ncols() implies #[trigger] new.cell_ok(
        r,
        k,
    ) by {
        if k <= n {
            assert(old.dp.cell(r, k) == new.dp.cell(r, k));
            assert(p.push(c).take(k) =~= p.take(k));
            assert(old.cell_ok(r, k));
        } else {
            assert(p.push(c).take(k) =~= p.push(c));
            if r == 0 {
                assert(a.take(0).len() == 0);
            } else {
                assert(col[r - 1] == new.dp.cell(r, k));
            }
        }
    }
}

/// Incremental longest common subsequence between a fixed `compare` string and a
/// string that is typed one character at a time (`push`, `pop`).
pub struct LCS {
    compare: String,
    chars: Vec<char>,
    dp: Grid,
    pushed: Ghost<Seq<char>>,
}

impl LCS {
    /// The string searched in.
    pub closed spec fn compare(&self) -> Seq<char> {
        self.compare@
    }

    /// The dynamic-programming grid, column by column.
    pub closed spec fn grid(&self) -> Seq<Seq<Element>> {
        self.dp@
    }

    /// The characters pushed so far.
    pub closed spec fn pushed(&self) -> Seq<char> {
        self.pushed@
    }

    closed spec fn cell_ok(&self, r: int, k: int) -> bool {
        let e = self.dp.cell(r, k);
        &&& e.length == lcs_len(self.chars@.take(r), self.pushed@.take(k))
        &&& e.matched == (r > 0 && k > 0 && ci_eq(self.chars@[r - 1], self.pushed@[k - 1]))
    }

    /// Row `i` of the column `col` computed for the character `c`: a match extends
    /// the diagonal neighbour by one, otherwise the longer of the left and upper
    /// neighbours is kept.
    closed spec fn column_step(&self, c: char, col: Seq<Element>, i: int) -> bool {
        let n = self.dp.ncols() as int;
        let left = self.dp.cell(i, n);
        let upleft = self.dp.cell(i - 1, n);
        let up = if i == 1 {
            crate::fuzzy::dp::empty_element()
        } else {
            col[i - 2]
        };
        if ci_eq(self.chars@[i - 1], c) {
            upleft.length < ELEMENT_MAX && col[i - 1] == Element {
                length: (upleft.length + 1) as u8,
                matched: true,
            }
        } else {
            col[i - 1] == Element { length: max_u8(left.length, up.length), matched: false }
        }
    }

    /// One backtracking step through the grid from a cell off the borders: up when
    /// that keeps the length, diagonally up-left from a matched cell, or left when
    /// that keeps the length.
    pub closed spec fn step_ok(&self, from: (usize, usize), to: (usize, usize)) -> bool {
        let r = from.0 as int;
        let k = from.1 as int;
        &&& r > 0 && k > 0
        &&& {
            ||| (to.0 == r - 1 && to.1 == k && self.dp.cell(r, k).length == self.dp.cell(
                r - 1,
                k,
            ).length)
            ||| (to.0 == r - 1 && to.1 == k - 1 && self.dp.cell(r, k).matched)
            ||| (to.0 == r && to.1 == k - 1 && self.dp.cell(r, k).length == self.dp.cell(
                r,
                k - 1,
            ).length)
        }
    }

    /// `path` backtracks from cell (`r`, `k`) to a border cell in valid steps.
    pub closed spec fn is_path_from(&self, path: Seq<(usize, usize)>, r: int, k: int) -> bool {
        &&& path.len() >= 1
        &&& path[0].0 == r && path[0].1 == k
        &&& (path.last().0 == 0 || path.last().1 == 0)
        &&& forall|i: int| 0 <= i < path.len() - 1 ==> #[trigger] self.step_ok(path[i], path[i + 1])
    }

    /// `path` backtracks from the bottom-right cell to a border cell in valid steps.
    pub closed spec fn is_full_path(&self, path: Seq<(usize, usize)>) -> bool {
        self.is_path_from(path, self.dp.height() as int, self.dp.ncols() as int)
    }

    /// The number of rows of the grid: one per character of the compared string.
    pub closed spec fn rows(&self) -> nat {
        self.dp.height()
    }

    /// The number of columns of the grid: one per typed character.
    pub closed spec fn cols(&self) -> nat {
        self.dp.ncols()
    }

    /// A backtracking step goes to a cell up, left or up-left of where it starts.
    pub proof fn lemma_step_smaller(&self, from: (usize, usize), to: (usize, usize))
        requires
            self.step_ok(from, to),
        ensures
            from.0 > 0 && from.1 > 0,
            to == ((from.0 - 1) as usize, from.1) || to == ((from.0 - 1) as usize, (from.1 - 1) as usize)
                || to == (from.0, (from.1 - 1) as usize),
            to.0 <= from.0,
            to.1 <= from.1,
            to.0 + to.1 < from.0 + from.1,
    {
    }

    /// A path from the bottom-right cell to a border cell in valid steps is a full
    /// path.
    pub proof fn lemma_full_path(&self, path: Seq<(usize, usize)>)
        requires
            path.len() >= 1,
            path[0].0 == self.rows() && path[0].1 == self.cols(),
            path.last().0 == 0 || path.last().1 == 0,
            forall|i: int| 0 <= i < path.len() - 1 ==> #[trigger] self.step_ok(path[i], path[i + 1]),
        ensures
            self.is_full_path(path),
    {
    }

    /// From a cell off the borders, some backtracking step is possible.
    pub proof fn lemma_some_step(&self, r: usize, k: usize)
        requires
            self.wf(),
            0 < r <= self.rows(),
            0 < k <= self.cols(),
        ensures
            self.step_ok((r, k), ((r - 1) as usize, k)) || self.step_ok(
                (r, k),
                ((r - 1) as usize, (k - 1) as usize),
            ) || self.step_ok((r, k), (r, (k - 1) as usize)),
    {
        assert(self.cell_ok(r as int, k as int));
        assert(self.cell_ok(r - 1, k as int));
        assert(self.cell_ok(r as int, k - 1));
        lemma_take_drop_last(self.chars@, r as int);
        lemma_take_drop_last(self.pushed@, k as int);
    }

    /// What it takes to be a path from cell (`r`, `k`): it starts there, ends on a
    /// border, and goes in valid steps.
    pub proof fn lemma_path_from_def(&self, path: Seq<(usize, usize)>, r: int, k: int)
        ensures
            self.is_path_from(path, r, k) == (path.len() >= 1 && path[0].0 == r && path[0].1 == k
                && (path.last().0 == 0 || path.last().1 == 0) && forall|i: int|
                0 <= i < path.len() - 1 ==> #[trigger] self.step_ok(path[i], path[i + 1])),
            self.is_full_path(path) == self.is_path_from(path, self.rows() as int, self.cols() as int),
    {
    }

    /// The bottom-right cell of the grid.
    pub(crate) fn corner(&self) -> (p: (usize, usize))
        requires
            self.wf(),
        ensures
            p.0 == self.rows(),
            p.1 == self.cols(),
    {
        self.dp.bottom_right()
    }

    /// The backtracking steps from cell (`r`, `k`) off the borders: up,
    /// up-left and left. At least one of them is possible.
    pub(crate) fn moves(&self, r: usize, k: usize) -> (m: (bool, bool, bool))
        requires
            self.wf(),
            0 < r <= self.rows(),
            0 < k <= self.cols(),
        ensures
            m.0 == self.step_ok((r, k), ((r - 1) as usize, k)),
            m.1 == self.step_ok((r, k), ((r - 1) as usize, (k - 1) as usize)),
            m.2 == self.step_ok((r, k), (r, (k - 1) as usize)),
            m.0 || m.1 || m.2,
    {
        proof {
            assert(self.cell_ok(r as int, k as int));
            assert(self.cell_ok(r - 1, k as int));
            assert(self.cell_ok(r as int, k - 1));
            lemma_take_drop_last(self.chars@, r as int);
            lemma_take_drop_last(self.pushed@, k as int);
        }
        let cur = self.dp.get(r, k).unwrap();
        let up = self.dp.get(r - 1, k).unwrap();
        let left = self.dp.get(r, k - 1).unwrap();
        (cur.length() == up.length(), cur.matched(), cur.length() == left.length())
    }

    /// Well formed: the grid holds, for every pair of prefixes, the subsequence
    /// length and whether the last characters match.
    pub closed spec fn wf(&self) -> bool {
        &&& self.dp.wf()
        &&& self.chars@ == self.compare@
        &&& self.chars@.len() > 0
        &&& self.dp.height() == self.chars@.len()
        &&& self.dp.ncols() == self.pushed@.len()
        &&& forall|r: int, k: int|
            0 <= r <= self.dp.height() && 0 <= k <= self.dp.ncols() ==> #[trigger] self.cell_ok(
                r,
                k,
            )
    }

    /// An empty matcher for a non-empty `compare`.
    pub fn new(compare: &str) -> (l: Self)
        requires
            compare@.len() > 0,
        ensures
            l.wf(),
            l.compare() == compare@,
            l.pushed() == Seq::<char>::empty(),
    {
        let chars = chars_of(compare);
        let len = chars.len();
        let l = LCS {
            compare: String::from_str(compare),
            chars,
            dp: Grid::new_usize(len),
            pushed: Ghost(Seq::empty()),
        };
        proof {
            assert forall|r: int, k: int|
                0 <= r <= l.dp.height() && 0 <= k <= l.dp.ncols() implies #[trigger] l.cell_ok(
                r,
                k,
            ) by {
                assert(k == 0);
                assert(l.pushed@.take(0).len() == 0);
            }
        }
        l
    }

    /// Extends the typed string by `c`; fails, leaving everything unchanged, when a
    /// subsequence length would exceed the largest representable one.
    pub fn push(&mut self, c: char) -> (res: Result<(), ()>)
        requires
            old(self).wf(),
        ensures
            final(self).wf(),
            final(self).compare() == old(self).compare(),
            !push_overflows(old(self).compare(), old(self).pushed(), c) ==> res is Ok
                && final(self).pushed() == old(self).pushed().push(c),
            push_overflows(old(self).compare(), old(self).pushed(), c) ==> res is Err
                && final(self).pushed() == old(self).pushed(),
    {
        let ghost a = self.chars@;
        let ghost p = self.pushed@;
        let ghost old_dp = self.dp;
        let ghost n = self.dp.ncols() as int;
        let chars = &self.chars;
        assert(chars@ == a);
        let recur = |row: usize, left: Element, up: Element, upleft: Element| -> (r: Result<
            Element,
            (),
        >)
            requires
                1 <= row <= chars@.len(),
            ensures
                ci_eq(chars@[row - 1], c) ==> (upleft.length < ELEMENT_MAX ==> r == Ok::<
                    Element,
                    (),
                >(Element { length: (upleft.length + 1) as u8, matched: true })) && (upleft.length
                    >= ELEMENT_MAX ==> r is Err),
                !ci_eq(chars@[row - 1], c) ==> r == Ok::<Element, ()>(
                    Element { length: max_u8(left.length, up.length), matched: false },
                ),
        {
            let cur = chars[row - 1];
            if eq_ignore_ascii_case(cur, c) {
                Element::new_matched(upleft)
            } else {
                Ok(Element::new_not_matched(left, up))
            }
        };
        let res = self.dp.generate_col(recur);
        match res {
            Ok(()) => {
                proof {
                    let col = self.dp@.last();
                    assert forall|i: int| 1 <= i <= a.len() implies #[trigger] old(self).column_step(
                        c,
                        col,
                        i,
                    ) by {
                        assert(recur.ensures(
                            (
                                i as usize,
                                old_dp.cell(i, n),
                                if i == 1 {
                                    crate::fuzzy::dp::empty_element()
                                } else {
                                    col[i - 2]
                                },
                                old_dp.cell(i - 1, n),
                            ),
                            Ok::<Element, ()>(col[i - 1]),
                        ));
                        let up = if i == 1 {
                            crate::fuzzy::dp::empty_element()
                        } else {
                            col[i - 2]
                        };
                        if ci_eq(a[i - 1], c) {
                            assert(old_dp.cell(i - 1, n).length < ELEMENT_MAX);
                            assert(col[i - 1] == Element {
                                length: (old_dp.cell(i - 1, n).length + 1) as u8,
                                matched: true,
                            });
                        } else {
                            assert(col[i - 1] == Element {
                                length: max_u8(old_dp.cell(i, n).length, up.length),
                                matched: false,
                            });
                        }
                    }
                    self.pushed = Ghost(p.push(c));
                    lemma_push_ok(*old(self), *self, c);
                }
            },
            Err(()) => {
                proof {
                    let (r, up, e) = choose|r: usize, up: Element, e: Result<Element, ()>|
                        1 <= r <= old_dp.height() && e is Err && #[trigger] recur.ensures(
                            (r, old_dp.cell(r as int, n), up, old_dp.cell(r - 1, n)),
                            e,
                        );
                    assert(old(self).cell_ok(r - 1, n));
                    assert(p.take(n) =~= p);
                    assert(ci_eq(a[r - 1], c));
                    assert forall|r: int, k: int|
                        0 <= r <= self.dp.height() && 0 <= k <= self.dp.ncols() implies #[trigger] self.cell_ok(
                        r,
                        k,
                    ) by {
                        assert(old(self).cell_ok(r, k));
                    }
                }
            },
        }
        res
    }

    /// Removes the last typed character.
    pub fn pop(&mut self)
        requires
            old(self).wf(),
            old(self).pushed().len() > 0,
        ensures
            final(self).wf(),
            final(self).compare() == old(self).compare(),
            final(self).pushed() == old(self).pushed().drop_last(),
    {
        let ghost p = self.pushed@;
        self.dp.pop_col();
        proof {
            self.pushed = Ghost(p.drop_last());
            assert forall|r: int, k: int|
                0 <= r <= self.dp.height() && 0 <= k <= self.dp.ncols() implies #[trigger] self.cell_ok(
                r,
                k,
            ) by {
                assert(old(self).cell_ok(r, k));
                assert(p.drop_last().take(k) =~= p.take(k));
            }
        }
    }

    /// Whether nothing has been typed.
    pub fn is_empty(&self) -> (b: bool)
        requires
            self.wf(),
        ensures
            b == (self.pushed().len() == 0),
    {
        self.dp.is_empty()
    }

    /// The string searched in.
    pub fn get_compare(&self) -> (s: &str)
        ensures
            s@ == self.compare(),
    {
        self.compare.as_str()
    }

    /// The length of a longest common subsequence of the compared string and the
    /// typed string.
    pub fn length(&self) -> (l: usize)
        requires
            self.wf(),
        ensures
            l == lcs_len(self.compare(), self.pushed()),
    {
        proof {
            let h = self.dp.height() as int;
            let n = self.dp.ncols() as int;
            assert(self.cell_ok(h, n));
            assert(self.chars@.take(h) =~= self.chars@);
            assert(self.pushed@.take(n) =~= self.pushed@);
        }
        match self.dp.get_last() {
            Some(x) => x.length() as usize,
            None => 0,
        }
    }

    /// The number of cells in the grid.
    pub fn grid_len(&self) -> (n: usize)
        requires
            self.wf(),
        ensures
            n == self.pushed().len() * self.compare().len(),
    {
        self.dp.len()
    }

    /// The number of grid columns, one per typed character.
    pub fn grid_columns(&self) -> (n: usize)
        requires
            self.wf(),
        ensures
            n == self.pushed().len(),
    {
        self.dp.columns_non_zero()
    }

    /// Types every character of `s` in order. Stops at the first character that
    /// cannot be pushed and returns how many were pushed before it.
    pub fn push_str(&mut self, s: &str) -> (res: Result<(), usize>)
        requires
            old(self).wf(),
        ensures
            final(self).wf(),
            final(self).compare() == old(self).compare(),
            res is Ok ==> final(self).pushed() == old(self).pushed() + s@ && forall|j: int|
                0 <= j < s@.len() ==> !push_overflows(
                    old(self).compare(),
                    old(self).pushed() + s@.take(j),
                    #[trigger] s@[j],
                ),
            res matches Err(n) ==> n < s@.len() && final(self).pushed() == old(self).pushed()
                + s@.take(n as int) && push_overflows(
                old(self).compare(),
                old(self).pushed() + s@.take(n as int),
                s@[n as int],
            ) && forall|j: int|
                0 <= j < n ==> !push_overflows(
                    old(self).compare(),
                    old(self).pushed() + s@.take(j),
                    #[trigger] s@[j],
                ),
    {
        let chars = chars_of(s);
        let mut count: usize = 0;
        while count < chars.len()
            invariant
                self.wf(),
                chars@ == s@,
                count <= chars@.len(),
                self.compare() == old(self).compare(),
                self.pushed() == old(self).pushed() + s@.take(count as int),
                forall|j: int|
                    0 <= j < count ==> !push_overflows(
                        old(self).compare(),
                        old(self).pushed() + s@.take(j),
                        #[trigger] s@[j],
                    ),
            decreases chars@.len() - count,
        {
            if self.push(chars[count]).is_ok() {
                proof {
                    assert(s@.take(count + 1) =~= s@.take(count as int).push(s@[count as int]));
                    assert(old(self).pushed() + s@.take(count + 1) =~= (old(self).pushed()
                        + s@.take(count as int)).push(s@[count as int]));
                }
                count += 1;
            } else {
                return Err(count);
            }
        }
        proof {
            assert(s@.take(count as int) =~= s@);
        }
        Ok(())
    }

    /// The characters of the compared string at the given positions.
    pub fn longest_seq_str(&self, indices: &[usize]) -> (s: String)
        requires
            self.wf(),
            forall|i: int| 0 <= i < indices@.len() ==> #[trigger] indices@[i] < self.compare().len(),
        ensures
            s@ == Seq::new(indices@.len(), |i: int| self.compare()[indices@[i] as int]),
    {
        let mut out: Vec<char> = Vec::new();
        let mut i: usize = 0;
        while i < indices.len()
            invariant
                self.wf(),
                i <= indices@.len(),
                forall|j: int| 0 <= j < indices@.len() ==> #[trigger] indices@[j] < self.compare().len(),
                out@ == Seq::new(i as nat, |j: int| self.compare()[indices@[j] as int]),
            decreases indices@.len() - i,
        {
            out.push(self.chars[indices[i]]);
            i += 1;
            proof {
                assert(out@ =~= Seq::new(i as nat, |j: int| self.compare()[indices@[j] as int]));
            }
        }
        string_from_chars(out.as_slice())
    }

    /// The positions in the compared string of one longest common subsequence with
    /// the typed string, in increasing order: the one of the first backtracking
    /// path that the search hands out (empty when nothing matches).
    pub fn get_leftmost_indices(&self) -> (v: Vec<usize>)
        requires
            self.wf(),
        ensures
            lcs_len(self.compare(), self.pushed()) > 0 ==> v@ == path_rows(lcs_paths(self)[0]),
            v@.len() == lcs_len(self.compare(), self.pushed()),
            is_common_subsequence(self.compare(), self.pushed(), v@),
    {
        let mut it = self.get_all_paths();
        match it.next() {
            Some(path) => {
                proof {
                    lemma_path_describes_lcs(self, path@);
                }
                path_to_indices(path)
            },
            None => {
                let v: Vec<usize> = Vec::new();
                proof {
                    let ks = Seq::<int>::empty();
                    assert(common_positions(self.compare(), self.pushed(), v@, ks));
                }
                v
            },
        }
    }

    /// The backtracking paths of the grid, handed out one at a time.
    fn get_all_paths(&self) -> (it: LCSIterator<'_>)
        requires
            self.wf(),
        ensures
            it.wf(),
            it.matcher() == *self,
            it.current().len() == 0,
            it.remaining() == lcs_paths(self),
            lcs_len(self.compare(), self.pushed()) > 0 ==> it.remaining().len() > 0,
            lcs_len(self.compare(), self.pushed()) > 0 ==> self.rows() <= usize::MAX && self.cols()
                <= usize::MAX,
    {
        LCSIterator::new(self)
    }

    /// The positions of the longest common subsequence of each backtracking path,
    /// in the order in which the search hands the paths out (possibly with
    /// repetitions); empty when nothing matches.
    pub fn get_all_indices(&self) -> (res: Vec<Vec<usize>>)
        requires
            self.wf(),
        ensures
            res@.len() == lcs_paths(self).len(),
            forall|i: int| 0 <= i < res@.len() ==> (#[trigger] res@[i])@ == path_rows(lcs_paths(self)[i]),
            lcs_len(self.compare(), self.pushed()) == 0 ==> res@.len() == 0,
            lcs_len(self.compare(), self.pushed()) > 0 ==> res@.len() > 0,
            forall|i: int|
                0 <= i < res@.len() ==> (#[trigger] res@[i])@.len() == lcs_len(
                    self.compare(),
                    self.pushed(),
                ) && is_common_subsequence(self.compare(), self.pushed(), res@[i]@),
            forall|idx: Seq<usize>|
                is_common_subsequence(self.compare(), self.pushed(), idx) && idx.len() == lcs_len(
                    self.compare(),
                    self.pushed(),
                ) && idx.len() > 0 ==> #[trigger] has_indices(res@, idx),
    {
        let mut res: Vec<Vec<usize>> = Vec::new();
        let mut it = self.get_all_paths();
        let ghost all = it.remaining();
        loop
            invariant
                it.wf(),
                it.matcher() == *self,
                self.wf(),
                all == lcs_paths(self),
                res@.len() + it.remaining().len() == all.len(),
                it.remaining() == all.skip(res@.len() as int),
                forall|j: int| 0 <= j < res@.len() ==> (#[trigger] res@[j])@ == path_rows(all[j]),
                forall|j: int|
                    0 <= j < res@.len() ==> (#[trigger] res@[j])@.len() == lcs_len(
                        self.compare(),
                        self.pushed(),
                    ) && is_common_subsequence(self.compare(), self.pushed(), res@[j]@),
            ensures
                res@.len() == all.len(),
            decreases it.remaining().len(),
        {
            let ghost before = it.remaining();
            match it.next() {
                None => break,
                Some(path) => {
                    let v = path_to_indices(path);
                    proof {
                        lemma_path_describes_lcs(self, path@);
                        assert(before[0] == all[res@.len() as int]);
                        assert(before.drop_first() =~= all.skip(res@.len() as int + 1));
                    }
                    res.push(v);
                },
            }
        }
        proof {
            assert forall|idx: Seq<usize>|
                is_common_subsequence(self.compare(), self.pushed(), idx) && idx.len() == lcs_len(
                    self.compare(),
                    self.pushed(),
                ) && idx.len() > 0 implies #[trigger] has_indices(res@, idx) by {
                lemma_every_lcs_found(self, idx);
                let j = choose|j: int| 0 <= j < lcs_paths(self).len() && path_rows(#[trigger] lcs_paths(self)[j]) == idx;
                assert(res@[j]@ == idx);
            }
        }
        res
    }
}

/// Removing the character typed last gives back the matcher as it was before
/// that character was typed: the same typed string, the same grid and the same
/// backtracking paths, so the same leftmost and all positions.
pub proof fn lemma_pop_undoes_push(before: &LCS, pushed: &LCS, popped: &LCS, c: char)
    requires
        before.wf(),
        pushed.wf(),
        popped.wf(),
        pushed.compare() == before.compare(),
        pushed.pushed() == before.pushed().push(c),
        popped.compare() == pushed.compare(),
        popped.pushed() == pushed.pushed().drop_last(),
    ensures
        popped.pushed() == before.pushed(),
        popped.grid() == before.grid(),
        lcs_paths(popped) == lcs_paths(before),
{
    assert(before.pushed().push(c).drop_last() =~= before.pushed());
    lemma_paths_determined(popped, before);
}

/// Two well-formed matchers that agree on the compared and the typed string hand
/// out the same backtracking paths.
pub proof fn lemma_paths_determined(x: &LCS, y: &LCS)
    requires
        x.wf(),
        y.wf(),
        x.compare() == y.compare(),
        x.pushed() == y.pushed(),
    ensures
        x.grid() == y.grid(),
        lcs_paths(x) == lcs_paths(y),
{
    lemma_state_determined(x, y);
    assert forall|from: (usize, usize), to: (usize, usize)| #[trigger] x.step_ok(from, to)
        == y.step_ok(from, to) by {
        assert(x.dp.cell(from.0 as int, from.1 as int) == y.dp.cell(from.0 as int, from.1 as int));
        assert(x.dp.cell(to.0 as int, to.1 as int) == y.dp.cell(to.0 as int, to.1 as int));
    }
    lemma_all_from_same(x, y, (x.rows() as usize, x.cols() as usize));
}

/// The grid of a well-formed matcher is a function of the compared string and the
/// typed string: two matchers that agree on these hold the same grid.
pub proof fn lemma_state_determined(x: &LCS, y: &LCS)
    requires
        x.wf(),
        y.wf(),
        x.compare() == y.compare(),
        x.pushed() == y.pushed(),
    ensures
        x.grid() == y.grid(),
{
    let h = x.dp.height() as int;
    let n = x.dp.ncols() as int;
    assert forall|k: int| 0 <= k < n implies #[trigger] x.dp@[k] =~= y.dp@[k] by {
        assert forall|r: int| 0 <= r < h implies #[trigger] x.dp@[k][r] == y.dp@[k][r] by {
            assert(x.cell_ok(r + 1, k + 1));
            assert(y.cell_ok(r + 1, k + 1));
        }
    }
    assert(x.dp@ =~= y.dp@);
}


proof fn lemma_path_prefix(l: &LCS, path: Seq<(usize, usize)>, r: int, k: int, m: int)
    requires
        l.wf(),
        0 <= r <= l.dp.height(),
        0 <= k <= l.dp.ncols(),
        l.is_path_from(path, r, k),
        0 <= m < path.len(),
    ensures
        ({
            let q = path.take(m + 1);
            let d = diag_pairs(q);
            let rr = path[m].0 as int;
            let kk = path[m].1 as int;
            &&& 0 <= rr <= r
            &&& 0 <= kk <= k
            &&& d.len() + lcs_len(l.chars@.take(rr), l.pushed@.take(kk)) == lcs_len(
                l.chars@.take(r),
                l.pushed@.take(k),
            )
            &&& forall|i: int| 0 <= i < d.len() ==> rr <= (#[trigger] d[i]).0 < r && kk <= d[i].1 < k
            &&& forall|i: int, j: int| 0 <= i < j < d.len() ==> d[i].0 > d[j].0 && d[i].1 > d[j].1
            &&& forall|i: int|
                0 <= i < d.len() ==> ci_eq(l.chars@[(#[trigger] d[i]).0], l.pushed@[d[i].1])
        }),
    decreases m,
{
    let a = l.chars@;
    let p = l.pushed@;
    if m == 0 {
        assert(path.take(1).len() == 1);
        assert(diag_pairs(path.take(1)).len() == 0);
    } else {
        lemma_path_prefix(l, path, r, k, m - 1);
        let q = path.take(m + 1);
        let q0 = path.take(m);
        assert(q.drop_last() =~= q0);
        let from = path[m - 1];
        let to = path[m];
        assert(q[q.len() - 2] == from);
        assert(q[q.len() - 1] == to);
        assert(l.step_ok(path[m - 1], path[m - 1 + 1]));
        let rr = from.0 as int;
        let kk = from.1 as int;
        assert(l.cell_ok(rr, kk));
        assert(l.cell_ok(rr - 1, kk));
        assert(l.cell_ok(rr, kk - 1));
        assert(l.cell_ok(rr - 1, kk - 1));
        lemma_take_drop_last(a, rr);
        lemma_take_drop_last(p, kk);
    }
}

/// Typing `c` overflows exactly when the longest common subsequence with `c`
/// typed would exceed the largest representable length.
pub proof fn lemma_push_overflows_iff(a: Seq<char>, q: Seq<char>, c: char)
    requires
        a.len() <= usize::MAX,
        lcs_len(a, q) <= ELEMENT_MAX,
    ensures
        push_overflows(a, q, c) <==> lcs_len(a, q.push(c)) > ELEMENT_MAX,
{
    let q2 = q.push(c);
    assert(q2.drop_last() =~= q);
    assert(a.take(a.len() as int) =~= a);
    assert(q2.take(q2.len() as int) =~= q2);
    if push_overflows(a, q, c) {
        let r = choose|r: int|
            1 <= r <= a.len() && ci_eq(#[trigger] a[r - 1], c) && lcs_len(a.take(r - 1), q) >= ELEMENT_MAX;
        lemma_take_drop_last(a, r);
        assert(lcs_len(a.take(r), q2) == lcs_len(a.take(r - 1), q) + 1);
        assert(q2.take(q2.len() as int) =~= q2);
        lemma_lcs_prefix_le(a, q2, r, q2.len() as int, a.len() as int, q2.len() as int);
    }
    if lcs_len(a, q2) > ELEMENT_MAX {
        lemma_lcs_len_attained(a, q2);
        let (idx, ks) = choose|idx: Seq<usize>, ks: Seq<int>|
            common_positions(a, q2, idx, ks) && idx.len() == lcs_len(a, q2);
        let n = idx.len() - 1;
        if ks[n] < q.len() {
            assert forall|i: int| 0 <= i < ks.len() implies #[trigger] ks[i] < q.len() by {
                if i < n {
                    assert(ks[i] < ks[n]);
                }
            }
            assert forall|i: int| 0 <= i < idx.len() implies #[trigger] idx[i] < a.len() by {}
            lemma_common_narrow(a, q2, a.len() as int, q.len() as int, idx, ks);
            assert(q2.take(q.len() as int) =~= q);
            lemma_lcs_len_is_longest(a, q, idx, ks);
            assert(false);
        }
        assert(ks[n] == q.len());
        assert(ci_eq(a[idx[n] as int], q2[ks[n]]));
        let r = idx[n] + 1;
        let i2 = idx.drop_last();
        let k2 = ks.drop_last();
        assert(common_positions(a, q2, i2, k2));
        assert forall|i: int| 0 <= i < i2.len() implies #[trigger] i2[i] < r - 1 by {
            assert(idx[i] < idx[n]);
        }
        assert forall|i: int| 0 <= i < k2.len() implies #[trigger] k2[i] < q.len() by {
            assert(ks[i] < ks[n]);
        }
        lemma_common_narrow(a, q2, r - 1, q.len() as int, i2, k2);
        assert(q2.take(q.len() as int) =~= q);
        lemma_lcs_len_is_longest(a.take(r - 1), q, i2, k2);
        assert(ci_eq(a[r - 1], c));
    }
}

/// Typing `c` into a matcher fails exactly when the longest common subsequence of
/// the compared string and the typed string with `c` would exceed the largest
/// representable length.
pub proof fn lemma_push_fails_iff(l: &LCS, c: char)
    requires
        l.wf(),
    ensures
        push_overflows(l.compare(), l.pushed(), c) <==> lcs_len(l.compare(), l.pushed().push(c))
            > ELEMENT_MAX,
{
    let h = l.dp.height() as int;
    let n = l.dp.ncols() as int;
    assert(l.cell_ok(h, n));
    assert(l.chars@.take(h) =~= l.chars@);
    assert(l.pushed@.take(n) =~= l.pushed@);
    lemma_push_overflows_iff(l.compare(), l.pushed(), c);
}

/// The longest common subsequence of prefixes grows with the prefixes.
proof fn lemma_lcs_prefix_le(a: Seq<char>, b: Seq<char>, r1: int, k1: int, r2: int, k2: int)
    requires
        0 <= r1 <= r2 <= a.len(),
        0 <= k1 <= k2 <= b.len(),
        a.len() <= usize::MAX,
    ensures
        lcs_len(a.take(r1), b.take(k1)) <= lcs_len(a.take(r2), b.take(k2)),
{
    lemma_lcs_len_attained(a.take(r1), b.take(k1));
    let (idx, ks) = choose|idx: Seq<usize>, ks: Seq<int>|
        common_positions(a.take(r1), b.take(k1), idx, ks) && idx.len() == lcs_len(a.take(r1), b.take(k1));
    lemma_common_widen(a.take(r1), b.take(k1), a.take(r2), b.take(k2), idx, ks);
    lemma_lcs_len_is_longest(a.take(r2), b.take(k2), idx, ks);
}

/// The first `c` pairs of common positions, all below row `r` and column `k`,
/// show that the prefixes have a common subsequence at least `c` long.
proof fn lemma_pairs_below(a: Seq<char>, b: Seq<char>, idx: Seq<usize>, ks: Seq<int>, c: int, r: int, k: int)
    requires
        common_positions(a, b, idx, ks),
        0 <= c <= idx.len(),
        0 <= r <= a.len(),
        0 <= k <= b.len(),
        forall|i: int| 0 <= i < c ==> #[trigger] idx[i] < r && ks[i] < k,
    ensures
        c <= lcs_len(a.take(r), b.take(k)),
{
    let i2 = idx.take(c);
    let k2 = ks.take(c);
    assert(common_positions(a, b, i2, k2)) by {
        assert forall|i: int| 0 <= i < i2.len() implies ci_eq(a[#[trigger] i2[i] as int], b[k2[i]]) by {
            assert(ci_eq(a[idx[i] as int], b[ks[i]]));
        }
    }
    assert forall|i: int| 0 <= i < i2.len() implies #[trigger] i2[i] < r by {
        assert(idx[i] < r);
    }
    assert forall|i: int| 0 <= i < k2.len() implies #[trigger] k2[i] < k by {
        assert(idx[i] < r);
    }
    lemma_common_narrow(a, b, r, k, i2, k2);
    lemma_lcs_len_is_longest(a.take(r), b.take(k), i2, k2);
}

/// Extends `path`, which ends at a cell below which the first `c` pairs of an
/// embedding lie and whose prefixes have a longest common subsequence exactly
/// `c` long, to a full path whose diagonal steps are the pairs of the embedding.
proof fn lemma_build_path(l: &LCS, idx: Seq<usize>, ks: Seq<int>, path: Seq<(usize, usize)>, c: int) -> (full:
    Seq<(usize, usize)>)
    requires
        l.wf(),
        common_positions(l.chars@, l.pushed@, idx, ks),
        idx.len() == lcs_len(l.chars@, l.pushed@),
        path.len() >= 1,
        path[0].0 == l.dp.height() && path[0].1 == l.dp.ncols(),
        forall|i: int| 0 <= i < path.len() - 1 ==> #[trigger] l.step_ok(path[i], path[i + 1]),
        path.last().0 <= l.dp.height(),
        path.last().1 <= l.dp.ncols(),
        0 <= c <= idx.len(),
        forall|i: int| 0 <= i < c ==> #[trigger] idx[i] < path.last().0 && ks[i] < path.last().1,
        lcs_len(l.chars@.take(path.last().0 as int), l.pushed@.take(path.last().1 as int)) == c,
        diag_pairs(path).len() == idx.len() - c,
        forall|i: int|
            0 <= i < idx.len() - c ==> #[trigger] diag_pairs(path)[i].0 == idx[idx.len() - 1 - i],
    ensures
        l.is_full_path(full),
        diag_pairs(full).len() == idx.len(),
        forall|i: int| 0 <= i < idx.len() ==> #[trigger] diag_pairs(full)[i].0 == idx[idx.len() - 1 - i],
    decreases path.last().0 + path.last().1,
{
    let a = l.chars@;
    let p = l.pushed@;
    let n = idx.len() as int;
    let last = path.last();
    let r = last.0 as int;
    let k = last.1 as int;
    if r == 0 || k == 0 {
        assert(a.take(r).len() == 0 || p.take(k).len() == 0);
        assert(c == 0);
        return path;
    }
    assert(l.cell_ok(r, k));
    assert(l.cell_ok(r - 1, k));
    assert(l.cell_ok(r, k - 1));
    assert(l.cell_ok(r - 1, k - 1));
    lemma_take_drop_last(a, r);
    lemma_take_drop_last(p, k);
    let x: (usize, usize) = if c > 0 && idx[c - 1] == r - 1 && ks[c - 1] == k - 1 {
        ((r - 1) as usize, (k - 1) as usize)
    } else if c == 0 || idx[c - 1] < r - 1 {
        ((r - 1) as usize, k as usize)
    } else {
        (r as usize, (k - 1) as usize)
    };
    let c2 = if c > 0 && idx[c - 1] == r - 1 && ks[c - 1] == k - 1 {
        c - 1
    } else {
        c
    };
    if c > 0 && idx[c - 1] == r - 1 && ks[c - 1] == k - 1 {
        assert(ci_eq(a[idx[c - 1] as int], p[ks[c - 1]]));
        assert(l.step_ok(last, x));
        assert forall|i: int| 0 <= i < c2 implies #[trigger] idx[i] < x.0 && ks[i] < x.1 by {
            assert(idx[i] < idx[c - 1]);
            assert(ks[i] < ks[c - 1]);
        }
    } else if c == 0 || idx[c - 1] < r - 1 {
        assert forall|i: int| 0 <= i < c implies #[trigger] idx[i] < r - 1 && ks[i] < k by {
            if i < c - 1 {
                assert(idx[i] < idx[c - 1]);
            }
        }
        lemma_pairs_below(a, p, idx, ks, c, r - 1, k);
        lemma_lcs_prefix_le(a, p, r - 1, k, r, k);
        assert(l.step_ok(last, x));
    } else {
        assert(idx[c - 1] < r);
        assert(ks[c - 1] < k - 1);
        assert forall|i: int| 0 <= i < c implies #[trigger] idx[i] < r && ks[i] < k - 1 by {
            if i < c - 1 {
                assert(ks[i] < ks[c - 1]);
            }
        }
        lemma_pairs_below(a, p, idx, ks, c, r, k - 1);
        lemma_lcs_prefix_le(a, p, r, k - 1, r, k);
        assert(l.step_ok(last, x));
    }
    let np = path.push(x);
    assert(np.drop_last() =~= path);
    assert(np[np.len() - 2] == last);
    assert(np.last() == x);
    assert forall|i: int| 0 <= i < np.len() - 1 implies #[trigger] l.step_ok(np[i], np[i + 1]) by {
        if i < path.len() - 1 {
            assert(np[i] == path[i]);
            assert(np[i + 1] == path[i + 1]);
        }
    }
    let d = diag_pairs(np);
    assert forall|i: int| 0 <= i < n - c2 implies #[trigger] d[i].0 == idx[n - 1 - i] by {
        if i < n - c {
            assert(d[i] == diag_pairs(path)[i]);
        }
    }
    lemma_build_path(l, idx, ks, np, c2)
}

/// Every embedding of a longest common subsequence in the compared string is the
/// rows of some backtracking path that the search hands out.
pub proof fn lemma_every_lcs_found(l: &LCS, idx: Seq<usize>)
    requires
        l.wf(),
        l.cols() <= usize::MAX,
        is_common_subsequence(l.compare(), l.pushed(), idx),
        idx.len() == lcs_len(l.compare(), l.pushed()),
        idx.len() > 0,
    ensures
        exists|j: int| 0 <= j < lcs_paths(l).len() && path_rows(#[trigger] lcs_paths(l)[j]) == idx,
{
    let a = l.chars@;
    let p = l.pushed@;
    let ks = choose|ks: Seq<int>| common_positions(l.compare(), l.pushed(), idx, ks);
    let start = (l.dp.height() as usize, l.dp.ncols() as usize);
    let path0 = seq![start];
    assert(a.take(a.len() as int) =~= a);
    assert(p.take(p.len() as int) =~= p);
    assert(diag_pairs(path0).len() == 0);
    let full = lemma_build_path(l, idx, ks, path0, idx.len() as int);
    assert(path_rows(full) =~= idx);
    l.lemma_path_from_def(full, l.rows() as int, l.cols() as int);
    lemma_every_path_handed_out(l, full);
    let j = choose|j: int| 0 <= j < lcs_paths(l).len() && lcs_paths(l)[j] == full;
    assert(path_rows(lcs_paths(l)[j]) == idx);
}

/// Every backtracking path from the bottom-right cell describes a longest common
/// subsequence: the rows of its diagonal steps are the positions, in the compared
/// string, of a common subsequence as long as `lcs_len` of the two strings.
pub proof fn lemma_path_describes_lcs(l: &LCS, path: Seq<(usize, usize)>)
    requires
        l.wf(),
        l.is_full_path(path),
    ensures
        path_rows(path).len() == lcs_len(l.compare(), l.pushed()),
        is_common_subsequence(l.compare(), l.pushed(), path_rows(path)),
{
    let a = l.chars@;
    let p = l.pushed@;
    let h = l.dp.height() as int;
    let n = l.dp.ncols() as int;
    lemma_path_prefix(l, path, h, n, path.len() - 1);
    assert(path.take(path.len() as int) =~= path);
    assert(a.take(h) =~= a);
    assert(p.take(n) =~= p);
    let last = path[path.len() - 1];
    assert(a.take(last.0 as int).len() == 0 || p.take(last.1 as int).len() == 0);
    let d = diag_pairs(path);
    let rows = path_rows(path);
    let ks = Seq::new(d.len(), |i: int| d[d.len() - 1 - i].1);
    assert forall|i: int| 0 <= i < rows.len() implies #[trigger] rows[i] as int == d[d.len() - 1
        - i].0 by {}
    assert(common_positions(a, p, rows, ks));
}
} // verus!
