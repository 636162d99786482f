use vstd::prelude::*;
use crate::fuzzy::lcs::{LCS, lcs_len};

verus! {

/// Whether the step `from -> to` goes diagonally up-left.
pub open spec fn spec_is_upleft(from: (usize, usize), to: (usize, usize)) -> bool {
    from.0 > 0 && from.1 > 0 && from.0 - 1 == to.0 && from.1 - 1 == to.1
}

/// The diagonal steps of a path, in path order, each given as the 0-based
/// (row, column) of the matched pair of characters.
pub open spec fn diag_pairs(path: Seq<(usize, usize)>) -> Seq<(int, int)>
    decreases path.len(),
{
    if path.len() < 2 {
        Seq::empty()
    } else {
        let rest = diag_pairs(path.drop_last());
        let from = path[path.len() - 2];
        let to = path[path.len() - 1];
        if spec_is_upleft(from, to) {
            rest.push((from.0 - 1, from.1 - 1))
        } else {
            rest
        }
    }
}

/// The rows of the diagonal steps of `path`, in increasing order: the positions in
/// the compared string of the common subsequence the path describes.
pub open spec fn path_rows(path: Seq<(usize, usize)>) -> Seq<usize> {
    let d = diag_pairs(path);
    Seq::new(d.len(), |i: int| d[d.len() - 1 - i].0 as usize)
}

fn is_upleft(from: (usize, usize), to: (usize, usize)) -> (b: bool)
    ensures
        b == spec_is_upleft(from, to),
{
    from.0 > 0 && from.1 > 0 && from.0 - 1 == to.0 && from.1 - 1 == to.1
}

/// The positions in the compared string matched by the diagonal steps of `path`,
/// in increasing order.
pub fn path_to_indices(path: &[(usize, usize)]) -> (v: Vec<usize>)
    ensures
        v@ == path_rows(path@),
{
    let mut fwd: Vec<usize> = Vec::new();
    if path.len() == 0 {
        proof {
            assert(fwd@ =~= path_rows(path@));
        }
        return fwd;
    }
    proof {
        assert(path@.take(1).len() == 1);
    }
    let mut i: usize = 1;
    while i < path.len()
        invariant
            1 <= i <= path@.len(),
            forall|j: int| 0 <= j < fwd@.len() ==> #[trigger] fwd@[j] as int == diag_pairs(path@.take(i as int))[j].0,
            fwd@.len() == diag_pairs(path@.take(i as int)).len(),
        decreases path@.len() - i,
    {
        let ghost pre = path@.take(i as int);
        let ghost nxt = path@.take(i + 1);
        proof {
            assert(nxt.drop_last() =~= pre);
        }
        if is_upleft(path[i - 1], path[i]) {
            fwd.push(path[i - 1].0 - 1);
        }
        i += 1;
    }
    proof {
        assert(path@.take(i as int) =~= path@);
    }
    let mut v: Vec<usize> = Vec::new();
    let mut j = fwd.len();
    while j > 0
        invariant
            j <= fwd@.len(),
            v@.len() == fwd@.len() - j,
            forall|m: int| 0 <= m < v@.len() ==> #[trigger] v@[m] == fwd@[fwd@.len() - 1 - m],
        decreases j,
    {
        j -= 1;
        v.push(fwd[j]);
    }
    proof {
        let d = diag_pairs(path@);
        assert(v@ =~= path_rows(path@));
    }
    v
}

/// The cost of exploring the backtracking paths from cell `p`: two for the cell
/// itself (visiting and leaving it), plus the cost of each cell one step away.
pub open spec fn work(l: &LCS, p: (usize, usize)) -> nat
    decreases p.0 + p.1,
{
    if p.0 == 0 || p.1 == 0 {
        2
    } else {
        let up = ((p.0 - 1) as usize, p.1);
        let diag = ((p.0 - 1) as usize, (p.1 - 1) as usize);
        let left = (p.0, (p.1 - 1) as usize);
        2 + (if l.step_ok(p, up) {
            work(l, up)
        } else {
            0
        }) + (if l.step_ok(p, diag) {
            work(l, diag)
        } else {
            0
        }) + (if l.step_ok(p, left) {
            work(l, left)
        } else {
            0
        })
    }
}

/// The number of marked entries among the first `i`.
pub open spec fn mark_count(marks: Seq<bool>, i: int) -> nat
    decreases i,
{
    if i <= 0 {
        0
    } else {
        mark_count(marks, i - 1) + if marks[i - 1] {
            1nat
        } else {
            0nat
        }
    }
}

/// The cost of the entries of a search stack: one for a marked entry (a cell of
/// the current path, to be left), the cost of exploring it for another.
pub open spec fn stack_work(l: &LCS, dfs: Seq<(usize, usize)>, marks: Seq<bool>) -> nat
    decreases dfs.len(),
{
    if dfs.len() == 0 || marks.len() == 0 {
        0
    } else {
        stack_work(l, dfs.drop_last(), marks.drop_last()) + if marks.last() {
            1nat
        } else {
            work(l, dfs.last())
        }
    }
}

proof fn lemma_stack_push(l: &LCS, dfs: Seq<(usize, usize)>, marks: Seq<bool>, e: (usize, usize), b: bool)
    requires
        dfs.len() == marks.len(),
    ensures
        stack_work(l, dfs.push(e), marks.push(b)) == stack_work(l, dfs, marks) + if b {
            1nat
        } else {
            work(l, e)
        },
{
    assert(dfs.push(e).drop_last() =~= dfs);
    assert(marks.push(b).drop_last() =~= marks);
}

proof fn lemma_mark_count_prefix(a: Seq<bool>, b: Seq<bool>, i: int)
    requires
        0 <= i <= a.len(),
        i <= b.len(),
        forall|j: int| 0 <= j < i ==> a[j] == b[j],
    ensures
        mark_count(a, i) == mark_count(b, i),
    decreases i,
{
    if i > 0 {
        lemma_mark_count_prefix(a, b, i - 1);
    }
}

proof fn lemma_mark_count_mono(a: Seq<bool>, i: int, j: int)
    requires
        0 <= i < j <= a.len(),
    ensures
        mark_count(a, i) + (if a[i] {
            1nat
        } else {
            0nat
        }) <= mark_count(a, j),
    decreases j - i,
{
    if j > i + 1 {
        lemma_mark_count_mono(a, i, j - 1);
    }
}

/// Each path of `ss` with `prefix` put in front.
pub open spec fn prefixed(prefix: Seq<(usize, usize)>, ss: Seq<Seq<(usize, usize)>>) -> Seq<
    Seq<(usize, usize)>,
> {
    ss.map_values(|s: Seq<(usize, usize)>| prefix + s)
}

/// The backtracking paths from cell `p` to a border cell, in the order in which
/// the search hands them out: those that go up first, then those that go
/// diagonally, then those that go left.
pub open spec fn all_from(l: &LCS, p: (usize, usize)) -> Seq<Seq<(usize, usize)>>
    decreases p.0 + p.1,
{
    if p.0 == 0 || p.1 == 0 {
        seq![seq![p]]
    } else {
        let up = ((p.0 - 1) as usize, p.1);
        let diag = ((p.0 - 1) as usize, (p.1 - 1) as usize);
        let left = (p.0, (p.1 - 1) as usize);
        prefixed(
            seq![p],
            (if l.step_ok(p, up) {
                all_from(l, up)
            } else {
                Seq::empty()
            }) + (if l.step_ok(p, diag) {
                all_from(l, diag)
            } else {
                Seq::empty()
            }) + (if l.step_ok(p, left) {
                all_from(l, left)
            } else {
                Seq::empty()
            }),
        )
    }
}

/// The backtracking paths of a matcher, in the order in which the search hands
/// them out; none when nothing matches.
pub open spec fn lcs_paths(l: &LCS) -> Seq<Seq<(usize, usize)>> {
    if lcs_len(l.compare(), l.pushed()) > 0 {
        all_from(l, (l.rows() as usize, l.cols() as usize))
    } else {
        Seq::empty()
    }
}

/// The paths that a search stack still holds, from its top down: each cell to
/// explore gives its paths with the cells of the path that led to it in front;
/// a mark gives none.
pub open spec fn rem(
    l: &LCS,
    dfs: Seq<(usize, usize)>,
    marks: Seq<bool>,
    path: Seq<(usize, usize)>,
) -> Seq<Seq<(usize, usize)>>
    decreases dfs.len(),
{
    if dfs.len() == 0 || marks.len() == 0 {
        Seq::empty()
    } else {
        let rest = rem(l, dfs.drop_last(), marks.drop_last(), path);
        if marks.last() {
            rest
        } else {
            prefixed(path.take(mark_count(marks, dfs.len() - 1) as int), all_from(l, dfs.last()))
                + rest
        }
    }
}

proof fn lemma_prefixed_concat(
    prefix: Seq<(usize, usize)>,
    a: Seq<Seq<(usize, usize)>>,
    b: Seq<Seq<(usize, usize)>>,
)
    ensures
        prefixed(prefix, a + b) == prefixed(prefix, a) + prefixed(prefix, b),
{
    assert(prefixed(prefix, a + b) =~= prefixed(prefix, a) + prefixed(prefix, b));
}

proof fn lemma_prefixed_compose(prefix: Seq<(usize, usize)>, x: (usize, usize), ss: Seq<Seq<(usize, usize)>>)
    ensures
        prefixed(prefix, prefixed(seq![x], ss)) == prefixed(prefix.push(x), ss),
{
    assert forall|i: int| 0 <= i < ss.len() implies #[trigger] prefixed(prefix, prefixed(seq![x], ss))[i]
        == prefixed(prefix.push(x), ss)[i] by {
        assert(prefix + (seq![x] + ss[i]) =~= prefix.push(x) + ss[i]);
    }
    assert(prefixed(prefix, prefixed(seq![x], ss)) =~= prefixed(prefix.push(x), ss));
}

proof fn lemma_rem_push(
    l: &LCS,
    dfs: Seq<(usize, usize)>,
    marks: Seq<bool>,
    path: Seq<(usize, usize)>,
    e: (usize, usize),
    b: bool,
)
    requires
        dfs.len() == marks.len(),
    ensures
        b ==> rem(l, dfs.push(e), marks.push(b), path) == rem(l, dfs, marks, path),
        !b ==> rem(l, dfs.push(e), marks.push(b), path) == prefixed(
            path.take(mark_count(marks, marks.len() as int) as int),
            all_from(l, e),
        ) + rem(l, dfs, marks, path),
{
    assert(dfs.push(e).drop_last() =~= dfs);
    assert(marks.push(b).drop_last() =~= marks);
    lemma_mark_count_prefix(marks, marks.push(b), marks.len() as int);
}

proof fn lemma_rem_path(
    l: &LCS,
    dfs: Seq<(usize, usize)>,
    marks: Seq<bool>,
    p1: Seq<(usize, usize)>,
    p2: Seq<(usize, usize)>,
)
    requires
        dfs.len() == marks.len(),
        mark_count(marks, marks.len() as int) <= p1.len(),
        mark_count(marks, marks.len() as int) <= p2.len(),
        p1.take(mark_count(marks, marks.len() as int) as int) == p2.take(
            mark_count(marks, marks.len() as int) as int,
        ),
    ensures
        rem(l, dfs, marks, p1) == rem(l, dfs, marks, p2),
    decreases dfs.len(),
{
    if dfs.len() > 0 {
        let n = mark_count(marks, marks.len() as int) as int;
        let i = dfs.len() - 1;
        let m = mark_count(marks, i) as int;
        lemma_mark_count_mono(marks, i, marks.len() as int);
        assert(p1.take(m) =~= p1.take(n).take(m));
        assert(p2.take(m) =~= p2.take(n).take(m));
        let dm = marks.drop_last();
        lemma_mark_count_prefix(marks, dm, i);
        assert(mark_count(dm, dm.len() as int) == m);
        lemma_rem_path(l, dfs.drop_last(), dm, p1, p2);
    }
}

proof fn lemma_all_from_nonempty(l: &LCS, p: (usize, usize))
    requires
        l.wf(),
        p.0 <= l.rows(),
        p.1 <= l.cols(),
    ensures
        all_from(l, p).len() > 0,
    decreases p.0 + p.1,
{
    if p.0 > 0 && p.1 > 0 {
        let up = ((p.0 - 1) as usize, p.1);
        let diag = ((p.0 - 1) as usize, (p.1 - 1) as usize);
        let left = (p.0, (p.1 - 1) as usize);
        l.lemma_some_step(p.0, p.1);
        if l.step_ok(p, up) {
            lemma_all_from_nonempty(l, up);
        } else if l.step_ok(p, diag) {
            lemma_all_from_nonempty(l, diag);
        } else {
            lemma_all_from_nonempty(l, left);
        }
    }
}

proof fn lemma_found(l: &LCS, s: Seq<(usize, usize)>, p: (usize, usize))
    requires
        s.len() >= 1,
        s[0] == p,
        s.last().0 == 0 || s.last().1 == 0,
        forall|i: int| #![trigger s[i]] 0 <= i < s.len() - 1 ==> l.step_ok(s[i], s[i + 1]),
    ensures
        all_from(l, p).contains(s),
    decreases s.len(),
{
    if p.0 == 0 || p.1 == 0 {
        if s.len() > 1 {
            assert(l.step_ok(s[0], s[1]));
            l.lemma_step_smaller(s[0], s[1]);
        }
        assert(s =~= seq![p]);
        assert(all_from(l, p)[0] == s);
    } else {
        if s.len() == 1 {
            assert(s.last() == p);
        }
        assert(s.len() >= 2);
        let t = s.drop_first();
        let q = s[1];
        assert(l.step_ok(s[0], s[1]));
        l.lemma_step_smaller(p, q);
        assert forall|i: int| #![trigger t[i]] 0 <= i < t.len() - 1 implies l.step_ok(t[i], t[i + 1]) by {
            assert(l.step_ok(s[i + 1], s[i + 1 + 1]));
        }
        lemma_found(l, t, q);
        let j = choose|j: int| 0 <= j < all_from(l, q).len() && all_from(l, q)[j] == t;
        let up = ((p.0 - 1) as usize, p.1);
        let diag = ((p.0 - 1) as usize, (p.1 - 1) as usize);
        let left = (p.0, (p.1 - 1) as usize);
        let ua = if l.step_ok(p, up) {
            all_from(l, up)
        } else {
            Seq::empty()
        };
        let da = if l.step_ok(p, diag) {
            all_from(l, diag)
        } else {
            Seq::empty()
        };
        let la = if l.step_ok(p, left) {
            all_from(l, left)
        } else {
            Seq::empty()
        };
        let all = ua + da + la;
        assert(all_from(l, p) == prefixed(seq![p], all));
        let k = if q == up {
            j
        } else if q == diag {
            ua.len() + j
        } else {
            ua.len() + da.len() + j
        };
        assert(all[k] == t);
        assert(seq![p] + t =~= s);
        assert(all_from(l, p)[k] == s);
    }
}

/// Two matchers that allow the same steps have the same paths from every cell.
pub proof fn lemma_all_from_same(l1: &LCS, l2: &LCS, p: (usize, usize))
    requires
        forall|from: (usize, usize), to: (usize, usize)| #[trigger] l1.step_ok(from, to) == l2.step_ok(from, to),
    ensures
        all_from(l1, p) == all_from(l2, p),
    decreases p.0 + p.1,
{
    if p.0 > 0 && p.1 > 0 {
        lemma_all_from_same(l1, l2, ((p.0 - 1) as usize, p.1));
        lemma_all_from_same(l1, l2, ((p.0 - 1) as usize, (p.1 - 1) as usize));
        lemma_all_from_same(l1, l2, (p.0, (p.1 - 1) as usize));
    }
}

/// Every backtracking path of a matcher that matches something is handed out.
pub proof fn lemma_every_path_handed_out(l: &LCS, path: Seq<(usize, usize)>)
    requires
        l.wf(),
        lcs_len(l.compare(), l.pushed()) > 0,
        l.is_full_path(path),
    ensures
        lcs_paths(l).contains(path),
{
    l.lemma_path_from_def(path, l.rows() as int, l.cols() as int);
    lemma_found(l, path, (l.rows() as usize, l.cols() as usize));
}

/// Hands out, one at a time, every backtracking path of a matcher's grid, by a
/// depth-first search from the bottom-right cell that explores up moves first,
/// then diagonal moves, then left moves. There is no guarantee on their order,
/// there can be duplicate subsequences, and there can be exponentially many.
pub struct LCSIterator<'a> {
    lcs: &'a LCS,
    path: Vec<(usize, usize)>,
    dfs: Vec<(usize, usize)>,
    marks: Ghost<Seq<bool>>,
}

impl<'a> LCSIterator<'a> {
    /// The matcher whose paths are handed out.
    pub closed spec fn matcher(&self) -> LCS {
        *self.lcs
    }

    /// The path handed out last; empty before the first and after the last.
    pub closed spec fn current(&self) -> Seq<(usize, usize)> {
        self.path@
    }

    /// The search is at rest: when no path is current, nothing is left to search.
    pub closed spec fn ready(&self) -> bool {
        self.path@.len() == 0 ==> self.dfs@.len() == 0
    }

    /// The paths still to be handed out, in order.
    pub closed spec fn remaining(&self) -> Seq<Seq<(usize, usize)>> {
        rem(self.lcs, self.dfs@, self.marks@, self.path@)
    }

    /// What is left of the search, which each step of it makes smaller.
    closed spec fn work_left(&self) -> nat {
        stack_work(self.lcs, self.dfs@, self.marks@)
    }

    closed spec fn in_grid(&self, p: (usize, usize)) -> bool {
        p.0 <= self.lcs.rows() && p.1 <= self.lcs.cols()
    }

    closed spec fn is_start(&self, p: (usize, usize)) -> bool {
        p.0 == self.lcs.rows() && p.1 == self.lcs.cols()
    }

    /// Entry `i` of the stack: a marked entry is the cell of the path at its rank
    /// among the marks; another is the start, before any mark, or otherwise one
    /// step away from the path's cell of the last mark before it.
    closed spec fn entry_ok(&self, i: int) -> bool {
        let m = mark_count(self.marks@, i);
        let e = self.dfs@[i];
        &&& self.in_grid(e)
        &&& if self.marks@[i] {
            m < self.path@.len() && e == self.path@[m as int]
        } else if m == 0 {
            self.is_start(e)
        } else {
            m <= self.path@.len() && self.lcs.step_ok(self.path@[m - 1], e)
        }
    }

    /// The search's invariant: the stack interleaves the cells of the path with
    /// cells still to explore, and the path is a chain of steps from the start.
    pub closed spec fn wf(&self) -> bool {
        &&& self.lcs.wf()
        &&& self.dfs@.len() == self.marks@.len()
        &&& self.path@.len() == mark_count(self.marks@, self.marks@.len() as int)
        &&& forall|i: int| 0 <= i < self.dfs@.len() ==> #[trigger] self.entry_ok(i)
        &&& self.path@.len() > 0 ==> self.is_start(self.path@[0])
        &&& forall|j: int|
            0 <= j < self.path@.len() - 1 ==> #[trigger] self.lcs.step_ok(self.path@[j], self.path@[j + 1])
        &&& forall|j: int| 0 <= j < self.path@.len() ==> self.in_grid(#[trigger] self.path@[j])
    }

    /// Starts the search on `lcs`: a path is to come exactly when something
    /// matches.
    pub fn new(lcs: &'a LCS) -> (it: Self)
        requires
            lcs.wf(),
        ensures
            it.wf(),
            it.matcher() == *lcs,
            it.current().len() == 0,
            it.ready() == (lcs_len(lcs.compare(), lcs.pushed()) == 0),
            it.remaining() == lcs_paths(lcs),
            lcs_len(lcs.compare(), lcs.pushed()) > 0 ==> it.remaining().len() > 0,
            lcs_len(lcs.compare(), lcs.pushed()) > 0 ==> lcs.rows() <= usize::MAX && lcs.cols()
                <= usize::MAX,
    {
        let mut dfs: Vec<(usize, usize)> = Vec::new();
        let ghost mut marks: Seq<bool> = Seq::empty();
        if lcs.length() > 0 {
            dfs.push(lcs.corner());
            proof {
                marks = seq![false];
            }
        }
        let it = LCSIterator { lcs, path: Vec::new(), dfs, marks: Ghost(marks) };
        proof {
            if dfs@.len() > 0 {
                assert(it.entry_ok(0));
                assert(!marks[0]);
                let c = dfs@[0];
                let a = all_from(lcs, c);
                lemma_rem_push(lcs, Seq::empty(), Seq::empty(), Seq::empty(), c, false);
                assert(dfs@ =~= Seq::<(usize, usize)>::empty().push(c));
                assert(marks =~= Seq::<bool>::empty().push(false));
                assert(prefixed(Seq::<(usize, usize)>::empty().take(0), a) =~= a) by {
                    assert forall|i: int| 0 <= i < a.len() implies #[trigger] prefixed(
                        Seq::<(usize, usize)>::empty().take(0),
                        a,
                    )[i] == a[i] by {
                        assert(Seq::<(usize, usize)>::empty().take(0) + a[i] =~= a[i]);
                    }
                }
                assert(it.remaining() =~= a);
                lemma_all_from_nonempty(lcs, c);
            } else {
                assert(it.remaining() =~= Seq::<Seq<(usize, usize)>>::empty());
            }
        }
        it
    }

    /// Whether the top of the stack is the current path's last cell (a mark).
    fn top_is_current(&self) -> (b: bool)
        requires
            self.wf(),
            self.dfs@.len() > 0,
        ensures
            b == self.marks@.last(),
    {
        let top = self.dfs.len() - 1;
        let n = self.path.len();
        proof {
            let marks = self.marks@;
            assert(self.entry_ok(top as int));
            assert(mark_count(marks, marks.len() as int) == mark_count(marks, top as int) + if marks[top as int] {
                1nat
            } else {
                0nat
            });
            if !marks[top as int] && n > 0 {
                self.lcs.lemma_step_smaller(self.path@[n - 1], self.dfs@[top as int]);
            }
        }
        n > 0 && self.path[n - 1].0 == self.dfs[top].0 && self.path[n - 1].1 == self.dfs[top].1
    }

    /// Leaves the current path's last cell, whose mark is on top of the stack.
    fn leave_cell(&mut self)
        requires
            old(self).wf(),
            old(self).dfs@.len() > 0,
            old(self).marks@.last(),
        ensures
            final(self).wf(),
            final(self).lcs == old(self).lcs,
            final(self).work_left() + 1 == old(self).work_left(),
            final(self).path@.len() + 1 == old(self).path@.len(),
            final(self).remaining() == old(self).remaining(),
    {
        let ghost od = self.dfs@;
        let ghost om = self.marks@;
        let ghost op = self.path@;
        let ghost top = od.len() - 1;
        proof {
            assert(self.entry_ok(top));
            assert(mark_count(om, om.len() as int) == mark_count(om, top) + 1);
            assert(od =~= od.drop_last().push(od.last()));
            assert(om =~= om.drop_last().push(om.last()));
            lemma_stack_push(self.lcs, od.drop_last(), om.drop_last(), od.last(), true);
            lemma_rem_push(self.lcs, od.drop_last(), om.drop_last(), op, od.last(), true);
        }
        self.dfs.pop();
        self.path.pop();
        proof {
            self.marks@ = om.drop_last();
            let nm = self.marks@;
            assert(self.dfs@ =~= od.drop_last());
            assert(self.path@ =~= op.drop_last());
            assert(mark_count(nm, nm.len() as int) == mark_count(om, top)) by {
                lemma_mark_count_prefix(om, nm, top);
            }
            assert forall|i: int| 0 <= i < self.dfs@.len() implies #[trigger] self.entry_ok(i) by {
                lemma_mark_count_prefix(om, nm, i);
                lemma_mark_count_mono(om, i, top);
                assert(old(self).entry_ok(i));
            }
            assert(op.drop_last().take(mark_count(om, top) as int) =~= op.take(mark_count(om, top) as int));
            lemma_rem_path(self.lcs, self.dfs@, nm, op, self.path@);
        }
    }

    /// Takes the cell to explore next off the stack; it is not a mark.
    fn take_cell(&mut self) -> (c: (usize, usize))
        requires
            old(self).wf(),
            old(self).dfs@.len() > 0,
            !old(self).marks@.last(),
        ensures
            final(self).wf(),
            final(self).lcs == old(self).lcs,
            final(self).path@ == old(self).path@,
            c == old(self).dfs@.last(),
            final(self).work_left() + work(old(self).lcs, c) == old(self).work_left(),
            final(self).in_grid(c),
            final(self).path@.len() == 0 ==> final(self).is_start(c),
            final(self).path@.len() > 0 ==> final(self).lcs.step_ok(final(self).path@.last(), c),
            old(self).remaining() == prefixed(final(self).path@, all_from(old(self).lcs, c))
                + final(self).remaining(),
    {
        let ghost od = self.dfs@;
        let ghost om = self.marks@;
        let ghost top = od.len() - 1;
        proof {
            assert(self.entry_ok(top));
            assert(mark_count(om, om.len() as int) == mark_count(om, top));
            assert(od =~= od.drop_last().push(od.last()));
            assert(om =~= om.drop_last().push(om.last()));
            lemma_stack_push(self.lcs, od.drop_last(), om.drop_last(), od.last(), false);
            lemma_rem_push(self.lcs, od.drop_last(), om.drop_last(), self.path@, od.last(), false);
            lemma_mark_count_prefix(om, om.drop_last(), top);
            assert(self.path@.take(self.path@.len() as int) =~= self.path@);
        }
        let c = self.dfs.pop().unwrap();
        proof {
            self.marks@ = om.drop_last();
            let nm = self.marks@;
            assert(mark_count(nm, nm.len() as int) == mark_count(om, top)) by {
                lemma_mark_count_prefix(om, nm, top);
            }
            assert forall|i: int| 0 <= i < self.dfs@.len() implies #[trigger] self.entry_ok(i) by {
                lemma_mark_count_prefix(om, nm, i);
                assert(old(self).entry_ok(i));
            }
        }
        c
    }

    /// Extends the current path by `c` and puts its mark on the stack.
    fn enter(&mut self, c: (usize, usize))
        requires
            old(self).wf(),
            old(self).in_grid(c),
            old(self).path@.len() == 0 ==> old(self).is_start(c),
            old(self).path@.len() > 0 ==> old(self).lcs.step_ok(old(self).path@.last(), c),
        ensures
            final(self).wf(),
            final(self).lcs == old(self).lcs,
            final(self).path@ == old(self).path@.push(c),
            final(self).work_left() == old(self).work_left() + 1,
            final(self).remaining() == old(self).remaining(),
    {
        let ghost od = self.dfs@;
        let ghost om = self.marks@;
        let ghost op = self.path@;
        proof {
            lemma_stack_push(self.lcs, od, om, c, true);
            lemma_rem_push(self.lcs, od, om, op.push(c), c, true);
            assert(op.push(c).take(op.len() as int) =~= op.take(op.len() as int));
            lemma_rem_path(self.lcs, od, om, op.push(c), op);
        }
        self.path.push(c);
        self.dfs.push(c);
        proof {
            self.marks@ = om.push(true);
            let nm = self.marks@;
            assert(mark_count(nm, om.len() as int) == mark_count(om, om.len() as int)) by {
                lemma_mark_count_prefix(om, nm, om.len() as int);
            }
            assert forall|i: int| 0 <= i < self.dfs@.len() implies #[trigger] self.entry_ok(i) by {
                if i < od.len() {
                    lemma_mark_count_prefix(om, nm, i);
                    assert(old(self).entry_ok(i));
                    if om[i] {
                        assert(self.path@[mark_count(om, i) as int] == op[mark_count(om, i) as int]);
                    } else if mark_count(om, i) > 0 {
                        assert(self.path@[mark_count(om, i) - 1] == op[mark_count(om, i) - 1]);
                    }
                }
            }
            assert forall|j: int|
                0 <= j < self.path@.len() - 1 implies #[trigger] self.lcs.step_ok(
                self.path@[j],
                self.path@[j + 1],
            ) by {
                if j < op.len() - 1 {
                    assert(old(self).lcs.step_ok(op[j], op[j + 1]));
                }
            }
        }
    }

    /// Puts `e`, one step away from the current path's last cell, on the stack
    /// to explore.
    fn push_unexplored(&mut self, e: (usize, usize))
        requires
            old(self).wf(),
            old(self).path@.len() > 0,
            old(self).lcs.step_ok(old(self).path@.last(), e),
        ensures
            final(self).wf(),
            final(self).lcs == old(self).lcs,
            final(self).path@ == old(self).path@,
            final(self).work_left() == old(self).work_left() + work(old(self).lcs, e),
            final(self).remaining() == prefixed(old(self).path@, all_from(old(self).lcs, e))
                + old(self).remaining(),
    {
        let ghost od = self.dfs@;
        let ghost om = self.marks@;
        let ghost op = self.path@;
        proof {
            lemma_stack_push(self.lcs, od, om, e, false);
            lemma_rem_push(self.lcs, od, om, op, e, false);
            assert(op.take(op.len() as int) =~= op);
            assert(self.in_grid(op[op.len() - 1]));
            self.lcs.lemma_step_smaller(op.last(), e);
        }
        self.dfs.push(e);
        proof {
            self.marks@ = om.push(false);
            let nm = self.marks@;
            assert(mark_count(nm, om.len() as int) == mark_count(om, om.len() as int)) by {
                lemma_mark_count_prefix(om, nm, om.len() as int);
            }
            assert forall|i: int| 0 <= i < self.dfs@.len() implies #[trigger] self.entry_ok(i) by {
                if i < od.len() {
                    lemma_mark_count_prefix(om, nm, i);
                    assert(old(self).entry_ok(i));
                }
            }
            assert(!nm[od.len() as int]);
        }
    }

    /// Moves to the next path: afterwards `current` is the next backtracking path
    /// from the bottom-right cell to a border cell, or empty when all have been
    /// handed out.
    pub fn advance(&mut self)
        requires
            old(self).wf(),
        ensures
            final(self).wf(),
            final(self).matcher() == old(self).matcher(),
            final(self).ready(),
            final(self).current().len() > 0 ==> final(self).matcher().is_full_path(
                final(self).current(),
            ),
            old(self).remaining().len() > 0 ==> final(self).current().len() > 0
                && final(self).current() == old(self).remaining()[0]
                && final(self).remaining() == old(self).remaining().drop_first(),
            old(self).remaining().len() == 0 ==> final(self).current().len() == 0
                && final(self).remaining().len() == 0,
    {
        let ghost l = self.lcs;
        while self.dfs.len() > 0
            invariant
                self.wf(),
                self.lcs == l,
                *l == old(self).matcher(),
                self.remaining() == old(self).remaining(),
            decreases self.work_left(),
        {
            if self.top_is_current() {
                self.leave_cell();
                continue;
            }
            let ghost p0 = self.path@;
            let cur = self.take_cell();
            let ghost r1 = self.remaining();
            let (row, col) = cur;
            if row == 0 || col == 0 {
                self.enter(cur);
                proof {
                    assert(all_from(l, cur) == seq![seq![cur]]);
                    assert(p0 + seq![cur] =~= p0.push(cur));
                    assert(prefixed(p0, seq![seq![cur]])[0] == p0 + seq![cur]);
                    assert(prefixed(p0, seq![seq![cur]]) =~= seq![p0.push(cur)]);
                    assert(old(self).remaining() =~= seq![p0.push(cur)] + r1);
                    assert((seq![p0.push(cur)] + r1).drop_first() =~= r1);
                    let p = self.path@;
                    assert forall|i: int| 0 <= i < p.len() - 1 implies #[trigger] l.step_ok(p[i], p[i + 1]) by {
                        assert(self.lcs.step_ok(p[i], p[i + 1]));
                    }
                    l.lemma_full_path(p);
                }
                return;
            }
            let (up, diag, left) = self.lcs.moves(row, col);
            self.enter(cur);
            let ghost p1 = self.path@;
            let ghost ua = if up {
                all_from(l, ((row - 1) as usize, col))
            } else {
                Seq::empty()
            };
            let ghost da = if diag {
                all_from(l, ((row - 1) as usize, (col - 1) as usize))
            } else {
                Seq::empty()
            };
            let ghost la = if left {
                all_from(l, (row, (col - 1) as usize))
            } else {
                Seq::empty()
            };
            if left {
                self.push_unexplored((row, col - 1));
            }
            assert(self.remaining() =~= prefixed(p1, la) + r1);
            if diag {
                self.push_unexplored((row - 1, col - 1));
            }
            assert(self.remaining() =~= prefixed(p1, da) + (prefixed(p1, la) + r1));
            if up {
                self.push_unexplored((row - 1, col));
            }
            proof {
                assert(self.remaining() =~= prefixed(p1, ua) + (prefixed(p1, da) + (prefixed(p1, la) + r1)));
                assert(all_from(l, cur) == prefixed(seq![cur], ua + da + la));
                lemma_prefixed_compose(p0, cur, ua + da + la);
                lemma_prefixed_concat(p1, ua + da, la);
                lemma_prefixed_concat(p1, ua, da);
                assert(self.remaining() =~= old(self).remaining());
            }
        }
    }

    /// Moves to the next path and gives it, or `None` once all have been handed
    /// out (see `advance` and `get`).
    pub fn next(&mut self) -> (r: Option<&[(usize, usize)]>)
        requires
            old(self).wf(),
        ensures
            final(self).wf(),
            final(self).matcher() == old(self).matcher(),
            old(self).remaining().len() > 0 ==> (r matches Some(p) && p@ == old(self).remaining()[0]
                && p@ == final(self).current() && final(self).remaining() == old(self).remaining().drop_first()
                && final(self).matcher().is_full_path(p@)),
            old(self).remaining().len() == 0 ==> r is None && final(self).remaining().len() == 0,
    {
        self.advance();
        self.get()
    }

    /// The current path, or `None` once all have been handed out.
    pub fn get(&self) -> (r: Option<&[(usize, usize)]>)
        requires
            self.wf(),
            self.ready(),
        ensures
            self.current().len() == 0 ==> r is None,
            self.current().len() > 0 ==> (r matches Some(p) && p@ == self.current()),
    {
        if self.path.len() == 0 {
            None
        } else {
            Some(self.path.as_slice())
        }
    }
}

} // verus!
