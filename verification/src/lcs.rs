//! A string-owning longest-common-subsequence matcher with highlighting helpers.
use vstd::prelude::*;
use crate::fuzzy::lcs::{
    LCS as Grid, lcs_len, push_overflows, is_common_subsequence, has_indices, lemma_push_fails_iff,
    lemma_paths_determined,
};
use crate::fuzzy::dp::ELEMENT_MAX;
use crate::fuzzy::matcher::{spread_of, strictly_increasing, first_pos_ref, spread_ref};
use crate::fuzzy::util::{concat_views, interspersed_pieces};
use crate::fuzzy::iterator::{lcs_paths, path_rows};

verus! {

/// Incremental longest common subsequence between a fixed string and a string
/// typed one character at a time.
pub struct LCS {
    inner: Grid,
}

impl LCS {
    /// The string searched in.
    pub closed spec fn compare(&self) -> Seq<char> {
        self.inner.compare()
    }

    /// The characters typed so far.
    pub closed spec fn pushed(&self) -> Seq<char> {
        self.inner.pushed()
    }

    /// The matcher is in a consistent state.
    pub closed spec fn wf(&self) -> bool {
        self.inner.wf()
    }

    /// The backtracking paths of the grid, in the order in which they are
    /// handed out (see `lcs_paths`).
    pub closed spec fn paths(&self) -> Seq<Seq<(usize, usize)>> {
        lcs_paths(&self.inner)
    }

    /// An empty matcher for a non-empty `compare`.
    pub fn new(compare: String) -> (l: Self)
        requires
            compare@.len() > 0,
        ensures
            l.wf(),
            l.compare() == compare@,
            l.pushed() == Seq::<char>::empty(),
    {
        LCS { inner: Grid::new(compare.as_str()) }
    }

    /// Types `c`; fails, leaving everything unchanged, when a subsequence length
    /// would exceed the largest representable one.
    pub fn push(&mut self, c: char) -> (res: Result<(), ()>)
        requires
            old(self).wf(),
        ensures
            final(self).wf(),
            final(self).compare() == old(self).compare(),
            !push_overflows(old(self).compare(), old(self).pushed(), c) ==> res is Ok
                && final(self).pushed() == old(self).pushed().push(c),
            push_overflows(old(self).compare(), old(self).pushed(), c) ==> res is Err
                && final(self).pushed() == old(self).pushed(),
            res is Err <==> lcs_len(old(self).compare(), old(self).pushed().push(c)) > ELEMENT_MAX,
            res is Err ==> final(self).paths() == old(self).paths(),
    {
        let ghost before = self.inner;
        proof {
            lemma_push_fails_iff(&self.inner, c);
        }
        let res = self.inner.push(c);
        proof {
            if res is Err {
                lemma_paths_determined(&self.inner, &before);
            }
        }
        res
    }

    /// Types every character of `s`, stopping at the first that cannot be pushed
    /// and returning how many were pushed before it.
    pub fn push_str(&mut self, s: &str) -> (res: Result<(), usize>)
        requires
            old(self).wf(),
        ensures
            final(self).wf(),
            final(self).compare() == old(self).compare(),
            res is Ok ==> final(self).pushed() == old(self).pushed() + s@,
            res matches Err(n) ==> n < s@.len() && final(self).pushed() == old(self).pushed()
                + s@.take(n as int) && push_overflows(
                old(self).compare(),
                old(self).pushed() + s@.take(n as int),
                s@[n as int],
            ),
    {
        self.inner.push_str(s)
    }

    /// Removes the last typed character.
    pub fn pop(&mut self)
        requires
            old(self).wf(),
            old(self).pushed().len() > 0,
        ensures
            final(self).wf(),
            final(self).compare() == old(self).compare(),
            final(self).pushed() == old(self).pushed().drop_last(),
    {
        self.inner.pop()
    }

    pub fn is_empty(&self) -> (b: bool)
        requires
            self.wf(),
        ensures
            b == (self.pushed().len() == 0),
    {
        self.inner.is_empty()
    }

    pub fn get_compare(&self) -> (s: &str)
        ensures
            s@ == self.compare(),
    {
        self.inner.get_compare()
    }

    /// The length of a longest common subsequence.
    pub fn length(&self) -> (l: usize)
        requires
            self.wf(),
        ensures
            l == lcs_len(self.compare(), self.pushed()),
    {
        self.inner.length()
    }

    /// The positions of the longest common subsequence of each backtracking path,
    /// in order.
    pub fn get_all_indices(&self) -> (res: Vec<Vec<usize>>)
        requires
            self.wf(),
        ensures
            res@.len() == self.paths().len(),
            forall|i: int| 0 <= i < res@.len() ==> (#[trigger] res@[i])@ == path_rows(self.paths()[i]),
            forall|idx: Seq<usize>|
                is_common_subsequence(self.compare(), self.pushed(), idx) && idx.len() == lcs_len(
                    self.compare(),
                    self.pushed(),
                ) && idx.len() > 0 ==> #[trigger] has_indices(res@, idx),
            lcs_len(self.compare(), self.pushed()) == 0 ==> res@.len() == 0,
            lcs_len(self.compare(), self.pushed()) > 0 ==> res@.len() > 0,
            forall|i: int|
                0 <= i < res@.len() ==> (#[trigger] res@[i])@.len() == lcs_len(
                    self.compare(),
                    self.pushed(),
                ) && is_common_subsequence(self.compare(), self.pushed(), res@[i]@),
    {
        self.inner.get_all_indices()
    }

    /// The positions of one longest common subsequence, increasing: that of the
    /// first backtracking path.
    pub fn get_leftmost_indices(&self) -> (v: Vec<usize>)
        requires
            self.wf(),
        ensures
            lcs_len(self.compare(), self.pushed()) > 0 ==> v@ == path_rows(self.paths()[0]),
            v@.len() == lcs_len(self.compare(), self.pushed()),
            is_common_subsequence(self.compare(), self.pushed(), v@),
    {
        self.inner.get_leftmost_indices()
    }

    /// The characters of the compared string at the given positions.
    pub fn get_string(&self, indices: &[usize]) -> (s: String)
        requires
            self.wf(),
            forall|i: int| 0 <= i < indices@.len() ==> #[trigger] indices@[i] < self.compare().len(),
        ensures
            s@ == Seq::new(indices@.len(), |i: int| self.compare()[indices@[i] as int]),
    {
        self.inner.longest_seq_str(indices)
    }

    /// The compared string with each character rendered by `on_lcs` when its
    /// position is listed in `indices` and by `off_lcs` otherwise.
    pub fn get_interspersed<ON: Fn(char) -> String, OFF: Fn(char) -> String>(
        &self,
        indices: &[usize],
        on_lcs: ON,
        off_lcs: OFF,
    ) -> (res: String)
        requires
            forall|c: char| #[trigger] on_lcs.requires((c,)),
            forall|c: char| #[trigger] off_lcs.requires((c,)),
        ensures
            exists|outs: Seq<String>|
                interspersed_pieces(on_lcs, off_lcs, self.compare(), indices@, outs) && res@
                    == concat_views(outs),
    {
        crate::fuzzy::util::get_interspersed(self.inner.get_compare(), indices, on_lcs, off_lcs)
    }

    /// The number of positions skipped between consecutive positions.
    pub fn spread(&self, indices: Vec<usize>) -> (r: usize)
        requires
            strictly_increasing(indices@),
        ensures
            r == spread_of(indices@),
    {
        spread_ref(indices.as_slice())
    }

    /// The number of positions skipped between consecutive positions.
    pub fn spread_ref(&self, indices: &[usize]) -> (r: usize)
        requires
            strictly_increasing(indices@),
        ensures
            r == spread_of(indices@),
    {
        spread_ref(indices)
    }

    /// The first position, if any.
    pub fn first_pos(&self, indices: &[usize]) -> (r: Option<usize>)
        ensures
            indices@.len() == 0 ==> r is None,
            indices@.len() > 0 ==> r == Some(indices@[0]),
    {
        first_pos_ref(indices)
    }

    /// The number of grid cells.
    pub fn grid_len(&self) -> (n: usize)
        requires
            self.wf(),
        ensures
            n == self.pushed().len() * self.compare().len(),
    {
        self.inner.grid_len()
    }

    /// The number of grid columns, one per typed character.
    pub fn grid_columns(&self) -> (n: usize)
        requires
            self.wf(),
        ensures
            n == self.pushed().len(),
    {
        self.inner.grid_columns()
    }
}

/// Removing the character typed last gives back the matcher as it was before
/// that character was typed: the same typed string and the same backtracking
/// paths, so the same length, grid size, leftmost and all positions.
pub proof fn lemma_pop_undoes_push(before: &LCS, pushed: &LCS, popped: &LCS, c: char)
    requires
        before.wf(),
        pushed.wf(),
        popped.wf(),
        pushed.compare() == before.compare(),
        pushed.pushed() == before.pushed().push(c),
        popped.compare() == pushed.compare(),
        popped.pushed() == pushed.pushed().drop_last(),
    ensures
        popped.pushed() == before.pushed(),
        popped.paths() == before.paths(),
{
    crate::fuzzy::lcs::lemma_pop_undoes_push(&before.inner, &pushed.inner, &popped.inner, c);
}

/// One call that changes what is typed.
pub enum Typing {
    /// `push` of the character succeeded.
    Pushed(char),
    /// `push` of the character failed.
    Refused(char),
    /// `pop`.
    Popped,
}

/// The matcher `after` comes from `before` by the call `t`.
pub open spec fn follows(before: LCS, after: LCS, t: Typing) -> bool {
    &&& after.compare() == before.compare()
    &&& match t {
        Typing::Pushed(c) => after.pushed() == before.pushed().push(c),
        Typing::Refused(_) => after.pushed() == before.pushed(),
        Typing::Popped => before.pushed().len() > 0 && after.pushed() == before.pushed().drop_last(),
    }
}

/// The successful pushes minus the pops among the calls.
pub open spec fn net_columns(calls: Seq<Typing>) -> int
    decreases calls.len(),
{
    if calls.len() == 0 {
        0
    } else {
        net_columns(calls.drop_last()) + match calls.last() {
            Typing::Pushed(_) => 1int,
            Typing::Refused(_) => 0int,
            Typing::Popped => -1int,
        }
    }
}

/// Over any sequence of calls, the typed string (and so the number of grid
/// columns, see `grid_columns`) grows by the successful pushes and shrinks by the
/// pops; a failed push leaves it as it was.
pub proof fn lemma_columns_count(states: Seq<LCS>, calls: Seq<Typing>)
    requires
        states.len() == calls.len() + 1,
        forall|i: int| 0 <= i < calls.len() ==> #[trigger] follows(states[i], states[i + 1], calls[i]),
    ensures
        states.last().pushed().len() == states[0].pushed().len() + net_columns(calls),
    decreases calls.len(),
{
    if calls.len() > 0 {
        let n = calls.len() - 1;
        let s2 = states.drop_last();
        let c2 = calls.drop_last();
        assert forall|i: int| 0 <= i < c2.len() implies #[trigger] follows(s2[i], s2[i + 1], c2[i]) by {
            assert(follows(states[i], states[i + 1], calls[i]));
        }
        lemma_columns_count(s2, c2);
        assert(follows(states[n], states[n + 1], calls[n]));
    }
}

} // verus!
