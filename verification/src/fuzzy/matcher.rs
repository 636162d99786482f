use vstd::prelude::*;
use crate::fuzzy::lcs::{LCS, lcs_len, is_common_subsequence, push_overflows};

verus! {

/// Positions strictly increasing.
pub open spec fn strictly_increasing(s: Seq<usize>) -> bool {
    forall|i: int, j: int| 0 <= i < j < s.len() ==> s[i] < s[j]
}

/// The number of positions skipped between consecutive positions: the sum of
/// `b - a - 1` over every consecutive pair `a, b`.
pub open spec fn spread_of(s: Seq<usize>) -> int
    decreases s.len(),
{
    if s.len() < 2 {
        0
    } else {
        spread_of(s.drop_last()) + (s.last() - s[s.len() - 2] - 1)
    }
}

/// For strictly increasing positions the spread is the width of the span they
/// cover minus their number.
pub proof fn lemma_spread_closed_form(s: Seq<usize>)
    requires
        strictly_increasing(s),
        s.len() > 0,
    ensures
        spread_of(s) == s.last() - s[0] + 1 - s.len(),
    decreases s.len(),
{
    if s.len() >= 2 {
        lemma_spread_closed_form(s.drop_last());
    }
}

/// The spread of strictly increasing positions.
pub fn spread_ref(indices: &[usize]) -> (r: usize)
    requires
        strictly_increasing(indices@),
    ensures
        r == spread_of(indices@),
{
    let mut sum: usize = 0;
    if indices.len() == 0 {
        return 0;
    }
    let mut i: usize = 1;
    while i < indices.len()
        invariant
            1 <= i <= indices@.len(),
            strictly_increasing(indices@),
            sum == spread_of(indices@.take(i as int)),
        decreases indices@.len() - i,
    {
        proof {
            let t = indices@.take(i + 1);
            assert(t.drop_last() =~= indices@.take(i as int));
            lemma_spread_closed_form(t);
            assert(strictly_increasing(t));
        }
        sum = sum + (indices[i] - indices[i - 1] - 1);
        i += 1;
    }
    proof {
        assert(indices@.take(i as int) =~= indices@);
    }
    sum
}

/// The spread of strictly increasing positions.
pub fn spread(indices: Vec<usize>) -> (r: usize)
    requires
        strictly_increasing(indices@),
    ensures
        r == spread_of(indices@),
{
    spread_ref(indices.as_slice())
}

/// The first position, if any.
pub fn first_pos(indices: Vec<usize>) -> (r: Option<usize>)
    ensures
        indices@.len() == 0 ==> r is None,
        indices@.len() > 0 ==> r == Some(indices@[0]),
{
    first_pos_ref(indices.as_slice())
}

/// The first position, if any.
pub fn first_pos_ref(indices: &[usize]) -> (r: Option<usize>)
    ensures
        indices@.len() == 0 ==> r is None,
        indices@.len() > 0 ==> r == Some(indices@[0]),
{
    if indices.len() == 0 {
        None
    } else {
        Some(indices[0])
    }
}

/// Something that matches a typed string, one character at a time, against a
/// fixed string.
pub trait Matcher {
    /// The matcher is in a consistent state.
    spec fn matcher_wf(&self) -> bool;

    /// The characters typed so far.
    spec fn typed(&self) -> Seq<char>;

    /// The fixed string matched against.
    spec fn compared(&self) -> Seq<char>;

    fn push(&mut self, c: char) -> (r: Result<(), ()>)
        requires
            old(self).matcher_wf(),
        ensures
            final(self).matcher_wf(),
            r is Ok ==> final(self).typed() == old(self).typed().push(c),
            r is Err ==> final(self).typed() == old(self).typed(),
    ;

    fn pop(&mut self)
        requires
            old(self).matcher_wf(),
            old(self).typed().len() > 0,
        ensures
            final(self).matcher_wf(),
            final(self).typed() == old(self).typed().drop_last(),
    ;

    fn get_indices(&self) -> (v: Vec<usize>)
        requires
            self.matcher_wf(),
    ;

    fn get_compare(&self) -> (s: &str)
        ensures
            s@ == self.compared(),
    ;
}

impl Matcher for LCS {
    open spec fn matcher_wf(&self) -> bool {
        self.wf()
    }

    open spec fn typed(&self) -> Seq<char> {
        self.pushed()
    }

    open spec fn compared(&self) -> Seq<char> {
        self.compare()
    }

    /// Types `c`; fails, leaving everything unchanged, exactly when a
    /// subsequence length would exceed the largest representable one.
    fn push(&mut self, c: char) -> (r: Result<(), ()>)
        ensures
            final(self).compare() == old(self).compare(),
            !push_overflows(old(self).compare(), old(self).pushed(), c) ==> r is Ok
                && final(self).pushed() == old(self).pushed().push(c),
            push_overflows(old(self).compare(), old(self).pushed(), c) ==> r is Err
                && final(self).pushed() == old(self).pushed(),
    {
        LCS::push(self, c)
    }

    fn pop(&mut self) {
        LCS::pop(self)
    }

    /// One longest common subsequence, as positions in the compared string.
    fn get_indices(&self) -> (v: Vec<usize>)
        ensures
            v@.len() == lcs_len(self.compare(), self.pushed()),
            is_common_subsequence(self.compare(), self.pushed(), v@),
    {
        self.get_leftmost_indices()
    }

    fn get_compare(&self) -> (s: &str) {
        LCS::get_compare(self)
    }
}

} // verus!
