use vstd::prelude::*;
use crate::fuzzy::matcher::{spread_of, strictly_increasing, spread_ref};

verus! {

broadcast use vstd::seq_lib::to_multiset_insert;

/// Positions in non-decreasing order.
pub open spec fn sorted(s: Seq<usize>) -> bool {
    forall|i: int, j: int| 0 <= i <= j < s.len() ==> s[i] <= s[j]
}

/// The sorted positions of the characters of a candidate matched by a search.
#[derive(Debug)]
pub struct Match {
    indices: Vec<usize>,
}

impl View for Match {
    type V = Seq<usize>;

    closed spec fn view(&self) -> Seq<usize> {
        self.indices@
    }
}

/// The position at which `x` goes into the sorted `s`: after every element not
/// greater than it.
fn insert_position(s: &Vec<usize>, x: usize) -> (pos: usize)
    requires
        sorted(s@),
    ensures
        pos <= s@.len(),
        forall|i: int| 0 <= i < pos ==> s@[i] <= x,
        forall|i: int| pos <= i < s@.len() ==> x < s@[i],
{
    let mut pos: usize = 0;
    while pos < s.len() && s[pos] <= x
        invariant
            pos <= s@.len(),
            sorted(s@),
            forall|i: int| 0 <= i < pos ==> s@[i] <= x,
        decreases s@.len() - pos,
    {
        pos += 1;
    }
    pos
}

/// The same positions, sorted; positions that are already sorted are kept as
/// they are.
pub fn sort_positions(v: Vec<usize>) -> (res: Vec<usize>)
    ensures
        sorted(res@),
        res@.to_multiset() == v@.to_multiset(),
        sorted(v@) ==> res@ == v@,
{
    let mut res: Vec<usize> = Vec::new();
    let mut i: usize = 0;
    proof {
        assert(res@ =~= v@.take(0));
    }
    while i < v.len()
        invariant
            i <= v@.len(),
            sorted(res@),
            res@.to_multiset() == v@.take(i as int).to_multiset(),
            sorted(v@) ==> res@ == v@.take(i as int),
        decreases v@.len() - i,
    {
        let x = v[i];
        let pos = insert_position(&res, x);
        proof {
            if sorted(v@) && pos < res@.len() {
                assert(res@[pos as int] == v@[pos as int]);
                assert(v@[pos as int] <= v@[i as int]);
            }
        }
        let ghost before = res@;
        res.insert(pos, x);
        proof {
            assert(v@.take(i + 1) =~= v@.take(i as int).push(x));
            vstd::seq_lib::to_multiset_build(v@.take(i as int), x);
            assert forall|a: int, b: int| 0 <= a <= b < res@.len() implies res@[a] <= res@[b] by {
                if a < pos && b > pos {
                    assert(res@[a] == before[a]);
                    assert(res@[b] == before[b - 1]);
                } else if a < pos && b == pos {
                    assert(res@[a] == before[a]);
                } else if a == pos && b > pos {
                    assert(res@[b] == before[b - 1]);
                } else if a > pos {
                    assert(res@[a] == before[a - 1]);
                    assert(res@[b] == before[b - 1]);
                } else if b < pos {
                    assert(res@[a] == before[a]);
                    assert(res@[b] == before[b]);
                }
            }
        }
        i += 1;
    }
    proof {
        assert(v@.take(i as int) =~= v@);
    }
    res
}

impl Match {
    #[verifier::type_invariant]
    closed spec fn inv(&self) -> bool {
        sorted(self.indices@)
    }

    /// The given positions, sorted.
    pub fn from_vec(indices: Vec<usize>) -> (m: Self)
        ensures
            sorted(m@),
            m@.to_multiset() == indices@.to_multiset(),
            sorted(indices@) ==> m@ == indices@,
    {
        Match { indices: sort_positions(indices) }
    }

    /// No positions.
    pub fn empty() -> (m: Self)
        ensures
            m@ == Seq::<usize>::empty(),
    {
        let v: Vec<usize> = Vec::new();
        let ghost vv = v@;
        let m = Self::from_vec(v);
        proof {
            use_type_invariant(&m);
            vstd::seq_lib::to_multiset_len(m@);
            vstd::seq_lib::to_multiset_len(vv);
            assert(m@ =~= Seq::<usize>::empty());
        }
        m
    }

    /// The number of positions skipped between consecutive matched positions.
    pub fn spread(&self) -> (r: usize)
        requires
            strictly_increasing(self@),
        ensures
            r == spread_of(self@),
    {
        spread_ref(self.indices.as_slice())
    }

    /// The first matched position, if any.
    pub fn first(&self) -> (r: Option<usize>)
        ensures
            self@.len() == 0 ==> r is None,
            self@.len() > 0 ==> r == Some(self@[0]),
    {
        if self.indices.len() == 0 {
            None
        } else {
            Some(self.indices[0])
        }
    }

    /// The matched positions, sorted.
    pub fn indices(&self) -> (s: &[usize])
        ensures
            s@ == self@,
            sorted(s@),
    {
        proof {
            use_type_invariant(self);
        }
        self.indices.as_slice()
    }
}

} // verus!
