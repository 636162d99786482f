//! The parts of a `/`-separated path.
use vstd::prelude::*;
use crate::text::chars_of;

verus! {

/// The position of the last `/` of `p`, if any.
pub open spec fn last_slash(p: Seq<char>) -> Option<int>
    decreases p.len(),
{
    if p.len() == 0 {
        None
    } else if p.last() == '/' {
        Some(p.len() - 1)
    } else {
        last_slash(p.drop_last())
    }
}

/// The position of the last `/` of a path, if any.
pub fn find_last_slash(p: &str) -> (r: Option<usize>)
    ensures
        match r {
            Some(k) => last_slash(p@) == Some(k as int),
            None => last_slash(p@) is None,
        },
        r matches Some(k) ==> k < p@.len() && p@[k as int] == '/',
{
    let chars = chars_of(p);
    let mut i: usize = chars.len();
    proof {
        assert(p@.take(i as int) =~= p@);
    }
    while i > 0
        invariant
            chars@ == p@,
            i <= chars@.len(),
            last_slash(p@) == last_slash(p@.take(i as int)),
        decreases i,
    {
        if chars[i - 1] == '/' {
            proof {
                assert(p@.take(i as int).last() == '/');
            }
            return Some(i - 1);
        }
        proof {
            assert(p@.take(i as int).drop_last() =~= p@.take(i - 1));
        }
        i -= 1;
    }
    proof {
        assert(p@.take(0) =~= Seq::<char>::empty());
    }
    None
}

/// The last component of a path: what follows its last `/` (all of it when it
/// has none); none for the top `/` and for the empty path.
pub open spec fn basename_of(p: Seq<char>) -> Option<Seq<char>> {
    if p.len() == 0 || p == seq!['/'] {
        None
    } else {
        match last_slash(p) {
            Some(k) => Some(p.subrange(k + 1, p.len() as int)),
            None => Some(p),
        }
    }
}

/// The directory part of a path: what precedes its last `/`; none when the path
/// has no `/` or its only one is at the start (the parent is then the top).
pub open spec fn dirname_of(p: Seq<char>) -> Option<Seq<char>> {
    match last_slash(p) {
        Some(k) => if k > 0 {
            Some(p.subrange(0, k))
        } else {
            None
        },
        None => None,
    }
}

/// The last component of a path (see `basename_of`).
pub fn basename(p: &str) -> (r: Option<&str>)
    ensures
        match basename_of(p@) {
            Some(b) => r matches Some(s) && s@ == b,
            None => r is None,
        },
{
    let n = p.unicode_len();
    if n == 0 {
        return None;
    }
    if n == 1 && p.get_char(0) == '/' {
        proof {
            assert(p@ =~= seq!['/']);
        }
        return None;
    }
    proof {
        if p@ == seq!['/'] {
            assert(p@[0] == '/');
        }
    }
    match find_last_slash(p) {
        Some(k) => Some(p.substring_char(k + 1, n)),
        None => Some(p),
    }
}

/// The directory part of a path (see `dirname_of`).
pub fn dirname(p: &str) -> (r: Option<&str>)
    ensures
        match dirname_of(p@) {
            Some(d) => r matches Some(s) && s@ == d,
            None => r is None,
        },
{
    match find_last_slash(p) {
        Some(k) => {
            if k > 0 {
                Some(p.substring_char(0, k))
            } else {
                None
            }
        },
        None => None,
    }
}

} // verus!
