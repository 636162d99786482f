use vstd::prelude::*;

verus! {

/// A substring matcher over a fixed string.
pub struct SubStr {
    compare: String,
}

impl SubStr {
    /// The string matched against.
    pub closed spec fn compare(&self) -> Seq<char> {
        self.compare@
    }

    pub fn new(compare: String) -> (s: Self)
        ensures
            s.compare() == compare@,
    {
        Self { compare }
    }
}

} // verus!
