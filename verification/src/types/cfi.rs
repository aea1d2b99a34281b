//! Control format indicator.

use vstd::prelude::*;

verus! {

/// The control format indicator: how many OFDM symbols, and so how many
/// CCEs, the control region has. The values are ordered `One < Two < Three`.
#[derive(Clone, Copy, Debug, Default, PartialEq, Eq, PartialOrd, Ord, Hash, Structural)]
pub enum Cfi {
    #[default]
    One,
    Two,
    Three,
}

impl Cfi {
    /// Position of the value in tables indexed by CFI.
    pub open spec fn spec_index(&self) -> usize {
        match self {
            Cfi::One => 0,
            Cfi::Two => 1,
            Cfi::Three => 2,
        }
    }

    /// The value that follows this one, if there is one.
    pub open spec fn spec_next(&self) -> Option<Cfi> {
        match self {
            Cfi::One => Some(Cfi::Two),
            Cfi::Two => Some(Cfi::Three),
            Cfi::Three => None,
        }
    }

    #[verifier::when_used_as_spec(spec_index)]
    pub fn index(&self) -> (r: usize)
        ensures
            r == self.spec_index(),
            r < 3,
    {
        match self {
            Cfi::One => 0,
            Cfi::Two => 1,
            Cfi::Three => 2,
        }
    }

    /// The three values in increasing order.
    pub fn list() -> (r: [Cfi; 3])
        ensures
            r@ == seq![Cfi::One, Cfi::Two, Cfi::Three],
    {
        let r = [Cfi::One, Cfi::Two, Cfi::Three];
        assert(r@ =~= seq![Cfi::One, Cfi::Two, Cfi::Three]);
        r
    }

    /// One step of the forward walk over the values: the next larger value,
    /// or `None` at `Three`.
    #[verifier::when_used_as_spec(spec_next)]
    pub fn next(&self) -> (r: Option<Cfi>)
        ensures
            r == self.spec_next(),
            r matches Some(n) ==> n.spec_index() == self.spec_index() + 1,
            r is None <==> *self == Cfi::Three,
    {
        match self {
            Cfi::One => Some(Cfi::Two),
            Cfi::Two => Some(Cfi::Three),
            Cfi::Three => None,
        }
    }
}

} // verus!
