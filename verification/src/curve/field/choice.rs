//! A bit that steers a branch-free selection.

use vstd::prelude::*;

verus! {

/// A bit that may be secret. It is consumed by masking, never by branching.
#[derive(Clone, Copy, Debug)]
pub struct Choice {
    bit: u32,
}

impl View for Choice {
    type V = bool;

    closed spec fn view(&self) -> bool {
        self.bit == 1
    }
}

impl Choice {
    #[verifier::type_invariant]
    spec fn is_bit(self) -> bool {
        self.bit <= 1
    }

    /// The choice that is set exactly when `flag` holds.
    pub fn new(flag: bool) -> (c: Choice)
        ensures
            c@ == flag,
    {
        let bit: u32 = if flag {
            1
        } else {
            0
        };
        Choice { bit }
    }

    /// The choice as a boolean.
    pub fn get(&self) -> (flag: bool)
        ensures
            flag == self@,
    {
        self.bit == 1
    }

    /// The choice as a limb: 1 when set, 0 otherwise.
    pub fn as_limb(&self) -> (bit: u32)
        ensures
            bit == if self@ { 1u32 } else { 0u32 },
    {
        proof {
            use_type_invariant(self);
        }
        self.bit
    }

    /// The choice that is set exactly when `bit` is 1.
    pub(crate) fn from_limb(bit: u32) -> (c: Choice)
        requires
            bit <= 1,
        ensures
            c@ == (bit == 1),
    {
        Choice { bit }
    }
}

} // verus!
