//! The table of the first eight multiples of a point, read without letting
//! the index steer a branch or an address.

use crate::curve::extended_edwards::{edwards_add, Coordinates, ExtendedPoint};
use crate::curve::field::choice::Choice;
use crate::curve::field::limbs::{is_zero_limb, select_limb};
use crate::curve::projective_niels::{
    niels_identity, niels_negate, niels_of, NielsCoordinates, ProjectiveNielsPoint,
};
use vstd::prelude::*;

verus! {

/// The `n`-th multiple of a point by repeated addition, for `n` from 1.
pub open spec fn small_multiple(p: Coordinates, n: nat) -> Coordinates
    decreases n,
{
    if n <= 1 {
        p
    } else {
        edwards_add(small_multiple(p, (n - 1) as nat), p)
    }
}

/// The table of a point: its multiples from 1 to 8 in precomputed form.
pub open spec fn table_of(p: Coordinates) -> Seq<NielsCoordinates> {
    Seq::new(8, |j: int| niels_of(small_multiple(p, (j + 1) as nat)))
}

/// The entry for a signed digit: the neutral element for 0, the multiple
/// with the digit's magnitude for a digit from 1 to 8, negated for a
/// negative digit. A magnitude beyond 8 is read as 0.
pub open spec fn signed_entry(table: Seq<NielsCoordinates>, d: int) -> NielsCoordinates {
    let a = if d < 0 {
        -d
    } else {
        d
    };
    let base = if 1 <= a <= 8 {
        table[a - 1]
    } else {
        niels_identity()
    };
    if d < 0 {
        niels_negate(base)
    } else {
        base
    }
}

/// The multiples from 1 to 8 of a point.
#[derive(Clone, Copy, Debug)]
pub struct LookupTable {
    entries: [ProjectiveNielsPoint; 8],
}

impl View for LookupTable {
    type V = Seq<NielsCoordinates>;

    closed spec fn view(&self) -> Seq<NielsCoordinates> {
        Seq::new(8, |j: int| self.entries@[j]@)
    }
}

impl LookupTable {
    /// Builds the table of a point by repeated addition.
    pub fn build(p: &ExtendedPoint) -> (table: LookupTable)
        ensures
            table@ == table_of(p@),
    {
        let mut entries = [ProjectiveNielsPoint::identity();8];
        let mut cur = *p;
        entries[0] = ProjectiveNielsPoint::from_extended(&cur);
        let mut j: usize = 1;
        while j < 8
            invariant
                1 <= j <= 8,
                cur@ == small_multiple(p@, j as nat),
                forall|k: int|
                    0 <= k < j ==> (#[trigger] entries@[k])@ == niels_of(
                        small_multiple(p@, (k + 1) as nat),
                    ),
            decreases 8 - j,
        {
            cur = cur.add(p);
            entries[j] = ProjectiveNielsPoint::from_extended(&cur);
            j += 1;
        }
        let table = LookupTable { entries };
        assert(table@ =~= table_of(p@));
        table
    }

    /// The entry for a signed digit. Every entry of the table is read and
    /// the choice is made by masking.
    pub fn select(&self, d: i8) -> (n: ProjectiveNielsPoint)
        ensures
            n@ == signed_entry(self@, d as int),
    {
        let v: u32 = (d as i32 + 128) as u32;
        let negative: u32 = ((v >> 7) & 1) ^ 1;
        let high: u32 = v | 128;
        let low: u32 = v & 127;
        assert(negative == (if v < 128 { 1u32 } else { 0u32 }) && high >= 128 && low <= 127 && (v
            >= 128 ==> high == v) && (v < 128 ==> low == v)) by (bit_vector)
            requires
                v <= 255,
                negative == ((v >> 7) & 1) ^ 1,
                high == v | 128,
                low == v & 127,
        ;
        let up: u32 = high - 128;
        let down: u32 = 128 - low;
        let a: u32 = select_limb(up, down, negative);
        let mut acc = ProjectiveNielsPoint::identity();
        let mut j: usize = 0;
        while j < 8
            invariant
                j <= 8,
                acc@ == if 1 <= a <= j { self@[a - 1] } else { niels_identity() },
            decreases 8 - j,
        {
            let index: u32 = (j + 1) as u32;
            let miss: u32 = a ^ index;
            assert(miss == 0 <==> a == index) by (bit_vector)
                requires
                    miss == a ^ index,
            ;
            let hit = Choice::from_limb(is_zero_limb(miss));
            acc = ProjectiveNielsPoint::conditional_select(&acc, &self.entries[j], hit);
            j += 1;
        }
        let negated = acc.negate();
        ProjectiveNielsPoint::conditional_select(&acc, &negated, Choice::from_limb(negative))
    }
}

} // verus!
