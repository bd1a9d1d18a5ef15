//! Points as pairs (x, y), the form in which points are exchanged.

use crate::curve::extended_edwards::{
    edwards_d, edwards_d_element, on_curve, Coordinates, ExtendedPoint,
};
use crate::curve::field::congruence::{
    cong, fmod, lemma_cong_add, lemma_fmod_cong, lemma_product_cong,
};
use crate::curve::field::field_element::FieldElement;
use vstd::prelude::*;

verus! {

/// The two coordinates of a point, each a residue modulo the field prime.
pub struct AffineCoordinates {
    pub x: int,
    pub y: int,
}

/// The pair satisfies the curve equation x^2 + y^2 = 1 + d x^2 y^2.
pub open spec fn affine_on_curve(a: AffineCoordinates) -> bool {
    cong(a.x * a.x + a.y * a.y, 1 + edwards_d() * ((a.x * a.x) * (a.y * a.y)))
}

/// The extended coordinates of a pair: Z = 1 and T = x y.
pub open spec fn extended_of(a: AffineCoordinates) -> Coordinates {
    Coordinates { x: a.x, y: a.y, z: 1, t: fmod(a.x * a.y) }
}

/// A point as a pair (x, y).
#[derive(Clone, Copy, Debug)]
pub struct AffinePoint {
    pub x: FieldElement,
    pub y: FieldElement,
}

impl View for AffinePoint {
    type V = AffineCoordinates;

    open spec fn view(&self) -> AffineCoordinates {
        AffineCoordinates { x: self.x@ as int, y: self.y@ as int }
    }
}

impl AffinePoint {
    /// The neutral element (0, 1).
    pub fn identity() -> (r: AffinePoint)
        ensures
            r@ == (AffineCoordinates { x: 0, y: 1 }),
    {
        AffinePoint { x: FieldElement::zero(), y: FieldElement::one() }
    }

    /// Whether the pair satisfies the curve equation.
    pub fn is_on_curve(&self) -> (r: bool)
        ensures
            r == affine_on_curve(self@),
    {
        let d = edwards_d_element();
        let xx = self.x.square();
        let yy = self.y.square();
        let lhs = xx.add(&yy);
        let xxyy = xx.mul(&yy);
        let dxxyy = d.mul(&xxyy);
        let one = FieldElement::one();
        let rhs = one.add(&dxxyy);
        proof {
            let x = self.x@ as int;
            let y = self.y@ as int;
            lemma_fmod_cong(x * x);
            lemma_fmod_cong(y * y);
            lemma_cong_add(xx@ as int, yy@ as int, x * x, y * y);
            lemma_product_cong(xxyy@ as int, xx@ as int, yy@ as int, x * x, y * y);
            lemma_product_cong(
                dxxyy@ as int,
                d@ as int,
                xxyy@ as int,
                edwards_d(),
                (x * x) * (y * y),
            );
            lemma_cong_add(one@ as int, dxxyy@ as int, 1, edwards_d() * ((x * x) * (y * y)));
        }
        lhs.equals(&rhs)
    }

    /// The point in extended coordinates.
    pub fn to_extended(&self) -> (r: ExtendedPoint)
        ensures
            r@ == extended_of(self@),
            affine_on_curve(self@) ==> on_curve(r@),
    {
        ExtendedPoint::from_affine(self)
    }

    /// Whether two pairs are the same.
    pub fn equals(&self, other: &AffinePoint) -> (r: bool)
        ensures
            r == (self@ == other@),
    {
        let same_x = self.x.equals(&other.x);
        let same_y = self.y.equals(&other.y);
        same_x && same_y
    }
}

} // verus!
