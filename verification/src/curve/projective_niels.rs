//! Points in the precomputed form (Y + X, Y - X, Z, 2 d T), which makes
//! repeated addition of one point cheaper.

use crate::curve::extended_edwards::{edwards_d, edwards_d_element, Coordinates, ExtendedPoint};
use crate::curve::field::choice::Choice;
use crate::curve::field::congruence::{fmod, lemma_cong_add, lemma_product_cong};
use crate::curve::field::field_element::FieldElement;
use vstd::prelude::*;

verus! {

/// The four coordinates of a point in precomputed form, each a residue
/// modulo the field prime.
pub struct NielsCoordinates {
    pub y_plus_x: int,
    pub y_minus_x: int,
    pub z: int,
    pub td: int,
}

/// The precomputed form of a point: (Y + X, Y - X, Z, 2 d T).
pub open spec fn niels_of(p: Coordinates) -> NielsCoordinates {
    NielsCoordinates {
        y_plus_x: fmod(p.y + p.x),
        y_minus_x: fmod(p.y - p.x),
        z: p.z,
        td: fmod((edwards_d() * p.t) + (edwards_d() * p.t)),
    }
}

/// The precomputed form of the neutral element.
pub open spec fn niels_identity() -> NielsCoordinates {
    NielsCoordinates { y_plus_x: 1, y_minus_x: 1, z: 1, td: 0 }
}

/// The negative in precomputed form: the first two coordinates change
/// places and the fourth changes sign.
pub open spec fn niels_negate(n: NielsCoordinates) -> NielsCoordinates {
    NielsCoordinates { y_plus_x: n.y_minus_x, y_minus_x: n.y_plus_x, z: n.z, td: fmod(-n.td) }
}

/// A point in precomputed form.
#[derive(Clone, Copy, Debug)]
pub struct ProjectiveNielsPoint {
    y_plus_x: FieldElement,
    y_minus_x: FieldElement,
    z: FieldElement,
    td: FieldElement,
}

impl View for ProjectiveNielsPoint {
    type V = NielsCoordinates;

    closed spec fn view(&self) -> NielsCoordinates {
        NielsCoordinates {
            y_plus_x: self.y_plus_x@ as int,
            y_minus_x: self.y_minus_x@ as int,
            z: self.z@ as int,
            td: self.td@ as int,
        }
    }
}

impl ProjectiveNielsPoint {
    /// The precomputed form of the neutral element.
    pub fn identity() -> (r: ProjectiveNielsPoint)
        ensures
            r@ == niels_identity(),
    {
        let one = FieldElement::one();
        ProjectiveNielsPoint { y_plus_x: one, y_minus_x: one, z: one, td: FieldElement::zero() }
    }

    /// The precomputed form of a point.
    pub fn from_extended(p: &ExtendedPoint) -> (r: ProjectiveNielsPoint)
        ensures
            r@ == niels_of(p@),
    {
        let x = p.x();
        let y = p.y();
        let t = p.t();
        let d = edwards_d_element();
        let dt = d.mul(&t);
        let td = dt.add(&dt);
        proof {
            let ti = p@.t;
            lemma_product_cong(dt@ as int, d@ as int, t@ as int, edwards_d(), ti);
            lemma_cong_add(dt@ as int, dt@ as int, edwards_d() * ti, edwards_d() * ti);
        }
        ProjectiveNielsPoint { y_plus_x: y.add(&x), y_minus_x: y.sub(&x), z: p.z(), td }
    }

    /// The coordinate Y + X.
    pub fn y_plus_x(&self) -> (r: FieldElement)
        ensures
            r@ == self@.y_plus_x,
    {
        self.y_plus_x
    }

    /// The coordinate Y - X.
    pub fn y_minus_x(&self) -> (r: FieldElement)
        ensures
            r@ == self@.y_minus_x,
    {
        self.y_minus_x
    }

    /// The coordinate Z.
    pub fn z(&self) -> (r: FieldElement)
        ensures
            r@ == self@.z,
    {
        self.z
    }

    /// The coordinate 2 d T.
    pub fn td(&self) -> (r: FieldElement)
        ensures
            r@ == self@.td,
    {
        self.td
    }

    /// The negative of the point.
    pub fn negate(&self) -> (r: ProjectiveNielsPoint)
        ensures
            r@ == niels_negate(self@),
    {
        ProjectiveNielsPoint {
            y_plus_x: self.y_minus_x,
            y_minus_x: self.y_plus_x,
            z: self.z,
            td: self.td.negate(),
        }
    }

    /// Branch-free selection: `a` when the choice is clear, `b` when it is set.
    pub fn conditional_select(
        a: &ProjectiveNielsPoint,
        b: &ProjectiveNielsPoint,
        choice: Choice,
    ) -> (r: ProjectiveNielsPoint)
        ensures
            r@ == if choice@ { b@ } else { a@ },
    {
        ProjectiveNielsPoint {
            y_plus_x: FieldElement::conditional_select(&a.y_plus_x, &b.y_plus_x, choice),
            y_minus_x: FieldElement::conditional_select(&a.y_minus_x, &b.y_minus_x, choice),
            z: FieldElement::conditional_select(&a.z, &b.z, choice),
            td: FieldElement::conditional_select(&a.td, &b.td, choice),
        }
    }
}

} // verus!
