//! Elements of the field of integers modulo p = 2^448 - 2^224 - 1.

use crate::curve::field::bytes::{
    bytes_value, le_bytes, lemma_bytes_canonical, limbs_from_bytes, limbs_to_bytes,
};
use crate::curve::field::choice::Choice;
use crate::curve::field::limbs::{
    eq_limbs, lemma_radix_pow_is_pow2, lemma_value_14, lemma_value_unique, limbs_value,
    radix_pow, select_limbs, split_wide,
};
use crate::curve::field::modular::{add_mod, mul_mod, pow_mod, reduce, sub_mod, Modulus};
use vstd::arithmetic::div_mod::*;
use vstd::arithmetic::power::*;
use vstd::arithmetic::power2::*;
use vstd::prelude::*;
use vstd::std_specs::cmp::PartialEqSpecImpl;

verus! {

/// The field prime p = 2^448 - 2^224 - 1.
pub open spec fn field_prime() -> nat {
    (pow2(448) - pow2(224) - 1) as nat
}

/// The power with exponent p - 2 modulo p, which is the multiplicative
/// inverse of every residue but 0, and 0 for 0.
pub open spec fn field_inverse(a: int) -> int {
    pow(a, (field_prime() - 2) as nat) % (field_prime() as int)
}

/// The field prime with the residue of 2^448, which is 2^224 + 1.
pub fn prime_modulus() -> (modulus: Modulus)
    ensures
        modulus.valid(),
        modulus.value() == field_prime(),
{
    let m: [u32; 14] = [
        0xffff_ffff,
        0xffff_ffff,
        0xffff_ffff,
        0xffff_ffff,
        0xffff_ffff,
        0xffff_ffff,
        0xffff_ffff,
        0xffff_fffe,
        0xffff_ffff,
        0xffff_ffff,
        0xffff_ffff,
        0xffff_ffff,
        0xffff_ffff,
        0xffff_ffff,
    ];
    let delta: [u32; 14] = [1, 0, 0, 0, 0, 0, 0, 1, 0, 0, 0, 0, 0, 0];
    proof {
        lemma_value_14(m@);
        lemma_value_14(delta@);
        lemma_radix_pow_is_pow2(14);
        lemma_radix_pow_is_pow2(7);
        let p = limbs_value(m@) as int;
        let d = limbs_value(delta@) as int;
        assert(p == radix_pow(14) - radix_pow(7) - 1);
        assert(d == radix_pow(7) + 1);
        lemma_fundamental_div_mod_converse_mod(radix_pow(14) as int, p, 1, d);
    }
    Modulus { m, delta }
}

/// An element of the field, held as its least non-negative residue.
#[derive(Clone, Copy, Debug)]
pub struct FieldElement {
    limbs: [u32; 14],
}

impl View for FieldElement {
    type V = nat;

    /// The residue, a number below the field prime.
    closed spec fn view(&self) -> nat {
        limbs_value(self.limbs@)
    }
}

impl FieldElement {
    #[verifier::type_invariant]
    spec fn is_reduced(self) -> bool {
        limbs_value(self.limbs@) < field_prime()
    }

    /// The residue of every element lies below the field prime.
    pub fn residue_is_reduced(&self)
        ensures
            self@ < field_prime(),
    {
        proof {
            use_type_invariant(self);
        }
    }

    /// The element 0.
    pub fn zero() -> (r: FieldElement)
        ensures
            r@ == 0,
    {
        FieldElement::from_u64(0)
    }

    /// The element 1.
    pub fn one() -> (r: FieldElement)
        ensures
            r@ == 1,
    {
        FieldElement::from_u64(1)
    }

    /// The element of a machine integer.
    pub fn from_u64(x: u64) -> (r: FieldElement)
        ensures
            r@ == x,
    {
        let (lo, hi) = split_wide(x);
        let limbs: [u32; 14] = [lo, hi, 0, 0, 0, 0, 0, 0, 0, 0, 0, 0, 0, 0];
        let modulus = prime_modulus();
        proof {
            lemma_value_14(limbs@);
            lemma_value_14(modulus.m@);
        }
        FieldElement { limbs }
    }

    /// The element of a number given by its limbs, reduced modulo the prime.
    pub(crate) fn from_limbs(raw: &[u32; 14]) -> (r: FieldElement)
        ensures
            r@ == limbs_value(raw@) % field_prime(),
    {
        let modulus = prime_modulus();
        let limbs = reduce(raw, &modulus);
        proof {
            lemma_mod_bound(limbs_value(raw@) as int, field_prime() as int);
        }
        FieldElement { limbs }
    }

    /// Decodes 56 little-endian bytes. An encoding of a number that is not
    /// below the field prime is accepted and stands for its residue.
    pub fn from_bytes(bytes: &[u8; 56]) -> (r: FieldElement)
        ensures
            r@ == bytes_value(bytes@) % field_prime(),
    {
        let modulus = prime_modulus();
        let raw = limbs_from_bytes(bytes);
        let limbs = reduce(&raw, &modulus);
        proof {
            lemma_mod_bound(bytes_value(bytes@) as int, field_prime() as int);
        }
        FieldElement { limbs }
    }

    /// Decodes a byte string of any length: one of 56 bytes as `from_bytes`
    /// decodes it, and none of any other length.
    pub fn from_slice(bytes: &[u8]) -> (r: Option<FieldElement>)
        ensures
            match r {
                Some(element) => bytes@.len() == 56 && element@ == bytes_value(bytes@)
                    % field_prime(),
                None => bytes@.len() != 56,
            },
    {
        if bytes.len() != 56 {
            None
        } else {
            let mut array = [0u8;56];
            let mut i: usize = 0;
            while i < 56
                invariant
                    i <= 56,
                    bytes@.len() == 56,
                    forall|j: int| 0 <= j < i ==> array@[j] == bytes@[j],
                decreases 56 - i,
            {
                array[i] = bytes[i];
                i += 1;
            }
            assert(array@ =~= bytes@);
            Some(FieldElement::from_bytes(&array))
        }
    }

    /// The canonical encoding: the 56 little-endian bytes of the residue.
    pub fn to_bytes(&self) -> (r: [u8; 56])
        ensures
            r@ == le_bytes(self@, 56),
            bytes_value(r@) == self@,
    {
        let r = limbs_to_bytes(&self.limbs);
        proof {
            lemma_bytes_canonical(r@);
        }
        r
    }

    /// Sum in the field.
    pub fn add(&self, rhs: &FieldElement) -> (r: FieldElement)
        ensures
            r@ == (self@ + rhs@) % field_prime(),
    {
        proof {
            use_type_invariant(self);
            use_type_invariant(rhs);
            lemma_mod_bound((self@ + rhs@) as int, field_prime() as int);
        }
        let modulus = prime_modulus();
        FieldElement { limbs: add_mod(&self.limbs, &rhs.limbs, &modulus) }
    }

    /// Difference in the field.
    pub fn sub(&self, rhs: &FieldElement) -> (r: FieldElement)
        ensures
            r@ == (self@ - rhs@) % (field_prime() as int),
    {
        proof {
            use_type_invariant(self);
            use_type_invariant(rhs);
            lemma_mod_bound(self@ - rhs@, field_prime() as int);
        }
        let modulus = prime_modulus();
        FieldElement { limbs: sub_mod(&self.limbs, &rhs.limbs, &modulus) }
    }

    /// Product in the field.
    pub fn mul(&self, rhs: &FieldElement) -> (r: FieldElement)
        ensures
            r@ == (self@ * rhs@) % field_prime(),
    {
        let modulus = prime_modulus();
        proof {
            lemma_mod_bound((self@ * rhs@) as int, field_prime() as int);
        }
        FieldElement { limbs: mul_mod(&self.limbs, &rhs.limbs, &modulus) }
    }

    /// Square in the field.
    pub fn square(&self) -> (r: FieldElement)
        ensures
            r@ == (self@ * self@) % field_prime(),
    {
        self.mul(self)
    }

    /// Additive inverse in the field.
    pub fn negate(&self) -> (r: FieldElement)
        ensures
            r@ == (-(self@ as int)) % (field_prime() as int),
    {
        let zero = FieldElement::zero();
        zero.sub(self)
    }

    /// The power with exponent p - 2, which for a non-zero element is its
    /// multiplicative inverse. The inverse of 0 is defined to be 0.
    pub fn invert(&self) -> (r: FieldElement)
        ensures
            r@ == field_inverse(self@ as int),
            self@ == 0 ==> r@ == 0,
    {
        let exponent: [u32; 14] = [
            0xffff_fffd,
            0xffff_ffff,
            0xffff_ffff,
            0xffff_ffff,
            0xffff_ffff,
            0xffff_ffff,
            0xffff_ffff,
            0xffff_fffe,
            0xffff_ffff,
            0xffff_ffff,
            0xffff_ffff,
            0xffff_ffff,
            0xffff_ffff,
            0xffff_ffff,
        ];
        let modulus = prime_modulus();
        proof {
            lemma_value_14(exponent@);
            lemma_value_14(modulus.m@);
            lemma_radix_pow_is_pow2(14);
            lemma_radix_pow_is_pow2(7);
            let e = (field_prime() - 2) as nat;
            assert(limbs_value(exponent@) == e);
            lemma_mod_bound(pow(self@ as int, e), field_prime() as int);
            if self@ == 0 {
                lemma0_pow(e);
                lemma_small_mod(0, field_prime());
            }
        }
        FieldElement { limbs: pow_mod(&self.limbs, &exponent, &modulus) }
    }

    /// Whether the element is 0. Every limb is read whatever the outcome.
    pub fn is_zero(&self) -> (r: bool)
        ensures
            r == (self@ == 0),
    {
        let zero = FieldElement::zero();
        self.equals(&zero)
    }

    /// Whether two elements are the same residue. Every limb is read whatever
    /// the outcome.
    pub fn equals(&self, other: &FieldElement) -> (r: bool)
        ensures
            r == (self@ == other@),
    {
        proof {
            if self@ == other@ {
                lemma_value_unique(self.limbs@, other.limbs@);
            }
        }
        eq_limbs(&self.limbs, &other.limbs) == 1
    }

    /// Branch-free selection: `a` when the choice is clear, `b` when it is set.
    pub fn conditional_select(a: &FieldElement, b: &FieldElement, choice: Choice) -> (r:
        FieldElement)
        ensures
            r == if choice@ { *b } else { *a },
    {
        proof {
            use_type_invariant(a);
            use_type_invariant(b);
        }
        let limbs = select_limbs(&a.limbs, &b.limbs, choice.as_limb());
        proof {
            if choice@ {
                assert(limbs =~= b.limbs);
            } else {
                assert(limbs =~= a.limbs);
            }
        }
        FieldElement { limbs }
    }
}

impl PartialEq for FieldElement {
    fn eq(&self, other: &FieldElement) -> (r: bool) {
        self.equals(other)
    }
}

impl PartialEqSpecImpl for FieldElement {
    open spec fn obeys_eq_spec() -> bool {
        true
    }

    open spec fn eq_spec(&self, other: &FieldElement) -> bool {
        self@ == other@
    }
}

} // verus!
