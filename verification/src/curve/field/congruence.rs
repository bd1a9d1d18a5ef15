//! Congruence modulo the field prime, for proofs that an element computed
//! step by step is the residue of an integer expression.

use crate::curve::field::field_element::field_prime;
use vstd::arithmetic::div_mod::*;
use vstd::prelude::*;

verus! {

/// The residue of an integer modulo the field prime.
pub open spec fn fmod(v: int) -> int {
    v % (field_prime() as int)
}

/// Two integers are congruent modulo the field prime.
pub open spec fn cong(a: int, b: int) -> bool {
    a % (field_prime() as int) == b % (field_prime() as int)
}

/// The field prime is positive.
pub proof fn lemma_field_prime_positive()
    ensures
        field_prime() > 0,
{
    vstd::arithmetic::power2::lemma_pow2_strictly_increases(224, 447);
    vstd::arithmetic::power2::lemma_pow2_strictly_increases(447, 448);
    vstd::arithmetic::power2::lemma_pow2_pos(224);
}

/// The residue of an integer is congruent to it and lies below the prime.
pub proof fn lemma_fmod_cong(v: int)
    ensures
        cong(fmod(v), v),
        0 <= fmod(v) < field_prime(),
{
    lemma_field_prime_positive();
    lemma_mod_twice(v, field_prime() as int);
    lemma_mod_bound(v, field_prime() as int);
}

/// A residue that is congruent to an integer is the residue of that integer.
pub proof fn lemma_cong_residue(r: int, v: int)
    requires
        0 <= r < field_prime(),
        cong(r, v),
    ensures
        r == fmod(v),
{
    lemma_small_mod(r as nat, field_prime());
}

/// Sums of congruent integers are congruent.
pub proof fn lemma_cong_add(a: int, b: int, c: int, d: int)
    requires
        cong(a, c),
        cong(b, d),
    ensures
        cong(a + b, c + d),
{
    lemma_field_prime_positive();
    lemma_add_mod_noop(a, b, field_prime() as int);
    lemma_add_mod_noop(c, d, field_prime() as int);
}

/// Differences of congruent integers are congruent.
pub proof fn lemma_cong_sub(a: int, b: int, c: int, d: int)
    requires
        cong(a, c),
        cong(b, d),
    ensures
        cong(a - b, c - d),
{
    lemma_field_prime_positive();
    lemma_sub_mod_noop(a, b, field_prime() as int);
    lemma_sub_mod_noop(c, d, field_prime() as int);
}

/// Products of congruent integers are congruent.
pub proof fn lemma_cong_mul(a: int, b: int, c: int, d: int)
    requires
        cong(a, c),
        cong(b, d),
    ensures
        cong(a * b, c * d),
{
    lemma_field_prime_positive();
    lemma_mul_mod_noop(a, b, field_prime() as int);
    lemma_mul_mod_noop(c, d, field_prime() as int);
}

/// The sum of two elements is congruent to the sum of what they are
/// congruent to.
pub proof fn lemma_sum_cong(r: int, a: int, b: int, c: int, d: int)
    requires
        r == (a + b) % (field_prime() as int),
        cong(a, c),
        cong(b, d),
    ensures
        cong(r, c + d),
{
    lemma_field_prime_positive();
    lemma_cong_add(a, b, c, d);
    lemma_mod_twice(a + b, field_prime() as int);
}

/// The difference of two elements is congruent to the difference of what
/// they are congruent to.
pub proof fn lemma_difference_cong(r: int, a: int, b: int, c: int, d: int)
    requires
        r == (a - b) % (field_prime() as int),
        cong(a, c),
        cong(b, d),
    ensures
        cong(r, c - d),
{
    lemma_field_prime_positive();
    lemma_cong_sub(a, b, c, d);
    lemma_mod_twice(a - b, field_prime() as int);
}

/// The product of two elements is congruent to the product of what they are
/// congruent to.
pub proof fn lemma_product_cong(r: int, a: int, b: int, c: int, d: int)
    requires
        r == (a * b) % (field_prime() as int),
        cong(a, c),
        cong(b, d),
    ensures
        cong(r, c * d),
{
    lemma_field_prime_positive();
    lemma_cong_mul(a, b, c, d);
    lemma_mod_twice(a * b, field_prime() as int);
}

/// Four numbers multiplied in pairs one way or the other give congruent
/// products: this is why X Y = Z T holds of (e f, g h, f g, e h).
pub proof fn lemma_pairs_cong(e: int, f: int, g: int, h: int)
    ensures
        cong(fmod(e * f) * fmod(g * h), fmod(f * g) * fmod(e * h)),
{
    lemma_fmod_cong(e * f);
    lemma_fmod_cong(g * h);
    lemma_fmod_cong(f * g);
    lemma_fmod_cong(e * h);
    lemma_cong_mul(fmod(e * f), fmod(g * h), e * f, g * h);
    lemma_cong_mul(fmod(f * g), fmod(e * h), f * g, e * h);
    assert((e * f) * (g * h) == (f * g) * (e * h)) by (nonlinear_arith);
}

} // verus!
