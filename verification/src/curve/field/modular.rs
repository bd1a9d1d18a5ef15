//! Arithmetic modulo a 448-bit modulus `m` for which 2^448 is congruent to a
//! small number `delta`. Both the field prime and the group order have this
//! shape, so both share the routines of this file.

use crate::curve::field::limbs::{
    add_limbs, lemma_radix_pow_add, lemma_radix_pow_positive, lemma_value_bound,
    lemma_value_split, lemma_value_take_step, lemma_value_update, lemma_value_zero, limbs_value,
    lower_half, mul_limbs, radix_pow, select_limbs, sub_limbs, upper_half, widen,
};
use vstd::arithmetic::div_mod::*;
use vstd::arithmetic::power::*;
use vstd::arithmetic::power2::*;
use vstd::prelude::*;

verus! {

/// A modulus together with the residue of 2^448 modulo it.
#[derive(Clone, Copy, Debug)]
pub struct Modulus {
    pub m: [u32; 14],
    pub delta: [u32; 14],
}

impl Modulus {
    /// The modulus as a natural number.
    pub open spec fn value(&self) -> nat {
        limbs_value(self.m@)
    }

    /// The stored residue of 2^448 as a natural number.
    pub open spec fn fold_value(&self) -> nat {
        limbs_value(self.delta@)
    }

    /// The residue is the one of 2^448 and lies below 2^226, and five times
    /// the modulus exceed 2^448.
    pub open spec fn valid(&self) -> bool {
        &&& self.value() > 0
        &&& self.fold_value() == radix_pow(14) % self.value()
        &&& self.fold_value() < 4 * radix_pow(7)
        &&& radix_pow(14) < 5 * self.value()
    }
}

/// Subtracts the modulus once if the argument is not below it.
pub fn reduce_once(x: &[u32; 14], modulus: &Modulus) -> (r: [u32; 14])
    ensures
        limbs_value(r@) == if limbs_value(x@) >= modulus.value() {
            limbs_value(x@) - modulus.value()
        } else {
            limbs_value(x@) as int
        },
{
    let (d, borrow) = sub_limbs(x, &modulus.m);
    proof {
        lemma_value_bound(d@);
        lemma_value_bound(x@);
        lemma_value_bound(modulus.m@);
        assert(1 * radix_pow(14) == radix_pow(14)) by (nonlinear_arith);
        assert(0 * radix_pow(14) == 0) by (nonlinear_arith);
    }
    select_limbs(&d, x, borrow)
}

/// The least residue of a 448-bit number.
pub fn reduce(x: &[u32; 14], modulus: &Modulus) -> (r: [u32; 14])
    requires
        modulus.valid(),
    ensures
        limbs_value(r@) == limbs_value(x@) % modulus.value(),
{
    let ghost v = limbs_value(x@) as int;
    let ghost m = modulus.value() as int;
    proof {
        lemma_value_bound(x@);
    }
    let r1 = reduce_once(x, modulus);
    let r2 = reduce_once(&r1, modulus);
    let r3 = reduce_once(&r2, modulus);
    let r4 = reduce_once(&r3, modulus);
    proof {
        let w = limbs_value(r4@) as int;
        assert(w < m);
        assert(v == w || v == w + m || v == w + 2 * m || v == w + 3 * m || v == w + 4 * m);
        let k: int = if v == w {
            0
        } else if v == w + m {
            1
        } else if v == w + 2 * m {
            2
        } else if v == w + 3 * m {
            3
        } else {
            4
        };
        assert(v == k * m + w) by (nonlinear_arith)
            requires
                v == w + k * m,
        ;
        lemma_fundamental_div_mod_converse_mod(v, m, k, w);
    }
    r4
}

/// Sum modulo the modulus of two least residues.
pub fn add_mod(a: &[u32; 14], b: &[u32; 14], modulus: &Modulus) -> (r: [u32; 14])
    requires
        limbs_value(a@) < modulus.value(),
        limbs_value(b@) < modulus.value(),
    ensures
        limbs_value(r@) == (limbs_value(a@) + limbs_value(b@)) % modulus.value(),
{
    let (s, carry) = add_limbs(a, b);
    let (d, borrow) = sub_limbs(&s, &modulus.m);
    let kept: u32 = 1 - borrow;
    let flag: u32 = carry | kept;
    assert(flag == if carry == 1 || kept == 1 { 1u32 } else { 0u32 }) by (bit_vector)
        requires
            carry <= 1,
            kept <= 1,
            flag == carry | kept,
    ;
    let r = select_limbs(&s, &d, flag);
    proof {
        let m = modulus.value() as int;
        let sum = (limbs_value(a@) + limbs_value(b@)) as int;
        lemma_value_bound(s@);
        lemma_value_bound(d@);
        lemma_value_bound(modulus.m@);
        assert(1 * radix_pow(14) == radix_pow(14)) by (nonlinear_arith);
        assert(0 * radix_pow(14) == 0) by (nonlinear_arith);
        if sum >= m {
            assert(limbs_value(r@) == sum - m);
            lemma_fundamental_div_mod_converse_mod(sum, m, 1, sum - m);
        } else {
            assert(limbs_value(r@) == sum);
            lemma_fundamental_div_mod_converse_mod(sum, m, 0, sum);
        }
    }
    r
}

/// Difference modulo the modulus of two least residues.
pub fn sub_mod(a: &[u32; 14], b: &[u32; 14], modulus: &Modulus) -> (r: [u32; 14])
    requires
        limbs_value(a@) < modulus.value(),
        limbs_value(b@) < modulus.value(),
    ensures
        limbs_value(r@) == (limbs_value(a@) - limbs_value(b@)) % (modulus.value() as int),
{
    let (d, borrow) = sub_limbs(a, b);
    let (e, carry) = add_limbs(&d, &modulus.m);
    let r = select_limbs(&d, &e, borrow);
    proof {
        let m = modulus.value() as int;
        let diff = limbs_value(a@) - limbs_value(b@);
        lemma_value_bound(d@);
        lemma_value_bound(e@);
        lemma_value_bound(a@);
        assert(1 * radix_pow(14) == radix_pow(14)) by (nonlinear_arith);
        assert(0 * radix_pow(14) == 0) by (nonlinear_arith);
        if diff >= 0 {
            assert(limbs_value(r@) == diff);
            lemma_fundamental_div_mod_converse_mod(diff, m, 0, diff);
        } else {
            assert(limbs_value(r@) == diff + m);
            lemma_fundamental_div_mod_converse_mod(diff, m, -1, diff + m);
        }
    }
    r
}

/// Replaces the high half of a 28-limb number by its product with the residue
/// of 2^448: the result is congruent to the argument and much smaller.
pub fn fold(x: &[u32; 28], modulus: &Modulus) -> (r: [u32; 28])
    requires
        modulus.valid(),
    ensures
        limbs_value(r@) == limbs_value(x@.take(14)) + limbs_value(x@.skip(14))
            * modulus.fold_value(),
        limbs_value(r@) % modulus.value() == limbs_value(x@) % modulus.value(),
{
    let lo = lower_half(x);
    let hi = upper_half(x);
    let prod = mul_limbs(&hi, &modulus.delta);
    let wide_lo = widen(&lo);
    let (sum, carry) = add_limbs(&prod, &wide_lo);
    proof {
        let l = limbs_value(lo@) as int;
        let h = limbs_value(hi@) as int;
        let dl = modulus.fold_value() as int;
        let m = modulus.value() as int;
        let r14 = radix_pow(14) as int;
        let r7 = radix_pow(7) as int;
        lemma_value_bound(lo@);
        lemma_value_bound(hi@);
        lemma_value_bound(sum@);
        lemma_radix_pow_add(14, 14);
        lemma_radix_pow_add(7, 7);
        lemma_radix_pow_positive(7);
        assert(r7 >= 0x1_0000_0000) by {
            lemma_radix_pow_positive(6);
        }
        assert(h * dl + l < r14 * r14) by (nonlinear_arith)
            requires
                0 <= l < r14,
                0 <= h < r14,
                0 <= dl < 4 * r7,
                r14 == r7 * r7,
                r7 >= 0x1_0000_0000,
        ;
        assert(0 * radix_pow(28) == 0) by (nonlinear_arith);
        assert(1 * radix_pow(28) == radix_pow(28)) by (nonlinear_arith);
        assert(carry == 0);
        lemma_value_split(x@, 14);
        // 2^448 and its residue agree modulo m, so do their multiples
        lemma_mul_mod_noop_right(h, r14, m);
        lemma_small_mod(dl as nat, m as nat);
        lemma_mul_mod_noop_right(h, dl, m);
        assert((h * r14) % m == (h * dl) % m);
        lemma_add_mod_noop_right(l, h * r14, m);
        lemma_add_mod_noop_right(l, h * dl, m);
        assert(r14 * h == h * r14) by (nonlinear_arith);
    }
    sum
}

/// The least residue of a 896-bit number.
pub fn reduce_wide(x: &[u32; 28], modulus: &Modulus) -> (r: [u32; 14])
    requires
        modulus.valid(),
    ensures
        limbs_value(r@) == limbs_value(x@) % modulus.value(),
{
    let y1 = fold(x, modulus);
    let y2 = fold(&y1, modulus);
    let y3 = fold(&y2, modulus);
    let y4 = fold(&y3, modulus);
    let low = lower_half(&y4);
    proof {
        let dl = modulus.fold_value() as int;
        let r14 = radix_pow(14) as int;
        let r7 = radix_pow(7) as int;
        lemma_radix_pow_add(7, 7);
        assert(r7 >= 0x1_0000_0000) by {
            lemma_radix_pow_positive(6);
        }
        let l0 = limbs_value(x@.take(14)) as int;
        let h0 = limbs_value(x@.skip(14)) as int;
        let l1 = limbs_value(y1@.take(14)) as int;
        let h1 = limbs_value(y1@.skip(14)) as int;
        let l2 = limbs_value(y2@.take(14)) as int;
        let h2 = limbs_value(y2@.skip(14)) as int;
        let l3 = limbs_value(y3@.take(14)) as int;
        let h3 = limbs_value(y3@.skip(14)) as int;
        let l4 = limbs_value(y4@.take(14)) as int;
        let h4 = limbs_value(y4@.skip(14)) as int;
        lemma_value_bound(x@.take(14));
        lemma_value_bound(x@.skip(14));
        lemma_value_bound(y1@.take(14));
        lemma_value_bound(y2@.take(14));
        lemma_value_bound(y3@.take(14));
        lemma_value_bound(y4@.take(14));
        lemma_value_split(y1@, 14);
        lemma_value_split(y2@, 14);
        lemma_value_split(y3@, 14);
        lemma_value_split(y4@, 14);
        assert(h1 <= 4 * r7) by (nonlinear_arith)
            requires
                l1 + r14 * h1 == l0 + h0 * dl,
                0 <= l0 < r14,
                0 <= h0 < r14,
                0 <= dl < 4 * r7,
                0 <= l1,
                0 <= h1,
                r14 == r7 * r7,
                r7 >= 0x1_0000_0000,
        ;
        assert(h2 <= 16) by (nonlinear_arith)
            requires
                l2 + r14 * h2 == l1 + h1 * dl,
                0 <= l1 < r14,
                0 <= h1 <= 4 * r7,
                0 <= dl < 4 * r7,
                0 <= l2,
                0 <= h2,
                r14 == r7 * r7,
                r7 >= 0x1_0000_0000,
        ;
        assert(h3 <= 1 && (h3 == 1 ==> l3 < 64 * r7)) by (nonlinear_arith)
            requires
                l3 + r14 * h3 == l2 + h2 * dl,
                0 <= l2 < r14,
                0 <= h2 <= 16,
                0 <= dl < 4 * r7,
                0 <= l3,
                0 <= h3,
                r14 == r7 * r7,
                r7 >= 0x1_0000_0000,
        ;
        assert(h4 == 0) by (nonlinear_arith)
            requires
                l4 + r14 * h4 == l3 + h3 * dl,
                0 <= l3 < r14,
                0 <= h3 <= 1,
                h3 == 1 ==> l3 < 64 * r7,
                0 <= dl < 4 * r7,
                0 <= l4,
                0 <= h4,
                r14 == r7 * r7,
                r7 >= 0x1_0000_0000,
        ;
        assert(r14 * 0 == 0) by (nonlinear_arith);
        assert(limbs_value(low@) == limbs_value(y4@));
    }
    let r = reduce(&low, modulus);
    r
}

/// Product modulo the modulus.
pub fn mul_mod(a: &[u32; 14], b: &[u32; 14], modulus: &Modulus) -> (r: [u32; 14])
    requires
        modulus.valid(),
    ensures
        limbs_value(r@) == (limbs_value(a@) * limbs_value(b@)) % modulus.value(),
{
    let wide = mul_limbs(a, b);
    reduce_wide(&wide, modulus)
}

/// A number below 2^32 written with 14 limbs.
pub fn small_limbs(x: u32) -> (r: [u32; 14])
    ensures
        limbs_value(r@) == x,
{
    let mut out = [0u32;14];
    proof {
        lemma_value_zero(out@);
        lemma_value_update(out@, 0, x);
        assert(x as nat * radix_pow(0) == x as nat) by (nonlinear_arith)
            requires
                radix_pow(0) == 1,
        ;
        assert(0 * radix_pow(0) == 0) by (nonlinear_arith);
    }
    out[0] = x;
    out
}

/// One round of square-and-multiply keeps the accumulator a power of the base.
pub proof fn lemma_pow_step(b: int, e: nat, m: int, a: int)
    requires
        m > 0,
        a == pow(b, e) % m,
    ensures
        (a * a) % m == pow(b, 2 * e) % m,
        (((a * a) % m) * b) % m == pow(b, 2 * e + 1) % m,
{
    let x = pow(b, e);
    lemma_mul_mod_noop(x, x, m);
    lemma_pow_adds(b, e, e);
    assert((a * a) % m == pow(b, 2 * e) % m);
    lemma_mul_mod_noop_left(pow(b, 2 * e), b, m);
    lemma_pow_adds(b, 2 * e, 1);
    lemma_pow1(b);
}

/// The base raised to the exponent, modulo the modulus. The exponent is
/// public: only the order of its bits steers the computation, and every bit
/// costs one squaring and one product.
pub fn pow_mod(base: &[u32; 14], exp: &[u32; 14], modulus: &Modulus) -> (r: [u32; 14])
    requires
        modulus.valid(),
    ensures
        limbs_value(r@) == pow(limbs_value(base@) as int, limbs_value(exp@)) % (
        modulus.value() as int),
{
    let ghost b = limbs_value(base@) as int;
    let ghost m = modulus.value() as int;
    let mut acc = small_limbs(1);
    let ghost mut pref: nat = 0;
    let mut i: usize = 14;
    proof {
        assert(exp@.skip(14) =~= Seq::<u32>::empty());
        lemma_pow0(b);
        lemma_radix_pow_positive(13);
        assert(radix_pow(14) == 0x1_0000_0000 * radix_pow(13));
        lemma_small_mod(1, m as nat);
    }
    while i > 0
        invariant
            i <= 14,
            modulus.valid(),
            b == limbs_value(base@),
            m == modulus.value(),
            pref == limbs_value(exp@.skip(i as int)),
            limbs_value(acc@) == pow(b, pref) % m,
        decreases i,
    {
        i -= 1;
        let w: u64 = exp[i] as u64;
        let ghost high = pref;
        let ghost mut seen: nat = 0;
        let ghost mut sc: nat = 1;
        let mut cur: u64 = w;
        let mut k: u32 = 0;
        proof {
            lemma_pow0(2);
            assert(high * 1 + 0 == high) by (nonlinear_arith);
            assert(w * 1 == 0 * 0x1_0000_0000 + w) by (nonlinear_arith);
        }
        while k < 32
            invariant
                k <= 32,
                modulus.valid(),
                b == limbs_value(base@),
                m == modulus.value(),
                cur <= 0xffff_ffff,
                sc == pow2(k as nat),
                w as nat * sc == seen * 0x1_0000_0000 + cur,
                pref == high * sc + seen,
                limbs_value(acc@) == pow(b, pref) % m,
            decreases 32 - k,
        {
            let bit: u64 = (cur >> 31) & 1;
            let next: u64 = (cur << 1) & 0xffff_ffff;
            assert(bit <= 1 && next <= 0xffff_ffff && next + bit * 0x1_0000_0000 == 2 * cur)
                by (bit_vector)
                requires
                    cur <= 0xffff_ffff,
                    bit == (cur >> 31) & 1,
                    next == (cur << 1) & 0xffff_ffff,
            ;
            let squared = mul_mod(&acc, &acc, modulus);
            let multiplied = mul_mod(&squared, base, modulus);
            proof {
                lemma_pow_step(b, pref, m, limbs_value(acc@) as int);
                lemma_pow2_unfold((k + 1) as nat);
                let wn = w as nat;
                assert(wn * (2 * sc) == (2 * seen + bit) * 0x1_0000_0000 + next)
                    by (nonlinear_arith)
                    requires
                        wn * sc == seen * 0x1_0000_0000 + cur,
                        next + bit * 0x1_0000_0000 == 2 * cur,
                ;
                assert(2 * (high * sc + seen) + bit == high * (2 * sc) + (2 * seen + bit))
                    by (nonlinear_arith);
                pref = 2 * pref + bit as nat;
                seen = 2 * seen + bit as nat;
                sc = 2 * sc;
            }
            acc = select_limbs(&squared, &multiplied, bit as u32);
            cur = next;
            k += 1;
        }
        proof {
            lemma2_to64();
            let wn = w as nat;
            assert(seen == wn && cur == 0) by (nonlinear_arith)
                requires
                    wn * 0x1_0000_0000 == seen * 0x1_0000_0000 + cur,
                    cur < 0x1_0000_0000,
            ;
            let s = exp@.skip(i as int);
            lemma_value_split(s, 1);
            assert(s.skip(1) =~= exp@.skip(i + 1));
            assert(limbs_value(s.take(1)) == wn) by {
                lemma_value_take_step(s, 0);
                assert(s.take(0) =~= Seq::<u32>::empty());
                assert(limbs_value(Seq::<u32>::empty()) == 0);
                assert(s[0] == exp@[i as int]);
                assert(wn * radix_pow(0) == wn) by (nonlinear_arith)
                    requires
                        radix_pow(0) == 1,
                ;
            }
            assert(radix_pow(1) == 0x1_0000_0000) by {
                assert(radix_pow(0) == 1);
            }
            assert(high * 0x1_0000_0000 == 0x1_0000_0000 * high) by (nonlinear_arith);
        }
    }
    proof {
        assert(exp@.skip(0) =~= exp@);
    }
    acc
}

} // verus!
