//! Integers modulo the order r of the prime-order subgroup.

use crate::curve::field::bytes::{
    bytes_value, le_bytes, lemma_bytes_canonical, lemma_bytes_head, limbs_to_bytes,
};
use crate::curve::field::limbs::{
    eq_limbs, lemma_radix_pow_is_pow2, lemma_value_14, lemma_value_unique, limbs_value,
    radix_pow, split_wide,
};
use crate::curve::field::modular::{add_mod, mul_mod, small_limbs, sub_mod, Modulus};
use vstd::arithmetic::div_mod::*;
use vstd::arithmetic::power2::*;
use vstd::prelude::*;
use vstd::std_specs::cmp::PartialEqSpecImpl;

verus! {

/// The group order in big-endian hexadecimal.
pub const R_448: &'static str =
    "3fffffffffffffffffffffffffffffffffffffffffffffffffffffff7cca23e9c44edb49aed63690216cc2728dc58f552378c292ab5844f3";

/// The order r of the prime-order subgroup,
/// 2^446 - 13818066809895115352007386748515426880336692474882178609894547503885.
pub open spec fn group_order() -> nat {
    (pow2(446) - 0x8335dc163bb124b65129c96fde933d8d723a70aadc873d6d54a7bb0d) as nat
}

/// The group order is a positive number below 2^446.
pub proof fn lemma_group_order_positive()
    ensures
        0 < group_order() < pow2(446),
{
    lemma_value_14(Seq::new(14, |i: int| 0u32));
    lemma_radix_pow_is_pow2(7);
    lemma_pow2_strictly_increases(224, 446);
}

/// The number of signed radix-16 digits of a scalar.
pub const RADIX_16_DIGITS: usize = 113;

/// The `n`-th power of 16.
pub open spec fn sixteen_pow(n: nat) -> nat
    decreases n,
{
    if n == 0 {
        1
    } else {
        16 * sixteen_pow((n - 1) as nat)
    }
}

/// The least signed radix-16 digit of `k`: its residue modulo 16, taken from
/// the range -7..=8.
pub open spec fn radix16_digit(k: nat) -> int {
    let n = (k % 16) as int;
    if n > 8 {
        n - 16
    } else {
        n
    }
}

/// What is left of `k` once its least signed digit is taken away.
pub open spec fn radix16_rest(k: nat) -> nat {
    ((k - radix16_digit(k)) / 16) as nat
}

/// The first `n` signed radix-16 digits of `k`, least significant first.
pub open spec fn radix16_digits(k: nat, n: nat) -> Seq<int>
    decreases n,
{
    if n == 0 {
        Seq::empty()
    } else {
        seq![radix16_digit(k)] + radix16_digits(radix16_rest(k), (n - 1) as nat)
    }
}

/// The integer that a sequence of signed radix-16 digits denotes.
pub open spec fn signed_digits_value(ds: Seq<int>) -> int
    decreases ds.len(),
{
    if ds.len() == 0 {
        0
    } else {
        ds[0] + 16 * signed_digits_value(ds.drop_first())
    }
}

/// The first `n` signed digits of a number are `n` digits.
pub proof fn lemma_radix16_len(k: nat, n: nat)
    ensures
        radix16_digits(k, n).len() == n,
    decreases n,
{
    if n > 0 {
        lemma_radix16_len(radix16_rest(k), (n - 1) as nat);
    }
}

/// Every signed digit lies in the range -7..=8.
pub proof fn lemma_radix16_range(k: nat, n: nat, i: int)
    requires
        0 <= i < n,
    ensures
        -8 < radix16_digits(k, n)[i] <= 8,
    decreases n,
{
    lemma_radix16_len(radix16_rest(k), (n - 1) as nat);
    if i > 0 {
        lemma_radix16_range(radix16_rest(k), (n - 1) as nat, i - 1);
    }
}

/// The signed digits of a number that is at most half of 16^n denote that
/// number.
pub proof fn lemma_radix16_value(k: nat, n: nat)
    requires
        n >= 1,
        2 * k <= sixteen_pow(n),
    ensures
        signed_digits_value(radix16_digits(k, n)) == k,
    decreases n,
{
    let d = radix16_digit(k);
    let rest = radix16_rest(k);
    let tail = radix16_digits(rest, (n - 1) as nat);
    let ds = radix16_digits(k, n);
    lemma_radix16_len(rest, (n - 1) as nat);
    assert(ds.drop_first() =~= tail);
    assert(ds[0] == d);
    assert(16 * rest == k - d);
    if n == 1 {
        assert(sixteen_pow(1) == 16 * sixteen_pow(0));
        assert(sixteen_pow(0) == 1);
        assert(rest == 0);
        assert(signed_digits_value(tail) == 0);
    } else {
        assert(sixteen_pow(n) == 16 * sixteen_pow((n - 1) as nat));
        assert(sixteen_pow((n - 1) as nat) == 16 * sixteen_pow((n - 2) as nat));
        lemma_radix16_value(rest, (n - 1) as nat);
    }
}

/// The least digit and the rest of a number that is given as a sum of
/// 16 times a quotient and a part from 0 to 16.
pub proof fn lemma_radix16_step(k: nat, v: nat, q: nat)
    requires
        k == v + 16 * q,
        v <= 16,
    ensures
        radix16_digit(k) == if v > 8 { v - 16 } else { v as int },
        radix16_rest(k) == if v > 8 { q + 1 } else { q },
{
    if v == 16 {
        lemma_fundamental_div_mod_converse(k as int, 16, (q + 1) as int, 0);
    } else {
        lemma_fundamental_div_mod_converse(k as int, 16, q as int, v as int);
        if v > 8 {
            lemma_fundamental_div_mod_converse(k - (v - 16), 16, (q + 1) as int, 0);
        } else {
            lemma_fundamental_div_mod_converse(k - v, 16, q as int, 0);
        }
    }
}

/// The digits of a number are its least digit followed by the digits of
/// the rest.
pub proof fn lemma_radix16_unfold(k: nat, n: nat)
    requires
        n >= 1,
    ensures
        radix16_digits(k, n).len() == n,
        radix16_digits(k, n)[0] == radix16_digit(k),
        radix16_digits(k, n).skip(1) == radix16_digits(radix16_rest(k), (n - 1) as nat),
{
    lemma_radix16_len(k, n);
    lemma_radix16_len(radix16_rest(k), (n - 1) as nat);
    assert(radix16_digits(k, n).skip(1) =~= radix16_digits(radix16_rest(k), (n - 1) as nat));
}

/// Eight radix-16 digits fill one limb.
pub proof fn lemma_sixteen_pow_limb(i: nat)
    ensures
        sixteen_pow(8 * i) == radix_pow(i),
    decreases i,
{
    if i > 0 {
        lemma_sixteen_pow_limb((i - 1) as nat);
        let k = (8 * (i - 1)) as nat;
        assert(sixteen_pow(k + 1) == 16 * sixteen_pow(k));
        assert(sixteen_pow(k + 2) == 16 * sixteen_pow(k + 1));
        assert(sixteen_pow(k + 3) == 16 * sixteen_pow(k + 2));
        assert(sixteen_pow(k + 4) == 16 * sixteen_pow(k + 3));
        assert(sixteen_pow(k + 5) == 16 * sixteen_pow(k + 4));
        assert(sixteen_pow(k + 6) == 16 * sixteen_pow(k + 5));
        assert(sixteen_pow(k + 7) == 16 * sixteen_pow(k + 6));
        assert(sixteen_pow(k + 8) == 16 * sixteen_pow(k + 7));
    }
}

/// The group order with the residue of 2^448, which is four times
/// 2^446 - r.
pub fn order_modulus() -> (modulus: Modulus)
    ensures
        modulus.valid(),
        modulus.value() == group_order(),
{
    let m: [u32; 14] = [
        0xab58_44f3,
        0x2378_c292,
        0x8dc5_8f55,
        0x216c_c272,
        0xaed6_3690,
        0xc44e_db49,
        0x7cca_23e9,
        0xffff_ffff,
        0xffff_ffff,
        0xffff_ffff,
        0xffff_ffff,
        0xffff_ffff,
        0xffff_ffff,
        0x3fff_ffff,
    ];
    let delta: [u32; 14] = [
        0x529e_ec34,
        0x721c_f5b5,
        0xc8e9_c2ab,
        0x7a4c_f635,
        0x44a7_25bf,
        0xeec4_92d9,
        0x0cd7_7058,
        0x0000_0002,
        0,
        0,
        0,
        0,
        0,
        0,
    ];
    proof {
        lemma_value_14(m@);
        lemma_value_14(delta@);
        lemma_radix_pow_is_pow2(14);
        lemma2_to64();
        lemma_pow2_adds(2, 446);
        let r = limbs_value(m@) as int;
        let d = limbs_value(delta@) as int;
        assert(radix_pow(14) == 4 * pow2(446));
        assert(r == group_order());
        assert(radix_pow(14) == 4 * r + d);
        lemma_fundamental_div_mod_converse_mod(radix_pow(14) as int, r, 4, d);
    }
    Modulus { m, delta }
}

/// Recentres a digit with its incoming carry, a number from 0 to 16, into
/// the range -7..=8 and gives the outgoing carry.
fn recentre(v: u8) -> (r: (i8, u8))
    requires
        v <= 16,
    ensures
        r.1 == if v > 8 { 1u8 } else { 0u8 },
        r.0 == v - 16 * r.1,
{
    let w: u8 = v + 7;
    let carry: u8 = w >> 4;
    assert(carry == if w > 15 { 1u8 } else { 0u8 }) by (bit_vector)
        requires
            w <= 23,
            carry == w >> 4,
    ;
    let digit: i8 = v as i8 - 16 * (carry as i8);
    (digit, carry)
}

/// An integer modulo the group order, held as its least non-negative residue.
#[derive(Clone, Copy, Debug)]
pub struct Scalar {
    limbs: [u32; 14],
}

impl View for Scalar {
    type V = nat;

    /// The residue, a number below the group order.
    closed spec fn view(&self) -> nat {
        limbs_value(self.limbs@)
    }
}

impl Scalar {
    #[verifier::type_invariant]
    spec fn is_reduced(self) -> bool {
        limbs_value(self.limbs@) < group_order()
    }

    /// The residue of every scalar lies below the group order.
    pub fn residue_is_reduced(&self)
        ensures
            self@ < group_order(),
    {
        proof {
            use_type_invariant(self);
        }
    }

    /// The scalar 0.
    pub fn zero() -> (r: Scalar)
        ensures
            r@ == 0,
    {
        Scalar::from_u64(0)
    }

    /// The scalar 1.
    pub fn one() -> (r: Scalar)
        ensures
            r@ == 1,
    {
        Scalar::from_u64(1)
    }

    /// The scalar of a 64-bit integer.
    pub fn from_u64(x: u64) -> (r: Scalar)
        ensures
            r@ == x as nat % group_order(),
            r@ == x,
    {
        let (lo, hi) = split_wide(x);
        let limbs: [u32; 14] = [lo, hi, 0, 0, 0, 0, 0, 0, 0, 0, 0, 0, 0, 0];
        let modulus = order_modulus();
        proof {
            lemma_value_14(limbs@);
            lemma_value_14(modulus.m@);
            lemma_small_mod(x as nat, group_order());
        }
        Scalar { limbs }
    }

    /// The scalar of a 128-bit integer.
    pub fn from_u128(x: u128) -> (r: Scalar)
        ensures
            r@ == x as nat % group_order(),
            r@ == x,
    {
        let low: u64 = (x & 0xffff_ffff_ffff_ffff) as u64;
        let high: u64 = (x >> 64) as u64;
        assert(x == (x & 0xffff_ffff_ffff_ffff) + 0x1_0000_0000_0000_0000 * (x >> 64)
            && (x & 0xffff_ffff_ffff_ffff) <= 0xffff_ffff_ffff_ffff && (x >> 64)
            <= 0xffff_ffff_ffff_ffff) by (bit_vector);
        let (l0, l1) = split_wide(low);
        let (l2, l3) = split_wide(high);
        let limbs: [u32; 14] = [l0, l1, l2, l3, 0, 0, 0, 0, 0, 0, 0, 0, 0, 0];
        let modulus = order_modulus();
        proof {
            lemma_value_14(limbs@);
            lemma_value_14(modulus.m@);
            lemma_small_mod(x as nat, group_order());
        }
        Scalar { limbs }
    }

    /// The scalar of a little-endian byte string of any length, reduced
    /// modulo the group order.
    pub fn from_bytes(bytes: &[u8]) -> (r: Scalar)
        ensures
            r@ == bytes_value(bytes@) % group_order(),
    {
        let modulus = order_modulus();
        let shift = small_limbs(256);
        let mut acc = small_limbs(0);
        let mut i: usize = bytes.len();
        proof {
            assert(bytes@.skip(i as int) =~= Seq::<u8>::empty());
            lemma_small_mod(0, group_order());
        }
        while i > 0
            invariant
                i <= bytes.len(),
                modulus.valid(),
                modulus.value() == group_order(),
                limbs_value(shift@) == 256,
                limbs_value(acc@) == bytes_value(bytes@.skip(i as int)) % group_order(),
            decreases i,
        {
            i -= 1;
            let byte = small_limbs(bytes[i] as u32);
            let shifted = mul_mod(&acc, &shift, &modulus);
            proof {
                let r = group_order() as int;
                let tail = bytes_value(bytes@.skip(i + 1)) as int;
                let b = bytes@[i as int] as int;
                let s = bytes@.skip(i as int);
                lemma_bytes_head(s);
                assert(s.drop_first() =~= bytes@.skip(i + 1));
                lemma_value_14(modulus.m@);
                lemma_mod_bound(tail * 256, r);
                lemma_mul_mod_noop_left(tail, 256, r);
                lemma_add_mod_noop(tail * 256, b, r);
                lemma_small_mod(b as nat, r as nat);
                assert(tail * 256 + b == b + 256 * tail);
            }
            acc = add_mod(&shifted, &byte, &modulus);
        }
        proof {
            assert(bytes@.skip(0) =~= bytes@);
            lemma_mod_bound(bytes_value(bytes@) as int, group_order() as int);
        }
        Scalar { limbs: acc }
    }

    /// The 56 little-endian bytes of the residue.
    pub fn to_bytes(&self) -> (r: [u8; 56])
        ensures
            r@ == le_bytes(self@, 56),
            bytes_value(r@) == self@,
    {
        let r = limbs_to_bytes(&self.limbs);
        proof {
            lemma_bytes_canonical(r@);
        }
        r
    }

    /// Sum modulo the group order.
    pub fn add(&self, rhs: &Scalar) -> (r: Scalar)
        ensures
            r@ == (self@ + rhs@) % group_order(),
    {
        proof {
            use_type_invariant(self);
            use_type_invariant(rhs);
            lemma_mod_bound((self@ + rhs@) as int, group_order() as int);
        }
        let modulus = order_modulus();
        Scalar { limbs: add_mod(&self.limbs, &rhs.limbs, &modulus) }
    }

    /// Difference modulo the group order.
    pub fn sub(&self, rhs: &Scalar) -> (r: Scalar)
        ensures
            r@ == (self@ - rhs@) % (group_order() as int),
    {
        proof {
            use_type_invariant(self);
            use_type_invariant(rhs);
            lemma_mod_bound(self@ - rhs@, group_order() as int);
        }
        let modulus = order_modulus();
        Scalar { limbs: sub_mod(&self.limbs, &rhs.limbs, &modulus) }
    }

    /// Product modulo the group order.
    pub fn mul(&self, rhs: &Scalar) -> (r: Scalar)
        ensures
            r@ == (self@ * rhs@) % group_order(),
    {
        let modulus = order_modulus();
        proof {
            lemma_mod_bound((self@ * rhs@) as int, group_order() as int);
        }
        Scalar { limbs: mul_mod(&self.limbs, &rhs.limbs, &modulus) }
    }

    /// Whether two scalars are the same residue. Every limb is read whatever
    /// the outcome.
    pub fn equals(&self, other: &Scalar) -> (r: bool)
        ensures
            r == (self@ == other@),
    {
        proof {
            if self@ == other@ {
                lemma_value_unique(self.limbs@, other.limbs@);
            }
        }
        eq_limbs(&self.limbs, &other.limbs) == 1
    }

    /// The signed radix-16 digits of the residue, least significant first:
    /// each lies in -7..=8 and together they denote the residue.
    pub fn to_radix_16(&self) -> (digits: [i8; 113])
        ensures
            forall|i: int| 0 <= i < 113 ==> digits@[i] as int == radix16_digits(self@, 113)[i],
            forall|i: int| 0 <= i < 113 ==> -8 < #[trigger] digits@[i] <= 8,
            signed_digits_value(radix16_digits(self@, 113)) == self@,
    {
        let bytes = self.to_bytes();
        let mut out = [0i8;113];
        let mut carry: u8 = 0;
        let mut j: usize = 0;
        let ghost full = radix16_digits(self@, 113);
        let ghost mut cur: nat = self@;
        proof {
            lemma_radix16_len(self@, 113);
            assert(bytes@.skip(0) =~= bytes@);
            assert(full.skip(0) =~= full);
        }
        while j < 56
            invariant
                j <= 56,
                carry <= 1,
                full == radix16_digits(self@, 113),
                full.len() == 113,
                cur == bytes_value(bytes@.skip(j as int)) + carry,
                full.skip(2 * j as int) =~= radix16_digits(cur, (113 - 2 * j) as nat),
                forall|i: int| 0 <= i < 2 * j ==> out@[i] as int == full[i],
            decreases 56 - j,
        {
            let b: u8 = bytes[j];
            let lo: u8 = b & 15;
            let hi: u8 = b >> 4;
            assert(lo <= 15 && hi <= 15 && b == lo + 16 * hi) by (bit_vector)
                requires
                    lo == b & 15,
                    hi == b >> 4,
            ;
            let (d0, c0) = recentre(lo + carry);
            let (d1, c1) = recentre(hi + c0);
            proof {
                let s = bytes@.skip(j as int);
                lemma_bytes_head(s);
                assert(s.drop_first() =~= bytes@.skip(j + 1));
                let tail = bytes_value(bytes@.skip(j + 1));
                let n = (113 - 2 * j) as nat;
                lemma_radix16_step(cur, (lo + carry) as nat, hi as nat + 16 * tail);
                let mid = radix16_rest(cur);
                lemma_radix16_step(mid, (hi + c0) as nat, tail);
                let next = radix16_rest(mid);
                lemma_radix16_unfold(cur, n);
                lemma_radix16_unfold(mid, (n - 1) as nat);
                let part = full.skip(2 * j as int);
                assert(full[2 * j as int] == part[0]);
                assert(full[2 * j + 1] == part.skip(1)[0]);
                assert(full.skip(2 * j + 2) =~= part.skip(1).skip(1));
                cur = next;
            }
            out[2 * j] = d0;
            out[2 * j + 1] = d1;
            carry = c1;
            j += 1;
        }
        let ghost before = out@;
        out[112] = carry as i8;
        proof {
            assert(bytes@.skip(56) =~= Seq::<u8>::empty());
            assert(cur == carry);
            lemma_radix16_len(cur, 1);
            assert(full[112] == full.skip(112)[0]);
            assert(radix16_digits(cur, 1)[0] == radix16_digit(cur));
            assert forall|i: int| 0 <= i < 113 implies #[trigger] out@[i] as int == full[i] by {
                if i < 112 {
                    assert(out@[i] == before[i]);
                }
            }
            assert forall|i: int| 0 <= i < 113 implies -8 < #[trigger] out@[i] <= 8 by {
                lemma_radix16_range(self@, 113, i);
            }
            use_type_invariant(self);
            lemma_value_14(self.limbs@);
            lemma_sixteen_pow_limb(14);
            assert(sixteen_pow(113) == 16 * sixteen_pow(112));
            lemma_radix_pow_is_pow2(14);
            lemma2_to64();
            lemma_pow2_adds(2, 446);
            lemma_radix16_value(self@, 113);
        }
        out
    }
}

impl PartialEq for Scalar {
    fn eq(&self, other: &Scalar) -> (r: bool) {
        self.equals(other)
    }
}

impl PartialEqSpecImpl for Scalar {
    open spec fn obeys_eq_spec() -> bool {
        true
    }

    open spec fn eq_spec(&self, other: &Scalar) -> bool {
        self@ == other@
    }
}

} // verus!
