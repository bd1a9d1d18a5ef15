//! Fixed-width little-endian limb arrays and the natural numbers they denote.
//!
//! Every routine here runs the same sequence of limb operations whatever the
//! limbs hold: choices are made with masks, never with branches.

use vstd::arithmetic::power2::*;
use vstd::prelude::*;

verus! {

/// The `n`-th power of the limb radix 2^32.
pub open spec fn radix_pow(n: nat) -> nat
    decreases n,
{
    if n == 0 {
        1
    } else {
        0x1_0000_0000 * radix_pow((n - 1) as nat)
    }
}

/// The natural number denoted by a little-endian sequence of 32-bit limbs.
pub open spec fn limbs_value(s: Seq<u32>) -> nat
    decreases s.len(),
{
    if s.len() == 0 {
        0
    } else {
        limbs_value(s.drop_last()) + s.last() as nat * radix_pow((s.len() - 1) as nat)
    }
}

/// The powers of the radix multiply as their exponents add.
pub proof fn lemma_radix_pow_add(a: nat, b: nat)
    ensures
        radix_pow(a + b) == radix_pow(a) * radix_pow(b),
    decreases a,
{
    if a == 0 {
        assert(radix_pow(0) == 1);
        assert(1 * radix_pow(b) == radix_pow(b)) by (nonlinear_arith);
    } else {
        lemma_radix_pow_add((a - 1) as nat, b);
        let x = radix_pow((a - 1) as nat);
        let y = radix_pow(b);
        assert(radix_pow(a + b) == 0x1_0000_0000 * radix_pow((a + b - 1) as nat));
        assert(0x1_0000_0000 * (x * y) == (0x1_0000_0000 * x) * y) by (nonlinear_arith);
    }
}

/// Every power of the radix is positive.
pub proof fn lemma_radix_pow_positive(n: nat)
    ensures
        radix_pow(n) > 0,
    decreases n,
{
    if n > 0 {
        lemma_radix_pow_positive((n - 1) as nat);
        let x = radix_pow((n - 1) as nat);
        assert(0x1_0000_0000 * x > 0) by (nonlinear_arith)
            requires
                x > 0,
        ;
    }
}

/// Extending a prefix by one limb adds that limb at its place value.
pub proof fn lemma_value_take_step(s: Seq<u32>, i: int)
    requires
        0 <= i < s.len(),
    ensures
        limbs_value(s.take(i + 1)) == limbs_value(s.take(i)) + s[i] as nat * radix_pow(i as nat),
{
    let t = s.take(i + 1);
    assert(t.drop_last() =~= s.take(i));
    assert(t.last() == s[i]);
}

/// Replacing one limb changes the value by the difference at its place value.
pub proof fn lemma_value_update(s: Seq<u32>, k: int, v: u32)
    requires
        0 <= k < s.len(),
    ensures
        limbs_value(s.update(k, v)) + s[k] as nat * radix_pow(k as nat) == limbs_value(s)
            + v as nat * radix_pow(k as nat),
    decreases s.len(),
{
    let u = s.update(k, v);
    if k == s.len() - 1 {
        assert(u.drop_last() =~= s.drop_last());
    } else {
        assert(u.drop_last() =~= s.drop_last().update(k, v));
        lemma_value_update(s.drop_last(), k, v);
    }
}

/// A sequence of `n` limbs denotes a number below 2^(32 n).
pub proof fn lemma_value_bound(s: Seq<u32>)
    ensures
        limbs_value(s) < radix_pow(s.len()),
    decreases s.len(),
{
    if s.len() > 0 {
        lemma_value_bound(s.drop_last());
        let h = limbs_value(s.drop_last());
        let r = radix_pow((s.len() - 1) as nat);
        let l = s.last() as nat;
        assert(h + l * r < 0x1_0000_0000 * r) by (nonlinear_arith)
            requires
                h < r,
                l <= 0xffff_ffff,
        ;
    }
}

/// A sequence of zero limbs denotes 0.
pub proof fn lemma_value_zero(s: Seq<u32>)
    requires
        forall|i: int| 0 <= i < s.len() ==> s[i] == 0,
    ensures
        limbs_value(s) == 0,
    decreases s.len(),
{
    if s.len() > 0 {
        lemma_value_zero(s.drop_last());
        assert(0 * radix_pow((s.len() - 1) as nat) == 0) by (nonlinear_arith);
    }
}

/// The value splits at any limb boundary into a low part and a shifted high part.
pub proof fn lemma_value_split(s: Seq<u32>, k: int)
    requires
        0 <= k <= s.len(),
    ensures
        limbs_value(s) == limbs_value(s.take(k)) + radix_pow(k as nat) * limbs_value(s.skip(k)),
    decreases s.len(),
{
    if k == s.len() {
        assert(s.take(k) =~= s);
        assert(s.skip(k) =~= Seq::<u32>::empty());
        assert(radix_pow(k as nat) * 0 == 0) by (nonlinear_arith);
    } else {
        let d = s.drop_last();
        lemma_value_split(d, k);
        assert(d.take(k) =~= s.take(k));
        assert(d.skip(k) =~= s.skip(k).drop_last());
        assert(s.skip(k).last() == s.last());
        let n = (s.len() - 1) as nat;
        lemma_radix_pow_add(k as nat, (n - k) as nat);
        let rk = radix_pow(k as nat);
        let rn = radix_pow((n - k) as nat);
        let l = s.last() as nat;
        let hv = limbs_value(s.skip(k).drop_last());
        assert(rk * (hv + l * rn) == rk * hv + l * (rk * rn)) by (nonlinear_arith);
    }
}

/// A limb sequence is its first limb plus 2^32 times the rest.
pub proof fn lemma_value_head(s: Seq<u32>)
    requires
        s.len() > 0,
    ensures
        limbs_value(s) == s[0] as nat + 0x1_0000_0000 * limbs_value(s.drop_first()),
    decreases s.len(),
{
    if s.len() == 1 {
        assert(s.drop_last() =~= Seq::<u32>::empty());
        assert(s.drop_first() =~= Seq::<u32>::empty());
        assert(limbs_value(s.drop_last()) == 0);
        assert(s[0] as nat * radix_pow(0) == s[0] as nat) by (nonlinear_arith)
            requires
                radix_pow(0) == 1,
        ;
    } else {
        let d = s.drop_last();
        lemma_value_head(d);
        assert(d.drop_first() =~= s.drop_first().drop_last());
        assert(s.drop_first().last() == s.last());
        let n = (s.len() - 1) as nat;
        let l = s.last() as nat;
        let rp = radix_pow((n - 1) as nat);
        assert(radix_pow(n) == 0x1_0000_0000 * rp);
        assert(0x1_0000_0000 * (l * rp) == l * (0x1_0000_0000 * rp)) by (nonlinear_arith);
    }
}

/// The powers of the limb radix are the powers of two at multiples of 32.
pub proof fn lemma_radix_pow_is_pow2(n: nat)
    ensures
        radix_pow(n) == pow2(32 * n),
    decreases n,
{
    lemma2_to64();
    if n > 0 {
        lemma_radix_pow_is_pow2((n - 1) as nat);
        lemma_pow2_adds(32, (32 * (n - 1)) as nat);
    }
}

/// A 14-limb number written out limb by limb, and the powers of the radix
/// that bound it, each 2^32 times the one before.
pub proof fn lemma_value_14(s: Seq<u32>)
    requires
        s.len() == 14,
    ensures
        limbs_value(s) == s[0] + 0x1_0000_0000 * (s[1] + 0x1_0000_0000 * (s[2] + 0x1_0000_0000 * (
        s[3] + 0x1_0000_0000 * (s[4] + 0x1_0000_0000 * (s[5] + 0x1_0000_0000 * (s[6]
            + 0x1_0000_0000 * (s[7] + 0x1_0000_0000 * (s[8] + 0x1_0000_0000 * (s[9]
            + 0x1_0000_0000 * (s[10] + 0x1_0000_0000 * (s[11] + 0x1_0000_0000 * (s[12]
            + 0x1_0000_0000 * s[13])))))))))))),
        radix_pow(0) == 1,
        radix_pow(1) == 0x1_0000_0000 * radix_pow(0),
        radix_pow(2) == 0x1_0000_0000 * radix_pow(1),
        radix_pow(3) == 0x1_0000_0000 * radix_pow(2),
        radix_pow(4) == 0x1_0000_0000 * radix_pow(3),
        radix_pow(5) == 0x1_0000_0000 * radix_pow(4),
        radix_pow(6) == 0x1_0000_0000 * radix_pow(5),
        radix_pow(7) == 0x1_0000_0000 * radix_pow(6),
        radix_pow(8) == 0x1_0000_0000 * radix_pow(7),
        radix_pow(9) == 0x1_0000_0000 * radix_pow(8),
        radix_pow(10) == 0x1_0000_0000 * radix_pow(9),
        radix_pow(11) == 0x1_0000_0000 * radix_pow(10),
        radix_pow(12) == 0x1_0000_0000 * radix_pow(11),
        radix_pow(13) == 0x1_0000_0000 * radix_pow(12),
        radix_pow(14) == 0x1_0000_0000 * radix_pow(13),
{
    lemma_value_head(s);
    lemma_value_head(s.skip(1));
    lemma_value_head(s.skip(2));
    lemma_value_head(s.skip(3));
    lemma_value_head(s.skip(4));
    lemma_value_head(s.skip(5));
    lemma_value_head(s.skip(6));
    lemma_value_head(s.skip(7));
    lemma_value_head(s.skip(8));
    lemma_value_head(s.skip(9));
    lemma_value_head(s.skip(10));
    lemma_value_head(s.skip(11));
    lemma_value_head(s.skip(12));
    lemma_value_head(s.skip(13));
    assert(s.drop_first() =~= s.skip(1));
    assert(s.skip(1).drop_first() =~= s.skip(2));
    assert(s.skip(2).drop_first() =~= s.skip(3));
    assert(s.skip(3).drop_first() =~= s.skip(4));
    assert(s.skip(4).drop_first() =~= s.skip(5));
    assert(s.skip(5).drop_first() =~= s.skip(6));
    assert(s.skip(6).drop_first() =~= s.skip(7));
    assert(s.skip(7).drop_first() =~= s.skip(8));
    assert(s.skip(8).drop_first() =~= s.skip(9));
    assert(s.skip(9).drop_first() =~= s.skip(10));
    assert(s.skip(10).drop_first() =~= s.skip(11));
    assert(s.skip(11).drop_first() =~= s.skip(12));
    assert(s.skip(12).drop_first() =~= s.skip(13));
    assert(s.skip(13).drop_first() =~= Seq::<u32>::empty());
    assert(limbs_value(Seq::<u32>::empty()) == 0);
}

/// Two limb sequences of one length that denote the same number are the same.
pub proof fn lemma_value_unique(a: Seq<u32>, b: Seq<u32>)
    requires
        a.len() == b.len(),
        limbs_value(a) == limbs_value(b),
    ensures
        a =~= b,
    decreases a.len(),
{
    if a.len() > 0 {
        let r = radix_pow((a.len() - 1) as nat);
        let ha = limbs_value(a.drop_last());
        let hb = limbs_value(b.drop_last());
        let la = a.last() as nat;
        let lb = b.last() as nat;
        lemma_value_bound(a.drop_last());
        lemma_value_bound(b.drop_last());
        assert(la == lb) by (nonlinear_arith)
            requires
                ha + la * r == hb + lb * r,
                ha < r,
                hb < r,
        ;
        lemma_value_unique(a.drop_last(), b.drop_last());
        assert forall|i: int| 0 <= i < a.len() implies a[i] == b[i] by {
            if i < a.len() - 1 {
                assert(a.drop_last()[i] == b.drop_last()[i]);
            }
        }
    }
}

/// Branch-free choice between two limbs: `a` when `flag` is 0, `b` when it is 1.
pub fn select_limb(a: u32, b: u32, flag: u32) -> (r: u32)
    requires
        flag <= 1,
    ensures
        r == if flag == 0 { a } else { b },
{
    let mask: u32 = 0u32.wrapping_sub(flag);
    assert(mask == if flag == 0 { 0u32 } else { 0xffff_ffffu32 }) by (bit_vector)
        requires
            flag <= 1,
            mask == 0u32.wrapping_sub(flag),
    ;
    assert(a ^ (0u32 & (a ^ b)) == a) by (bit_vector);
    assert(a ^ (0xffff_ffffu32 & (a ^ b)) == b) by (bit_vector);
    a ^ (mask & (a ^ b))
}

/// Splits a double-width word into its low and high limbs.
pub fn split_wide(t: u64) -> (r: (u32, u32))
    ensures
        r.0 as nat + 0x1_0000_0000 * r.1 as nat == t as nat,
{
    let lo64: u64 = t & 0xffff_ffff;
    let hi64: u64 = t >> 32;
    assert(lo64 == t % 0x1_0000_0000 && hi64 == t / 0x1_0000_0000) by (bit_vector)
        requires
            lo64 == t & 0xffff_ffff,
            hi64 == t >> 32,
    ;
    (lo64 as u32, hi64 as u32)
}

/// Flag that is 1 when `x` is zero and 0 otherwise, computed without a branch.
pub fn is_zero_limb(x: u32) -> (r: u32)
    ensures
        r == if x == 0 { 1u32 } else { 0u32 },
{
    let y: u32 = (x | 0u32.wrapping_sub(x)) >> 31;
    assert((y ^ 1) == if x == 0 { 1u32 } else { 0u32 }) by (bit_vector)
        requires
            y == (x | 0u32.wrapping_sub(x)) >> 31,
    ;
    y ^ 1
}

/// Branch-free choice between two limb arrays: `a` when `flag` is 0, `b` when it is 1.
pub fn select_limbs<const N: usize>(a: &[u32; N], b: &[u32; N], flag: u32) -> (r: [u32; N])
    requires
        flag <= 1,
    ensures
        r@ == if flag == 0 { a@ } else { b@ },
{
    let mut out = [0u32;N];
    let mut i: usize = 0;
    while i < N
        invariant
            i <= N,
            flag <= 1,
            forall|k: int| 0 <= k < i ==> out@[k] == if flag == 0 { a@[k] } else { b@[k] },
        decreases N - i,
    {
        out[i] = select_limb(a[i], b[i], flag);
        i += 1;
    }
    assert(out@ =~= if flag == 0 { a@ } else { b@ });
    out
}

/// Flag that is 1 when the two arrays hold the same limbs and 0 otherwise.
/// Every limb is read whatever the outcome.
pub fn eq_limbs<const N: usize>(a: &[u32; N], b: &[u32; N]) -> (r: u32)
    ensures
        r == if a@ == b@ { 1u32 } else { 0u32 },
{
    let mut acc: u32 = 0;
    let mut i: usize = 0;
    while i < N
        invariant
            i <= N,
            acc == 0 <==> (forall|k: int| 0 <= k < i ==> a@[k] == b@[k]),
        decreases N - i,
    {
        let x: u32 = a[i];
        let y: u32 = b[i];
        let next: u32 = acc | (x ^ y);
        assert(next == 0 <==> (acc == 0 && x == y)) by (bit_vector)
            requires
                next == acc | (x ^ y),
        ;
        acc = next;
        i += 1;
    }
    proof {
        if acc == 0 {
            assert(a@ =~= b@);
        }
    }
    is_zero_limb(acc)
}

/// Limb-wise sum with carry: the returned limbs and carry bit together denote
/// the exact sum.
pub fn add_limbs<const N: usize>(a: &[u32; N], b: &[u32; N]) -> (r: ([u32; N], u32))
    ensures
        r.1 <= 1,
        limbs_value(r.0@) + r.1 as nat * radix_pow(N as nat) == limbs_value(a@) + limbs_value(b@),
{
    let mut out = [0u32;N];
    let mut carry: u32 = 0;
    let mut i: usize = 0;
    proof {
        lemma_value_zero(out@);
        assert(a@.take(0) =~= Seq::<u32>::empty());
        assert(b@.take(0) =~= Seq::<u32>::empty());
    }
    while i < N
        invariant
            i <= N,
            carry <= 1,
            forall|k: int| i <= k < N ==> out@[k] == 0,
            limbs_value(out@) + carry as nat * radix_pow(i as nat) == limbs_value(
                a@.take(i as int),
            ) + limbs_value(b@.take(i as int)),
        decreases N - i,
    {
        let t: u64 = a[i] as u64 + b[i] as u64 + carry as u64;
        let (lo, hi) = split_wide(t);
        proof {
            lemma_value_take_step(a@, i as int);
            lemma_value_take_step(b@, i as int);
            lemma_value_update(out@, i as int, lo);
            let r = radix_pow(i as nat);
            let x = a@[i as int] as nat;
            let y = b@[i as int] as nat;
            let c = carry as nat;
            let l = lo as nat;
            let h = hi as nat;
            assert(radix_pow((i + 1) as nat) == 0x1_0000_0000 * r);
            assert(l * r + h * (0x1_0000_0000 * r) == x * r + y * r + c * r) by (nonlinear_arith)
                requires
                    l + 0x1_0000_0000 * h == x + y + c,
            ;
            assert(0 * r == 0) by (nonlinear_arith);
        }
        out[i] = lo;
        carry = hi;
        i += 1;
    }
    proof {
        assert(a@.take(N as int) =~= a@);
        assert(b@.take(N as int) =~= b@);
    }
    (out, carry)
}

/// Limb-wise difference with borrow: the returned limbs denote `a - b` when
/// the borrow bit is 0 and `a - b + 2^(32 N)` when it is 1.
pub fn sub_limbs<const N: usize>(a: &[u32; N], b: &[u32; N]) -> (r: ([u32; N], u32))
    ensures
        r.1 <= 1,
        limbs_value(r.0@) + limbs_value(b@) == limbs_value(a@) + r.1 as nat * radix_pow(N as nat),
{
    let mut out = [0u32;N];
    let mut borrow: u32 = 0;
    let mut i: usize = 0;
    proof {
        lemma_value_zero(out@);
        assert(a@.take(0) =~= Seq::<u32>::empty());
        assert(b@.take(0) =~= Seq::<u32>::empty());
    }
    while i < N
        invariant
            i <= N,
            borrow <= 1,
            forall|k: int| i <= k < N ==> out@[k] == 0,
            limbs_value(out@) + limbs_value(b@.take(i as int)) == limbs_value(a@.take(i as int))
                + borrow as nat * radix_pow(i as nat),
        decreases N - i,
    {
        let t: u64 = 0x1_0000_0000u64 + a[i] as u64 - b[i] as u64 - borrow as u64;
        let (lo, hi) = split_wide(t);
        let next: u32 = 1 - hi;
        proof {
            lemma_value_take_step(a@, i as int);
            lemma_value_take_step(b@, i as int);
            lemma_value_update(out@, i as int, lo);
            let r = radix_pow(i as nat);
            let x = a@[i as int] as nat;
            let y = b@[i as int] as nat;
            let c = borrow as nat;
            let l = lo as nat;
            let n = next as nat;
            assert(radix_pow((i + 1) as nat) == 0x1_0000_0000 * r);
            assert(l * r + y * r + c * r == x * r + n * (0x1_0000_0000 * r)) by (nonlinear_arith)
                requires
                    l + y + c == x + 0x1_0000_0000 * n,
            ;
            assert(0 * r == 0) by (nonlinear_arith);
        }
        out[i] = lo;
        borrow = next;
        i += 1;
    }
    proof {
        assert(a@.take(N as int) =~= a@);
        assert(b@.take(N as int) =~= b@);
    }
    (out, borrow)
}

/// Schoolbook product of two 14-limb numbers as a 28-limb number.
pub fn mul_limbs(a: &[u32; 14], b: &[u32; 14]) -> (r: [u32; 28])
    ensures
        limbs_value(r@) == limbs_value(a@) * limbs_value(b@),
{
    let mut out = [0u32;28];
    let mut i: usize = 0;
    proof {
        lemma_value_zero(out@);
        assert(a@.take(0) =~= Seq::<u32>::empty());
        assert(0 * limbs_value(b@) == 0) by (nonlinear_arith);
    }
    while i < 14
        invariant
            i <= 14,
            forall|k: int| i + 14 <= k < 28 ==> out@[k] == 0,
            limbs_value(out@) == limbs_value(a@.take(i as int)) * limbs_value(b@),
        decreases 14 - i,
    {
        let mut carry: u32 = 0;
        let mut j: usize = 0;
        let ai: u32 = a[i];
        proof {
            assert(b@.take(0) =~= Seq::<u32>::empty());
            assert(ai as nat * 0 * radix_pow(i as nat) == 0) by (nonlinear_arith);
            assert(0 * radix_pow(i as nat) == 0) by (nonlinear_arith);
        }
        while j < 14
            invariant
                j <= 14,
                i < 14,
                ai == a@[i as int],
                forall|k: int| i + 14 <= k < 28 ==> out@[k] == 0,
                limbs_value(out@) + carry as nat * radix_pow((i + j) as nat) == limbs_value(
                    a@.take(i as int),
                ) * limbs_value(b@) + ai as nat * limbs_value(b@.take(j as int)) * radix_pow(
                    i as nat,
                ),
            decreases 14 - j,
        {
            let bj: u32 = b[j];
            assert((ai as u64) * (bj as u64) <= 0xffff_fffe_0000_0001) by (nonlinear_arith)
                requires
                    ai <= 0xffff_ffff,
                    bj <= 0xffff_ffff,
            ;
            let t: u64 = out[i + j] as u64 + (ai as u64) * (bj as u64) + carry as u64;
            let (lo, hi) = split_wide(t);
            proof {
                lemma_value_update(out@, (i + j) as int, lo);
                lemma_value_take_step(b@, j as int);
                lemma_radix_pow_add(i as nat, j as nat);
                let ri = radix_pow(i as nat);
                let rj = radix_pow(j as nat);
                let rij = radix_pow((i + j) as nat);
                let o = out@[(i + j) as int] as nat;
                let x = ai as nat;
                let y = bj as nat;
                let c = carry as nat;
                let l = lo as nat;
                let h = hi as nat;
                let bt = limbs_value(b@.take(j as int));
                assert(radix_pow((i + j + 1) as nat) == 0x1_0000_0000 * rij);
                assert(l * rij + h * (0x1_0000_0000 * rij) == o * rij + x * y * rij + c * rij)
                    by (nonlinear_arith)
                    requires
                        l + 0x1_0000_0000 * h == o + x * y + c,
                ;
                assert(x * (bt + y * rj) * ri == x * bt * ri + x * y * rij) by (nonlinear_arith)
                    requires
                        rij == ri * rj,
                ;
            }
            out[i + j] = lo;
            carry = hi;
            j += 1;
        }
        proof {
            lemma_value_update(out@, (i + 14) as int, carry);
            lemma_value_take_step(a@, i as int);
            assert(b@.take(14) =~= b@);
            lemma_radix_pow_add(i as nat, 14);
            let ri = radix_pow(i as nat);
            let x = ai as nat;
            let at = limbs_value(a@.take(i as int));
            let bv = limbs_value(b@);
            assert((at + x * ri) * bv == at * bv + x * bv * ri) by (nonlinear_arith);
            assert(0 * radix_pow((i + 14) as nat) == 0) by (nonlinear_arith);
        }
        out[i + 14] = carry;
        i += 1;
    }
    proof {
        assert(a@.take(14) =~= a@);
    }
    out
}

/// The low 14 limbs of a 28-limb number.
pub fn lower_half(x: &[u32; 28]) -> (r: [u32; 14])
    ensures
        r@ == x@.take(14),
{
    let mut out = [0u32;14];
    let mut i: usize = 0;
    while i < 14
        invariant
            i <= 14,
            forall|k: int| 0 <= k < i ==> out@[k] == x@[k],
        decreases 14 - i,
    {
        out[i] = x[i];
        i += 1;
    }
    assert(out@ =~= x@.take(14));
    out
}

/// The high 14 limbs of a 28-limb number.
pub fn upper_half(x: &[u32; 28]) -> (r: [u32; 14])
    ensures
        r@ == x@.skip(14),
{
    let mut out = [0u32;14];
    let mut i: usize = 0;
    while i < 14
        invariant
            i <= 14,
            forall|k: int| 0 <= k < i ==> out@[k] == x@[k + 14],
        decreases 14 - i,
    {
        out[i] = x[i + 14];
        i += 1;
    }
    assert(out@ =~= x@.skip(14));
    out
}

/// A 14-limb number written with 28 limbs.
pub fn widen(x: &[u32; 14]) -> (r: [u32; 28])
    ensures
        limbs_value(r@) == limbs_value(x@),
        r@.take(14) == x@,
{
    let mut out = [0u32;28];
    let mut i: usize = 0;
    while i < 14
        invariant
            i <= 14,
            forall|k: int| 0 <= k < i ==> out@[k] == x@[k],
            forall|k: int| 14 <= k < 28 ==> out@[k] == 0,
        decreases 14 - i,
    {
        out[i] = x[i];
        i += 1;
    }
    proof {
        assert(out@.take(14) =~= x@);
        lemma_value_split(out@, 14);
        lemma_value_zero(out@.skip(14));
        assert(radix_pow(14) * 0 == 0) by (nonlinear_arith);
    }
    out
}

} // verus!
