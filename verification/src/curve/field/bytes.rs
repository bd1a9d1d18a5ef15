//! Little-endian byte strings and their conversion to and from limbs.

use crate::curve::field::limbs::{
    lemma_value_update, lemma_value_zero, limbs_value, radix_pow,
};
use vstd::prelude::*;

verus! {

/// The `n`-th power of 256.
pub open spec fn byte_pow(n: nat) -> nat
    decreases n,
{
    if n == 0 {
        1
    } else {
        256 * byte_pow((n - 1) as nat)
    }
}

/// The natural number denoted by a little-endian byte string.
pub open spec fn bytes_value(s: Seq<u8>) -> nat
    decreases s.len(),
{
    if s.len() == 0 {
        0
    } else {
        bytes_value(s.drop_last()) + s.last() as nat * byte_pow((s.len() - 1) as nat)
    }
}

/// Four bytes fill one limb.
pub proof fn lemma_byte_pow_limb(i: nat)
    ensures
        byte_pow(4 * i) == radix_pow(i),
        byte_pow(4 * i + 1) == 0x100 * radix_pow(i),
        byte_pow(4 * i + 2) == 0x1_0000 * radix_pow(i),
        byte_pow(4 * i + 3) == 0x100_0000 * radix_pow(i),
    decreases i,
{
    if i > 0 {
        lemma_byte_pow_limb((i - 1) as nat);
        let k = 4 * (i - 1);
        assert(byte_pow((k + 4) as nat) == 256 * byte_pow((k + 3) as nat));
    }
    assert(byte_pow(4 * i + 1) == 256 * byte_pow(4 * i));
    assert(byte_pow(4 * i + 2) == 256 * byte_pow(4 * i + 1));
    assert(byte_pow(4 * i + 3) == 256 * byte_pow(4 * i + 2));
}

/// Extending a prefix by one byte adds that byte at its place value.
pub proof fn lemma_bytes_take_step(s: Seq<u8>, i: int)
    requires
        0 <= i < s.len(),
    ensures
        bytes_value(s.take(i + 1)) == bytes_value(s.take(i)) + s[i] as nat * byte_pow(i as nat),
{
    let t = s.take(i + 1);
    assert(t.drop_last() =~= s.take(i));
    assert(t.last() == s[i]);
}

/// Replacing one byte changes the value by the difference at its place value.
pub proof fn lemma_bytes_update(s: Seq<u8>, k: int, v: u8)
    requires
        0 <= k < s.len(),
    ensures
        bytes_value(s.update(k, v)) + s[k] as nat * byte_pow(k as nat) == bytes_value(s)
            + v as nat * byte_pow(k as nat),
    decreases s.len(),
{
    let u = s.update(k, v);
    if k == s.len() - 1 {
        assert(u.drop_last() =~= s.drop_last());
    } else {
        assert(u.drop_last() =~= s.drop_last().update(k, v));
        lemma_bytes_update(s.drop_last(), k, v);
    }
}

/// A byte string of zeros denotes 0.
pub proof fn lemma_bytes_zero(s: Seq<u8>)
    requires
        forall|i: int| 0 <= i < s.len() ==> s[i] == 0,
    ensures
        bytes_value(s) == 0,
    decreases s.len(),
{
    if s.len() > 0 {
        lemma_bytes_zero(s.drop_last());
        assert(0 * byte_pow((s.len() - 1) as nat) == 0) by (nonlinear_arith);
    }
}

/// A byte string is its first byte plus 256 times the rest.
pub proof fn lemma_bytes_head(s: Seq<u8>)
    requires
        s.len() > 0,
    ensures
        bytes_value(s) == s[0] as nat + 256 * bytes_value(s.drop_first()),
    decreases s.len(),
{
    if s.len() == 1 {
        assert(s.drop_last() =~= Seq::<u8>::empty());
        assert(s.drop_first() =~= Seq::<u8>::empty());
        assert(bytes_value(s.drop_last()) == 0);
        assert(s[0] as nat * byte_pow(0) == s[0] as nat) by (nonlinear_arith)
            requires
                byte_pow(0) == 1,
        ;
    } else {
        let d = s.drop_last();
        lemma_bytes_head(d);
        assert(d.drop_first() =~= s.drop_first().drop_last());
        assert(s.drop_first().last() == s.last());
        let n = (s.len() - 1) as nat;
        let l = s.last() as nat;
        let bp = byte_pow((n - 1) as nat);
        assert(byte_pow(n) == 256 * bp);
        assert(256 * (l * bp) == l * (256 * bp)) by (nonlinear_arith);
    }
}

/// Packs 56 little-endian bytes into 14 limbs.
pub fn limbs_from_bytes(b: &[u8; 56]) -> (r: [u32; 14])
    ensures
        limbs_value(r@) == bytes_value(b@),
{
    let mut out = [0u32;14];
    let mut i: usize = 0;
    proof {
        lemma_value_zero(out@);
        assert(b@.take(0) =~= Seq::<u8>::empty());
    }
    while i < 14
        invariant
            i <= 14,
            forall|k: int| i <= k < 14 ==> out@[k] == 0,
            limbs_value(out@) == bytes_value(b@.take(4 * i as int)),
        decreases 14 - i,
    {
        let b0: u32 = b[4 * i] as u32;
        let b1: u32 = b[4 * i + 1] as u32;
        let b2: u32 = b[4 * i + 2] as u32;
        let b3: u32 = b[4 * i + 3] as u32;
        let w: u32 = b0 | (b1 << 8) | (b2 << 16) | (b3 << 24);
        assert(w == b0 + 0x100 * b1 + 0x1_0000 * b2 + 0x100_0000 * b3) by (bit_vector)
            requires
                b0 <= 0xff,
                b1 <= 0xff,
                b2 <= 0xff,
                b3 <= 0xff,
                w == b0 | (b1 << 8) | (b2 << 16) | (b3 << 24),
        ;
        proof {
            let base = 4 * i as int;
            lemma_bytes_take_step(b@, base);
            lemma_bytes_take_step(b@, base + 1);
            lemma_bytes_take_step(b@, base + 2);
            lemma_bytes_take_step(b@, base + 3);
            lemma_byte_pow_limb(i as nat);
            lemma_value_update(out@, i as int, w);
            let r = radix_pow(i as nat);
            let x0 = b0 as nat;
            let x1 = b1 as nat;
            let x2 = b2 as nat;
            let x3 = b3 as nat;
            assert((x0 + 0x100 * x1 + 0x1_0000 * x2 + 0x100_0000 * x3) * r == x0 * r + x1 * (0x100
                * r) + x2 * (0x1_0000 * r) + x3 * (0x100_0000 * r)) by (nonlinear_arith);
            assert(0 * r == 0) by (nonlinear_arith);
        }
        out[i] = w;
        i += 1;
    }
    proof {
        assert(b@.take(56) =~= b@);
    }
    out
}

/// Unpacks 14 limbs into 56 little-endian bytes.
pub fn limbs_to_bytes(x: &[u32; 14]) -> (r: [u8; 56])
    ensures
        bytes_value(r@) == limbs_value(x@),
{
    let mut out = [0u8;56];
    let mut i: usize = 0;
    proof {
        lemma_bytes_zero(out@);
        assert(x@.take(0) =~= Seq::<u32>::empty());
    }
    while i < 14
        invariant
            i <= 14,
            forall|k: int| 4 * i <= k < 56 ==> out@[k] == 0,
            bytes_value(out@) == limbs_value(x@.take(i as int)),
        decreases 14 - i,
    {
        let w: u32 = x[i];
        let c0: u32 = w & 0xff;
        let c1: u32 = (w >> 8) & 0xff;
        let c2: u32 = (w >> 16) & 0xff;
        let c3: u32 = w >> 24;
        assert(c0 <= 0xff && c1 <= 0xff && c2 <= 0xff && c3 <= 0xff && w == c0 + 0x100 * c1
            + 0x1_0000 * c2 + 0x100_0000 * c3) by (bit_vector)
            requires
                c0 == w & 0xff,
                c1 == (w >> 8) & 0xff,
                c2 == (w >> 16) & 0xff,
                c3 == w >> 24,
        ;
        let ghost before = out@;
        proof {
            let base = 4 * i as int;
            let s1 = before.update(base, c0 as u8);
            let s2 = s1.update(base + 1, c1 as u8);
            let s3 = s2.update(base + 2, c2 as u8);
            lemma_bytes_update(before, base, c0 as u8);
            lemma_bytes_update(s1, base + 1, c1 as u8);
            lemma_bytes_update(s2, base + 2, c2 as u8);
            lemma_bytes_update(s3, base + 3, c3 as u8);
            lemma_byte_pow_limb(i as nat);
            crate::curve::field::limbs::lemma_value_take_step(x@, i as int);
            let r = radix_pow(i as nat);
            let x0 = c0 as nat;
            let x1 = c1 as nat;
            let x2 = c2 as nat;
            let x3 = c3 as nat;
            assert((x0 + 0x100 * x1 + 0x1_0000 * x2 + 0x100_0000 * x3) * r == x0 * r + x1 * (0x100
                * r) + x2 * (0x1_0000 * r) + x3 * (0x100_0000 * r)) by (nonlinear_arith);
            assert(0 * byte_pow(base as nat) == 0) by (nonlinear_arith);
            assert(0 * byte_pow((base + 1) as nat) == 0) by (nonlinear_arith);
            assert(0 * byte_pow((base + 2) as nat) == 0) by (nonlinear_arith);
            assert(0 * byte_pow((base + 3) as nat) == 0) by (nonlinear_arith);
        }
        out[4 * i] = c0 as u8;
        out[4 * i + 1] = c1 as u8;
        out[4 * i + 2] = c2 as u8;
        out[4 * i + 3] = c3 as u8;
        i += 1;
    }
    proof {
        assert(x@.take(14) =~= x@);
    }
    out
}

/// The little-endian byte string of length `n` of a number.
pub open spec fn le_bytes(v: nat, n: nat) -> Seq<u8>
    decreases n,
{
    if n == 0 {
        Seq::empty()
    } else {
        seq![(v % 256) as u8] + le_bytes(v / 256, (n - 1) as nat)
    }
}

/// The byte string of length `n` of a number has `n` bytes.
pub proof fn lemma_le_bytes_len(v: nat, n: nat)
    ensures
        le_bytes(v, n).len() == n,
    decreases n,
{
    if n > 0 {
        lemma_le_bytes_len(v / 256, (n - 1) as nat);
    }
}

/// The byte string of a number that fits in `n` bytes denotes that number.
pub proof fn lemma_le_bytes_value(v: nat, n: nat)
    requires
        v < byte_pow(n),
    ensures
        bytes_value(le_bytes(v, n)) == v,
    decreases n,
{
    if n > 0 {
        let s = le_bytes(v, n);
        let rest = le_bytes(v / 256, (n - 1) as nat);
        lemma_le_bytes_len(v / 256, (n - 1) as nat);
        lemma_le_bytes_value(v / 256, (n - 1) as nat);
        lemma_bytes_head(s);
        assert(s.drop_first() =~= rest);
        assert(s[0] == (v % 256) as u8);
    }
}

/// A byte string of `n` bytes denotes a number below 256^n.
pub proof fn lemma_bytes_bound(s: Seq<u8>)
    ensures
        bytes_value(s) < byte_pow(s.len()),
    decreases s.len(),
{
    if s.len() > 0 {
        lemma_bytes_bound(s.drop_last());
        let h = bytes_value(s.drop_last());
        let r = byte_pow((s.len() - 1) as nat);
        let l = s.last() as nat;
        assert(h + l * r < 256 * r) by (nonlinear_arith)
            requires
                h < r,
                l <= 255,
        ;
    }
}

/// Two byte strings of one length that denote the same number are the same.
pub proof fn lemma_bytes_unique(a: Seq<u8>, b: Seq<u8>)
    requires
        a.len() == b.len(),
        bytes_value(a) == bytes_value(b),
    ensures
        a =~= b,
    decreases a.len(),
{
    if a.len() > 0 {
        let r = byte_pow((a.len() - 1) as nat);
        let ha = bytes_value(a.drop_last());
        let hb = bytes_value(b.drop_last());
        let la = a.last() as nat;
        let lb = b.last() as nat;
        lemma_bytes_bound(a.drop_last());
        lemma_bytes_bound(b.drop_last());
        assert(la == lb) by (nonlinear_arith)
            requires
                ha + la * r == hb + lb * r,
                ha < r,
                hb < r,
        ;
        lemma_bytes_unique(a.drop_last(), b.drop_last());
        assert forall|i: int| 0 <= i < a.len() implies a[i] == b[i] by {
            if i < a.len() - 1 {
                assert(a.drop_last()[i] == b.drop_last()[i]);
            }
        }
    }
}

/// Every byte string is the byte string of the number it denotes.
pub proof fn lemma_bytes_canonical(s: Seq<u8>)
    ensures
        s == le_bytes(bytes_value(s), s.len()),
{
    lemma_bytes_bound(s);
    lemma_le_bytes_value(bytes_value(s), s.len());
    lemma_le_bytes_len(bytes_value(s), s.len());
    lemma_bytes_unique(s, le_bytes(bytes_value(s), s.len()));
}

} // verus!
