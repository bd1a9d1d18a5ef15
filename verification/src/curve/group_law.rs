//! What holds of the group operations and of the encodings, for every
//! point and not only for those a test happens to try.

use crate::curve::affine::{affine_on_curve, extended_of, AffineCoordinates};
use crate::curve::closure::{lemma_add_closed, lemma_double_closed, lemma_negate_closed};
use crate::curve::extended_edwards::{
    decoded_coordinates, edwards_add, edwards_d, edwards_double, edwards_negate,
    encoded_coordinates, generator_coordinates, generator_x, generator_y, identity_coordinates,
    niels_add, on_curve, same_point, satisfies_curve, scalar_multiple, sixteen_times,
    windowed_multiple, Coordinates,
};
use crate::curve::field::bytes::{
    bytes_value, le_bytes, lemma_byte_pow_limb, lemma_bytes_canonical, lemma_le_bytes_len,
    lemma_le_bytes_value,
};
use crate::curve::field::congruence::{
    cong, fmod, lemma_cong_add, lemma_cong_mul, lemma_cong_sub, lemma_field_prime_positive,
    lemma_fmod_cong,
};
use crate::curve::field::field_element::field_prime;
use crate::curve::field::limbs::{lemma_radix_pow_is_pow2, lemma_value_14};
use crate::curve::field::lookup_table::{signed_entry, small_multiple, table_of};
use crate::curve::field::scalar::{
    group_order, lemma_group_order_positive, lemma_radix16_unfold, radix16_digit, radix16_digits,
    radix16_rest,
};
use crate::curve::projective_niels::{niels_identity, niels_negate, niels_of};
use vstd::arithmetic::div_mod::*;
use vstd::arithmetic::power2::*;
use vstd::prelude::*;

verus! {

/// The coordinates of a point, each multiplied by `k`: another tuple for
/// the same point where `k` is not 0 in the field.
pub open spec fn scaled(p: Coordinates, k: int) -> Coordinates {
    Coordinates { x: fmod(k * p.x), y: fmod(k * p.y), z: fmod(k * p.z), t: fmod(k * p.t) }
}

/// The multiple of a point by an integer: the multiple by the scalar that
/// the integer is taken to.
pub open spec fn integer_multiple(p: Coordinates, k: nat) -> Coordinates {
    scalar_multiple(p, k % group_order())
}

/// Every coordinate is a residue modulo the field prime.
pub open spec fn reduced(p: Coordinates) -> bool {
    &&& 0 <= p.x < field_prime()
    &&& 0 <= p.y < field_prime()
    &&& 0 <= p.z < field_prime()
    &&& 0 <= p.t < field_prime()
}

/// Multiplying by an integer and multiplying by its residue modulo the
/// group order give the same point, however large the integer.
pub proof fn lemma_multiple_of_residue(p: Coordinates, k: nat)
    ensures
        integer_multiple(p, k) == integer_multiple(p, k % group_order()),
{
    lemma_group_order_positive();
    lemma_mod_twice(k as int, group_order() as int);
}

/// Scaling all four coordinates leaves the point what it was.
pub proof fn lemma_scaled_same_point(p: Coordinates, k: int)
    ensures
        same_point(scaled(p, k), p),
{
    lemma_fmod_cong(k * p.x);
    lemma_fmod_cong(k * p.y);
    lemma_fmod_cong(k * p.z);
    lemma_cong_mul(fmod(k * p.x), p.z, k * p.x, p.z);
    lemma_cong_mul(p.x, fmod(k * p.z), p.x, k * p.z);
    lemma_cong_mul(fmod(k * p.y), p.z, k * p.y, p.z);
    lemma_cong_mul(p.y, fmod(k * p.z), p.y, k * p.z);
    assert((k * p.x) * p.z == p.x * (k * p.z)) by (nonlinear_arith);
    assert((k * p.y) * p.z == p.y * (k * p.z)) by (nonlinear_arith);
}

/// Addition is commutative, coordinate by coordinate.
pub proof fn lemma_add_commutative(p: Coordinates, q: Coordinates)
    ensures
        edwards_add(p, q) == edwards_add(q, p),
{
    assert(p.x * q.y + p.y * q.x == q.x * p.y + q.y * p.x) by (nonlinear_arith);
    assert(p.y * q.y - p.x * q.x == q.y * p.y - q.x * p.x) by (nonlinear_arith);
    assert(p.z * q.z == q.z * p.z) by (nonlinear_arith);
    assert(p.t * q.t == q.t * p.t) by (nonlinear_arith);
}

/// Adding the neutral element leaves every point what it was.
pub proof fn lemma_add_identity(p: Coordinates)
    ensures
        same_point(edwards_add(p, identity_coordinates()), p),
{
    let r = edwards_add(p, identity_coordinates());
    assert(p.x * 1 + p.y * 0 == p.x) by (nonlinear_arith);
    assert(p.y * 1 - p.x * 0 == p.y) by (nonlinear_arith);
    assert(p.z * 1 - edwards_d() * (p.t * 0) == p.z) by (nonlinear_arith);
    assert(p.z * 1 + edwards_d() * (p.t * 0) == p.z) by (nonlinear_arith);
    assert(r.x == fmod(p.x * p.z));
    assert(r.y == fmod(p.y * p.z));
    assert(r.z == fmod(p.z * p.z));
    lemma_fmod_cong(p.x * p.z);
    lemma_fmod_cong(p.y * p.z);
    lemma_fmod_cong(p.z * p.z);
    lemma_cong_mul(r.x, p.z, p.x * p.z, p.z);
    lemma_cong_mul(p.x, r.z, p.x, p.z * p.z);
    lemma_cong_mul(r.y, p.z, p.y * p.z, p.z);
    lemma_cong_mul(p.y, r.z, p.y, p.z * p.z);
    assert((p.x * p.z) * p.z == p.x * (p.z * p.z)) by (nonlinear_arith);
    assert((p.y * p.z) * p.z == p.y * (p.z * p.z)) by (nonlinear_arith);
}

/// The sum of a point that satisfies the equations of the curve and its
/// negative is the neutral element.
pub proof fn lemma_add_negative(p: Coordinates)
    requires
        satisfies_curve(p),
    ensures
        same_point(edwards_add(p, edwards_negate(p)), identity_coordinates()),
{
    let d = edwards_d();
    let x = p.x;
    let y = p.y;
    let z = p.z;
    let t = p.t;
    let nx = fmod(-x);
    let nt = fmod(-t);
    let s = x * y + y * nx;
    let m = y * y - x * nx;
    let f = z * z - d * (t * nt);
    let g = z * z + d * (t * nt);
    let r = edwards_add(p, edwards_negate(p));
    assert(r.x == fmod(s * f));
    assert(r.y == fmod(m * g));
    assert(r.z == fmod(f * g));
    lemma_fmod_cong(-x);
    lemma_fmod_cong(-t);
    // the first coordinate vanishes
    lemma_cong_mul(y, nx, y, -x);
    lemma_cong_add(x * y, y * nx, x * y, y * (-x));
    assert(x * y + y * (-x) == 0) by (nonlinear_arith);
    lemma_cong_mul(s, f, 0, f);
    assert(0 * f == 0) by (nonlinear_arith);
    lemma_fmod_cong(s * f);
    assert(r.x * 1 == r.x) by (nonlinear_arith);
    assert(0 * r.z == 0) by (nonlinear_arith);
    // the second and the third agree, by the curve equation
    lemma_cong_mul(x, nx, x, -x);
    lemma_cong_sub(y * y, x * nx, y * y, x * (-x));
    assert(y * y - x * (-x) == x * x + y * y) by (nonlinear_arith);
    lemma_cong_mul(t, nt, t, -t);
    lemma_cong_mul(d, t * nt, d, t * (-t));
    lemma_cong_sub(z * z, d * (t * nt), z * z, d * (t * (-t)));
    assert(z * z - d * (t * (-t)) == z * z + d * (t * t)) by (nonlinear_arith);
    assert(cong(m, f));
    lemma_cong_mul(m, g, f, g);
    assert(r.y * 1 == r.y) by (nonlinear_arith);
    assert(1 * r.z == r.z) by (nonlinear_arith);
}

/// Doubling a point that satisfies the equations of the curve gives the
/// point that adding it to itself gives.
pub proof fn lemma_double_is_add(p: Coordinates)
    requires
        satisfies_curve(p),
    ensures
        same_point(edwards_double(p), edwards_add(p, p)),
{
    let d = edwards_d();
    let x = p.x;
    let y = p.y;
    let z = p.z;
    let t = p.t;
    let e = 2 * (x * y);
    let g = x * x + y * y;
    let f = g - 2 * (z * z);
    let h = x * x - y * y;
    let s = x * y + y * x;
    let m = y * y - x * x;
    let fa = z * z - d * (t * t);
    let ga = z * z + d * (t * t);
    let dbl = edwards_double(p);
    let sum = edwards_add(p, p);
    assert(dbl.x == fmod(e * f) && dbl.y == fmod(g * h) && dbl.z == fmod(f * g));
    assert(sum.x == fmod(s * fa) && sum.y == fmod(m * ga) && sum.z == fmod(fa * ga));
    lemma_fmod_cong(e * f);
    lemma_fmod_cong(g * h);
    lemma_fmod_cong(f * g);
    lemma_fmod_cong(s * fa);
    lemma_fmod_cong(m * ga);
    lemma_fmod_cong(fa * ga);
    // on the curve g is ga, and so f is -fa
    assert(cong(g, ga));
    lemma_cong_sub(g, 2 * (z * z), ga, 2 * (z * z));
    assert(ga - 2 * (z * z) == -fa);
    assert(cong(f, -fa));
    lemma_cong_mul(f, g, -fa, ga);
    lemma_cong_mul(g, h, ga, h);
    // first coordinates
    lemma_cong_mul(dbl.x, sum.z, e * f, fa * ga);
    lemma_cong_mul(sum.x, dbl.z, s * fa, f * g);
    lemma_cong_mul(e, f, e, -fa);
    lemma_cong_mul(e * f, fa * ga, e * (-fa), fa * ga);
    lemma_cong_mul(s * fa, f * g, s * fa, (-fa) * ga);
    assert((e * (-fa)) * (fa * ga) == (s * fa) * ((-fa) * ga)) by (nonlinear_arith)
        requires
            s == e,
    ;
    // second coordinates
    lemma_cong_mul(dbl.y, sum.z, g * h, fa * ga);
    lemma_cong_mul(sum.y, dbl.z, m * ga, f * g);
    lemma_cong_mul(g * h, fa * ga, ga * h, fa * ga);
    lemma_cong_mul(m * ga, f * g, m * ga, (-fa) * ga);
    assert((ga * h) * (fa * ga) == (m * ga) * ((-fa) * ga)) by (nonlinear_arith)
        requires
            m == -h,
    ;
}

/// Adding the precomputed form of a point gives the sum with that point,
/// each coordinate multiplied by 4.
pub proof fn lemma_niels_add_is_add(p: Coordinates, q: Coordinates)
    ensures
        niels_add(p, niels_of(q)) == scaled(edwards_add(p, q), 4),
        same_point(niels_add(p, niels_of(q)), edwards_add(p, q)),
{
    let d = edwards_d();
    let n = niels_of(q);
    let a = (p.y - p.x) * n.y_minus_x;
    let b = (p.y + p.x) * n.y_plus_x;
    let w = p.x * (n.y_plus_x - n.y_minus_x);
    let e = b - a;
    let h = b + a - (w + w);
    let c = p.t * n.td;
    let f = (p.z * n.z + p.z * n.z) - c;
    let g = (p.z * n.z + p.z * n.z) + c;
    let s = p.x * q.y + p.y * q.x;
    let m = p.y * q.y - p.x * q.x;
    let fa = p.z * q.z - d * (p.t * q.t);
    let ga = p.z * q.z + d * (p.t * q.t);
    lemma_fmod_cong(q.y + q.x);
    lemma_fmod_cong(q.y - q.x);
    lemma_fmod_cong(d * q.t + d * q.t);
    lemma_cong_mul(p.y - p.x, n.y_minus_x, p.y - p.x, q.y - q.x);
    lemma_cong_mul(p.y + p.x, n.y_plus_x, p.y + p.x, q.y + q.x);
    lemma_cong_sub(n.y_plus_x, n.y_minus_x, q.y + q.x, q.y - q.x);
    lemma_cong_mul(p.x, n.y_plus_x - n.y_minus_x, p.x, (q.y + q.x) - (q.y - q.x));
    lemma_cong_mul(p.t, n.td, p.t, d * q.t + d * q.t);
    let ai = (p.y - p.x) * (q.y - q.x);
    let bi = (p.y + p.x) * (q.y + q.x);
    let wi = p.x * ((q.y + q.x) - (q.y - q.x));
    let ci = p.t * (d * q.t + d * q.t);
    lemma_cong_sub(b, a, bi, ai);
    lemma_cong_add(b, a, bi, ai);
    lemma_cong_add(w, w, wi, wi);
    lemma_cong_sub(b + a, w + w, bi + ai, wi + wi);
    lemma_cong_sub(p.z * n.z + p.z * n.z, c, p.z * q.z + p.z * q.z, ci);
    lemma_cong_add(p.z * n.z + p.z * n.z, c, p.z * q.z + p.z * q.z, ci);
    assert(bi - ai == 2 * s) by (nonlinear_arith)
        requires
            ai == (p.y - p.x) * (q.y - q.x),
            bi == (p.y + p.x) * (q.y + q.x),
            s == p.x * q.y + p.y * q.x,
    ;
    assert(bi + ai - (wi + wi) == 2 * m) by (nonlinear_arith)
        requires
            ai == (p.y - p.x) * (q.y - q.x),
            bi == (p.y + p.x) * (q.y + q.x),
            wi == p.x * ((q.y + q.x) - (q.y - q.x)),
            m == p.y * q.y - p.x * q.x,
    ;
    assert(ci == 2 * (d * (p.t * q.t))) by (nonlinear_arith)
        requires
            ci == p.t * (d * q.t + d * q.t),
    ;
    assert((p.z * q.z + p.z * q.z) - ci == 2 * fa);
    assert((p.z * q.z + p.z * q.z) + ci == 2 * ga);
    assert(cong(e, 2 * s) && cong(h, 2 * m) && cong(f, 2 * fa) && cong(g, 2 * ga));
    lemma_cong_mul(e, f, 2 * s, 2 * fa);
    lemma_cong_mul(g, h, 2 * ga, 2 * m);
    lemma_cong_mul(f, g, 2 * fa, 2 * ga);
    lemma_cong_mul(e, h, 2 * s, 2 * m);
    let sum = edwards_add(p, q);
    lemma_fmod_cong(s * fa);
    lemma_fmod_cong(m * ga);
    lemma_fmod_cong(fa * ga);
    lemma_fmod_cong(s * m);
    lemma_cong_mul(4, sum.x, 4, s * fa);
    lemma_cong_mul(4, sum.y, 4, m * ga);
    lemma_cong_mul(4, sum.z, 4, fa * ga);
    lemma_cong_mul(4, sum.t, 4, s * m);
    assert((2 * s) * (2 * fa) == 4 * (s * fa)) by (nonlinear_arith);
    assert((2 * ga) * (2 * m) == 4 * (m * ga)) by (nonlinear_arith);
    assert((2 * fa) * (2 * ga) == 4 * (fa * ga)) by (nonlinear_arith);
    assert((2 * s) * (2 * m) == 4 * (s * m)) by (nonlinear_arith);
    lemma_scaled_same_point(sum, 4);
}

/// Decoding the encoding of a field element gives the element back.
pub proof fn lemma_field_decode_encode(v: nat)
    requires
        v < field_prime(),
    ensures
        le_bytes(v, 56).len() == 56,
        bytes_value(le_bytes(v, 56)) % field_prime() == v,
{
    lemma_byte_pow_limb(14);
    lemma_radix_pow_is_pow2(14);
    lemma_pow2_pos(224);
    lemma_pow2_strictly_increases(224, 448);
    lemma_le_bytes_len(v, 56);
    lemma_le_bytes_value(v, 56);
    lemma_small_mod(v, field_prime());
}

/// Encoding what 56 bytes decode to gives the bytes back, where they are
/// the encoding of a number below the field prime.
pub proof fn lemma_field_encode_decode(bytes: Seq<u8>)
    requires
        bytes.len() == 56,
        bytes_value(bytes) < field_prime(),
    ensures
        le_bytes(bytes_value(bytes) % field_prime(), 56) == bytes,
{
    lemma_small_mod(bytes_value(bytes), field_prime());
    lemma_bytes_canonical(bytes);
}

/// Decoding the encoding of a point gives the point back.
pub proof fn lemma_point_decode_encode(p: Coordinates)
    requires
        reduced(p),
    ensures
        encoded_coordinates(p).len() == 224,
        decoded_coordinates(encoded_coordinates(p)) == p,
{
    let e = encoded_coordinates(p);
    lemma_field_decode_encode(p.x as nat);
    lemma_field_decode_encode(p.y as nat);
    lemma_field_decode_encode(p.z as nat);
    lemma_field_decode_encode(p.t as nat);
    assert(e.subrange(0, 56) =~= le_bytes(p.x as nat, 56));
    assert(e.subrange(56, 112) =~= le_bytes(p.y as nat, 56));
    assert(e.subrange(112, 168) =~= le_bytes(p.z as nat, 56));
    assert(e.subrange(168, 224) =~= le_bytes(p.t as nat, 56));
}

/// Encoding what 224 bytes decode to gives the bytes back, where each of
/// their four parts is the encoding of a number below the field prime.
pub proof fn lemma_point_encode_decode(bytes: Seq<u8>)
    requires
        bytes.len() == 224,
        bytes_value(bytes.subrange(0, 56)) < field_prime(),
        bytes_value(bytes.subrange(56, 112)) < field_prime(),
        bytes_value(bytes.subrange(112, 168)) < field_prime(),
        bytes_value(bytes.subrange(168, 224)) < field_prime(),
    ensures
        encoded_coordinates(decoded_coordinates(bytes)) == bytes,
{
    lemma_field_encode_decode(bytes.subrange(0, 56));
    lemma_field_encode_decode(bytes.subrange(56, 112));
    lemma_field_encode_decode(bytes.subrange(112, 168));
    lemma_field_encode_decode(bytes.subrange(168, 224));
    assert(encoded_coordinates(decoded_coordinates(bytes)) =~= bytes);
}

/// The coordinates are of the shape (0, w, w, 0), that of the neutral
/// element.
pub open spec fn neutral_shape(p: Coordinates) -> bool {
    p.x == 0 && p.t == 0 && p.y == p.z
}

/// Doubling keeps the shape of the neutral element.
pub proof fn lemma_double_neutral(p: Coordinates)
    requires
        neutral_shape(p),
    ensures
        neutral_shape(edwards_double(p)),
{
    let y = p.y;
    let e = 2 * (p.x * p.y);
    let g = p.x * p.x + p.y * p.y;
    let f = g - 2 * (p.z * p.z);
    let h = p.x * p.x - p.y * p.y;
    lemma_field_prime_positive();
    assert(p.x * p.y == 0) by (nonlinear_arith)
        requires
            p.x == 0,
    ;
    assert(p.x * p.x == 0) by (nonlinear_arith)
        requires
            p.x == 0,
    ;
    assert(f == h);
    assert(e * f == 0 && e * h == 0) by (nonlinear_arith)
        requires
            e == 0,
    ;
    assert(g * h == f * g) by (nonlinear_arith)
        requires
            f == h,
    ;
    lemma_small_mod(0, field_prime());
}

/// Adding the neutral element in precomputed form keeps the shape of the
/// neutral element.
pub proof fn lemma_niels_add_neutral(p: Coordinates)
    requires
        neutral_shape(p),
    ensures
        neutral_shape(niels_add(p, niels_identity())),
{
    let n = niels_identity();
    let a = (p.y - p.x) * n.y_minus_x;
    let b = (p.y + p.x) * n.y_plus_x;
    let w = p.x * (n.y_plus_x - n.y_minus_x);
    let e = b - a;
    let h = b + a - (w + w);
    let c = p.t * n.td;
    let f = (p.z * n.z + p.z * n.z) - c;
    let g = (p.z * n.z + p.z * n.z) + c;
    lemma_field_prime_positive();
    assert(a == p.y && b == p.y && w == 0 && c == 0 && p.z * n.z == p.y) by (nonlinear_arith)
        requires
            p.x == 0,
            p.t == 0,
            p.y == p.z,
            n.y_minus_x == 1,
            n.y_plus_x == 1,
            n.z == 1,
            n.td == 0,
            a == (p.y - p.x) * n.y_minus_x,
            b == (p.y + p.x) * n.y_plus_x,
            w == p.x * (n.y_plus_x - n.y_minus_x),
            c == p.t * n.td,
    ;
    assert(e * f == 0 && e * h == 0) by (nonlinear_arith)
        requires
            e == 0,
    ;
    assert(g * h == f * g) by (nonlinear_arith)
        requires
            f == g,
            g == h,
    ;
    lemma_small_mod(0, field_prime());
}

/// The multiple that digits which are all 0 stand for has the shape of the
/// neutral element.
pub proof fn lemma_windowed_zero(p: Coordinates, n: nat)
    ensures
        neutral_shape(windowed_multiple(p, radix16_digits(0, n))),
    decreases n,
{
    if n > 0 {
        lemma_radix16_unfold(0, n);
        let ds = radix16_digits(0, n);
        assert(radix16_digit(0) == 0);
        assert(radix16_rest(0) == 0);
        assert(ds.drop_first() =~= ds.skip(1));
        lemma_windowed_zero(p, (n - 1) as nat);
        let inner = windowed_multiple(p, radix16_digits(0, (n - 1) as nat));
        lemma_double_neutral(inner);
        lemma_double_neutral(edwards_double(inner));
        lemma_double_neutral(edwards_double(edwards_double(inner)));
        lemma_double_neutral(edwards_double(edwards_double(edwards_double(inner))));
        assert(signed_entry(table_of(p), 0) == niels_identity());
        lemma_niels_add_neutral(sixteen_times(inner));
    }
}

/// The multiple of any point by the scalar 0 is the neutral element.
pub proof fn lemma_zero_multiple(p: Coordinates)
    ensures
        same_point(scalar_multiple(p, 0), identity_coordinates()),
{
    lemma_windowed_zero(p, 113);
    let r = scalar_multiple(p, 0);
    assert(r.x * 1 == 0 * r.z) by (nonlinear_arith)
        requires
            r.x == 0,
    ;
    assert(r.y * 1 == 1 * r.z) by (nonlinear_arith)
        requires
            r.y == r.z,
    ;
}

/// Adding the precomputed form of a point to coordinates of the shape of
/// the neutral element gives that point.
pub proof fn lemma_niels_add_to_neutral(p: Coordinates, q: Coordinates)
    requires
        neutral_shape(p),
    ensures
        same_point(niels_add(p, niels_of(q)), q),
{
    let n = niels_of(q);
    let v = p.y;
    let a = (p.y - p.x) * n.y_minus_x;
    let b = (p.y + p.x) * n.y_plus_x;
    let w = p.x * (n.y_plus_x - n.y_minus_x);
    let e = b - a;
    let h = b + a - (w + w);
    let c = p.t * n.td;
    let f = (p.z * n.z + p.z * n.z) - c;
    let g = (p.z * n.z + p.z * n.z) + c;
    let r = niels_add(p, n);
    let u = v * q.z + v * q.z;
    assert(w == 0 && c == 0) by (nonlinear_arith)
        requires
            p.x == 0,
            p.t == 0,
            w == p.x * (n.y_plus_x - n.y_minus_x),
            c == p.t * n.td,
    ;
    assert(f == u && g == u);
    lemma_fmod_cong(q.y + q.x);
    lemma_fmod_cong(q.y - q.x);
    lemma_cong_mul(v, n.y_minus_x, v, q.y - q.x);
    lemma_cong_mul(v, n.y_plus_x, v, q.y + q.x);
    lemma_cong_sub(b, a, v * (q.y + q.x), v * (q.y - q.x));
    lemma_cong_add(b, a, v * (q.y + q.x), v * (q.y - q.x));
    let ei = v * q.x + v * q.x;
    let hi = v * q.y + v * q.y;
    assert(v * (q.y + q.x) - v * (q.y - q.x) == ei) by (nonlinear_arith)
        requires
            ei == v * q.x + v * q.x,
    ;
    assert(v * (q.y + q.x) + v * (q.y - q.x) == hi) by (nonlinear_arith)
        requires
            hi == v * q.y + v * q.y,
    ;
    assert(cong(e, ei) && cong(h, hi));
    lemma_cong_mul(e, u, ei, u);
    lemma_cong_mul(u, h, u, hi);
    lemma_fmod_cong(e * f);
    lemma_fmod_cong(g * h);
    lemma_fmod_cong(f * g);
    lemma_cong_mul(r.x, q.z, ei * u, q.z);
    lemma_cong_mul(q.x, r.z, q.x, u * u);
    lemma_cong_mul(r.y, q.z, u * hi, q.z);
    lemma_cong_mul(q.y, r.z, q.y, u * u);
    assert((ei * u) * q.z == q.x * (u * u)) by (nonlinear_arith)
        requires
            ei == v * q.x + v * q.x,
            u == v * q.z + v * q.z,
    ;
    assert((u * hi) * q.z == q.y * (u * u)) by (nonlinear_arith)
        requires
            hi == v * q.y + v * q.y,
            u == v * q.z + v * q.z,
    ;
}

/// The multiple of any point by the scalar 1 is that point.
pub proof fn lemma_one_multiple(p: Coordinates)
    ensures
        same_point(scalar_multiple(p, 1), p),
{
    lemma_radix16_unfold(1, 113);
    let ds = radix16_digits(1, 113);
    assert(radix16_digit(1) == 1);
    assert(radix16_rest(1) == 0);
    assert(ds.drop_first() =~= ds.skip(1));
    lemma_windowed_zero(p, 112);
    let inner = windowed_multiple(p, radix16_digits(0, 112));
    lemma_double_neutral(inner);
    lemma_double_neutral(edwards_double(inner));
    lemma_double_neutral(edwards_double(edwards_double(inner)));
    lemma_double_neutral(edwards_double(edwards_double(edwards_double(inner))));
    assert(small_multiple(p, 1) == p);
    assert(table_of(p)[0] == niels_of(small_multiple(p, 1)));
    assert(signed_entry(table_of(p), 1) == niels_of(p));
    lemma_niels_add_to_neutral(sixteen_times(inner), p);
}

/// The neutral element is a point of the curve.
pub proof fn lemma_identity_on_curve()
    ensures
        on_curve(identity_coordinates()),
{
    lemma_value_14(Seq::new(14, |i: int| 0u32));
    lemma_radix_pow_is_pow2(14);
    lemma_radix_pow_is_pow2(7);
    lemma_small_mod(1, field_prime());
    let c = identity_coordinates();
    assert(c.x * c.x + c.y * c.y == 1 && c.z * c.z + edwards_d() * (c.t * c.t) == 1 && c.x * c.y
        == 0 && c.z * c.t == 0) by (nonlinear_arith)
        requires
            c.x == 0,
            c.y == 1,
            c.z == 1,
            c.t == 0,
    ;
}

/// The generator is a point of the curve.
pub proof fn lemma_generator_on_curve()
    ensures
        on_curve(generator_coordinates()),
{
    lemma_value_14(Seq::new(14, |i: int| 0u32));
    lemma_radix_pow_is_pow2(14);
    lemma_radix_pow_is_pow2(7);
    let p = field_prime() as int;
    let x = generator_x();
    let y = generator_y();
    let t = fmod(x * y);
    let d = edwards_d();
    assert(p
        == 726838724295606890549323807888004534353641360687318060281490199180612328166730772686396383698676545930088884461843637361053498018365439);
    let quotient: int =
        92329739730994760706254626489799964191446440221205643528032463220431094428234824107689225781406627216044599160893808928495432612758171int;
    let product: int =
        566053928361835949852834778149687438525473724399248069152339054586912418998433999863114841018499380965114687248170942704967194566956531int;
    let multiple: int =
        17228524064985918006951298406478492027399915523790181617496528940301318797477821853609761561820124559917827514055932446019638172586423328860int;
    assert(x * y == quotient * p + product) by (nonlinear_arith)
        requires
            x == 224580040295924300187604334099896036246789641632564134246125461686950415467406032909029192869357953282578032075146446173674602635247710int,
            y == 298819210078481492676017930443930673437544040154080242095928241372331506189835876003536878655418784733982303233503462500531545062832660int,
            p == 726838724295606890549323807888004534353641360687318060281490199180612328166730772686396383698676545930088884461843637361053498018365439int,
            quotient == 92329739730994760706254626489799964191446440221205643528032463220431094428234824107689225781406627216044599160893808928495432612758171int,
            product == 566053928361835949852834778149687438525473724399248069152339054586912418998433999863114841018499380965114687248170942704967194566956531int,
    ;
    lemma_fundamental_div_mod_converse_mod(x * y, p, quotient, product);
    assert(t == product);
    assert(x * x + y * y == (1 + d * (t * t)) + multiple * p) by (nonlinear_arith)
        requires
            x == 224580040295924300187604334099896036246789641632564134246125461686950415467406032909029192869357953282578032075146446173674602635247710int,
            y == 298819210078481492676017930443930673437544040154080242095928241372331506189835876003536878655418784733982303233503462500531545062832660int,
            p == 726838724295606890549323807888004534353641360687318060281490199180612328166730772686396383698676545930088884461843637361053498018365439int,
            t == 566053928361835949852834778149687438525473724399248069152339054586912418998433999863114841018499380965114687248170942704967194566956531int,
            d == -39081,
            multiple == 17228524064985918006951298406478492027399915523790181617496528940301318797477821853609761561820124559917827514055932446019638172586423328860int,
    ;
    lemma_mod_multiples_vanish(multiple, 1 + d * (t * t), p);
    assert(p * multiple == multiple * p) by (nonlinear_arith);
    lemma_small_mod(1, field_prime());
    assert(1 * t == t);
    assert(1 * 1 == 1);
}

/// The sum of the generator and its negative is the neutral element.
pub proof fn lemma_generator_add_negative()
    ensures
        same_point(
            edwards_add(generator_coordinates(), edwards_negate(generator_coordinates())),
            identity_coordinates(),
        ),
{
    lemma_generator_on_curve();
    lemma_add_negative(generator_coordinates());
}

/// The multiple of any point by a scalar from 1 to 8 is the point added to
/// itself that many times. For the scalar 2 this is the sum of the point
/// with itself.
pub proof fn lemma_small_scalar_multiple(p: Coordinates, k: nat)
    requires
        1 <= k <= 8,
    ensures
        same_point(scalar_multiple(p, k), small_multiple(p, k)),
        k == 2 ==> small_multiple(p, k) == edwards_add(p, p),
{
    lemma_radix16_unfold(k, 113);
    let ds = radix16_digits(k, 113);
    assert(radix16_digit(k) == k);
    assert(radix16_rest(k) == 0);
    assert(ds.drop_first() =~= ds.skip(1));
    lemma_windowed_zero(p, 112);
    let inner = windowed_multiple(p, radix16_digits(0, 112));
    lemma_double_neutral(inner);
    lemma_double_neutral(edwards_double(inner));
    lemma_double_neutral(edwards_double(edwards_double(inner)));
    lemma_double_neutral(edwards_double(edwards_double(edwards_double(inner))));
    assert(table_of(p)[k - 1] == niels_of(small_multiple(p, k)));
    assert(signed_entry(table_of(p), k as int) == niels_of(small_multiple(p, k)));
    lemma_niels_add_to_neutral(sixteen_times(inner), small_multiple(p, k));
    if k == 2 {
        assert(small_multiple(p, 1) == p);
        assert(small_multiple(p, 2) == edwards_add(small_multiple(p, 1), p));
    }
}

/// The multiple of a point that a signed digit stands for, by the plain
/// group operations: nothing for 0, the point added to itself for a digit
/// from 1 to 8, and the negative of that for a negative digit.
pub open spec fn signed_multiple(p: Coordinates, d: int) -> Coordinates {
    let a = if d < 0 {
        -d
    } else {
        d
    };
    let base = if 1 <= a <= 8 {
        small_multiple(p, a as nat)
    } else {
        identity_coordinates()
    };
    if d < 0 {
        edwards_negate(base)
    } else {
        base
    }
}

/// The multiple of a point that a sequence of signed radix-16 digits stands
/// for, by Horner's rule in the plain group operations: sixteen times what
/// the higher digits stand for, plus the multiple of the least digit.
pub open spec fn horner_multiple(p: Coordinates, digits: Seq<int>) -> Coordinates
    decreases digits.len(),
{
    if digits.len() == 0 {
        identity_coordinates()
    } else {
        edwards_add(
            sixteen_times(horner_multiple(p, digits.drop_first())),
            signed_multiple(p, digits[0]),
        )
    }
}

/// The fourth power of an integer.
pub open spec fn fourth_power(u: int) -> int {
    (u * u) * (u * u)
}

/// The factor by which the coordinates that the windowed method computes
/// from `n` digits exceed those of Horner's rule: a power of 4.
pub open spec fn horner_scale(n: nat) -> int
    decreases n,
{
    if n == 0 {
        1
    } else {
        let v = fourth_power(
            fourth_power(fourth_power(fourth_power(horner_scale((n - 1) as nat)))),
        );
        fmod(4 * (v * v))
    }
}

/// Scaling by congruent factors gives the same coordinates.
pub proof fn lemma_scaled_cong(p: Coordinates, u: int, v: int)
    requires
        cong(u, v),
    ensures
        scaled(p, u) == scaled(p, v),
{
    lemma_cong_mul(u, p.x, v, p.x);
    lemma_cong_mul(u, p.y, v, p.y);
    lemma_cong_mul(u, p.z, v, p.z);
    lemma_cong_mul(u, p.t, v, p.t);
}

/// Scaling twice is scaling by the product.
pub proof fn lemma_scaled_twice(p: Coordinates, u: int, v: int)
    ensures
        scaled(scaled(p, u), v) == scaled(p, v * u),
{
    lemma_fmod_cong(u * p.x);
    lemma_fmod_cong(u * p.y);
    lemma_fmod_cong(u * p.z);
    lemma_fmod_cong(u * p.t);
    lemma_cong_mul(v, fmod(u * p.x), v, u * p.x);
    lemma_cong_mul(v, fmod(u * p.y), v, u * p.y);
    lemma_cong_mul(v, fmod(u * p.z), v, u * p.z);
    lemma_cong_mul(v, fmod(u * p.t), v, u * p.t);
    assert(v * (u * p.x) == (v * u) * p.x) by (nonlinear_arith);
    assert(v * (u * p.y) == (v * u) * p.y) by (nonlinear_arith);
    assert(v * (u * p.z) == (v * u) * p.z) by (nonlinear_arith);
    assert(v * (u * p.t) == (v * u) * p.t) by (nonlinear_arith);
}

/// Adding to scaled coordinates gives the sum, scaled by the square of the
/// factor.
pub proof fn lemma_add_scaled(a: Coordinates, b: Coordinates, u: int)
    ensures
        edwards_add(scaled(a, u), b) == scaled(edwards_add(a, b), u * u),
{
    let d = edwards_d();
    let c = scaled(a, u);
    lemma_fmod_cong(u * a.x);
    lemma_fmod_cong(u * a.y);
    lemma_fmod_cong(u * a.z);
    lemma_fmod_cong(u * a.t);
    let s = a.x * b.y + a.y * b.x;
    let m = a.y * b.y - a.x * b.x;
    let f = a.z * b.z - d * (a.t * b.t);
    let g = a.z * b.z + d * (a.t * b.t);
    let s1 = c.x * b.y + c.y * b.x;
    let m1 = c.y * b.y - c.x * b.x;
    let f1 = c.z * b.z - d * (c.t * b.t);
    let g1 = c.z * b.z + d * (c.t * b.t);
    lemma_cong_mul(c.x, b.y, u * a.x, b.y);
    lemma_cong_mul(c.y, b.x, u * a.y, b.x);
    lemma_cong_mul(c.y, b.y, u * a.y, b.y);
    lemma_cong_mul(c.x, b.x, u * a.x, b.x);
    lemma_cong_mul(c.z, b.z, u * a.z, b.z);
    lemma_cong_mul(c.t, b.t, u * a.t, b.t);
    lemma_cong_mul(d, c.t * b.t, d, (u * a.t) * b.t);
    lemma_cong_add(c.x * b.y, c.y * b.x, (u * a.x) * b.y, (u * a.y) * b.x);
    lemma_cong_sub(c.y * b.y, c.x * b.x, (u * a.y) * b.y, (u * a.x) * b.x);
    lemma_cong_sub(c.z * b.z, d * (c.t * b.t), (u * a.z) * b.z, d * ((u * a.t) * b.t));
    lemma_cong_add(c.z * b.z, d * (c.t * b.t), (u * a.z) * b.z, d * ((u * a.t) * b.t));
    lemma_shift_factor(u, a.x, b.y);
    lemma_shift_factor(u, a.y, b.x);
    lemma_shift_factor(u, a.y, b.y);
    lemma_shift_factor(u, a.x, b.x);
    lemma_shift_factor(u, a.z, b.z);
    lemma_shift_factor(u, a.t, b.t);
    let dtt = d * (a.t * b.t);
    assert(d * (u * (a.t * b.t)) == u * dtt) by (nonlinear_arith)
        requires
            dtt == d * (a.t * b.t),
    ;
    lemma_spread(u, a.x * b.y, a.y * b.x);
    lemma_spread(u, a.y * b.y, a.x * b.x);
    lemma_spread(u, a.z * b.z, dtt);
    assert((u * a.x) * b.y + (u * a.y) * b.x == u * s);
    assert((u * a.y) * b.y - (u * a.x) * b.x == u * m);
    assert((u * a.z) * b.z - d * ((u * a.t) * b.t) == u * f);
    assert((u * a.z) * b.z + d * ((u * a.t) * b.t) == u * g);
    lemma_pair_scaled(s1, f1, s, f, u, u);
    lemma_pair_scaled(m1, g1, m, g, u, u);
    lemma_pair_scaled(f1, g1, f, g, u, u);
    lemma_pair_scaled(s1, m1, s, m, u, u);
}

/// A factor moves from one operand of a product to the whole product.
pub proof fn lemma_shift_factor(u: int, x: int, y: int)
    ensures
        (u * x) * y == u * (x * y),
{
    assert((u * x) * y == u * (x * y)) by (nonlinear_arith);
}

/// A factor on both operands of a product is its square on the product.
pub proof fn lemma_square_factor(u: int, x: int, y: int)
    ensures
        (u * x) * (u * y) == (u * u) * (x * y),
{
    assert((u * x) * (u * y) == (u * u) * (x * y)) by (nonlinear_arith);
}

/// A factor spreads over a sum and over a difference.
pub proof fn lemma_spread(u: int, x: int, y: int)
    ensures
        u * (x + y) == u * x + u * y,
        u * (x - y) == u * x - u * y,
{
    assert(u * (x + y) == u * x + u * y) by (nonlinear_arith);
    assert(u * (x - y) == u * x - u * y) by (nonlinear_arith);
}

/// A product of two factors that are congruent to multiples is the
/// product, scaled.
pub proof fn lemma_pair_scaled(a1: int, b1: int, a: int, b: int, u: int, v: int)
    requires
        cong(a1, u * a),
        cong(b1, v * b),
    ensures
        fmod(a1 * b1) == fmod((u * v) * fmod(a * b)),
{
    lemma_cong_mul(a1, b1, u * a, v * b);
    lemma_fmod_cong(a * b);
    lemma_cong_mul(u * v, fmod(a * b), u * v, a * b);
    assert((u * a) * (v * b) == (u * v) * (a * b)) by (nonlinear_arith);
}

/// Doubling scaled coordinates gives the double, scaled by the fourth
/// power of the factor.
pub proof fn lemma_double_scaled(a: Coordinates, u: int)
    ensures
        edwards_double(scaled(a, u)) == scaled(edwards_double(a), fourth_power(u)),
{
    let c = scaled(a, u);
    let w = u * u;
    lemma_fmod_cong(u * a.x);
    lemma_fmod_cong(u * a.y);
    lemma_fmod_cong(u * a.z);
    let e = 2 * (a.x * a.y);
    let g = a.x * a.x + a.y * a.y;
    let f = g - 2 * (a.z * a.z);
    let h = a.x * a.x - a.y * a.y;
    let e1 = 2 * (c.x * c.y);
    let g1 = c.x * c.x + c.y * c.y;
    let f1 = g1 - 2 * (c.z * c.z);
    let h1 = c.x * c.x - c.y * c.y;
    lemma_cong_mul(c.x, c.y, u * a.x, u * a.y);
    lemma_cong_mul(c.x, c.x, u * a.x, u * a.x);
    lemma_cong_mul(c.y, c.y, u * a.y, u * a.y);
    lemma_cong_mul(c.z, c.z, u * a.z, u * a.z);
    lemma_cong_mul(2, c.x * c.y, 2, (u * a.x) * (u * a.y));
    lemma_cong_mul(2, c.z * c.z, 2, (u * a.z) * (u * a.z));
    lemma_cong_add(c.x * c.x, c.y * c.y, (u * a.x) * (u * a.x), (u * a.y) * (u * a.y));
    lemma_cong_sub(c.x * c.x, c.y * c.y, (u * a.x) * (u * a.x), (u * a.y) * (u * a.y));
    lemma_cong_sub(
        g1,
        2 * (c.z * c.z),
        (u * a.x) * (u * a.x) + (u * a.y) * (u * a.y),
        2 * ((u * a.z) * (u * a.z)),
    );
    lemma_square_factor(u, a.x, a.y);
    lemma_square_factor(u, a.x, a.x);
    lemma_square_factor(u, a.y, a.y);
    lemma_square_factor(u, a.z, a.z);
    lemma_spread(w, a.x * a.x, a.y * a.y);
    lemma_spread(w, g, 2 * (a.z * a.z));
    assert(w * (2 * (a.x * a.y)) == 2 * (w * (a.x * a.y))) by (nonlinear_arith);
    assert(w * (2 * (a.z * a.z)) == 2 * (w * (a.z * a.z))) by (nonlinear_arith);
    assert(2 * ((u * a.x) * (u * a.y)) == w * e);
    assert((u * a.x) * (u * a.x) + (u * a.y) * (u * a.y) == w * g);
    assert((u * a.x) * (u * a.x) - (u * a.y) * (u * a.y) == w * h);
    assert((u * a.x) * (u * a.x) + (u * a.y) * (u * a.y) - 2 * ((u * a.z) * (u * a.z)) == w * f);
    lemma_pair_scaled(e1, f1, e, f, w, w);
    lemma_pair_scaled(g1, h1, g, h, w, w);
    lemma_pair_scaled(f1, g1, f, g, w, w);
    lemma_pair_scaled(e1, h1, e, h, w, w);
}

/// Sixteen times scaled coordinates is sixteen times the point, scaled by
/// the factor raised to the power 256.
pub proof fn lemma_sixteen_scaled(a: Coordinates, u: int)
    ensures
        sixteen_times(scaled(a, u)) == scaled(
            sixteen_times(a),
            fourth_power(fourth_power(fourth_power(fourth_power(u)))),
        ),
{
    let u1 = fourth_power(u);
    let u2 = fourth_power(u1);
    let u3 = fourth_power(u2);
    let a1 = edwards_double(a);
    let a2 = edwards_double(a1);
    let a3 = edwards_double(a2);
    lemma_double_scaled(a, u);
    lemma_double_scaled(a1, u1);
    lemma_double_scaled(a2, u2);
    lemma_double_scaled(a3, u3);
}

/// The negative of a precomputed form is the precomputed form of the
/// negative.
pub proof fn lemma_niels_negate_of(q: Coordinates)
    ensures
        niels_negate(niels_of(q)) == niels_of(edwards_negate(q)),
{
    let d = edwards_d();
    let nx = fmod(-q.x);
    let nt = fmod(-q.t);
    let w = d * q.t + d * q.t;
    lemma_fmod_cong(-q.x);
    lemma_fmod_cong(-q.t);
    lemma_fmod_cong(w);
    lemma_cong_add(q.y, nx, q.y, -q.x);
    lemma_cong_sub(q.y, nx, q.y, -q.x);
    lemma_cong_mul(d, nt, d, -q.t);
    lemma_cong_add(d * nt, d * nt, d * (-q.t), d * (-q.t));
    lemma_cong_sub(0, fmod(w), 0, w);
    assert(d * (-q.t) + d * (-q.t) == 0 - w) by (nonlinear_arith)
        requires
            w == d * q.t + d * q.t,
    ;
}

/// The table entry of a signed digit is the precomputed form of the
/// multiple that the digit stands for.
pub proof fn lemma_signed_entry_of(p: Coordinates, d: int)
    ensures
        signed_entry(table_of(p), d) == niels_of(signed_multiple(p, d)),
{
    let a = if d < 0 {
        -d
    } else {
        d
    };
    let id = identity_coordinates();
    lemma_identity_on_curve();
    lemma_value_14(Seq::new(14, |i: int| 0u32));
    lemma_radix_pow_is_pow2(14);
    lemma_radix_pow_is_pow2(7);
    lemma_small_mod(1, field_prime());
    lemma_small_mod(0, field_prime());
    assert(edwards_d() * id.t + edwards_d() * id.t == 0) by (nonlinear_arith)
        requires
            id.t == 0,
    ;
    assert(niels_of(id) == niels_identity());
    if 1 <= a <= 8 {
        assert(table_of(p)[a - 1] == niels_of(small_multiple(p, a as nat)));
    }
    if d < 0 {
        if 1 <= a <= 8 {
            lemma_niels_negate_of(small_multiple(p, a as nat));
        } else {
            lemma_niels_negate_of(id);
        }
    }
}

/// The windowed method computes the coordinates of Horner's rule in the
/// plain group operations, each multiplied by one factor: the table and
/// the precomputed form change nothing but the scale.
pub proof fn lemma_windowed_is_horner(p: Coordinates, digits: Seq<int>)
    ensures
        windowed_multiple(p, digits) == scaled(
            horner_multiple(p, digits),
            horner_scale(digits.len()),
        ),
    decreases digits.len(),
{
    if digits.len() == 0 {
        lemma_value_14(Seq::new(14, |i: int| 0u32));
        lemma_radix_pow_is_pow2(14);
        lemma_radix_pow_is_pow2(7);
        lemma_small_mod(1, field_prime());
        lemma_small_mod(0, field_prime());
        let id = identity_coordinates();
        assert(1 * id.x == 0 && 1 * id.y == 1 && 1 * id.z == 1 && 1 * id.t == 0);
    } else {
        let rest = digits.drop_first();
        let u = horner_scale(rest.len());
        let v = fourth_power(fourth_power(fourth_power(fourth_power(u))));
        let lower = horner_multiple(p, rest);
        let q = signed_multiple(p, digits[0]);
        lemma_windowed_is_horner(p, rest);
        lemma_sixteen_scaled(lower, u);
        lemma_signed_entry_of(p, digits[0]);
        let top = sixteen_times(lower);
        lemma_niels_add_is_add(scaled(top, v), q);
        lemma_add_scaled(top, q, v);
        lemma_scaled_twice(edwards_add(top, q), v * v, 4);
        lemma_fmod_cong(4 * (v * v));
        lemma_scaled_cong(edwards_add(top, q), fmod(4 * (v * v)), 4 * (v * v));
    }
}

/// The multiple by a scalar is the point that Horner's rule on the signed
/// digits of the scalar gives in the plain group operations.
pub proof fn lemma_scalar_multiple_is_horner(p: Coordinates, k: nat)
    ensures
        same_point(scalar_multiple(p, k), horner_multiple(p, radix16_digits(k, 113))),
{
    let digits = radix16_digits(k, 113);
    lemma_windowed_is_horner(p, digits);
    lemma_scaled_same_point(horner_multiple(p, digits), horner_scale(digits.len()));
}

/// Scaled coordinates of a point that satisfies the equations of the curve
/// satisfy them.
pub proof fn lemma_scaled_closed(p: Coordinates, u: int)
    requires
        satisfies_curve(p),
    ensures
        satisfies_curve(scaled(p, u)),
{
    let d = edwards_d();
    let c = scaled(p, u);
    let w = u * u;
    lemma_fmod_cong(u * p.x);
    lemma_fmod_cong(u * p.y);
    lemma_fmod_cong(u * p.z);
    lemma_fmod_cong(u * p.t);
    lemma_cong_mul(c.x, c.x, u * p.x, u * p.x);
    lemma_cong_mul(c.y, c.y, u * p.y, u * p.y);
    lemma_cong_mul(c.z, c.z, u * p.z, u * p.z);
    lemma_cong_mul(c.t, c.t, u * p.t, u * p.t);
    lemma_cong_mul(c.x, c.y, u * p.x, u * p.y);
    lemma_cong_mul(c.z, c.t, u * p.z, u * p.t);
    lemma_square_factor(u, p.x, p.x);
    lemma_square_factor(u, p.y, p.y);
    lemma_square_factor(u, p.z, p.z);
    lemma_square_factor(u, p.t, p.t);
    lemma_square_factor(u, p.x, p.y);
    lemma_square_factor(u, p.z, p.t);
    lemma_cong_mul(d, c.t * c.t, d, w * (p.t * p.t));
    lemma_cong_add(c.x * c.x, c.y * c.y, w * (p.x * p.x), w * (p.y * p.y));
    lemma_cong_add(c.z * c.z, d * (c.t * c.t), w * (p.z * p.z), d * (w * (p.t * p.t)));
    lemma_spread(w, p.x * p.x, p.y * p.y);
    lemma_spread(w, p.z * p.z, d * (p.t * p.t));
    assert(d * (w * (p.t * p.t)) == w * (d * (p.t * p.t))) by (nonlinear_arith);
    lemma_cong_mul(w, p.x * p.x + p.y * p.y, w, p.z * p.z + d * (p.t * p.t));
    lemma_cong_mul(w, p.x * p.y, w, p.z * p.t);
}

/// Every multiple by repeated addition of a point that satisfies the
/// equations of the curve satisfies them.
pub proof fn lemma_small_multiple_closed(p: Coordinates, n: nat)
    requires
        satisfies_curve(p),
    ensures
        satisfies_curve(small_multiple(p, n)),
    decreases n,
{
    if n > 1 {
        lemma_small_multiple_closed(p, (n - 1) as nat);
        lemma_add_closed(small_multiple(p, (n - 1) as nat), p);
    }
}

/// What Horner's rule gives for a point that satisfies the equations of
/// the curve satisfies them.
pub proof fn lemma_horner_closed(p: Coordinates, digits: Seq<int>)
    requires
        satisfies_curve(p),
    ensures
        satisfies_curve(horner_multiple(p, digits)),
    decreases digits.len(),
{
    lemma_identity_on_curve();
    if digits.len() > 0 {
        let d = digits[0];
        let a = if d < 0 {
            -d
        } else {
            d
        };
        let lower = horner_multiple(p, digits.drop_first());
        lemma_horner_closed(p, digits.drop_first());
        lemma_double_closed(lower);
        lemma_double_closed(edwards_double(lower));
        lemma_double_closed(edwards_double(edwards_double(lower)));
        lemma_double_closed(edwards_double(edwards_double(edwards_double(lower))));
        let base = if 1 <= a <= 8 {
            small_multiple(p, a as nat)
        } else {
            identity_coordinates()
        };
        if 1 <= a <= 8 {
            lemma_small_multiple_closed(p, a as nat);
        }
        if d < 0 {
            lemma_negate_closed(base);
        }
        lemma_add_closed(sixteen_times(lower), signed_multiple(p, d));
    }
}

/// Every multiple by a scalar of a point that satisfies the equations of
/// the curve satisfies them.
pub proof fn lemma_scalar_multiple_closed(p: Coordinates, k: nat)
    requires
        satisfies_curve(p),
    ensures
        satisfies_curve(scalar_multiple(p, k)),
{
    let digits = radix16_digits(k, 113);
    lemma_windowed_is_horner(p, digits);
    lemma_horner_closed(p, digits);
    lemma_scaled_closed(horner_multiple(p, digits), horner_scale(digits.len()));
}

/// Adding a precomputed form of a point keeps the equations of the curve.
pub proof fn lemma_niels_add_closed(p: Coordinates, q: Coordinates)
    requires
        satisfies_curve(p),
        satisfies_curve(q),
    ensures
        satisfies_curve(niels_add(p, niels_of(q))),
{
    lemma_niels_add_is_add(p, q);
    lemma_add_closed(p, q);
    lemma_scaled_closed(edwards_add(p, q), 4);
}

/// The extended coordinates of a pair that satisfies the curve equation
/// are those of a point of the curve.
pub proof fn lemma_extended_of_on_curve(a: AffineCoordinates)
    requires
        affine_on_curve(a),
    ensures
        on_curve(extended_of(a)),
{
    let d = edwards_d();
    let t = fmod(a.x * a.y);
    lemma_value_14(Seq::new(14, |i: int| 0u32));
    lemma_radix_pow_is_pow2(14);
    lemma_radix_pow_is_pow2(7);
    lemma_small_mod(1, field_prime());
    lemma_fmod_cong(a.x * a.y);
    lemma_cong_mul(t, t, a.x * a.y, a.x * a.y);
    lemma_cong_mul(d, t * t, d, (a.x * a.y) * (a.x * a.y));
    lemma_cong_add(1, d * (t * t), 1, d * ((a.x * a.y) * (a.x * a.y)));
    assert((a.x * a.y) * (a.x * a.y) == (a.x * a.x) * (a.y * a.y)) by (nonlinear_arith);
    assert(1 * 1 == 1);
    assert(1 * t == t);
}

} // verus!
