//! Points in extended coordinates (X, Y, Z, T) on the curve
//! x^2 + y^2 = 1 - 39081 x^2 y^2, where x = X / Z, y = Y / Z and X Y = Z T.

use crate::curve::affine::{affine_on_curve, extended_of, AffineCoordinates, AffinePoint};
use crate::curve::closure::{lemma_add_closed, lemma_double_closed, lemma_negate_closed};
use crate::curve::field::bytes::{bytes_value, le_bytes, lemma_le_bytes_len};
use crate::curve::field::congruence::{
    cong, fmod, lemma_cong_add, lemma_cong_mul, lemma_cong_residue, lemma_cong_sub,
    lemma_difference_cong, lemma_field_prime_positive, lemma_fmod_cong, lemma_pairs_cong,
    lemma_product_cong, lemma_sum_cong,
};
use crate::curve::field::field_element::{field_inverse, field_prime, FieldElement};
use crate::curve::field::limbs::{lemma_radix_pow_is_pow2, lemma_value_14};
use crate::curve::field::lookup_table::{signed_entry, table_of, LookupTable};
use crate::curve::field::scalar::{lemma_radix16_len, radix16_digits, Scalar};
use crate::curve::group_law::{
    horner_multiple, lemma_extended_of_on_curve, lemma_generator_on_curve,
    lemma_identity_on_curve, lemma_scalar_multiple_closed, lemma_scalar_multiple_is_horner,
};
use crate::curve::projective_niels::{NielsCoordinates, ProjectiveNielsPoint};
use vstd::arithmetic::div_mod::*;
use vstd::prelude::*;
use vstd::std_specs::cmp::PartialEqSpecImpl;

verus! {

/// The curve constant d.
pub open spec fn edwards_d() -> int {
    -39081
}

/// The x-coordinate of the generator.
pub open spec fn generator_x() -> int {
    224580040295924300187604334099896036246789641632564134246125461686950415467406032909029192869357953282578032075146446173674602635247710int
}

/// The y-coordinate of the generator.
pub open spec fn generator_y() -> int {
    298819210078481492676017930443930673437544040154080242095928241372331506189835876003536878655418784733982303233503462500531545062832660int
}

/// The four coordinates of a point, each a residue modulo the field prime.
pub struct Coordinates {
    pub x: int,
    pub y: int,
    pub z: int,
    pub t: int,
}

/// The coordinates of the neutral element.
pub open spec fn identity_coordinates() -> Coordinates {
    Coordinates { x: 0, y: 1, z: 1, t: 0 }
}

/// The coordinates of the generator.
pub open spec fn generator_coordinates() -> Coordinates {
    Coordinates {
        x: generator_x(),
        y: generator_y(),
        z: 1,
        t: fmod(generator_x() * generator_y()),
    }
}

/// The extended coordinates satisfy X Y = Z T.
pub open spec fn is_extended(p: Coordinates) -> bool {
    cong(p.x * p.y, p.z * p.t)
}

/// The coordinates satisfy the equations of the curve in extended
/// coordinates: X^2 + Y^2 = Z^2 + d T^2 and X Y = Z T.
pub open spec fn satisfies_curve(p: Coordinates) -> bool {
    &&& cong(p.x * p.x + p.y * p.y, p.z * p.z + edwards_d() * (p.t * p.t))
    &&& is_extended(p)
}

/// The coordinates are those of a point of the curve: they satisfy its
/// equations, and Z is not 0.
pub open spec fn on_curve(p: Coordinates) -> bool {
    &&& satisfies_curve(p)
    &&& fmod(p.z) != 0
}

/// Two coordinate tuples stand for the same point: X1 Z2 = X2 Z1 and
/// Y1 Z2 = Y2 Z1.
pub open spec fn same_point(p: Coordinates, q: Coordinates) -> bool {
    &&& cong(p.x * q.z, q.x * p.z)
    &&& cong(p.y * q.z, q.y * p.z)
}

/// The negative of a point: (-X, Y, Z, -T).
pub open spec fn edwards_negate(p: Coordinates) -> Coordinates {
    Coordinates { x: fmod(-p.x), y: p.y, z: p.z, t: fmod(-p.t) }
}

/// The sum of two points by the unified addition law of the curve, in
/// homogeneous form.
pub open spec fn edwards_add(p: Coordinates, q: Coordinates) -> Coordinates {
    let s = p.x * q.y + p.y * q.x;
    let m = p.y * q.y - p.x * q.x;
    let f = p.z * q.z - edwards_d() * (p.t * q.t);
    let g = p.z * q.z + edwards_d() * (p.t * q.t);
    Coordinates { x: fmod(s * f), y: fmod(m * g), z: fmod(f * g), t: fmod(s * m) }
}

/// The double of a point by the doubling law of the curve, in homogeneous
/// form. On the curve the denominators 1 + d x^2 y^2 and 1 - d x^2 y^2 are
/// x^2 + y^2 and 2 - x^2 - y^2, so the constant d does not occur.
pub open spec fn edwards_double(p: Coordinates) -> Coordinates {
    let e = 2 * (p.x * p.y);
    let g = p.x * p.x + p.y * p.y;
    let f = g - 2 * (p.z * p.z);
    let h = p.x * p.x - p.y * p.y;
    Coordinates { x: fmod(e * f), y: fmod(g * h), z: fmod(f * g), t: fmod(e * h) }
}

/// The sum of a point and a point in precomputed form. Where the second
/// is the precomputed form of a point Q, each coordinate is four times
/// that of the sum with Q.
pub open spec fn niels_add(p: Coordinates, n: NielsCoordinates) -> Coordinates {
    let a = (p.y - p.x) * n.y_minus_x;
    let b = (p.y + p.x) * n.y_plus_x;
    let w = p.x * (n.y_plus_x - n.y_minus_x);
    let e = b - a;
    let h = b + a - (w + w);
    let c = p.t * n.td;
    let f = (p.z * n.z + p.z * n.z) - c;
    let g = (p.z * n.z + p.z * n.z) + c;
    Coordinates { x: fmod(e * f), y: fmod(g * h), z: fmod(f * g), t: fmod(e * h) }
}

/// Sixteen times a point, by four doublings.
pub open spec fn sixteen_times(p: Coordinates) -> Coordinates {
    edwards_double(edwards_double(edwards_double(edwards_double(p))))
}

/// The multiple of a point that a sequence of signed radix-16 digits, least
/// significant first, stands for: from the most significant digit down, the
/// accumulator is multiplied by 16 and the table entry of the digit is added.
pub open spec fn windowed_multiple(p: Coordinates, digits: Seq<int>) -> Coordinates
    decreases digits.len(),
{
    if digits.len() == 0 {
        identity_coordinates()
    } else {
        niels_add(
            sixteen_times(windowed_multiple(p, digits.drop_first())),
            signed_entry(table_of(p), digits[0]),
        )
    }
}

/// The multiple of a point by a scalar.
pub open spec fn scalar_multiple(p: Coordinates, k: nat) -> Coordinates {
    windowed_multiple(p, radix16_digits(k, 113))
}

/// The pair (X / Z, Y / Z) of a point in extended coordinates.
pub open spec fn affine_of(p: Coordinates) -> AffineCoordinates {
    AffineCoordinates { x: fmod(p.x * field_inverse(p.z)), y: fmod(p.y * field_inverse(p.z)) }
}

/// The coordinates that 224 bytes encode: X, Y, Z and T in this order, 56
/// little-endian bytes each, every number taken modulo the field prime.
pub open spec fn decoded_coordinates(bytes: Seq<u8>) -> Coordinates {
    Coordinates {
        x: fmod(bytes_value(bytes.subrange(0, 56)) as int),
        y: fmod(bytes_value(bytes.subrange(56, 112)) as int),
        z: fmod(bytes_value(bytes.subrange(112, 168)) as int),
        t: fmod(bytes_value(bytes.subrange(168, 224)) as int),
    }
}

/// The 224 bytes that encode coordinates: X, Y, Z and T in this order, 56
/// little-endian bytes each.
pub open spec fn encoded_coordinates(p: Coordinates) -> Seq<u8> {
    le_bytes(p.x as nat, 56) + le_bytes(p.y as nat, 56) + le_bytes(p.z as nat, 56) + le_bytes(
        p.t as nat,
        56,
    )
}

/// One of the four 56-byte parts of a 224-byte encoding.
fn quarter(bytes: &[u8; 224], k: usize) -> (r: [u8; 56])
    requires
        k < 4,
    ensures
        r@ == bytes@.subrange(56 * k as int, 56 * k + 56),
{
    let mut out = [0u8;56];
    let mut i: usize = 0;
    while i < 56
        invariant
            i <= 56,
            k < 4,
            forall|j: int| 0 <= j < i ==> out@[j] == bytes@[56 * k + j],
        decreases 56 - i,
    {
        out[i] = bytes[56 * k + i];
        i += 1;
    }
    assert(out@ =~= bytes@.subrange(56 * k as int, 56 * k + 56));
    out
}

/// Writes a 56-byte part into its place in a 224-byte encoding.
fn set_quarter(bytes: &mut [u8; 224], k: usize, part: &[u8; 56])
    requires
        k < 4,
    ensures
        final(bytes)@.subrange(56 * k as int, 56 * k + 56) == part@,
        forall|j: int|
            0 <= j < 224 && !(56 * k <= j < 56 * k + 56) ==> final(bytes)@[j] == old(bytes)@[j],
{
    let ghost before = bytes@;
    let mut i: usize = 0;
    while i < 56
        invariant
            i <= 56,
            k < 4,
            forall|j: int| 0 <= j < i ==> bytes@[56 * k + j] == part@[j],
            forall|j: int| 0 <= j < 224 && !(56 * k <= j < 56 * k + 56) ==> bytes@[j] == before[j],
        decreases 56 - i,
    {
        bytes[56 * k + i] = part[i];
        i += 1;
    }
    assert(bytes@.subrange(56 * k as int, 56 * k + 56) =~= part@);
}

/// Whether four elements are the extended coordinates of a point of the
/// curve.
pub fn coordinates_on_curve(
    x: &FieldElement,
    y: &FieldElement,
    z: &FieldElement,
    t: &FieldElement,
) -> (r: bool)
    ensures
        r == on_curve(
            Coordinates { x: x@ as int, y: y@ as int, z: z@ as int, t: t@ as int },
        ),
{
    let d = edwards_d_element();
    let xx = x.square();
    let yy = y.square();
    let zz = z.square();
    let tt = t.square();
    let dtt = d.mul(&tt);
    let lhs = xx.add(&yy);
    let rhs = zz.add(&dtt);
    let xy = x.mul(y);
    let zt = z.mul(t);
    z.residue_is_reduced();
    proof {
        let xi = x@ as int;
        let yi = y@ as int;
        let zi = z@ as int;
        let ti = t@ as int;
        lemma_fmod_cong(xi * xi);
        lemma_fmod_cong(yi * yi);
        lemma_fmod_cong(zi * zi);
        lemma_fmod_cong(ti * ti);
        lemma_product_cong(dtt@ as int, d@ as int, tt@ as int, edwards_d(), ti * ti);
        lemma_cong_add(xx@ as int, yy@ as int, xi * xi, yi * yi);
        lemma_cong_add(zz@ as int, dtt@ as int, zi * zi, edwards_d() * (ti * ti));
        lemma_small_mod(z@, field_prime());
    }
    let curve = lhs.equals(&rhs);
    let extended = xy.equals(&zt);
    let finite = !z.is_zero();
    curve && extended && finite
}

/// A point in extended coordinates.
#[derive(Clone, Copy, Debug)]
pub struct ExtendedPoint {
    x: FieldElement,
    y: FieldElement,
    z: FieldElement,
    t: FieldElement,
}

impl View for ExtendedPoint {
    type V = Coordinates;

    closed spec fn view(&self) -> Coordinates {
        Coordinates { x: self.x@ as int, y: self.y@ as int, z: self.z@ as int, t: self.t@ as int }
    }
}

/// The curve constant d as a field element.
pub fn edwards_d_element() -> (d: FieldElement)
    ensures
        d@ == fmod(edwards_d()),
        cong(d@ as int, edwards_d()),
{
    let d = FieldElement::from_u64(39081).negate();
    proof {
        lemma_fmod_cong(edwards_d());
    }
    d
}

impl ExtendedPoint {
    #[verifier::type_invariant]
    spec fn is_well_formed(self) -> bool {
        cong(self.x@ as int * self.y@ as int, self.z@ as int * self.t@ as int)
    }

    /// Every point satisfies X Y = Z T, and its coordinates are residues.
    pub fn coordinates_are_extended(&self)
        ensures
            is_extended(self@),
            self@.x < field_prime(),
            self@.y < field_prime(),
            self@.z < field_prime(),
            self@.t < field_prime(),
    {
        self.x.residue_is_reduced();
        self.y.residue_is_reduced();
        self.z.residue_is_reduced();
        self.t.residue_is_reduced();
        proof {
            use_type_invariant(self);
        }
    }

    /// The coordinate X.
    pub fn x(&self) -> (r: FieldElement)
        ensures
            r@ == self@.x,
    {
        self.x
    }

    /// The coordinate Y.
    pub fn y(&self) -> (r: FieldElement)
        ensures
            r@ == self@.y,
    {
        self.y
    }

    /// The coordinate Z.
    pub fn z(&self) -> (r: FieldElement)
        ensures
            r@ == self@.z,
    {
        self.z
    }

    /// The coordinate T.
    pub fn t(&self) -> (r: FieldElement)
        ensures
            r@ == self@.t,
    {
        self.t
    }

    /// The point with the four coordinates e f, g h, f g, e h, which satisfy
    /// X Y = Z T whatever e, f, g and h are.
    pub(crate) fn from_factors(
        e: &FieldElement,
        f: &FieldElement,
        g: &FieldElement,
        h: &FieldElement,
    ) -> (r: ExtendedPoint)
        ensures
            r@ == (Coordinates {
                x: fmod(e@ as int * f@ as int),
                y: fmod(g@ as int * h@ as int),
                z: fmod(f@ as int * g@ as int),
                t: fmod(e@ as int * h@ as int),
            }),
    {
        let x = e.mul(f);
        let y = g.mul(h);
        let z = f.mul(g);
        let t = e.mul(h);
        proof {
            lemma_pairs_cong(e@ as int, f@ as int, g@ as int, h@ as int);
        }
        ExtendedPoint { x, y, z, t }
    }

    /// The neutral element (0, 1, 1, 0).
    pub fn id_point() -> (r: ExtendedPoint)
        ensures
            r@ == identity_coordinates(),
            on_curve(r@),
    {
        let zero = FieldElement::zero();
        let one = FieldElement::one();
        proof {
            lemma_identity_on_curve();
        }
        ExtendedPoint { x: zero, y: one, z: one, t: zero }
    }

    /// The generator of the prime-order subgroup.
    pub fn generator() -> (r: ExtendedPoint)
        ensures
            r@ == generator_coordinates(),
            on_curve(r@),
    {
        let gx: [u32; 14] = [
            0xc70c_c05e,
            0x2626_a82b,
            0x8b00_938e,
            0x433b_80e1,
            0x2ab6_6511,
            0x12ae_1af7,
            0xa3d3_a464,
            0xea6d_e324,
            0x470f_1767,
            0x9e14_6570,
            0x22bf_36da,
            0x221d_15a6,
            0x6bed_0ded,
            0x4f19_70c6,
        ];
        let gy: [u32; 14] = [
            0xf230_fa14,
            0x9808_795b,
            0x4ed7_c8ad,
            0xfdbd_132c,
            0xe67c_39c4,
            0x3ad3_ff1c,
            0x05a0_c2d7,
            0x8778_9c1e,
            0x6ca3_9840,
            0x4bea_7373,
            0x56c9_c762,
            0x8876_2037,
            0x6eb6_bc24,
            0x693f_4671,
        ];
        let x = FieldElement::from_limbs(&gx);
        let y = FieldElement::from_limbs(&gy);
        let z = FieldElement::one();
        let t = x.mul(&y);
        proof {
            lemma_value_14(gx@);
            lemma_value_14(gy@);
            lemma_radix_pow_is_pow2(14);
            lemma_radix_pow_is_pow2(7);
            lemma_small_mod(generator_x() as nat, field_prime());
            lemma_small_mod(generator_y() as nat, field_prime());
            assert(x@ == generator_x());
            assert(y@ == generator_y());
            lemma_generator_on_curve();
            assert(z@ * t@ == t@) by (nonlinear_arith)
                requires
                    z@ == 1,
            ;
            lemma_mod_twice((x@ * y@) as int, field_prime() as int);
        }
        ExtendedPoint { x, y, z, t }
    }

    /// The negative of the point.
    pub fn negate(&self) -> (r: ExtendedPoint)
        ensures
            r@ == edwards_negate(self@),
            satisfies_curve(self@) ==> satisfies_curve(r@),
    {
        let x = self.x.negate();
        let t = self.t.negate();
        proof {
            if satisfies_curve(self@) {
                lemma_negate_closed(self@);
            }
            use_type_invariant(self);
            let a = self.x@ as int;
            let b = self.y@ as int;
            let c = self.z@ as int;
            let d = self.t@ as int;
            lemma_fmod_cong(-a);
            lemma_fmod_cong(-d);
            lemma_cong_mul(x@ as int, b, -a, b);
            lemma_cong_mul(c, t@ as int, c, -d);
            lemma_cong_residue(x@ as int, -a);
            lemma_cong_residue(t@ as int, -d);
            lemma_cong_sub(0, a * b, 0, c * d);
            assert((-a) * b == 0 - a * b) by (nonlinear_arith);
            assert(c * (-d) == 0 - c * d) by (nonlinear_arith);
        }
        ExtendedPoint { x, y: self.y, z: self.z, t }
    }

    /// The sum of two points.
    pub fn add(&self, other: &ExtendedPoint) -> (r: ExtendedPoint)
        ensures
            r@ == edwards_add(self@, other@),
            satisfies_curve(self@) && satisfies_curve(other@) ==> satisfies_curve(r@),
    {
        let d = edwards_d_element();
        let xx = self.x.mul(&other.x);
        let yy = self.y.mul(&other.y);
        let zz = self.z.mul(&other.z);
        let tt = self.t.mul(&other.t);
        let dtt = d.mul(&tt);
        let xy = self.x.mul(&other.y);
        let yx = self.y.mul(&other.x);
        let s = xy.add(&yx);
        let m = yy.sub(&xx);
        let f = zz.sub(&dtt);
        let g = zz.add(&dtt);
        let r = ExtendedPoint::from_factors(&s, &f, &g, &m);
        proof {
            let x1 = self.x@ as int;
            let y1 = self.y@ as int;
            let z1 = self.z@ as int;
            let t1 = self.t@ as int;
            let x2 = other.x@ as int;
            let y2 = other.y@ as int;
            let z2 = other.z@ as int;
            let t2 = other.t@ as int;
            lemma_fmod_cong(x1 * x2);
            lemma_fmod_cong(y1 * y2);
            lemma_fmod_cong(z1 * z2);
            lemma_fmod_cong(t1 * t2);
            lemma_fmod_cong(x1 * y2);
            lemma_fmod_cong(y1 * x2);
            lemma_product_cong(dtt@ as int, d@ as int, tt@ as int, edwards_d(), t1 * t2);
            lemma_sum_cong(s@ as int, xy@ as int, yx@ as int, x1 * y2, y1 * x2);
            lemma_difference_cong(m@ as int, yy@ as int, xx@ as int, y1 * y2, x1 * x2);
            lemma_difference_cong(f@ as int, zz@ as int, dtt@ as int, z1 * z2, edwards_d() * (t1 * t2));
            lemma_sum_cong(g@ as int, zz@ as int, dtt@ as int, z1 * z2, edwards_d() * (t1 * t2));
            let si = x1 * y2 + y1 * x2;
            let mi = y1 * y2 - x1 * x2;
            let fi = z1 * z2 - edwards_d() * (t1 * t2);
            let gi = z1 * z2 + edwards_d() * (t1 * t2);
            lemma_cong_mul(s@ as int, f@ as int, si, fi);
            lemma_cong_mul(g@ as int, m@ as int, gi, mi);
            assert(gi * mi == mi * gi) by (nonlinear_arith);
            lemma_cong_mul(f@ as int, g@ as int, fi, gi);
            lemma_cong_mul(s@ as int, m@ as int, si, mi);
            if satisfies_curve(self@) && satisfies_curve(other@) {
                lemma_add_closed(self@, other@);
            }
        }
        r
    }

    /// The double of the point, by a formula of its own that is cheaper
    /// than adding the point to itself.
    pub fn double(&self) -> (r: ExtendedPoint)
        ensures
            r@ == edwards_double(self@),
            satisfies_curve(self@) ==> satisfies_curve(r@),
    {
        let a = self.x.square();
        let b = self.y.square();
        let zz = self.z.square();
        let c = zz.add(&zz);
        let xpy = self.x.add(&self.y);
        let sq = xpy.square();
        let e0 = sq.sub(&a);
        let e = e0.sub(&b);
        let g = a.add(&b);
        let f = g.sub(&c);
        let h = a.sub(&b);
        let r = ExtendedPoint::from_factors(&e, &f, &g, &h);
        proof {
            let x1 = self.x@ as int;
            let y1 = self.y@ as int;
            let z1 = self.z@ as int;
            lemma_fmod_cong(x1 * x1);
            lemma_fmod_cong(y1 * y1);
            lemma_fmod_cong(z1 * z1);
            lemma_fmod_cong(x1 + y1);
            lemma_sum_cong(c@ as int, zz@ as int, zz@ as int, z1 * z1, z1 * z1);
            lemma_product_cong(sq@ as int, xpy@ as int, xpy@ as int, x1 + y1, x1 + y1);
            lemma_difference_cong(e0@ as int, sq@ as int, a@ as int, (x1 + y1) * (x1 + y1), x1 * x1);
            lemma_difference_cong(e@ as int, e0@ as int, b@ as int, (x1 + y1) * (x1 + y1) - x1 * x1, y1 * y1);
            assert((x1 + y1) * (x1 + y1) - x1 * x1 - y1 * y1 == 2 * (x1 * y1))
                by (nonlinear_arith);
            lemma_sum_cong(g@ as int, a@ as int, b@ as int, x1 * x1, y1 * y1);
            lemma_difference_cong(f@ as int, g@ as int, c@ as int, x1 * x1 + y1 * y1, z1 * z1 + z1 * z1);
            lemma_difference_cong(h@ as int, a@ as int, b@ as int, x1 * x1, y1 * y1);
            let ei = 2 * (x1 * y1);
            let gi = x1 * x1 + y1 * y1;
            let fi = gi - 2 * (z1 * z1);
            let hi = x1 * x1 - y1 * y1;
            lemma_cong_mul(e@ as int, f@ as int, ei, fi);
            lemma_cong_mul(g@ as int, h@ as int, gi, hi);
            lemma_cong_mul(f@ as int, g@ as int, fi, gi);
            lemma_cong_mul(e@ as int, h@ as int, ei, hi);
            if satisfies_curve(self@) {
                lemma_double_closed(self@);
            }
        }
        r
    }

    /// The difference of two points.
    pub fn subtract(&self, other: &ExtendedPoint) -> (r: ExtendedPoint)
        ensures
            r@ == edwards_add(self@, edwards_negate(other@)),
            satisfies_curve(self@) && satisfies_curve(other@) ==> satisfies_curve(r@),
    {
        self.add(&other.negate())
    }

    /// The point of a pair (x, y): Z = 1 and T = x y.
    pub fn from_affine(a: &AffinePoint) -> (r: ExtendedPoint)
        ensures
            r@ == extended_of(a@),
            affine_on_curve(a@) ==> on_curve(r@),
    {
        let z = FieldElement::one();
        let t = a.x.mul(&a.y);
        proof {
            let xi = a.x@ as int;
            let yi = a.y@ as int;
            assert(z@ as int * t@ as int == t@) by (nonlinear_arith)
                requires
                    z@ == 1,
            ;
            lemma_field_prime_positive();
            lemma_mod_twice(xi * yi, field_prime() as int);
            if affine_on_curve(a@) {
                lemma_extended_of_on_curve(a@);
            }
        }
        ExtendedPoint { x: a.x, y: a.y, z, t }
    }

    /// The pair (X / Z, Y / Z), at the cost of one inversion.
    pub fn to_affine(&self) -> (r: AffinePoint)
        ensures
            r@ == affine_of(self@),
    {
        let inverse = self.z.invert();
        AffinePoint { x: self.x.mul(&inverse), y: self.y.mul(&inverse) }
    }

    /// Whether the point lies on the curve.
    pub fn is_on_curve(&self) -> (r: bool)
        ensures
            r == on_curve(self@),
    {
        coordinates_on_curve(&self.x, &self.y, &self.z, &self.t)
    }

    /// The encoding of the point: X, Y, Z and T in this order, each as its
    /// 56 canonical bytes.
    pub fn to_bytes(&self) -> (r: [u8; 224])
        ensures
            r@ == encoded_coordinates(self@),
    {
        let mut out = [0u8;224];
        let xb = self.x.to_bytes();
        let yb = self.y.to_bytes();
        let zb = self.z.to_bytes();
        let tb = self.t.to_bytes();
        set_quarter(&mut out, 0, &xb);
        set_quarter(&mut out, 1, &yb);
        set_quarter(&mut out, 2, &zb);
        set_quarter(&mut out, 3, &tb);
        proof {
            let e = encoded_coordinates(self@);
            lemma_le_bytes_len(self.x@, 56);
            lemma_le_bytes_len(self.y@, 56);
            lemma_le_bytes_len(self.z@, 56);
            lemma_le_bytes_len(self.t@, 56);
            assert(e.len() == 224);
            assert forall|j: int| 0 <= j < 224 implies out@[j] == e[j] by {
                if j < 56 {
                    assert(out@[j] == out@.subrange(0, 56)[j]);
                } else if j < 112 {
                    assert(out@[j] == out@.subrange(56, 112)[j - 56]);
                } else if j < 168 {
                    assert(out@[j] == out@.subrange(112, 168)[j - 112]);
                } else {
                    assert(out@[j] == out@.subrange(168, 224)[j - 168]);
                }
            }
            assert(out@ =~= e);
        }
        out
    }

    /// Decodes 224 bytes. Each coordinate is taken modulo the field prime;
    /// coordinates that are not those of a point of the curve are rejected.
    pub fn from_bytes(bytes: &[u8; 224]) -> (r: Option<ExtendedPoint>)
        ensures
            match r {
                Some(p) => p@ == decoded_coordinates(bytes@) && on_curve(p@),
                None => !on_curve(decoded_coordinates(bytes@)),
            },
    {
        let x = FieldElement::from_bytes(&quarter(bytes, 0));
        let y = FieldElement::from_bytes(&quarter(bytes, 1));
        let z = FieldElement::from_bytes(&quarter(bytes, 2));
        let t = FieldElement::from_bytes(&quarter(bytes, 3));
        if coordinates_on_curve(&x, &y, &z, &t) {
            Some(ExtendedPoint { x, y, z, t })
        } else {
            None
        }
    }

    /// The sum of the point and a point in precomputed form.
    pub fn add_projective_niels(&self, other: &ProjectiveNielsPoint) -> (r: ExtendedPoint)
        ensures
            r@ == niels_add(self@, other@),
    {
        let yp = other.y_plus_x();
        let ym = other.y_minus_x();
        let ymx = self.y.sub(&self.x);
        let ypx = self.y.add(&self.x);
        let a = ymx.mul(&ym);
        let b = ypx.mul(&yp);
        let diff = yp.sub(&ym);
        let w = self.x.mul(&diff);
        let e = b.sub(&a);
        let ba = b.add(&a);
        let ww = w.add(&w);
        let h = ba.sub(&ww);
        let c = self.t.mul(&other.td());
        let zz = self.z.mul(&other.z());
        let dz = zz.add(&zz);
        let f = dz.sub(&c);
        let g = dz.add(&c);
        let r = ExtendedPoint::from_factors(&e, &f, &g, &h);
        proof {
            let x1 = self.x@ as int;
            let y1 = self.y@ as int;
            let z1 = self.z@ as int;
            let t1 = self.t@ as int;
            let n = other@;
            lemma_fmod_cong(y1 - x1);
            lemma_fmod_cong(y1 + x1);
            lemma_fmod_cong(n.y_plus_x - n.y_minus_x);
            lemma_fmod_cong(t1 * n.td);
            lemma_fmod_cong(z1 * n.z);
            let ai = (y1 - x1) * n.y_minus_x;
            let bi = (y1 + x1) * n.y_plus_x;
            let wi = x1 * (n.y_plus_x - n.y_minus_x);
            let ci = t1 * n.td;
            let zi = z1 * n.z;
            lemma_product_cong(a@ as int, ymx@ as int, ym@ as int, y1 - x1, n.y_minus_x);
            lemma_product_cong(b@ as int, ypx@ as int, yp@ as int, y1 + x1, n.y_plus_x);
            lemma_product_cong(
                w@ as int,
                self.x@ as int,
                diff@ as int,
                x1,
                n.y_plus_x - n.y_minus_x,
            );
            lemma_difference_cong(e@ as int, b@ as int, a@ as int, bi, ai);
            lemma_sum_cong(ba@ as int, b@ as int, a@ as int, bi, ai);
            lemma_sum_cong(ww@ as int, w@ as int, w@ as int, wi, wi);
            lemma_difference_cong(h@ as int, ba@ as int, ww@ as int, bi + ai, wi + wi);
            lemma_sum_cong(dz@ as int, zz@ as int, zz@ as int, zi, zi);
            lemma_difference_cong(f@ as int, dz@ as int, c@ as int, zi + zi, ci);
            lemma_sum_cong(g@ as int, dz@ as int, c@ as int, zi + zi, ci);
            let ei = bi - ai;
            let hi = bi + ai - (wi + wi);
            let fi = (zi + zi) - ci;
            let gi = (zi + zi) + ci;
            lemma_cong_mul(e@ as int, f@ as int, ei, fi);
            lemma_cong_mul(g@ as int, h@ as int, gi, hi);
            lemma_cong_mul(f@ as int, g@ as int, fi, gi);
            lemma_cong_mul(e@ as int, h@ as int, ei, hi);
        }
        r
    }

    /// The multiple of the point by a scalar, by the windowed method: the
    /// scalar is recoded into signed radix-16 digits, and for each digit
    /// from the most significant down the accumulator is doubled four times
    /// and the table entry of the digit is added. The table is read in full
    /// for every digit, and the sequence of operations is the same for
    /// every scalar.
    pub fn multiply(&self, scalar: &Scalar) -> (r: ExtendedPoint)
        ensures
            r@ == scalar_multiple(self@, scalar@),
            same_point(r@, horner_multiple(self@, radix16_digits(scalar@, 113))),
            satisfies_curve(self@) ==> satisfies_curve(r@),
    {
        let digits = scalar.to_radix_16();
        let table = LookupTable::build(self);
        let mut acc = ExtendedPoint::id_point();
        let mut i: usize = 113;
        let ghost full = radix16_digits(scalar@, 113);
        proof {
            lemma_radix16_len(scalar@, 113);
            assert(full.skip(113) =~= Seq::<int>::empty());
        }
        while i > 0
            invariant
                i <= 113,
                full == radix16_digits(scalar@, 113),
                full.len() == 113,
                table@ == table_of(self@),
                forall|k: int| 0 <= k < 113 ==> digits@[k] as int == full[k],
                acc@ == windowed_multiple(self@, full.skip(i as int)),
            decreases i,
        {
            i -= 1;
            let entry = table.select(digits[i]);
            proof {
                let part = full.skip(i as int);
                assert(part.drop_first() =~= full.skip(i + 1));
                assert(part[0] == full[i as int]);
            }
            acc = acc.double().double().double().double();
            acc = acc.add_projective_niels(&entry);
        }
        proof {
            assert(full.skip(0) =~= full);
            lemma_scalar_multiple_is_horner(self@, scalar@);
            if satisfies_curve(self@) {
                lemma_scalar_multiple_closed(self@, scalar@);
            }
        }
        acc
    }

    /// Whether two points are the same point of the curve, by
    /// cross-multiplication: X1 Z2 = X2 Z1 and Y1 Z2 = Y2 Z1.
    pub fn equals(&self, other: &ExtendedPoint) -> (r: bool)
        ensures
            r == same_point(self@, other@),
    {
        let xz = self.x.mul(&other.z);
        let zx = other.x.mul(&self.z);
        let yz = self.y.mul(&other.z);
        let zy = other.y.mul(&self.z);
        let same_x = xz.equals(&zx);
        let same_y = yz.equals(&zy);
        same_x && same_y
    }
}

impl PartialEq for ExtendedPoint {
    fn eq(&self, other: &ExtendedPoint) -> (r: bool) {
        self.equals(other)
    }
}

impl PartialEqSpecImpl for ExtendedPoint {
    open spec fn obeys_eq_spec() -> bool {
        true
    }

    open spec fn eq_spec(&self, other: &ExtendedPoint) -> bool {
        same_point(self@, other@)
    }
}

} // verus!
