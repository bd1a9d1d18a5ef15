//! The operations on points keep the equations of the curve: what is
//! computed from points that satisfy X^2 + Y^2 = Z^2 + d T^2 and X Y = Z T
//! satisfies them too.

use crate::curve::extended_edwards::{
    edwards_add, edwards_d, edwards_double, edwards_negate, satisfies_curve, Coordinates,
};
use crate::curve::field::congruence::{
    cong, fmod, lemma_cong_add, lemma_cong_mul, lemma_cong_sub, lemma_fmod_cong,
    lemma_pairs_cong,
};
use vstd::prelude::*;

verus! {

/// In a product of two products the inner factors may change places.
pub proof fn lemma_regroup(a: int, b: int, c: int, d: int)
    ensures
        (a * b) * (c * d) == (a * c) * (b * d),
{
    assert((a * b) * (c * d) == (a * c) * (b * d)) by (nonlinear_arith);
}

/// The square of a sum and of a difference, and their product.
pub proof fn lemma_binomial(x: int, y: int)
    ensures
        (x + y) * (x + y) == x * x + 2 * (x * y) + y * y,
        (x - y) * (x - y) == x * x - 2 * (x * y) + y * y,
        (x - y) * (x + y) == x * x - y * y,
{
    assert((x + y) * (x + y) == x * x + 2 * (x * y) + y * y) by (nonlinear_arith);
    assert((x - y) * (x - y) == x * x - 2 * (x * y) + y * y) by (nonlinear_arith);
    assert((x - y) * (x + y) == x * x - y * y) by (nonlinear_arith);
}

/// The product of two sums or differences, term by term.
pub proof fn lemma_expand(a: int, b: int, c: int, d: int)
    ensures
        (a + b) * (c + d) == a * c + a * d + b * c + b * d,
        (a + b) * (c - d) == a * c - a * d + b * c - b * d,
        (a - b) * (c - d) == a * c - a * d - b * c + b * d,
{
    assert((a + b) * (c + d) == a * c + a * d + b * c + b * d) by (nonlinear_arith);
    assert((a + b) * (c - d) == a * c - a * d + b * c - b * d) by (nonlinear_arith);
    assert((a - b) * (c - d) == a * c - a * d - b * c + b * d) by (nonlinear_arith);
}

/// Coordinates of the shape (e f, g h, f g, e h), reduced, satisfy the
/// equations of the curve where the four factors satisfy
/// (e f)^2 + (g h)^2 = (f g)^2 + d (e h)^2.
pub proof fn lemma_factors_satisfy(e: int, f: int, g: int, h: int)
    requires
        cong(
            (e * f) * (e * f) + (g * h) * (g * h),
            (f * g) * (f * g) + edwards_d() * ((e * h) * (e * h)),
        ),
    ensures
        satisfies_curve(
            Coordinates { x: fmod(e * f), y: fmod(g * h), z: fmod(f * g), t: fmod(e * h) },
        ),
{
    let d = edwards_d();
    let x = fmod(e * f);
    let y = fmod(g * h);
    let z = fmod(f * g);
    let t = fmod(e * h);
    lemma_fmod_cong(e * f);
    lemma_fmod_cong(g * h);
    lemma_fmod_cong(f * g);
    lemma_fmod_cong(e * h);
    lemma_cong_mul(x, x, e * f, e * f);
    lemma_cong_mul(y, y, g * h, g * h);
    lemma_cong_mul(z, z, f * g, f * g);
    lemma_cong_mul(t, t, e * h, e * h);
    lemma_cong_mul(d, t * t, d, (e * h) * (e * h));
    lemma_cong_add(x * x, y * y, (e * f) * (e * f), (g * h) * (g * h));
    lemma_cong_add(z * z, d * (t * t), (f * g) * (f * g), d * ((e * h) * (e * h)));
    lemma_pairs_cong(e, f, g, h);
}

/// Where X Y = Z T, the square of X Y is Z^2 T^2, and d times it is Z^2
/// times d T^2.
pub proof fn lemma_product_square(x: int, y: int, z: int, t: int)
    requires
        cong(x * y, z * t),
    ensures
        cong((x * y) * (x * y), (z * z) * (t * t)),
        cong(edwards_d() * ((x * y) * (x * y)), (z * z) * (edwards_d() * (t * t))),
{
    let d = edwards_d();
    lemma_cong_mul(x * y, x * y, z * t, z * t);
    lemma_regroup(z, t, z, t);
    lemma_cong_mul(d, (x * y) * (x * y), d, (z * z) * (t * t));
    assert(d * ((z * z) * (t * t)) == (z * z) * (d * (t * t))) by (nonlinear_arith);
}

/// The squares and the product of s = x1 y2 + y1 x2 and m = y1 y2 - x1 x2
/// in terms of the squares and products of the coordinates.
proof fn lemma_numerators(x1: int, y1: int, x2: int, y2: int)
    ensures
        ({
            let s = x1 * y2 + y1 * x2;
            let m = y1 * y2 - x1 * x2;
            let a1 = x1 * x1;
            let b1 = y1 * y1;
            let a2 = x2 * x2;
            let b2 = y2 * y2;
            let e1 = x1 * y1;
            let e2 = x2 * y2;
            &&& s * s + m * m == (a1 + b1) * (a2 + b2)
            &&& m * m - s * s == (a1 - b1) * (a2 - b2) - 4 * (e1 * e2)
            &&& s * m == 0 - (e1 * (a2 - b2) + e2 * (a1 - b1))
            &&& (a1 - b1) * (a1 - b1) == (a1 + b1) * (a1 + b1) - 4 * (e1 * e1)
            &&& (a2 - b2) * (a2 - b2) == (a2 + b2) * (a2 + b2) - 4 * (e2 * e2)
        }),
{
    let al = x1 * y2;
    let be = y1 * x2;
    let ga = y1 * y2;
    let de = x1 * x2;
    let a1 = x1 * x1;
    let b1 = y1 * y1;
    let a2 = x2 * x2;
    let b2 = y2 * y2;
    let e1 = x1 * y1;
    let e2 = x2 * y2;
    let ee = e1 * e2;
    lemma_binomial(al, be);
    lemma_binomial(ga, de);
    lemma_expand(al, be, ga, de);
    lemma_expand(a1, b1, a2, b2);
    lemma_binomial(a1, b1);
    lemma_binomial(a2, b2);
    lemma_regroup(x1, y2, x1, y2);
    lemma_regroup(y1, x2, y1, x2);
    lemma_regroup(y1, y2, y1, y2);
    lemma_regroup(x1, x2, x1, x2);
    lemma_regroup(x1, y1, x1, y1);
    lemma_regroup(x2, y2, x2, y2);
    assert(al * al == a1 * b2);
    assert(be * be == b1 * a2);
    assert(ga * ga == b1 * b2);
    assert(de * de == a1 * a2);
    assert(e1 * e1 == a1 * b1);
    assert(e2 * e2 == a2 * b2);
    assert(al * be == ee) by (nonlinear_arith)
        requires
            al == x1 * y2,
            be == y1 * x2,
            ee == (x1 * y1) * (x2 * y2),
    ;
    assert(ga * de == ee) by (nonlinear_arith)
        requires
            ga == y1 * y2,
            de == x1 * x2,
            ee == (x1 * y1) * (x2 * y2),
    ;
    assert(al * ga == e1 * b2) by (nonlinear_arith)
        requires
            al == x1 * y2,
            ga == y1 * y2,
            e1 == x1 * y1,
            b2 == y2 * y2,
    ;
    assert(al * de == a1 * e2) by (nonlinear_arith)
        requires
            al == x1 * y2,
            de == x1 * x2,
            e2 == x2 * y2,
            a1 == x1 * x1,
    ;
    assert(be * ga == b1 * e2) by (nonlinear_arith)
        requires
            be == y1 * x2,
            ga == y1 * y2,
            e2 == x2 * y2,
            b1 == y1 * y1,
    ;
    assert(be * de == e1 * a2) by (nonlinear_arith)
        requires
            be == y1 * x2,
            de == x1 * x2,
            e1 == x1 * y1,
            a2 == x2 * x2,
    ;
    let s = al + be;
    let m = ga - de;
    assert(s * s == a1 * b2 + 2 * ee + b1 * a2);
    assert(m * m == b1 * b2 - 2 * ee + a1 * a2);
    assert(s * m == e1 * b2 - a1 * e2 + b1 * e2 - e1 * a2);
    assert(e1 * (a2 - b2) == e1 * a2 - e1 * b2) by (nonlinear_arith);
    assert(e2 * (a1 - b1) == a1 * e2 - b1 * e2) by (nonlinear_arith);
    assert(a1 * b2 == b2 * a1 && b1 * a2 == a2 * b1) by (nonlinear_arith);
}

/// The squares and the product of a = z1 z2 and b = d t1 t2 in terms of
/// the squares and products of the coordinates.
proof fn lemma_denominators(d: int, z1: int, t1: int, z2: int, t2: int)
    ensures
        ({
            let a = z1 * z2;
            let b = d * (t1 * t2);
            &&& a * a == (z1 * z1) * (z2 * z2)
            &&& b * b == (d * (t1 * t1)) * (d * (t2 * t2))
            &&& a * b == d * ((z1 * t1) * (z2 * t2))
        }),
{
    let tt = t1 * t2;
    lemma_regroup(z1, z2, z1, z2);
    lemma_regroup(t1, t2, t1, t2);
    lemma_regroup(d, tt, d, tt);
    lemma_regroup(d, t1 * t1, d, t2 * t2);
    lemma_regroup(z1, z2, t1, t2);
    assert((z1 * z2) * (d * tt) == d * ((z1 * z2) * tt)) by (nonlinear_arith);
}

/// The two sides of the curve equation for coordinates of the shape
/// (s f, g m, f g, s m) with f = a - b and g = a + b, in terms of the
/// squares of s, m, a and b.
proof fn lemma_sides(s: int, m: int, a: int, b: int)
    ensures
        ({
            let f = a - b;
            let g = a + b;
            let ss = s * s;
            let mm = m * m;
            let aa = a * a;
            let bb = b * b;
            let ab = a * b;
            &&& (s * f) * (s * f) + (g * m) * (g * m) == (ss + mm) * (aa + bb) + 2 * (ab * (mm
                - ss))
            &&& (f * g) * (f * g) == (aa - bb) * (aa - bb)
            &&& (s * m) * (s * m) == ss * mm
        }),
{
    let f = a - b;
    let g = a + b;
    let ss = s * s;
    let mm = m * m;
    let aa = a * a;
    let bb = b * b;
    let ab = a * b;
    let ff = f * f;
    let gg = g * g;
    lemma_regroup(s, f, s, f);
    lemma_regroup(g, m, g, m);
    lemma_regroup(s, m, s, m);
    lemma_binomial(a, b);
    assert(ff == aa - 2 * ab + bb);
    assert(gg == aa + 2 * ab + bb);
    assert(f * g == aa - bb);
    assert(ss * ff + gg * mm == (ss + mm) * (aa + bb) + 2 * (ab * (mm - ss))) by (nonlinear_arith)
        requires
            ff == aa - 2 * ab + bb,
            gg == aa + 2 * ab + bb,
    ;
}

/// The polynomial identity at the heart of the closure of addition, in
/// the squares u = Z^2 and the products v = d T^2 of the two points.
proof fn lemma_add_identity_in_squares(u1: int, v1: int, u2: int, v2: int)
    ensures
        ({
            let aa = u1 * u2;
            let bb = v1 * v2;
            let c1 = u1 + v1;
            let c2 = u2 + v2;
            (c1 * c2) * (aa + bb) - (aa - bb) * (aa - bb) - (u1 * v1) * (c2 * c2) - (u2 * v2) * (c1
                * c1) == 0
        }),
{
    let aa = u1 * u2;
    let bb = v1 * v2;
    let c1 = u1 + v1;
    let c2 = u2 + v2;
    let ro = u1 * v2;
    let si = v1 * u2;
    lemma_expand(u1, v1, u2, v2);
    assert(c1 * c2 == aa + ro + si + bb);
    lemma_binomial(aa, bb);
    lemma_binomial(u1, v1);
    lemma_binomial(u2, v2);
    let mix = ro + si;
    assert((aa + bb + mix) * (aa + bb) == (aa + bb) * (aa + bb) + mix * (aa + bb))
        by (nonlinear_arith);
    assert((c1 * c2) * (aa + bb) - (aa - bb) * (aa - bb) == 4 * (aa * bb) + mix * (aa + bb));
    lemma_regroup(u1, v1, u2, u2);
    lemma_regroup(u1, v1, u2, v2);
    lemma_regroup(u1, v1, v2, v2);
    lemma_regroup(u2, v2, u1, u1);
    lemma_regroup(u2, v2, u1, v1);
    lemma_regroup(u2, v2, v1, v1);
    let p1 = u1 * v1;
    let p2 = u2 * v2;
    assert(p1 * (u2 * u2) == aa * si) by (nonlinear_arith)
        requires
            p1 == u1 * v1,
            aa == u1 * u2,
            si == v1 * u2,
    ;
    assert(p1 * (u2 * v2) == aa * bb) by (nonlinear_arith)
        requires
            p1 == u1 * v1,
            aa == u1 * u2,
            bb == v1 * v2,
    ;
    assert(p1 * (v2 * v2) == ro * bb) by (nonlinear_arith)
        requires
            p1 == u1 * v1,
            ro == u1 * v2,
            bb == v1 * v2,
    ;
    assert(p2 * (u1 * u1) == aa * ro) by (nonlinear_arith)
        requires
            p2 == u2 * v2,
            aa == u1 * u2,
            ro == u1 * v2,
    ;
    assert(p2 * (u1 * v1) == aa * bb) by (nonlinear_arith)
        requires
            p2 == u2 * v2,
            aa == u1 * u2,
            bb == v1 * v2,
    ;
    assert(p2 * (v1 * v1) == si * bb) by (nonlinear_arith)
        requires
            p2 == u2 * v2,
            si == v1 * u2,
            bb == v1 * v2,
    ;
    assert(p1 * (c2 * c2) == p1 * (u2 * u2) + 2 * (p1 * (u2 * v2)) + p1 * (v2 * v2))
        by (nonlinear_arith)
        requires
            c2 * c2 == u2 * u2 + 2 * (u2 * v2) + v2 * v2,
    ;
    assert(p2 * (c1 * c1) == p2 * (u1 * u1) + 2 * (p2 * (u1 * v1)) + p2 * (v1 * v1))
        by (nonlinear_arith)
        requires
            c1 * c1 == u1 * u1 + 2 * (u1 * v1) + v1 * v1,
    ;
    assert(mix * (aa + bb) == aa * ro + aa * si + ro * bb + si * bb) by (nonlinear_arith)
        requires
            mix == ro + si,
    ;
}

/// The sum of two points that satisfy the equations of the curve satisfies
/// them.
pub proof fn lemma_add_closed(p: Coordinates, q: Coordinates)
    requires
        satisfies_curve(p),
        satisfies_curve(q),
    ensures
        satisfies_curve(edwards_add(p, q)),
{
    let d = edwards_d();
    let a1 = p.x * p.x;
    let b1 = p.y * p.y;
    let e1 = p.x * p.y;
    let u1 = p.z * p.z;
    let v1 = d * (p.t * p.t);
    let c1 = u1 + v1;
    let a2 = q.x * q.x;
    let b2 = q.y * q.y;
    let e2 = q.x * q.y;
    let u2 = q.z * q.z;
    let v2 = d * (q.t * q.t);
    let c2 = u2 + v2;
    let s = p.x * q.y + p.y * q.x;
    let m = p.y * q.y - p.x * q.x;
    let a = p.z * q.z;
    let b = d * (p.t * q.t);
    let f = a - b;
    let g = a + b;
    let ss = s * s;
    let mm = m * m;
    let aa = a * a;
    let bb = b * b;
    let ab = a * b;
    let n1 = a1 - b1;
    let n2 = a2 - b2;
    let s1 = (a1 + b1) * (a1 + b1);
    let s2 = (a2 + b2) * (a2 + b2);
    let dd = n1 * n2;
    let ee = e1 * e2;
    let qq = d * ee;
    let p1 = d * (e1 * e1);
    let p2 = d * (e2 * e2);
    let k = qq * ee;
    let lhs = (s * f) * (s * f) + (g * m) * (g * m);
    let rhs = (f * g) * (f * g) + d * ((s * m) * (s * m));
    lemma_sides(s, m, a, b);
    lemma_numerators(p.x, p.y, q.x, q.y);
    lemma_denominators(d, p.z, p.t, q.z, q.t);
    assert(lhs == (ss + mm) * (aa + bb) + 2 * (ab * (mm - ss)));
    assert(ss + mm == (a1 + b1) * (a2 + b2));
    assert(mm - ss == dd - 4 * ee);
    assert(aa == u1 * u2);
    assert(bb == v1 * v2);
    assert(ab == d * ((p.z * p.t) * (q.z * q.t)));
    // the left side, with the curve equations put in
    let l1 = (c1 * c2) * (aa + bb) + 2 * (qq * (dd - 4 * ee));
    lemma_cong_mul(a1 + b1, a2 + b2, c1, c2);
    lemma_cong_mul((a1 + b1) * (a2 + b2), aa + bb, c1 * c2, aa + bb);
    lemma_cong_mul(p.z * p.t, q.z * q.t, e1, e2);
    lemma_cong_mul(d, (p.z * p.t) * (q.z * q.t), d, ee);
    lemma_cong_mul(ab, mm - ss, qq, dd - 4 * ee);
    lemma_cong_mul(2, ab * (mm - ss), 2, qq * (dd - 4 * ee));
    lemma_cong_add(
        (ss + mm) * (aa + bb),
        2 * (ab * (mm - ss)),
        (c1 * c2) * (aa + bb),
        2 * (qq * (dd - 4 * ee)),
    );
    assert(cong(lhs, l1));
    // the right side in the same terms
    let pn = e1 * n2;
    let qn = e2 * n1;
    assert(s * m == 0 - (pn + qn));
    assert((s * m) * (s * m) == (pn + qn) * (pn + qn)) by (nonlinear_arith)
        requires
            s * m == 0 - (pn + qn),
    ;
    lemma_binomial(pn, qn);
    lemma_regroup(e1, n2, e1, n2);
    lemma_regroup(e2, n1, e2, n1);
    lemma_regroup(e1, n2, e2, n1);
    assert(pn * qn == ee * dd) by (nonlinear_arith)
        requires
            pn * qn == (e1 * e2) * (n2 * n1),
            ee == e1 * e2,
            dd == n1 * n2,
    ;
    let sq = (e1 * e1) * (n2 * n2) + 2 * (ee * dd) + (e2 * e2) * (n1 * n1);
    assert((s * m) * (s * m) == sq);
    let sq1 = (e1 * e1) * (n2 * n2);
    let sq2 = 2 * (ee * dd);
    let sq3 = (e2 * e2) * (n1 * n1);
    assert(d * (sq1 + sq2 + sq3) == d * sq1 + d * sq2 + d * sq3) by (nonlinear_arith);
    assert(d * sq1 == p1 * (n2 * n2)) by (nonlinear_arith)
        requires
            sq1 == (e1 * e1) * (n2 * n2),
            p1 == d * (e1 * e1),
    ;
    assert(d * sq2 == 2 * (qq * dd)) by (nonlinear_arith)
        requires
            sq2 == 2 * (ee * dd),
            qq == d * ee,
    ;
    assert(d * sq3 == p2 * (n1 * n1)) by (nonlinear_arith)
        requires
            sq3 == (e2 * e2) * (n1 * n1),
            p2 == d * (e2 * e2),
    ;
    assert(d * sq == p1 * (n2 * n2) + 2 * (qq * dd) + p2 * (n1 * n1));
    assert(n1 * n1 == s1 - 4 * (e1 * e1));
    assert(n2 * n2 == s2 - 4 * (e2 * e2));
    assert(p1 * (e2 * e2) == k && p2 * (e1 * e1) == k) by (nonlinear_arith)
        requires
            p1 == d * (e1 * e1),
            p2 == d * (e2 * e2),
            k == (d * (e1 * e2)) * (e1 * e2),
    ;
    assert(p1 * (n2 * n2) == p1 * s2 - 4 * k) by (nonlinear_arith)
        requires
            n2 * n2 == s2 - 4 * (e2 * e2),
            p1 * (e2 * e2) == k,
    ;
    assert(p2 * (n1 * n1) == p2 * s1 - 4 * k) by (nonlinear_arith)
        requires
            n1 * n1 == s1 - 4 * (e1 * e1),
            p2 * (e1 * e1) == k,
    ;
    assert(qq * (dd - 4 * ee) == qq * dd - 4 * k) by (nonlinear_arith)
        requires
            k == qq * ee,
    ;
    let head = (c1 * c2) * (aa + bb) - (aa - bb) * (aa - bb);
    let theta = head - p1 * s2 - p2 * s1;
    assert(rhs == (aa - bb) * (aa - bb) + d * sq);
    assert(l1 - rhs == theta);
    // the curve equations once more
    lemma_product_square(p.x, p.y, p.z, p.t);
    lemma_product_square(q.x, q.y, q.z, q.t);
    lemma_cong_mul(a1 + b1, a1 + b1, c1, c1);
    lemma_cong_mul(a2 + b2, a2 + b2, c2, c2);
    lemma_cong_mul(p1, s2, u1 * v1, c2 * c2);
    lemma_cong_mul(p2, s1, u2 * v2, c1 * c1);
    lemma_cong_sub(head, p1 * s2, head, (u1 * v1) * (c2 * c2));
    lemma_cong_sub(head - p1 * s2, p2 * s1, head - (u1 * v1) * (c2 * c2), (u2 * v2) * (c1 * c1));
    lemma_add_identity_in_squares(u1, v1, u2, v2);
    assert(cong(theta, 0));
    lemma_cong_sub(lhs, rhs, l1, rhs);
    lemma_cong_add(lhs - rhs, rhs, 0, rhs);
    assert(cong(lhs, rhs));
    lemma_factors_satisfy(s, f, g, m);
    assert(g * m == m * g) by (nonlinear_arith);
}

/// The polynomial identity at the heart of the closure of doubling, in
/// u = Z^2, w = T^2 and v = d w.
proof fn lemma_double_identity_in_squares(d: int, u: int, w: int)
    ensures
        ({
            let v = d * w;
            let c = u + v;
            let n = v - u;
            let r = 4 * (u * w);
            let cc = c * c;
            let nn = n * n;
            r * nn + cc * (cc - r) == nn * cc + d * (r * (cc - r))
        }),
{
    let v = d * w;
    let c = u + v;
    let n = v - u;
    let uw = u * w;
    let uv = u * v;
    let r = 4 * uw;
    let cc = c * c;
    let nn = n * n;
    lemma_binomial(u, v);
    lemma_binomial(v, u);
    assert(v * u == uv) by (nonlinear_arith)
        requires
            uv == u * v,
    ;
    assert(cc - nn == 4 * uv);
    let dr = 4 * uv;
    assert(d * r == dr) by (nonlinear_arith)
        requires
            r == 4 * (u * w),
            dr == 4 * (u * (d * w)),
    ;
    assert(d * (r * (cc - r)) == dr * (cc - r)) by (nonlinear_arith)
        requires
            d * r == dr,
    ;
    assert(dr * r == 16 * (uv * uw)) by (nonlinear_arith)
        requires
            dr == 4 * uv,
            r == 4 * uw,
    ;
    assert(r * dr == 16 * (uv * uw)) by (nonlinear_arith)
        requires
            dr == 4 * uv,
            r == 4 * uw,
    ;
    assert(dr * (cc - r) == dr * cc - dr * r) by (nonlinear_arith);
    assert(cc * (cc - r) == cc * cc - cc * r) by (nonlinear_arith);
    assert(cc * cc - nn * cc == dr * cc) by (nonlinear_arith)
        requires
            cc - nn == dr,
    ;
    assert(cc * r - r * nn == r * dr) by (nonlinear_arith)
        requires
            cc - nn == dr,
    ;
}

/// The double of a point that satisfies the equations of the curve
/// satisfies them.
pub proof fn lemma_double_closed(p: Coordinates)
    requires
        satisfies_curve(p),
    ensures
        satisfies_curve(edwards_double(p)),
{
    let d = edwards_d();
    let a = p.x * p.x;
    let b = p.y * p.y;
    let e1 = p.x * p.y;
    let u = p.z * p.z;
    let w = p.t * p.t;
    let v = d * w;
    let c = u + v;
    let n = v - u;
    let e = 2 * e1;
    let g = a + b;
    let f = g - 2 * u;
    let h = a - b;
    let ee = e * e;
    let ff = f * f;
    let gg = g * g;
    let hh = h * h;
    let cc = c * c;
    let nn = n * n;
    let r = 4 * (u * w);
    let lhs = (e * f) * (e * f) + (g * h) * (g * h);
    let rhs = (f * g) * (f * g) + d * ((e * h) * (e * h));
    lemma_regroup(e, f, e, f);
    lemma_regroup(g, h, g, h);
    lemma_regroup(f, g, f, g);
    lemma_regroup(e, h, e, h);
    assert(lhs == ee * ff + gg * hh);
    assert(rhs == ff * gg + d * (ee * hh));
    lemma_binomial(a, b);
    lemma_regroup(p.x, p.y, p.x, p.y);
    assert(e1 * e1 == a * b);
    assert(ee == 4 * (e1 * e1)) by (nonlinear_arith)
        requires
            ee == (2 * e1) * (2 * e1),
    ;
    assert(hh == gg - ee);
    lemma_product_square(p.x, p.y, p.z, p.t);
    lemma_cong_mul(4, e1 * e1, 4, u * w);
    assert(cong(ee, r));
    lemma_cong_sub(g, 2 * u, c, 2 * u);
    assert(c - 2 * u == n);
    lemma_cong_mul(f, f, n, n);
    lemma_cong_mul(g, g, c, c);
    lemma_cong_sub(gg, ee, cc, r);
    lemma_cong_mul(ee, ff, r, nn);
    lemma_cong_mul(gg, hh, cc, cc - r);
    lemma_cong_add(ee * ff, gg * hh, r * nn, cc * (cc - r));
    lemma_cong_mul(ff, gg, nn, cc);
    lemma_cong_mul(ee, hh, r, cc - r);
    lemma_cong_mul(d, ee * hh, d, r * (cc - r));
    lemma_cong_add(ff * gg, d * (ee * hh), nn * cc, d * (r * (cc - r)));
    lemma_double_identity_in_squares(d, u, w);
    assert(cong(lhs, rhs));
    lemma_factors_satisfy(e, f, g, h);
}

/// The negative of a point that satisfies the equations of the curve
/// satisfies them.
pub proof fn lemma_negate_closed(p: Coordinates)
    requires
        satisfies_curve(p),
    ensures
        satisfies_curve(edwards_negate(p)),
{
    let d = edwards_d();
    let nx = fmod(-p.x);
    let nt = fmod(-p.t);
    lemma_fmod_cong(-p.x);
    lemma_fmod_cong(-p.t);
    lemma_cong_mul(nx, nx, -p.x, -p.x);
    lemma_cong_mul(nt, nt, -p.t, -p.t);
    lemma_cong_mul(d, nt * nt, d, (-p.t) * (-p.t));
    lemma_cong_add(nx * nx, p.y * p.y, (-p.x) * (-p.x), p.y * p.y);
    lemma_cong_add(p.z * p.z, d * (nt * nt), p.z * p.z, d * ((-p.t) * (-p.t)));
    assert((-p.x) * (-p.x) == p.x * p.x) by (nonlinear_arith);
    assert((-p.t) * (-p.t) == p.t * p.t) by (nonlinear_arith);
    lemma_cong_mul(nx, p.y, -p.x, p.y);
    lemma_cong_mul(p.z, nt, p.z, -p.t);
    lemma_cong_sub(0, p.x * p.y, 0, p.z * p.t);
    assert((-p.x) * p.y == 0 - p.x * p.y) by (nonlinear_arith);
    assert(p.z * (-p.t) == 0 - p.z * p.t) by (nonlinear_arith);
}

} // verus!
