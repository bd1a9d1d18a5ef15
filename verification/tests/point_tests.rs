use tiny_ed448_goldilocks::curve::affine::AffinePoint;
use tiny_ed448_goldilocks::curve::extended_edwards::{coordinates_on_curve, ExtendedPoint};
use tiny_ed448_goldilocks::curve::field::choice::Choice;
use tiny_ed448_goldilocks::curve::field::field_element::FieldElement;
use tiny_ed448_goldilocks::curve::field::lookup_table::LookupTable;
use tiny_ed448_goldilocks::curve::field::scalar::Scalar;
use tiny_ed448_goldilocks::curve::projective_niels::ProjectiveNielsPoint;

const GX: [u8; 56] = [94, 192, 12, 199, 43, 168, 38, 38, 142, 147, 0, 139, 225, 128, 59, 67, 17, 101, 182, 42, 247, 26, 174, 18, 100, 164, 211, 163, 36, 227, 109, 234, 103, 23, 15, 71, 112, 101, 20, 158, 218, 54, 191, 34, 166, 21, 29, 34, 237, 13, 237, 107, 198, 112, 25, 79];
const GY: [u8; 56] = [20, 250, 48, 242, 91, 121, 8, 152, 173, 200, 215, 78, 44, 19, 189, 253, 196, 57, 124, 230, 28, 255, 211, 58, 215, 194, 160, 5, 30, 156, 120, 135, 64, 152, 163, 108, 115, 115, 234, 75, 98, 199, 201, 86, 55, 32, 118, 136, 36, 188, 182, 110, 113, 70, 63, 105];

fn affine(x: [u8; 56], y: [u8; 56]) -> AffinePoint {
    AffinePoint { x: FieldElement::from_bytes(&x), y: FieldElement::from_bytes(&y) }
}

fn multiple(k: u64) -> ExtendedPoint {
    ExtendedPoint::generator().multiply(&Scalar::from_u64(k))
}

#[test]
fn generator_has_the_published_coordinates() {
    let g = ExtendedPoint::generator();
    assert_eq!(g.x().to_bytes(), GX);
    assert_eq!(g.y().to_bytes(), GY);
    assert!(g.z() == FieldElement::one());
    assert!(g.t() == g.x().mul(&g.y()));
    assert!(g.is_on_curve());
    let a = g.to_affine();
    assert_eq!(a.x.to_bytes(), GX);
    assert_eq!(a.y.to_bytes(), GY);
    assert!(a.is_on_curve());
}

#[test]
fn identity_has_coordinates_0_1_1_0() {
    let id = ExtendedPoint::id_point();
    assert!(id.x().is_zero());
    assert!(id.y() == FieldElement::one());
    assert!(id.z() == FieldElement::one());
    assert!(id.t().is_zero());
    assert!(id.is_on_curve());
    assert!(AffinePoint::identity().is_on_curve());
    assert!(AffinePoint::identity().to_extended() == id);
    assert!(id.to_affine().equals(&AffinePoint::identity()));
}

#[test]
fn multiples_match_known_coordinates() {
    let two = multiple(2).to_affine();
    assert_eq!(two.x.to_bytes(), [85, 85, 85, 85, 85, 85, 85, 85, 85, 85, 85, 85, 85, 85, 85, 85, 85, 85, 85, 85, 85, 85, 85, 85, 85, 85, 85, 85, 169, 170, 170, 170, 170, 170, 170, 170, 170, 170, 170, 170, 170, 170, 170, 170, 170, 170, 170, 170, 170, 170, 170, 170, 170, 170, 170, 170]);
    assert_eq!(two.y.to_bytes(), [237, 134, 147, 234, 205, 251, 234, 218, 107, 160, 205, 209, 190, 178, 188, 187, 152, 48, 42, 58, 131, 101, 101, 13, 184, 196, 216, 138, 114, 109, 227, 183, 215, 77, 136, 53, 160, 215, 110, 3, 176, 194, 134, 80, 32, 214, 89, 179, 141, 4, 215, 74, 99, 233, 5, 174]);
    let three = multiple(3).to_affine();
    assert_eq!(three.x.to_bytes(), [143, 47, 255, 134, 50, 23, 40, 87, 87, 168, 93, 70, 105, 183, 98, 232, 214, 31, 39, 246, 247, 203, 169, 218, 232, 207, 63, 74, 122, 7, 186, 226, 199, 130, 218, 140, 139, 27, 36, 50, 51, 148, 182, 108, 49, 100, 189, 85, 100, 175, 8, 145, 107, 136, 101, 8]);
    assert_eq!(three.y.to_bytes(), [252, 214, 142, 88, 19, 172, 34, 184, 175, 45, 208, 254, 104, 154, 250, 191, 240, 103, 103, 219, 27, 51, 58, 187, 88, 29, 78, 236, 130, 60, 228, 252, 185, 195, 86, 35, 149, 141, 74, 154, 68, 166, 58, 212, 122, 218, 203, 6, 247, 92, 18, 213, 219, 168, 5, 224]);
    let five = multiple(5).to_affine();
    assert_eq!(five.x.to_bytes(), [52, 0, 3, 146, 16, 157, 169, 208, 80, 249, 198, 239, 140, 45, 123, 240, 150, 60, 12, 146, 122, 213, 192, 139, 128, 18, 136, 149, 232, 97, 215, 86, 167, 173, 98, 133, 114, 207, 203, 128, 239, 13, 181, 237, 30, 96, 167, 43, 14, 203, 141, 164, 53, 147, 159, 122]);
    assert_eq!(five.y.to_bytes(), [235, 53, 244, 114, 20, 115, 180, 67, 84, 34, 31, 136, 18, 85, 64, 88, 60, 179, 210, 89, 238, 164, 215, 39, 113, 1, 152, 182, 247, 81, 101, 216, 206, 143, 177, 58, 130, 161, 12, 38, 222, 10, 88, 253, 228, 156, 16, 185, 211, 237, 23, 37, 26, 117, 253, 173]);
    let eight = multiple(8).to_affine();
    assert_eq!(eight.x.to_bytes(), [224, 189, 83, 113, 166, 56, 37, 150, 182, 6, 148, 202, 58, 34, 62, 113, 173, 193, 13, 8, 249, 100, 106, 129, 125, 180, 76, 108, 151, 139, 220, 133, 86, 40, 188, 215, 226, 8, 124, 3, 123, 217, 107, 230, 208, 69, 251, 99, 91, 163, 232, 32, 85, 188, 241, 209]);
    assert_eq!(eight.y.to_bytes(), [155, 224, 105, 206, 115, 184, 78, 69, 238, 200, 75, 22, 99, 22, 159, 216, 168, 59, 0, 247, 8, 130, 173, 134, 211, 234, 152, 75, 123, 76, 217, 123, 59, 185, 164, 179, 56, 107, 140, 64, 186, 70, 255, 116, 53, 31, 125, 232, 218, 155, 234, 155, 78, 79, 86, 199]);
}

#[test]
fn add_and_double_match_known_coordinates() {
    let g = ExtendedPoint::generator();
    let two = g.double().to_affine();
    assert_eq!(two.x.to_bytes(), [85, 85, 85, 85, 85, 85, 85, 85, 85, 85, 85, 85, 85, 85, 85, 85, 85, 85, 85, 85, 85, 85, 85, 85, 85, 85, 85, 85, 169, 170, 170, 170, 170, 170, 170, 170, 170, 170, 170, 170, 170, 170, 170, 170, 170, 170, 170, 170, 170, 170, 170, 170, 170, 170, 170, 170]);
    assert_eq!(two.y.to_bytes(), [237, 134, 147, 234, 205, 251, 234, 218, 107, 160, 205, 209, 190, 178, 188, 187, 152, 48, 42, 58, 131, 101, 101, 13, 184, 196, 216, 138, 114, 109, 227, 183, 215, 77, 136, 53, 160, 215, 110, 3, 176, 194, 134, 80, 32, 214, 89, 179, 141, 4, 215, 74, 99, 233, 5, 174]);
    let three = g.double().add(&g).to_affine();
    assert_eq!(three.x.to_bytes(), [143, 47, 255, 134, 50, 23, 40, 87, 87, 168, 93, 70, 105, 183, 98, 232, 214, 31, 39, 246, 247, 203, 169, 218, 232, 207, 63, 74, 122, 7, 186, 226, 199, 130, 218, 140, 139, 27, 36, 50, 51, 148, 182, 108, 49, 100, 189, 85, 100, 175, 8, 145, 107, 136, 101, 8]);
    assert_eq!(three.y.to_bytes(), [252, 214, 142, 88, 19, 172, 34, 184, 175, 45, 208, 254, 104, 154, 250, 191, 240, 103, 103, 219, 27, 51, 58, 187, 88, 29, 78, 236, 130, 60, 228, 252, 185, 195, 86, 35, 149, 141, 74, 154, 68, 166, 58, 212, 122, 218, 203, 6, 247, 92, 18, 213, 219, 168, 5, 224]);
    let eight = g.double().double().double().to_affine();
    assert_eq!(eight.x.to_bytes(), [224, 189, 83, 113, 166, 56, 37, 150, 182, 6, 148, 202, 58, 34, 62, 113, 173, 193, 13, 8, 249, 100, 106, 129, 125, 180, 76, 108, 151, 139, 220, 133, 86, 40, 188, 215, 226, 8, 124, 3, 123, 217, 107, 230, 208, 69, 251, 99, 91, 163, 232, 32, 85, 188, 241, 209]);
    assert_eq!(eight.y.to_bytes(), [155, 224, 105, 206, 115, 184, 78, 69, 238, 200, 75, 22, 99, 22, 159, 216, 168, 59, 0, 247, 8, 130, 173, 134, 211, 234, 152, 75, 123, 76, 217, 123, 59, 185, 164, 179, 56, 107, 140, 64, 186, 70, 255, 116, 53, 31, 125, 232, 218, 155, 234, 155, 78, 79, 86, 199]);
}

#[test]
fn negate_flips_x_and_t() {
    let g = ExtendedPoint::generator();
    let n = g.negate();
    assert!(n.x() == g.x().negate());
    assert!(n.y() == g.y());
    assert!(n.z() == g.z());
    assert!(n.t() == g.t().negate());
    assert!(n.negate() == g);
    assert!(n != g);
    assert!(n.is_on_curve());
}

#[test]
fn subtract_undoes_add() {
    let g = ExtendedPoint::generator();
    let five = multiple(5);
    assert!(five.subtract(&g) == multiple(4));
    assert!(g.subtract(&g) == ExtendedPoint::id_point());
    assert!(multiple(4).add(&g) == five);
}

#[test]
fn addition_is_commutative_and_has_a_neutral_element() {
    let a = multiple(11);
    let b = multiple(1234567);
    assert!(a.add(&b) == b.add(&a));
    assert!(a.add(&ExtendedPoint::id_point()) == a);
    assert!(ExtendedPoint::id_point().add(&a) == a);
    assert!(a.add(&b) == multiple(1234578));
    assert!(a.double() == a.add(&a));
}

#[test]
fn results_stay_on_the_curve_and_keep_the_extended_invariant() {
    let a = multiple(0xdead_beef);
    let b = a.double().add(&ExtendedPoint::generator()).negate();
    for p in [a, b, a.add(&b), b.double()] {
        p.coordinates_are_extended();
        p.x().residue_is_reduced();
        assert!(p.is_on_curve());
        assert!(p.x().mul(&p.y()) == p.z().mul(&p.t()));
        assert!(coordinates_on_curve(&p.x(), &p.y(), &p.z(), &p.t()));
    }
}

#[test]
fn equality_is_by_cross_multiplication() {
    // the same point with every coordinate scaled
    let g = ExtendedPoint::generator();
    let other = g.add(&ExtendedPoint::id_point());
    assert!(other.equals(&g));
    let scaled = g.double().double().subtract(&multiple(3));
    assert!(!(scaled.z() == FieldElement::one()));
    assert!(scaled == g);
    assert!(!scaled.equals(&multiple(2)));
}

#[test]
fn affine_round_trip() {
    let p = multiple(77);
    let a = p.to_affine();
    assert!(a.is_on_curve());
    let back = a.to_extended();
    assert!(back == p);
    assert!(back.z() == FieldElement::one());
    assert!(back.t() == a.x.mul(&a.y));
    assert!(ExtendedPoint::from_affine(&a) == p);
    assert!(back.to_affine().equals(&a));
}

#[test]
fn affine_off_the_curve_is_told_apart() {
    let off = affine(GX, GX);
    assert!(!off.is_on_curve());
    assert!(!off.equals(&affine(GX, GY)));
    assert!(affine(GX, GY).is_on_curve());
}

#[test]
fn point_bytes_round_trip() {
    for p in [ExtendedPoint::generator(), ExtendedPoint::id_point(), multiple(99).double()] {
        let bytes = p.to_bytes();
        assert_eq!(&bytes[0..56], &p.x().to_bytes()[..]);
        assert_eq!(&bytes[56..112], &p.y().to_bytes()[..]);
        assert_eq!(&bytes[112..168], &p.z().to_bytes()[..]);
        assert_eq!(&bytes[168..224], &p.t().to_bytes()[..]);
        let back = ExtendedPoint::from_bytes(&bytes).expect("a point of the curve");
        assert!(back == p);
        assert_eq!(back.to_bytes(), bytes);
    }
}

#[test]
fn point_bytes_of_the_identity() {
    let mut expected = [0u8; 224];
    expected[56] = 1;
    expected[112] = 1;
    assert_eq!(ExtendedPoint::id_point().to_bytes(), expected);
}

#[test]
fn point_from_bytes_rejects_what_is_not_on_the_curve() {
    // all four coordinates 0: Z is 0
    assert!(ExtendedPoint::from_bytes(&[0u8; 224]).is_none());
    // the generator with X and Y exchanged
    let g = ExtendedPoint::generator().to_bytes();
    let mut swapped = g;
    swapped[0..56].copy_from_slice(&g[56..112]);
    swapped[56..112].copy_from_slice(&g[0..56]);
    assert!(ExtendedPoint::from_bytes(&swapped).is_some());
    // the generator with a wrong T
    let mut wrong_t = g;
    wrong_t[168] ^= 1;
    assert!(ExtendedPoint::from_bytes(&wrong_t).is_none());
    // the generator with a wrong Y
    let mut wrong_y = g;
    wrong_y[56] ^= 1;
    assert!(ExtendedPoint::from_bytes(&wrong_y).is_none());
}

#[test]
fn niels_form_has_the_four_precomputed_coordinates() {
    let p = multiple(6);
    let n = ProjectiveNielsPoint::from_extended(&p);
    let d = FieldElement::from_u64(39081).negate();
    assert!(n.y_plus_x() == p.y().add(&p.x()));
    assert!(n.y_minus_x() == p.y().sub(&p.x()));
    assert!(n.z() == p.z());
    assert!(n.td() == d.mul(&p.t()).add(&d.mul(&p.t())));
    let m = n.negate();
    assert!(m.y_plus_x() == n.y_minus_x());
    assert!(m.y_minus_x() == n.y_plus_x());
    assert!(m.z() == n.z());
    assert!(m.td() == n.td().negate());
    let id = ProjectiveNielsPoint::identity();
    assert!(id.y_plus_x() == FieldElement::one());
    assert!(id.y_minus_x() == FieldElement::one());
    assert!(id.z() == FieldElement::one());
    assert!(id.td().is_zero());
}

#[test]
fn mixed_addition_agrees_with_addition() {
    let p = multiple(6);
    let q = multiple(1000);
    let n = ProjectiveNielsPoint::from_extended(&q);
    let sum = p.add_projective_niels(&n);
    assert!(sum == p.add(&q));
    assert!(sum == multiple(1006));
    // each coordinate is four times that of the plain sum
    let four = FieldElement::from_u64(4);
    let plain = p.add(&q);
    assert!(sum.x() == plain.x().mul(&four));
    assert!(sum.y() == plain.y().mul(&four));
    assert!(sum.z() == plain.z().mul(&four));
    assert!(sum.t() == plain.t().mul(&four));
    assert!(p.add_projective_niels(&n.negate()) == p.subtract(&q));
    assert!(p.add_projective_niels(&ProjectiveNielsPoint::identity()) == p);
}

#[test]
fn niels_conditional_select_picks_by_choice() {
    let a = ProjectiveNielsPoint::from_extended(&multiple(2));
    let b = ProjectiveNielsPoint::from_extended(&multiple(3));
    let first = ProjectiveNielsPoint::conditional_select(&a, &b, Choice::new(false));
    let second = ProjectiveNielsPoint::conditional_select(&a, &b, Choice::new(true));
    assert!(first.y_plus_x() == a.y_plus_x() && first.td() == a.td());
    assert!(second.y_plus_x() == b.y_plus_x() && second.td() == b.td());
}

#[test]
fn lookup_table_holds_the_multiples_from_1_to_8() {
    let g = ExtendedPoint::generator();
    let table = LookupTable::build(&g);
    let id = ExtendedPoint::id_point();
    for d in 1..=8i8 {
        let entry = table.select(d);
        assert!(id.add_projective_niels(&entry) == multiple(d as u64));
        let negative = table.select(-d);
        assert!(id.add_projective_niels(&negative) == multiple(d as u64).negate());
    }
    assert!(id.add_projective_niels(&table.select(0)) == id);
    // a magnitude beyond 8 is read as 0
    assert!(id.add_projective_niels(&table.select(9)) == id);
    assert!(id.add_projective_niels(&table.select(-128)) == id);
    assert!(id.add_projective_niels(&table.select(127)) == id);
}

#[test]
fn multiply_by_small_scalars_counts_additions() {
    let g = ExtendedPoint::generator();
    let mut acc = ExtendedPoint::id_point();
    for k in 0..40u64 {
        assert!(multiple(k) == acc);
        acc = acc.add(&g);
    }
}

#[test]
fn multiply_applies_to_any_point() {
    let p = multiple(12345);
    let k = Scalar::from_u64(6789);
    assert!(p.multiply(&k) == multiple(12345 * 6789));
    assert!(p.multiply(&Scalar::zero()) == ExtendedPoint::id_point());
    assert!(p.multiply(&Scalar::one()) == p);
    assert!(ExtendedPoint::id_point().multiply(&k) == ExtendedPoint::id_point());
    let minus_one = Scalar::zero().sub(&Scalar::one());
    assert!(p.multiply(&minus_one) == p.negate());
}
