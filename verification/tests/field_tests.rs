use tiny_ed448_goldilocks::curve::field::choice::Choice;
use tiny_ed448_goldilocks::curve::field::field_element::FieldElement;

const A: [u8; 56] = [239, 205, 171, 144, 120, 86, 52, 18, 239, 205, 171, 144, 120, 86, 52, 18, 239, 205, 171, 144, 120, 86, 52, 18, 239, 205, 171, 144, 120, 86, 52, 18, 239, 205, 171, 144, 120, 86, 52, 18, 239, 205, 171, 144, 120, 86, 52, 18, 239, 205, 171, 144, 120, 86, 52, 18];
const B: [u8; 56] = [67, 101, 135, 9, 186, 220, 254, 33, 67, 101, 135, 9, 186, 220, 254, 33, 67, 101, 135, 9, 186, 220, 254, 33, 67, 101, 135, 9, 186, 220, 254, 33, 67, 101, 135, 9, 186, 220, 254, 33, 67, 101, 135, 9, 186, 220, 254, 33, 67, 101, 135, 9, 186, 220, 254, 0];
const P_BYTES: [u8; 56] = [255, 255, 255, 255, 255, 255, 255, 255, 255, 255, 255, 255, 255, 255, 255, 255, 255, 255, 255, 255, 255, 255, 255, 255, 255, 255, 255, 255, 254, 255, 255, 255, 255, 255, 255, 255, 255, 255, 255, 255, 255, 255, 255, 255, 255, 255, 255, 255, 255, 255, 255, 255, 255, 255, 255, 255];
const P_MINUS_1: [u8; 56] = [254, 255, 255, 255, 255, 255, 255, 255, 255, 255, 255, 255, 255, 255, 255, 255, 255, 255, 255, 255, 255, 255, 255, 255, 255, 255, 255, 255, 254, 255, 255, 255, 255, 255, 255, 255, 255, 255, 255, 255, 255, 255, 255, 255, 255, 255, 255, 255, 255, 255, 255, 255, 255, 255, 255, 255];

#[test]
fn field_add_matches_known_values() {
    let a = FieldElement::from_bytes(&A);
    let b = FieldElement::from_bytes(&B);
    assert_eq!(a.add(&b).to_bytes(), [50, 51, 51, 154, 50, 51, 51, 52, 50, 51, 51, 154, 50, 51, 51, 52, 50, 51, 51, 154, 50, 51, 51, 52, 50, 51, 51, 154, 50, 51, 51, 52, 50, 51, 51, 154, 50, 51, 51, 52, 50, 51, 51, 154, 50, 51, 51, 52, 50, 51, 51, 154, 50, 51, 51, 19]);
}

#[test]
fn field_sub_matches_known_values() {
    let a = FieldElement::from_bytes(&A);
    let b = FieldElement::from_bytes(&B);
    assert_eq!(a.sub(&b).to_bytes(), [172, 104, 36, 135, 190, 121, 53, 240, 171, 104, 36, 135, 190, 121, 53, 240, 171, 104, 36, 135, 190, 121, 53, 240, 171, 104, 36, 135, 190, 121, 53, 240, 171, 104, 36, 135, 190, 121, 53, 240, 171, 104, 36, 135, 190, 121, 53, 240, 171, 104, 36, 135, 190, 121, 53, 17]);
    assert_eq!(b.sub(&a).to_bytes(), [83, 151, 219, 120, 65, 134, 202, 15, 84, 151, 219, 120, 65, 134, 202, 15, 84, 151, 219, 120, 65, 134, 202, 15, 84, 151, 219, 120, 64, 134, 202, 15, 84, 151, 219, 120, 65, 134, 202, 15, 84, 151, 219, 120, 65, 134, 202, 15, 84, 151, 219, 120, 65, 134, 202, 238]);
}

#[test]
fn field_mul_matches_known_values() {
    let a = FieldElement::from_bytes(&A);
    let b = FieldElement::from_bytes(&B);
    assert_eq!(a.mul(&b).to_bytes(), [6, 178, 166, 110, 248, 40, 43, 160, 34, 72, 210, 71, 165, 96, 162, 111, 62, 222, 253, 32, 82, 152, 25, 63, 90, 116, 41, 201, 144, 167, 221, 7, 148, 242, 216, 68, 90, 117, 128, 176, 92, 192, 123, 237, 34, 67, 35, 89, 37, 142, 30, 150, 235, 16, 198, 208]);
    assert_eq!(b.mul(&a).to_bytes(), [6, 178, 166, 110, 248, 40, 43, 160, 34, 72, 210, 71, 165, 96, 162, 111, 62, 222, 253, 32, 82, 152, 25, 63, 90, 116, 41, 201, 144, 167, 221, 7, 148, 242, 216, 68, 90, 117, 128, 176, 92, 192, 123, 237, 34, 67, 35, 89, 37, 142, 30, 150, 235, 16, 198, 208]);
}

#[test]
fn field_square_matches_known_values() {
    let a = FieldElement::from_bytes(&A);
    assert_eq!(a.square().to_bytes(), [157, 89, 95, 206, 192, 45, 129, 114, 183, 147, 204, 38, 227, 95, 6, 157, 209, 205, 57, 127, 5, 146, 139, 199, 235, 7, 167, 215, 196, 29, 112, 192, 198, 111, 149, 162, 1, 138, 98, 67, 3, 220, 135, 37, 62, 246, 84, 198, 63, 72, 122, 168, 122, 98, 71, 73]);
    assert!(a.square() == a.mul(&a));
}

#[test]
fn field_negate_matches_known_values() {
    let a = FieldElement::from_bytes(&A);
    assert_eq!(a.negate().to_bytes(), [16, 50, 84, 111, 135, 169, 203, 237, 16, 50, 84, 111, 135, 169, 203, 237, 16, 50, 84, 111, 135, 169, 203, 237, 16, 50, 84, 111, 134, 169, 203, 237, 16, 50, 84, 111, 135, 169, 203, 237, 16, 50, 84, 111, 135, 169, 203, 237, 16, 50, 84, 111, 135, 169, 203, 237]);
    assert!(a.add(&a.negate()).is_zero());
    assert!(FieldElement::zero().negate().is_zero());
}

#[test]
fn field_invert_matches_known_values() {
    let a = FieldElement::from_bytes(&A);
    let inverse = a.invert();
    assert_eq!(inverse.to_bytes(), [81, 177, 24, 150, 253, 94, 102, 103, 117, 121, 64, 181, 127, 85, 78, 98, 179, 156, 125, 141, 119, 8, 17, 114, 241, 116, 99, 64, 195, 89, 251, 6, 112, 206, 255, 36, 90, 205, 41, 39, 137, 76, 116, 215, 142, 182, 125, 236, 94, 219, 50, 61, 89, 254, 197, 111]);
    assert!(a.mul(&inverse) == FieldElement::one());
}

#[test]
fn field_invert_of_zero_is_zero() {
    assert!(FieldElement::zero().invert().is_zero());
}

#[test]
fn field_invert_of_one_is_one() {
    assert!(FieldElement::one().invert() == FieldElement::one());
}

#[test]
fn field_wraps_at_the_prime() {
    let top = FieldElement::from_bytes(&P_MINUS_1);
    let two = FieldElement::from_u64(2);
    assert!(top.add(&two) == FieldElement::one());
    assert!(top.add(&FieldElement::one()).is_zero());
    assert!(FieldElement::zero().sub(&FieldElement::one()) == top);
    assert!(top.mul(&top) == FieldElement::one());
}

#[test]
fn field_from_bytes_reduces_the_prime_to_zero() {
    let p = FieldElement::from_bytes(&P_BYTES);
    assert!(p.is_zero());
    assert_eq!(p.to_bytes(), [0u8; 56]);
    let all_ones = FieldElement::from_bytes(&[255u8; 56]);
    // 2^448 - 1 = p + 2^224
    let mut expected = [0u8; 56];
    expected[28] = 1;
    assert_eq!(all_ones.to_bytes(), expected);
}

#[test]
fn field_from_slice_asks_for_56_bytes() {
    let a = FieldElement::from_slice(&A).expect("56 bytes");
    assert_eq!(a.to_bytes(), A);
    assert!(FieldElement::from_slice(&A[..55]).is_none());
    assert!(FieldElement::from_slice(&[0u8; 57]).is_none());
    assert!(FieldElement::from_slice(&[]).is_none());
}

#[test]
fn field_bytes_round_trip() {
    for bytes in [A, B, P_MINUS_1, [0u8; 56]] {
        assert_eq!(FieldElement::from_bytes(&bytes).to_bytes(), bytes);
    }
    let a = FieldElement::from_bytes(&A);
    assert!(FieldElement::from_bytes(&a.to_bytes()) == a);
}

#[test]
fn field_from_u64_is_little_endian() {
    let x = FieldElement::from_u64(0x0102_0304_0506_0708);
    let mut expected = [0u8; 56];
    expected[..8].copy_from_slice(&[8, 7, 6, 5, 4, 3, 2, 1]);
    assert_eq!(x.to_bytes(), expected);
    assert!(FieldElement::from_u64(0).is_zero());
    assert!(FieldElement::from_u64(1) == FieldElement::one());
    assert!(!FieldElement::one().is_zero());
}

#[test]
fn field_equals_compares_residues() {
    let a = FieldElement::from_bytes(&A);
    let b = FieldElement::from_bytes(&B);
    assert!(a.equals(&a));
    assert!(!a.equals(&b));
    assert!(a != b);
    // the same residue reached by two routes
    let left = a.add(&b).sub(&b);
    assert!(left.equals(&a));
}

#[test]
fn field_conditional_select_picks_by_choice() {
    let a = FieldElement::from_bytes(&A);
    let b = FieldElement::from_bytes(&B);
    assert!(FieldElement::conditional_select(&a, &b, Choice::new(false)) == a);
    assert!(FieldElement::conditional_select(&a, &b, Choice::new(true)) == b);
    assert!(Choice::new(true).get());
    assert!(!Choice::new(false).get());
    assert_eq!(Choice::new(true).as_limb(), 1);
    assert_eq!(Choice::new(false).as_limb(), 0);
}

#[test]
fn field_distributes() {
    let a = FieldElement::from_bytes(&A);
    let b = FieldElement::from_bytes(&B);
    let c = FieldElement::from_u64(39081);
    assert!(a.add(&b).mul(&c) == a.mul(&c).add(&b.mul(&c)));
    assert!(a.sub(&b).mul(&c) == a.mul(&c).sub(&b.mul(&c)));
}
