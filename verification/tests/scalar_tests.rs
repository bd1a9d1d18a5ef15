use crypto_bigint::{Encoding, U448};
use tiny_ed448_goldilocks::curve::field::scalar::{Scalar, RADIX_16_DIGITS, R_448};

const A: [u8; 56] = [239, 205, 171, 144, 120, 86, 52, 18, 239, 205, 171, 144, 120, 86, 52, 18, 239, 205, 171, 144, 120, 86, 52, 18, 239, 205, 171, 144, 120, 86, 52, 18, 239, 205, 171, 144, 120, 86, 52, 18, 239, 205, 171, 144, 120, 86, 52, 18, 239, 205, 171, 144, 120, 86, 52, 18];
const B: [u8; 56] = [67, 101, 135, 9, 186, 220, 254, 33, 67, 101, 135, 9, 186, 220, 254, 33, 67, 101, 135, 9, 186, 220, 254, 33, 67, 101, 135, 9, 186, 220, 254, 33, 67, 101, 135, 9, 186, 220, 254, 33, 67, 101, 135, 9, 186, 220, 254, 33, 67, 101, 135, 9, 186, 220, 254, 0];
const R_BYTES: [u8; 56] = [243, 68, 88, 171, 146, 194, 120, 35, 85, 143, 197, 141, 114, 194, 108, 33, 144, 54, 214, 174, 73, 219, 78, 196, 233, 35, 202, 124, 255, 255, 255, 255, 255, 255, 255, 255, 255, 255, 255, 255, 255, 255, 255, 255, 255, 255, 255, 255, 255, 255, 255, 255, 255, 255, 255, 63];
const R_PLUS_1: [u8; 56] = [244, 68, 88, 171, 146, 194, 120, 35, 85, 143, 197, 141, 114, 194, 108, 33, 144, 54, 214, 174, 73, 219, 78, 196, 233, 35, 202, 124, 255, 255, 255, 255, 255, 255, 255, 255, 255, 255, 255, 255, 255, 255, 255, 255, 255, 255, 255, 255, 255, 255, 255, 255, 255, 255, 255, 63];
const R_MINUS_1: [u8; 56] = [242, 68, 88, 171, 146, 194, 120, 35, 85, 143, 197, 141, 114, 194, 108, 33, 144, 54, 214, 174, 73, 219, 78, 196, 233, 35, 202, 124, 255, 255, 255, 255, 255, 255, 255, 255, 255, 255, 255, 255, 255, 255, 255, 255, 255, 255, 255, 255, 255, 255, 255, 255, 255, 255, 255, 63];

fn digits_value_matches(digits: &[i8; 113], bytes: &[u8; 56]) -> bool {
    // Horner from the top digit down, in plain limbs of this test
    let mut acc = [0i64; 60];
    for d in digits.iter().rev() {
        let mut carry = *d as i64;
        for limb in acc.iter_mut() {
            let v = *limb * 16 + carry;
            *limb = v.rem_euclid(256);
            carry = v.div_euclid(256);
        }
        assert_eq!(carry, 0);
    }
    acc[..56].iter().zip(bytes.iter()).all(|(x, y)| *x == *y as i64)
        && acc[56..].iter().all(|x| *x == 0)
}

#[test]
fn scalar_order_constant_is_the_published_one() {
    assert_eq!(U448::from_be_hex(R_448).to_le_bytes(), R_BYTES);
    assert!(Scalar::from_bytes(&R_BYTES) == Scalar::zero());
    assert!(Scalar::from_bytes(&R_PLUS_1) == Scalar::one());
    assert_eq!(Scalar::from_bytes(&R_MINUS_1).to_bytes(), R_MINUS_1);
}

#[test]
fn scalar_from_bytes_reduces_to_known_values() {
    assert_eq!(Scalar::from_bytes(&A).to_bytes(), [239, 205, 171, 144, 120, 86, 52, 18, 239, 205, 171, 144, 120, 86, 52, 18, 239, 205, 171, 144, 120, 86, 52, 18, 239, 205, 171, 144, 120, 86, 52, 18, 239, 205, 171, 144, 120, 86, 52, 18, 239, 205, 171, 144, 120, 86, 52, 18, 239, 205, 171, 144, 120, 86, 52, 18]);
    assert_eq!(Scalar::from_bytes(&B).to_bytes(), [67, 101, 135, 9, 186, 220, 254, 33, 67, 101, 135, 9, 186, 220, 254, 33, 67, 101, 135, 9, 186, 220, 254, 33, 67, 101, 135, 9, 186, 220, 254, 33, 67, 101, 135, 9, 186, 220, 254, 33, 67, 101, 135, 9, 186, 220, 254, 33, 67, 101, 135, 9, 186, 220, 254, 0]);
    assert_eq!(Scalar::from_bytes(&[255u8; 56]).to_bytes(), [51, 236, 158, 82, 181, 245, 28, 114, 171, 194, 233, 200, 53, 246, 76, 122, 191, 37, 167, 68, 217, 146, 196, 238, 88, 112, 215, 12, 2, 0, 0, 0, 0, 0, 0, 0, 0, 0, 0, 0, 0, 0, 0, 0, 0, 0, 0, 0, 0, 0, 0, 0, 0, 0, 0, 0]);
    let r = U448::from_be_hex(R_448);
    let reduced = U448::MAX.const_rem(&r).0;
    assert_eq!(Scalar::from_bytes(&[255u8; 56]).to_bytes(), reduced.to_le_bytes());
}

#[test]
fn scalar_from_bytes_takes_any_length() {
    assert!(Scalar::from_bytes(&[]) == Scalar::zero());
    assert!(Scalar::from_bytes(&[7]) == Scalar::from_u64(7));
    assert!(Scalar::from_bytes(&[1, 1]) == Scalar::from_u64(257));
    let wide: Vec<u8> = (1..=112).collect();
    assert_eq!(Scalar::from_bytes(&wide).to_bytes(), [107, 198, 110, 62, 67, 247, 120, 190, 103, 174, 200, 125, 139, 169, 201, 20, 194, 117, 32, 147, 159, 145, 178, 115, 79, 24, 162, 14, 144, 89, 98, 253, 113, 24, 98, 88, 145, 143, 237, 32, 174, 25, 208, 183, 142, 140, 149, 140, 128, 153, 16, 160, 40, 91, 106, 46]);
}

#[test]
fn scalar_from_machine_integers() {
    let x = Scalar::from_u64(0x0102_0304_0506_0708);
    let mut expected = [0u8; 56];
    expected[..8].copy_from_slice(&[8, 7, 6, 5, 4, 3, 2, 1]);
    assert_eq!(x.to_bytes(), expected);
    assert_eq!(Scalar::from_u128(u128::MAX).to_bytes(), [255, 255, 255, 255, 255, 255, 255, 255, 255, 255, 255, 255, 255, 255, 255, 255, 0, 0, 0, 0, 0, 0, 0, 0, 0, 0, 0, 0, 0, 0, 0, 0, 0, 0, 0, 0, 0, 0, 0, 0, 0, 0, 0, 0, 0, 0, 0, 0, 0, 0, 0, 0, 0, 0, 0, 0]);
    assert!(Scalar::from_u128(5) == Scalar::from_u64(5));
    assert!(Scalar::from_u64(u64::MAX).add(&Scalar::one()) == Scalar::from_u128(1u128 << 64));
}

#[test]
fn scalar_add_sub_mul_match_known_values() {
    let a = Scalar::from_bytes(&A);
    let b = Scalar::from_bytes(&B);
    assert_eq!(a.add(&b).to_bytes(), [50, 51, 51, 154, 50, 51, 51, 52, 50, 51, 51, 154, 50, 51, 51, 52, 50, 51, 51, 154, 50, 51, 51, 52, 50, 51, 51, 154, 50, 51, 51, 52, 50, 51, 51, 154, 50, 51, 51, 52, 50, 51, 51, 154, 50, 51, 51, 52, 50, 51, 51, 154, 50, 51, 51, 19]);
    assert_eq!(a.sub(&b).to_bytes(), [172, 104, 36, 135, 190, 121, 53, 240, 171, 104, 36, 135, 190, 121, 53, 240, 171, 104, 36, 135, 190, 121, 53, 240, 171, 104, 36, 135, 190, 121, 53, 240, 171, 104, 36, 135, 190, 121, 53, 240, 171, 104, 36, 135, 190, 121, 53, 240, 171, 104, 36, 135, 190, 121, 53, 17]);
    assert_eq!(a.mul(&b).to_bytes(), [6, 135, 9, 122, 241, 78, 42, 249, 32, 16, 217, 135, 23, 123, 119, 210, 38, 234, 236, 14, 159, 104, 77, 33, 114, 214, 34, 63, 74, 110, 226, 152, 82, 245, 82, 173, 167, 14, 152, 71, 218, 65, 1, 145, 103, 247, 54, 88, 90, 251, 43, 156, 107, 226, 22, 26]);
    assert!(a.sub(&b).add(&b) == a);
    assert!(a.mul(&b) == b.mul(&a));
}

#[test]
fn scalar_wraps_at_the_order() {
    let top = Scalar::from_bytes(&R_MINUS_1);
    top.residue_is_reduced();
    assert!(top.add(&Scalar::one()) == Scalar::zero());
    assert!(top.add(&Scalar::from_u64(2)) == Scalar::one());
    assert!(Scalar::zero().sub(&Scalar::one()) == top);
    assert!(top.mul(&top) == Scalar::one());
    assert!(top.equals(&top));
    assert!(!top.equals(&Scalar::one()));
}

#[test]
fn scalar_radix_16_small_values() {
    assert_eq!(RADIX_16_DIGITS, 113);
    assert_eq!(Scalar::zero().to_radix_16(), [0i8; 113]);
    let mut expected = [0i8; 113];
    expected[0] = 7;
    assert_eq!(Scalar::from_u64(7).to_radix_16(), expected);
    // 8 stays 8: the digits run from -7 to 8
    expected[0] = 8;
    assert_eq!(Scalar::from_u64(8).to_radix_16(), expected);
    // 9 = -7 + 16
    expected[0] = -7;
    expected[1] = 1;
    assert_eq!(Scalar::from_u64(9).to_radix_16(), expected);
    // 0x1f = -1 + 2 * 16
    expected[0] = -1;
    expected[1] = 2;
    assert_eq!(Scalar::from_u64(0x1f).to_radix_16(), expected);
    // 0xff = -1 + 0 * 16 + 1 * 256
    expected[0] = -1;
    expected[1] = 0;
    expected[2] = 1;
    assert_eq!(Scalar::from_u64(0xff).to_radix_16(), expected);
}

#[test]
fn scalar_radix_16_matches_known_values() {
    let a = Scalar::from_bytes(&A);
    assert_eq!(a.to_radix_16(), [-1, -1, -2, -3, -4, -5, 1, -7, -7, 8, 6, 5, 4, 3, 2, 1, -1, -1, -2, -3, -4, -5, 1, -7, -7, 8, 6, 5, 4, 3, 2, 1, -1, -1, -2, -3, -4, -5, 1, -7, -7, 8, 6, 5, 4, 3, 2, 1, -1, -1, -2, -3, -4, -5, 1, -7, -7, 8, 6, 5, 4, 3, 2, 1, -1, -1, -2, -3, -4, -5, 1, -7, -7, 8, 6, 5, 4, 3, 2, 1, -1, -1, -2, -3, -4, -5, 1, -7, -7, 8, 6, 5, 4, 3, 2, 1, -1, -1, -2, -3, -4, -5, 1, -7, -7, 8, 6, 5, 4, 3, 2, 1, 0]);
    let top = Scalar::from_bytes(&R_MINUS_1);
    assert_eq!(top.to_radix_16(), [2, -1, 5, 4, 8, 5, -5, -5, 3, -7, 3, -4, -7, 8, 3, 2, 5, 5, -1, -7, 6, -4, -2, -7, 3, 7, 2, -4, -3, 7, 1, 2, 0, -7, 7, 3, 6, -3, -1, -5, -6, 5, -5, -2, -1, 5, 4, -4, -6, -1, 4, 2, -6, -3, -3, 8, -1, 0, 0, 0, 0, 0, 0, 0, 0, 0, 0, 0, 0, 0, 0, 0, 0, 0, 0, 0, 0, 0, 0, 0, 0, 0, 0, 0, 0, 0, 0, 0, 0, 0, 0, 0, 0, 0, 0, 0, 0, 0, 0, 0, 0, 0, 0, 0, 0, 0, 0, 0, 0, 0, 0, 4, 0]);
}

#[test]
fn scalar_radix_16_digits_are_in_range_and_sum_to_the_scalar() {
    let mut rng = rand::thread_rng();
    for _ in 0..20 {
        let mut bytes = [0u8; 56];
        rand::RngCore::fill_bytes(&mut rng, &mut bytes);
        let s = Scalar::from_bytes(&bytes);
        let digits = s.to_radix_16();
        assert!(digits.iter().all(|d| -8 < *d && *d <= 8));
        assert!(digits_value_matches(&digits, &s.to_bytes()));
    }
}
