use tiny_ed448_goldilocks::curve::field::field_element::FieldElement;
use tiny_ed448_goldilocks::curve::field::field_element_serde::{
    field_element_from_decoded, field_element_from_text, field_element_to_text, TextDecodeError,
};

const GX: [u8; 56] = [94, 192, 12, 199, 43, 168, 38, 38, 142, 147, 0, 139, 225, 128, 59, 67, 17, 101, 182, 42, 247, 26, 174, 18, 100, 164, 211, 163, 36, 227, 109, 234, 103, 23, 15, 71, 112, 101, 20, 158, 218, 54, 191, 34, 166, 21, 29, 34, 237, 13, 237, 107, 198, 112, 25, 79];

#[test]
fn text_of_known_elements() {
    assert_eq!(field_element_to_text(&FieldElement::zero()), "AAAAAAAAAAAAAAAAAAAAAAAAAAAAAAAAAAAAAAAAAAAAAAAAAAAAAAAAAAAAAAAAAAAAAAAAAAA=");
    assert_eq!(field_element_to_text(&FieldElement::one()), "AQAAAAAAAAAAAAAAAAAAAAAAAAAAAAAAAAAAAAAAAAAAAAAAAAAAAAAAAAAAAAAAAAAAAAAAAAA=");
    assert_eq!(field_element_to_text(&FieldElement::from_bytes(&GX)), "XsAMxyuoJiaOkwCL4YA7QxFltir3Gq4SZKTToyTjbepnFw9HcGUUnto2vyKmFR0i7Q3ta8ZwGU8=");
}

#[test]
fn text_decodes_to_known_elements() {
    let zero = field_element_from_text("AAAAAAAAAAAAAAAAAAAAAAAAAAAAAAAAAAAAAAAAAAAAAAAAAAAAAAAAAAAAAAAAAAAAAAAAAAA=").expect("56 bytes");
    assert!(zero.is_zero());
    let one = field_element_from_text("AQAAAAAAAAAAAAAAAAAAAAAAAAAAAAAAAAAAAAAAAAAAAAAAAAAAAAAAAAAAAAAAAAAAAAAAAAA=").expect("56 bytes");
    assert!(one == FieldElement::one());
    let gx = field_element_from_text("XsAMxyuoJiaOkwCL4YA7QxFltir3Gq4SZKTToyTjbepnFw9HcGUUnto2vyKmFR0i7Q3ta8ZwGU8=").expect("56 bytes");
    assert_eq!(gx.to_bytes(), GX);
    // the encoding of the prime itself stands for 0
    let p = field_element_from_text("//////////////////////////////////////7///////////////////////////////////8=").expect("56 bytes");
    assert!(p.is_zero());
}

#[test]
fn text_round_trip() {
    let x = FieldElement::from_bytes(&GX).square();
    let text = field_element_to_text(&x);
    assert_eq!(text.len(), 76);
    let back = field_element_from_text(&text).expect("56 bytes");
    assert!(back == x);
    assert_eq!(field_element_to_text(&back), text);
}

#[test]
fn text_of_wrong_length_is_refused_with_the_length() {
    assert!(matches!(
        field_element_from_text("AAAAAAAAAAAAAAAAAAAAAAAAAAAAAAAAAAAAAAAAAAAAAAAAAAAAAAAAAAAAAAAAAAAAAAAAAA=="),
        Err(TextDecodeError::InvalidLength(55))
    ));
    assert!(matches!(
        field_element_from_text("AAAAAAAAAAAAAAAAAAAAAAAAAAAAAAAAAAAAAAAAAAAAAAAAAAAAAAAAAAAAAAAAAAAAAAAAAAAA"),
        Err(TextDecodeError::InvalidLength(57))
    ));
    assert!(matches!(field_element_from_text(""), Err(TextDecodeError::InvalidLength(0))));
}

#[test]
fn text_that_is_not_base64_is_refused_with_the_cause() {
    assert!(matches!(
        field_element_from_text("not base64!"),
        Err(TextDecodeError::Base64(base64::DecodeError::InvalidByte(3, b' ')))
    ));
    assert!(matches!(field_element_from_text("AAA"), Err(TextDecodeError::Base64(_))));
}

#[test]
fn decoded_bytes_are_taken_as_they_come() {
    let ok = field_element_from_decoded(Ok(GX.to_vec())).expect("56 bytes");
    assert_eq!(ok.to_bytes(), GX);
    assert!(matches!(
        field_element_from_decoded(Ok(vec![1, 2, 3])),
        Err(TextDecodeError::InvalidLength(3))
    ));
    assert!(matches!(
        field_element_from_decoded(Err(base64::DecodeError::InvalidPadding)),
        Err(TextDecodeError::Base64(base64::DecodeError::InvalidPadding))
    ));
}
