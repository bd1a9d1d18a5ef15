//! The text form of a field element: the standard base64 alphabet applied
//! to its 56 canonical bytes.

use crate::curve::field::bytes::{bytes_value, le_bytes};
use crate::curve::field::field_element::{field_prime, FieldElement};
use base64::engine::general_purpose::STANDARD;
use base64::Engine;
use vstd::prelude::*;

verus! {

/// The error type of the base64 decoder, carried through as it is.
#[verifier::external_type_specification]
#[verifier::external_body]
pub struct ExBase64DecodeError(base64::DecodeError);

/// The standard base64 text of a byte string.
pub uninterp spec fn base64_text(bytes: Seq<u8>) -> Seq<char>;

/// The byte string that a text is the standard base64 form of, if it is
/// one.
pub uninterp spec fn base64_bytes(text: Seq<char>) -> Option<Seq<u8>>;

/// Why a text is not the text form of a field element.
#[derive(Debug)]
pub enum TextDecodeError {
    /// The text is not standard base64; the decoder's own error is kept.
    Base64(base64::DecodeError),
    /// The text is base64 of this many bytes, and not of 56.
    InvalidLength(usize),
}

/// Calls `Engine::encode` of the base64 crate on its `STANDARD` engine. The
/// contract only names the text: it is a function of the bytes alone.
#[verifier::external_body]
fn base64_encode(bytes: &[u8; 56]) -> (text: String)
    ensures
        text@ == base64_text(bytes@),
{
    STANDARD.encode(bytes)
}

/// Calls `Engine::decode` of the base64 crate on its `STANDARD` engine. The
/// contract only names the outcome, bytes or a refusal: it is a function
/// of the text alone.
#[verifier::external_body]
fn base64_decode(text: &str) -> (r: Result<Vec<u8>, base64::DecodeError>)
    ensures
        match r {
            Ok(bytes) => base64_bytes(text@) == Some(bytes@),
            Err(_) => base64_bytes(text@) is None,
        },
{
    STANDARD.decode(text)
}

/// The text form of a field element.
pub fn field_element_to_text(element: &FieldElement) -> (text: String)
    ensures
        text@ == base64_text(le_bytes(element@, 56)),
{
    let bytes = element.to_bytes();
    base64_encode(&bytes)
}

/// The field element of what the base64 decoder made of a text: the
/// decoder's error is handed on, a byte string of another length than 56
/// is refused with its length, and 56 bytes are decoded as
/// `FieldElement::from_bytes` decodes them.
pub fn field_element_from_decoded(decoded: Result<Vec<u8>, base64::DecodeError>) -> (r: Result<
    FieldElement,
    TextDecodeError,
>)
    ensures
        match decoded {
            Ok(bytes) => if bytes@.len() == 56 {
                r matches Ok(element) && element@ == bytes_value(bytes@) % field_prime()
            } else {
                r matches Err(TextDecodeError::InvalidLength(n)) && n == bytes@.len()
            },
            Err(cause) => r matches Err(TextDecodeError::Base64(kept)) && kept == cause,
        },
{
    match decoded {
        Err(cause) => Err(TextDecodeError::Base64(cause)),
        Ok(bytes) => match FieldElement::from_slice(bytes.as_slice()) {
            Some(element) => Ok(element),
            None => Err(TextDecodeError::InvalidLength(bytes.len())),
        },
    }
}

/// The field element of a text form. A text that is not standard base64
/// is refused with the decoder's error, one of another number of bytes
/// than 56 with that number.
pub fn field_element_from_text(text: &str) -> (r: Result<FieldElement, TextDecodeError>)
    ensures
        match base64_bytes(text@) {
            Some(bytes) => if bytes.len() == 56 {
                r matches Ok(element) && element@ == bytes_value(bytes) % field_prime()
            } else {
                r matches Err(TextDecodeError::InvalidLength(n)) && n == bytes.len()
            },
            None => r matches Err(TextDecodeError::Base64(_)),
        },
{
    field_element_from_decoded(base64_decode(text))
}

} // verus!
