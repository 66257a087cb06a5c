//! Text armour for coins that travel out of band: the payload bytes of a
//! payment as Base64 text, and back.

use vstd::prelude::*;

verus! {

/// The error type of `base64::decode`, carried through unopened.
#[verifier::external_type_specification]
#[verifier::external_body]
pub struct ExDecodeError(base64::DecodeError);

/// The text that `base64::encode` gives for a payload.
pub uninterp spec fn base64_text(payload: Seq<u8>) -> Seq<char>;

/// The payload that `base64::decode` reads from a text, if it reads one.
pub uninterp spec fn base64_payload(text: Seq<char>) -> Option<Seq<u8>>;

/// Calls `base64::encode`. Trusted: the result is the standard-alphabet,
/// padded Base64 text of the payload, named `base64_text`. The call panics
/// when the encoded size, four characters for every three bytes, overflows
/// or exceeds what a vector may hold; such payloads are left out.
#[verifier::external_body]
fn armor(payload: &Vec<u8>) -> (r: String)
    requires
        payload@.len() / 3 < usize::MAX / 8,
    ensures
        r@ == base64_text(payload@),
{
    base64::encode(payload)
}

/// Calls `base64::decode`. Trusted: the outcome depends on the text alone,
/// named `base64_payload`; an error means that it read no payload. The
/// call panics when its size estimates, which round the length up to a
/// multiple of eight, overflow; texts of more than half the address space
/// are left out.
#[verifier::external_body]
fn dearmor(text: &str) -> (r: Result<Vec<u8>, base64::DecodeError>)
    requires
        text.len() <= usize::MAX / 2,
    ensures
        r matches Ok(b) ==> base64_payload(text@) == Some(b@),
        r is Err ==> base64_payload(text@) is None,
{
    base64::decode(text)
}

/// Why a payload or a text was not converted.
#[derive(Clone, Copy, Debug, PartialEq, Eq, Structural)]
pub enum TransferError {
    /// Too long for the conversion's size arithmetic.
    TooLong,
    /// The text is not Base64.
    Malformed,
}

/// The payload as Base64 text.
pub fn to_text(payload: &Vec<u8>) -> (r: Result<String, TransferError>)
    ensures
        payload@.len() / 3 < usize::MAX / 8 ==> (r matches Ok(t) && t@ == base64_text(payload@)),
        payload@.len() / 3 >= usize::MAX / 8 ==> r == Err::<String, TransferError>(TransferError::TooLong),
{
    if payload.len() / 3 < usize::MAX / 8 {
        Ok(armor(payload))
    } else {
        Err(TransferError::TooLong)
    }
}

/// The payload that a Base64 text stands for.
pub fn from_text(text: &str) -> (r: Result<Vec<u8>, TransferError>)
    ensures
        text.len() > usize::MAX / 2 ==> r == Err::<Vec<u8>, TransferError>(TransferError::TooLong),
        text.len() <= usize::MAX / 2 ==> match base64_payload(text@) {
            Some(payload) => r matches Ok(b) && b@ == payload,
            None => r == Err::<Vec<u8>, TransferError>(TransferError::Malformed),
        },
{
    if text.len() > usize::MAX / 2 {
        return Err(TransferError::TooLong);
    }
    match dearmor(text) {
        Ok(b) => Ok(b),
        Err(_) => Err(TransferError::Malformed),
    }
}

} // verus!
