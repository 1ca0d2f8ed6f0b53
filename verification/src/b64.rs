//! The transport's base64 layer, through the `base64` crate's standard
//! padded engine.

use vstd::prelude::*;

use base64::Engine;

use crate::errors::FulcioError;

verus! {

/// Holds of every byte the standard base64 alphabet uses, the `=` padding
/// included.
pub open spec fn is_base64_byte(b: u8) -> bool {
    (65 <= b <= 90) || (97 <= b <= 122) || (48 <= b <= 57) || b == 43 || b == 47 || b == 61
}

/// The bytes `base64`'s standard padded engine produces for the input.
pub uninterp spec fn base64_of(b: Seq<u8>) -> Seq<u8>;

/// Relies on base64's `STANDARD` engine: encoding is a pure function of
/// the input bytes, and its documentation fixes the output alphabet to
/// `A`-`Z`, `a`-`z`, `0`-`9`, `+` and `/`, padded with `=`.
#[verifier::external_body]
pub(crate) fn base64_encode(b: &[u8]) -> (r: Vec<u8>)
    requires
        b@.len() < 0x4000_0000_0000_0000,
    ensures
        r@ == base64_of(b@),
        forall|k: int| 0 <= k < r@.len() ==> is_base64_byte(#[trigger] r@[k]),
{
    base64::engine::general_purpose::STANDARD.encode(b).into_bytes()
}

/// Relies on base64's `STANDARD` engine: decoding inverts encoding, so on
/// an encoder output it returns exactly the bytes that were encoded.
#[verifier::external_body]
pub(crate) fn base64_decode(b: &[u8]) -> (r: Result<Vec<u8>, FulcioError>)
    ensures
        forall|p: Seq<u8>| b@ == base64_of(p) ==> r is Ok && r->Ok_0@ == p,
        r is Err ==> r->Err_0 == FulcioError::RequestEncoding,
{
    match base64::engine::general_purpose::STANDARD.decode(b) {
        Ok(v) => Ok(v),
        Err(_) => Err(FulcioError::RequestEncoding),
    }
}

} // verus!
