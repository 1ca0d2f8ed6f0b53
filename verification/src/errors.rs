//! The error kinds this library distinguishes.

use vstd::prelude::*;

verus! {

/// Why an encode, decode or materialization step failed.
///
/// Every failure is terminal for the operation in progress; the caller
/// decides whether to retry. The four kinds are kept distinguishable so
/// that a caller can tell a malformed response apart from a bad request
/// or an unexpected protocol version.
#[derive(Clone, Copy, Debug, PartialEq, Eq, Structural)]
pub enum FulcioError {
    /// The certificate request could not be encoded for transport.
    RequestEncoding,
    /// The response body does not have one of the two accepted shapes
    /// (unknown discriminant, malformed envelope, missing or empty chain).
    ResponseShape,
    /// A chain entry is not a valid PEM block or not a valid certificate.
    CertificateParse,
    /// A signed-certificate-timestamp version tag other than the one
    /// this library understands.
    UnknownSctVersion,
}

} // verus!
