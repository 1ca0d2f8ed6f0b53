//! The structured certificate and certificate-request values, through the
//! `x509_cert` crate. Both are opaque here: the library identifies a
//! certificate by the DER bytes it re-encodes to.

use vstd::prelude::*;

use pkcs8::der::{Decode, Encode, EncodePem};

use crate::errors::FulcioError;

verus! {

/// A parsed X.509 certificate.
///
/// It holds an `x509_cert::Certificate`, whose type Verus cannot declare
/// (its type parameter is bounded by an outside trait), so the whole
/// struct is opaque; the library identifies the value by [`cert_der`],
/// the DER bytes it re-encodes to.
#[verifier::external_body]
pub struct Certificate {
    inner: x509_cert::Certificate,
}

#[verifier::external_type_specification]
#[verifier::external_body]
pub struct ExCertReq(x509_cert::request::CertReq);

/// The DER bytes `Certificate::to_der` produces for this certificate.
pub uninterp spec fn cert_der(c: Certificate) -> Seq<u8>;

/// What `Certificate::from_der` makes of the input bytes: the DER that
/// the decoded certificate re-encodes to, or nothing where the input is
/// rejected. Decoding normalizes the rare non-canonical forms it
/// tolerates (a mis-sorted `SET OF`, as in a multi-valued name component,
/// is sorted at decode time), so the result equals the input exactly when
/// the input is canonical DER, and is its canonicalization otherwise.
pub uninterp spec fn cert_from_der_of(d: Seq<u8>) -> Option<Seq<u8>>;

/// Relies on `Certificate::from_der` (through the `der` crate): a pure
/// function of the input bytes, and the decoded certificate re-encodes to
/// the canonicalized form of the input that [`cert_from_der_of`] names.
#[verifier::external_body]
pub(crate) fn certificate_from_der(der: &[u8]) -> (r: Result<Certificate, FulcioError>)
    ensures
        r is Ok <==> cert_from_der_of(der@) is Some,
        r is Ok ==> cert_der(r->Ok_0) == cert_from_der_of(der@)->Some_0,
        r is Err ==> r->Err_0 == FulcioError::CertificateParse,
{
    match x509_cert::Certificate::from_der(der) {
        Ok(c) => Ok(Certificate { inner: c }),
        Err(_) => Err(FulcioError::CertificateParse),
    }
}

impl Certificate {
    /// Relies on the `der` crate's `Encode` for `x509_cert::Certificate`:
    /// re-encoding a certificate is a pure function of the value, and
    /// [`cert_der`] names exactly these bytes.
    #[verifier::external_body]
    pub fn to_der(&self) -> (r: Result<Vec<u8>, FulcioError>)
        ensures
            r is Ok ==> r->Ok_0@ == cert_der(*self),
            r is Err ==> r->Err_0 == FulcioError::CertificateParse,
    {
        match self.inner.to_der() {
            Ok(v) => Ok(v),
            Err(_) => Err(FulcioError::CertificateParse),
        }
    }
}

/// What `CertReq::to_pem` with CRLF line endings makes of this request:
/// the PEM text, or nothing where the request value cannot be encoded.
pub uninterp spec fn csr_pem_of(c: x509_cert::request::CertReq) -> Option<Seq<u8>>;

/// Relies on the `der` crate's `EncodePem` for `CertReq`: with a fixed
/// line ending — CRLF, as the certificate authority's wire protocol
/// demands — both the outcome and the PEM text are pure functions of the
/// request value.
#[verifier::external_body]
pub(crate) fn csr_to_pem(csr: &x509_cert::request::CertReq) -> (r: Result<Vec<u8>, FulcioError>)
    ensures
        r is Ok <==> csr_pem_of(*csr) is Some,
        r is Ok ==> r->Ok_0@ == csr_pem_of(*csr)->Some_0,
        r is Err ==> r->Err_0 == FulcioError::RequestEncoding,
{
    match csr.to_pem(pkcs8::LineEnding::CRLF) {
        Ok(s) => Ok(s.into_bytes()),
        Err(_) => Err(FulcioError::RequestEncoding),
    }
}

} // verus!
