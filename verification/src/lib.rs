//! Client-side protocol model for a keyless code-signing certificate
//! authority: certificate-signing-request encoding, response decoding,
//! and certificate-chain materialization.

mod b64;
mod errors;
mod jsontext;
mod pemblock;
mod request;
mod response;
mod sct;
mod x509;

pub use errors::FulcioError;
pub use pemblock::PemBlock;
pub use request::{decode_signing_request, CreateSigningCertificateRequest};
pub use response::{
    CertificateChain, CertificateResponse, SigningCertificate, SigningCertificateDetachedSCT,
    SigningCertificateEmbeddedSCT,
};
pub use sct::{decode_sct_version, SCTVersion};
pub use x509::Certificate;
