//! PEM blocks as the chain carries them, parsed through the `pem` crate.

use vstd::prelude::*;

use crate::errors::FulcioError;

verus! {

/// One PEM block of a certificate chain: its tag (such as `CERTIFICATE`)
/// and its decoded contents, the DER bytes.
pub struct PemBlock {
    pub tag: Vec<u8>,
    pub contents: Vec<u8>,
}

impl View for PemBlock {
    type V = (Seq<u8>, Seq<u8>);

    open spec fn view(&self) -> (Seq<u8>, Seq<u8>) {
        (self.tag@, self.contents@)
    }
}

/// What `pem::parse` returns for the input: the one block's tag and
/// decoded contents, or nothing where the input is not a well-formed PEM
/// block.
pub uninterp spec fn pem_block_of(s: Seq<u8>) -> Option<(Seq<u8>, Seq<u8>)>;

/// Relies on `pem::parse`: it reads one PEM block, a pure function of the
/// input bytes, handing back the tag and the base64-decoded contents.
#[verifier::external_body]
pub(crate) fn parse_pem_block(s: &[u8]) -> (r: Result<PemBlock, FulcioError>)
    ensures
        r is Ok <==> pem_block_of(s@) is Some,
        r is Ok ==> r->Ok_0@ == pem_block_of(s@)->Some_0,
        r is Err ==> r->Err_0 == FulcioError::CertificateParse,
{
    match pem::parse(s) {
        Ok(p) => {
            let tag = p.tag().as_bytes().to_vec();
            Ok(PemBlock { tag, contents: p.into_contents() })
        },
        Err(_) => Err(FulcioError::CertificateParse),
    }
}

} // verus!
