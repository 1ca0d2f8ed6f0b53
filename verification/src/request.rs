//! The certificate-signing-request side of the protocol: a PKCS#10
//! request is encoded as PEM with CRLF line endings, that text is base64
//! encoded, and the result stands as the string value of the one field of
//! the JSON request envelope.

use vstd::prelude::*;

use crate::b64::{base64_decode, base64_encode, base64_of, is_base64_byte};
use crate::errors::FulcioError;
use crate::jsontext::{
    bytes_eq, is_plain, lemma_string_body_plain, parse_string, skip_ws, spec_skip_ws, spec_string,
    COLON, LBRACE, QUOTE, RBRACE,
};
use crate::x509::{csr_pem_of, csr_to_pem};

verus! {

/// The one JSON member name of the request envelope,
/// `certificateSigningRequest`, as bytes.
pub open spec fn key_csr() -> Seq<u8> {
    seq![
        99u8, 101, 114, 116, 105, 102, 105, 99, 97, 116, 101, 83, 105, 103, 110, 105, 110, 103, 82,
        101, 113, 117, 101, 115, 116,
    ]
}

fn key_csr_vec() -> (r: Vec<u8>)
    ensures
        r@ == key_csr(),
{
    let mut v: Vec<u8> = Vec::new();
    v.push(99);
    v.push(101);
    v.push(114);
    v.push(116);
    v.push(105);
    v.push(102);
    v.push(105);
    v.push(99);
    v.push(97);
    v.push(116);
    v.push(101);
    v.push(83);
    v.push(105);
    v.push(103);
    v.push(110);
    v.push(105);
    v.push(110);
    v.push(103);
    v.push(82);
    v.push(101);
    v.push(113);
    v.push(117);
    v.push(101);
    v.push(115);
    v.push(116);
    proof {
        assert(v@ =~= key_csr());
    }
    v
}

/// The request envelope around a base64 payload:
/// `{"certificateSigningRequest":"<payload>"}`.
pub open spec fn spec_request_body(b64: Seq<u8>) -> Seq<u8> {
    seq![LBRACE, QUOTE] + key_csr() + seq![QUOTE, COLON, QUOTE] + b64 + seq![QUOTE, RBRACE]
}

/// The base64 payload of a request envelope: exactly one member, named
/// `certificateSigningRequest`, holding a string, with nothing but
/// whitespace around the punctuation; `None` for every other text.
pub open spec fn spec_parse_request(s: Seq<u8>) -> Option<Seq<u8>> {
    let i = spec_skip_ws(s, 0);
    if !(0 <= i < s.len() && s[i] == LBRACE) {
        None
    } else {
        match spec_string(s, spec_skip_ws(s, i + 1)) {
            None => None,
            Some(k) => if k.0 != key_csr() {
                None
            } else {
                let c = spec_skip_ws(s, k.1);
                if !(0 <= c < s.len() && s[c] == COLON) {
                    None
                } else {
                    match spec_string(s, spec_skip_ws(s, c + 1)) {
                        None => None,
                        Some(v) => {
                            let e = spec_skip_ws(s, v.1);
                            if !(0 <= e < s.len() && s[e] == RBRACE) {
                                None
                            } else if spec_skip_ws(s, e + 1) == s.len() {
                                Some(v.0)
                            } else {
                                None
                            }
                        },
                    }
                }
            },
        }
    }
}

fn push_all(dst: &mut Vec<u8>, src: &[u8])
    ensures
        final(dst)@ == old(dst)@ + src@,
{
    let mut k: usize = 0;
    while k < src.len()
        invariant
            0 <= k <= src@.len(),
            dst@ == old(dst)@ + src@.subrange(0, k as int),
        decreases src@.len() - k,
    {
        dst.push(src[k]);
        proof {
            assert(old(dst)@ + src@.subrange(0, k as int) + seq![src@[k as int]] =~= old(dst)@
                + src@.subrange(0, k + 1 as int));
        }
        k = k + 1;
    }
    proof {
        assert(src@.subrange(0, src@.len() as int) =~= src@);
    }
}

/// A request ready for transport: one PKCS#10 certificate-signing
/// request, which [`Self::to_json_bytes`] serializes as the protocol's
/// JSON envelope.
pub struct CreateSigningCertificateRequest {
    pub certificate_signing_request: x509_cert::request::CertReq,
}

impl CreateSigningCertificateRequest {
    /// The JSON request body: the request as PEM with CRLF line endings,
    /// base64 encoded, under the envelope's one member name. It succeeds
    /// exactly when the request value PEM-encodes (and the text stays
    /// under the base64 length bound the machine forces); an encoding
    /// failure surfaces as the request-encoding error.
    pub fn to_json_bytes(&self) -> (r: Result<Vec<u8>, FulcioError>)
        ensures
            csr_pem_of(self.certificate_signing_request) is Some && csr_pem_of(
                self.certificate_signing_request,
            )->Some_0.len() < 0x4000_0000_0000_0000 ==> r is Ok,
            csr_pem_of(self.certificate_signing_request) is None ==> r == Err::<
                Vec<u8>,
                FulcioError,
            >(FulcioError::RequestEncoding),
            r is Ok ==> r->Ok_0@ == spec_request_body(
                base64_of(csr_pem_of(self.certificate_signing_request)->Some_0),
            ),
            r is Err ==> r->Err_0 == FulcioError::RequestEncoding,
    {
        let pem = match csr_to_pem(&self.certificate_signing_request) {
            Ok(p) => p,
            Err(e) => {
                return Err(e);
            },
        };
        if (pem.len() as u64) >= 0x4000_0000_0000_0000u64 {
            return Err(FulcioError::RequestEncoding);
        }
        let b64 = base64_encode(pem.as_slice());
        let mut out: Vec<u8> = Vec::new();
        out.push(LBRACE);
        out.push(QUOTE);
        let key = key_csr_vec();
        push_all(&mut out, key.as_slice());
        out.push(QUOTE);
        out.push(COLON);
        out.push(QUOTE);
        push_all(&mut out, b64.as_slice());
        out.push(QUOTE);
        out.push(RBRACE);
        proof {
            assert(out@ =~= spec_request_body(base64_of(csr_pem_of(
                self.certificate_signing_request,
            )->Some_0)));
        }
        Ok(out)
    }
}

/// Read a request envelope back: the PEM bytes whose base64 encoding
/// stands in it. On an envelope that [`CreateSigningCertificateRequest::to_json_bytes`]
/// produced, this returns exactly the PEM serialization of the request.
pub fn decode_signing_request(body: &[u8]) -> (r: Result<Vec<u8>, FulcioError>)
    ensures
        spec_parse_request(body@) is None ==> r == Err::<Vec<u8>, FulcioError>(
            FulcioError::RequestEncoding,
        ),
        forall|p: Seq<u8>|
            spec_parse_request(body@) == Some(base64_of(p)) ==> r is Ok && r->Ok_0@ == p,
        r is Err ==> r->Err_0 == FulcioError::RequestEncoding,
{
    let i = skip_ws(body, 0);
    if !(i < body.len() && body[i] == LBRACE) {
        return Err(FulcioError::RequestEncoding);
    }
    let j = skip_ws(body, i + 1);
    let k = match parse_string(body, j) {
        Some(k) => k,
        None => {
            return Err(FulcioError::RequestEncoding);
        },
    };
    let key = key_csr_vec();
    if !bytes_eq(k.0.as_slice(), key.as_slice()) {
        return Err(FulcioError::RequestEncoding);
    }
    let c = skip_ws(body, k.1);
    if !(c < body.len() && body[c] == COLON) {
        return Err(FulcioError::RequestEncoding);
    }
    let v = match parse_string(body, skip_ws(body, c + 1)) {
        Some(v) => v,
        None => {
            return Err(FulcioError::RequestEncoding);
        },
    };
    let e = skip_ws(body, v.1);
    if !(e < body.len() && body[e] == RBRACE) {
        return Err(FulcioError::RequestEncoding);
    }
    if skip_ws(body, e + 1) != body.len() {
        return Err(FulcioError::RequestEncoding);
    }
    base64_decode(v.0.as_slice())
}

/// Law: a round trip through the envelope is the identity on the
/// payload. Parsing the envelope the builder produced for any base64
/// payload yields exactly that payload, so the decoded request body is
/// byte-identical to the PEM serialization that was encoded.
pub proof fn lemma_request_round_trip(b64: Seq<u8>)
    requires
        forall|k: int| 0 <= k < b64.len() ==> is_base64_byte(#[trigger] b64[k]),
    ensures
        spec_parse_request(spec_request_body(b64)) == Some(b64),
{
    let s = spec_request_body(b64);
    let n = b64.len() as int;
    assert(s.len() == n + 32);
    assert(s[0] == LBRACE);
    assert(s[1] == QUOTE);
    assert(s[27] == QUOTE);
    assert(s[28] == COLON);
    assert(s[29] == QUOTE);
    assert(s[30 + n] == QUOTE);
    assert(s[31 + n] == RBRACE);
    assert forall|k: int| 2 <= k < 27 implies is_plain(#[trigger] s[k]) by {
        assert(s[k] == key_csr()[k - 2]);
    }
    assert forall|k: int| 30 <= k < 30 + n implies is_plain(#[trigger] s[k]) by {
        assert(s[k] == b64[k - 30]);
        assert(is_base64_byte(b64[k - 30]));
    }
    assert(spec_skip_ws(s, 0) == 0);
    assert(spec_skip_ws(s, 2) == 2);
    lemma_string_body_plain(s, 2, 27, seq![]);
    assert(seq![] + s.subrange(2, 27) =~= key_csr());
    assert(spec_string(s, 1) == Some((key_csr(), 28int)));
    assert(spec_skip_ws(s, 28) == 28);
    assert(spec_skip_ws(s, 29) == 29);
    lemma_string_body_plain(s, 30, 30 + n, seq![]);
    assert(seq![] + s.subrange(30, 30 + n) =~= b64);
    assert(spec_string(s, 29) == Some((b64, 31 + n)));
    assert(spec_skip_ws(s, 31 + n) == 31 + n);
    assert(spec_skip_ws(s, 32 + n) == 32 + n);
}

} // verus!
