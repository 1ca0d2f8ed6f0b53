//! The response side of the protocol: the authority answers with a JSON
//! object whose one member names the response shape — a certificate with
//! an embedded signed-certificate-timestamp, or one whose timestamp comes
//! detached — and carries the PEM certificate chain. The decoder selects
//! the shape by that discriminant and fails closed on everything else;
//! the materializer turns the decoded chain into parsed certificates.

use vstd::prelude::*;

use crate::errors::FulcioError;
use crate::jsontext::{
    bytes_eq, is_plain, lemma_string_body_plain, parse_string, skip_value, skip_ws, spec_skip_value,
    spec_skip_ws, spec_string, COLON, COMMA, LBRACE, LBRACKET, QUOTE, RBRACE, RBRACKET,
};
use crate::pemblock::{parse_pem_block, pem_block_of, PemBlock};
use crate::x509::{cert_der, cert_from_der_of, certificate_from_der, Certificate};

verus! {

/// The discriminant of the detached-timestamp shape,
/// `signedCertificateDetachedSct`, as bytes.
#[verifier::opaque]
pub open spec fn key_detached() -> Seq<u8> {
    seq![
        115u8, 105, 103, 110, 101, 100, 67, 101, 114, 116, 105, 102, 105, 99, 97, 116, 101, 68,
        101, 116, 97, 99, 104, 101, 100, 83, 99, 116,
    ]
}

/// The discriminant of the embedded-timestamp shape,
/// `signedCertificateEmbeddedSct`, as bytes.
#[verifier::opaque]
pub open spec fn key_embedded() -> Seq<u8> {
    seq![
        115u8, 105, 103, 110, 101, 100, 67, 101, 114, 116, 105, 102, 105, 99, 97, 116, 101, 69,
        109, 98, 101, 100, 100, 101, 100, 83, 99, 116,
    ]
}

/// The member name `chain`, as bytes.
#[verifier::opaque]
pub open spec fn key_chain() -> Seq<u8> {
    seq![99u8, 104, 97, 105, 110]
}

/// The member name `certificates`, as bytes.
#[verifier::opaque]
pub open spec fn key_certificates() -> Seq<u8> {
    seq![99u8, 101, 114, 116, 105, 102, 105, 99, 97, 116, 101, 115]
}

fn key_detached_vec() -> (r: Vec<u8>)
    ensures
        r@ == key_detached(),
{
    let mut v: Vec<u8> = Vec::new();
    v.push(115);
    v.push(105);
    v.push(103);
    v.push(110);
    v.push(101);
    v.push(100);
    v.push(67);
    v.push(101);
    v.push(114);
    v.push(116);
    v.push(105);
    v.push(102);
    v.push(105);
    v.push(99);
    v.push(97);
    v.push(116);
    v.push(101);
    v.push(68);
    v.push(101);
    v.push(116);
    v.push(97);
    v.push(99);
    v.push(104);
    v.push(101);
    v.push(100);
    v.push(83);
    v.push(99);
    v.push(116);
    proof {
        reveal(key_detached);
        assert(v@ =~= key_detached());
    }
    v
}

fn key_embedded_vec() -> (r: Vec<u8>)
    ensures
        r@ == key_embedded(),
{
    let mut v: Vec<u8> = Vec::new();
    v.push(115);
    v.push(105);
    v.push(103);
    v.push(110);
    v.push(101);
    v.push(100);
    v.push(67);
    v.push(101);
    v.push(114);
    v.push(116);
    v.push(105);
    v.push(102);
    v.push(105);
    v.push(99);
    v.push(97);
    v.push(116);
    v.push(101);
    v.push(69);
    v.push(109);
    v.push(98);
    v.push(101);
    v.push(100);
    v.push(100);
    v.push(101);
    v.push(100);
    v.push(83);
    v.push(99);
    v.push(116);
    proof {
        reveal(key_embedded);
        assert(v@ =~= key_embedded());
    }
    v
}

fn key_chain_vec() -> (r: Vec<u8>)
    ensures
        r@ == key_chain(),
{
    let mut v: Vec<u8> = Vec::new();
    v.push(99);
    v.push(104);
    v.push(97);
    v.push(105);
    v.push(110);
    proof {
        reveal(key_chain);
        assert(v@ =~= key_chain());
    }
    v
}

fn key_certificates_vec() -> (r: Vec<u8>)
    ensures
        r@ == key_certificates(),
{
    let mut v: Vec<u8> = Vec::new();
    v.push(99);
    v.push(101);
    v.push(114);
    v.push(116);
    v.push(105);
    v.push(102);
    v.push(105);
    v.push(99);
    v.push(97);
    v.push(116);
    v.push(101);
    v.push(115);
    proof {
        reveal(key_certificates);
        assert(v@ =~= key_certificates());
    }
    v
}

/// The views of a sequence of byte vectors.
pub open spec fn texts_view(v: Seq<Vec<u8>>) -> Seq<Seq<u8>> {
    v.map_values(|x: Vec<u8>| x@)
}

/// The items of the `certificates` array after position `i` (the opening
/// bracket stands before `i`): the strings gathered onto `acc`, and the
/// position after the closing bracket. Only strings are accepted there.
pub open spec fn spec_string_items(
    s: Seq<u8>,
    i: int,
    acc: Seq<Seq<u8>>,
    first: bool,
    fuel: nat,
) -> Option<(Seq<Seq<u8>>, int)>
    decreases fuel,
{
    if fuel == 0 {
        None
    } else {
        let j = spec_skip_ws(s, i);
        if !(0 <= j < s.len()) {
            None
        } else if first && s[j] == RBRACKET {
            Some((acc, j + 1))
        } else {
            match spec_string(s, j) {
                None => None,
                Some(v) => {
                    let e = spec_skip_ws(s, v.1);
                    if 0 <= e < s.len() && s[e] == COMMA {
                        spec_string_items(s, e + 1, acc.push(v.0), false, (fuel - 1) as nat)
                    } else if 0 <= e < s.len() && s[e] == RBRACKET {
                        Some((acc.push(v.0), e + 1))
                    } else {
                        None
                    }
                },
            }
        }
    }
}

/// The members of a `chain` object after position `i`: `found` carries
/// the `certificates` array where an earlier member held it. A second
/// `certificates` member, or a close without one, fails.
pub open spec fn spec_chain_members(
    s: Seq<u8>,
    i: int,
    found: Option<Seq<Seq<u8>>>,
    first: bool,
    fuel: nat,
) -> Option<(Seq<Seq<u8>>, int)>
    decreases fuel,
{
    if fuel == 0 {
        None
    } else {
        let j = spec_skip_ws(s, i);
        if !(0 <= j < s.len()) {
            None
        } else if first && s[j] == RBRACE {
            match found {
                Some(v) => Some((v, j + 1)),
                None => None,
            }
        } else {
            match spec_string(s, j) {
                None => None,
                Some(k) => {
                    let c = spec_skip_ws(s, k.1);
                    if !(0 <= c < s.len() && s[c] == COLON) {
                        None
                    } else if k.0 == key_certificates() {
                        if found is Some {
                            None
                        } else {
                            let a = spec_skip_ws(s, c + 1);
                            if !(0 <= a < s.len() && s[a] == LBRACKET) {
                                None
                            } else {
                                match spec_string_items(s, a + 1, seq![], true, (fuel - 1) as nat) {
                                    None => None,
                                    Some(items) => spec_chain_close(
                                        s,
                                        items.1,
                                        Some(items.0),
                                        (fuel - 1) as nat,
                                    ),
                                }
                            }
                        }
                    } else {
                        match spec_skip_value(s, c + 1, (fuel - 1) as nat) {
                            None => None,
                            Some(m) => spec_chain_close(s, m, found, (fuel - 1) as nat),
                        }
                    }
                },
            }
        }
    }
}

/// After one member of a `chain` object: a comma continues the members, a
/// closing brace ends them.
pub open spec fn spec_chain_close(s: Seq<u8>, i: int, found: Option<Seq<Seq<u8>>>, fuel: nat) -> Option<
    (Seq<Seq<u8>>, int),
>
    decreases fuel,
{
    if fuel == 0 {
        None
    } else {
        let e = spec_skip_ws(s, i);
        if 0 <= e < s.len() && s[e] == COMMA {
            spec_chain_members(s, e + 1, found, false, (fuel - 1) as nat)
        } else if 0 <= e < s.len() && s[e] == RBRACE {
            match found {
                Some(v) => Some((v, e + 1)),
                None => None,
            }
        } else {
            None
        }
    }
}

/// The members of one of the two shape objects after position `i`:
/// `found` carries the chain's certificate texts where an earlier `chain`
/// member held them. A second `chain` member, or a close without one,
/// fails.
pub open spec fn spec_inner_members(
    s: Seq<u8>,
    i: int,
    found: Option<Seq<Seq<u8>>>,
    first: bool,
    fuel: nat,
) -> Option<(Seq<Seq<u8>>, int)>
    decreases fuel,
{
    if fuel == 0 {
        None
    } else {
        let j = spec_skip_ws(s, i);
        if !(0 <= j < s.len()) {
            None
        } else if first && s[j] == RBRACE {
            match found {
                Some(v) => Some((v, j + 1)),
                None => None,
            }
        } else {
            match spec_string(s, j) {
                None => None,
                Some(k) => {
                    let c = spec_skip_ws(s, k.1);
                    if !(0 <= c < s.len() && s[c] == COLON) {
                        None
                    } else if k.0 == key_chain() {
                        if found is Some {
                            None
                        } else {
                            let b = spec_skip_ws(s, c + 1);
                            if !(0 <= b < s.len() && s[b] == LBRACE) {
                                None
                            } else {
                                match spec_chain_members(s, b + 1, None, true, (fuel - 1) as nat) {
                                    None => None,
                                    Some(ch) => spec_inner_close(
                                        s,
                                        ch.1,
                                        Some(ch.0),
                                        (fuel - 1) as nat,
                                    ),
                                }
                            }
                        }
                    } else {
                        match spec_skip_value(s, c + 1, (fuel - 1) as nat) {
                            None => None,
                            Some(m) => spec_inner_close(s, m, found, (fuel - 1) as nat),
                        }
                    }
                },
            }
        }
    }
}

/// After one member of a shape object: a comma continues the members, a
/// closing brace ends them.
pub open spec fn spec_inner_close(s: Seq<u8>, i: int, found: Option<Seq<Seq<u8>>>, fuel: nat) -> Option<
    (Seq<Seq<u8>>, int),
>
    decreases fuel,
{
    if fuel == 0 {
        None
    } else {
        let e = spec_skip_ws(s, i);
        if 0 <= e < s.len() && s[e] == COMMA {
            spec_inner_members(s, e + 1, found, false, (fuel - 1) as nat)
        } else if 0 <= e < s.len() && s[e] == RBRACE {
            match found {
                Some(v) => Some((v, e + 1)),
                None => None,
            }
        } else {
            None
        }
    }
}

/// What decoding a response body yields before the PEM stage: whether the
/// shape is the embedded one, and the certificate texts of the chain, in
/// the order the body holds them. Every malformed body, every unknown
/// discriminant, a missing `chain` or `certificates` member and an empty
/// chain fail with a response-shape error.
pub open spec fn spec_decode_response(s: Seq<u8>) -> Result<(bool, Seq<Seq<u8>>), FulcioError> {
    let fuel = (s.len() + 1) as nat;
    let i = spec_skip_ws(s, 0);
    if !(0 <= i < s.len() && s[i] == LBRACE) {
        Err(FulcioError::ResponseShape)
    } else {
        match spec_string(s, spec_skip_ws(s, i + 1)) {
            None => Err(FulcioError::ResponseShape),
            Some(k) => {
                let embedded = k.0 == key_embedded();
                if !embedded && k.0 != key_detached() {
                    Err(FulcioError::ResponseShape)
                } else {
                    let c = spec_skip_ws(s, k.1);
                    if !(0 <= c < s.len() && s[c] == COLON) {
                        Err(FulcioError::ResponseShape)
                    } else {
                        let b = spec_skip_ws(s, c + 1);
                        if !(0 <= b < s.len() && s[b] == LBRACE) {
                            Err(FulcioError::ResponseShape)
                        } else {
                            match spec_inner_members(s, b + 1, None, true, fuel) {
                                None => Err(FulcioError::ResponseShape),
                                Some(res) => {
                                    let e = spec_skip_ws(s, res.1);
                                    if !(0 <= e < s.len() && s[e] == RBRACE) {
                                        Err(FulcioError::ResponseShape)
                                    } else if spec_skip_ws(s, e + 1) != s.len() {
                                        Err(FulcioError::ResponseShape)
                                    } else if res.0.len() == 0 {
                                        Err(FulcioError::ResponseShape)
                                    } else {
                                        Ok((embedded, res.0))
                                    }
                                },
                            }
                        }
                    }
                }
            },
        }
    }
}

fn string_items(s: &[u8], i: usize, acc: Vec<Vec<u8>>, first: bool, fuel: usize) -> (r: Option<
    (Vec<Vec<u8>>, usize),
>)
    requires
        i <= s@.len(),
    ensures
        match r {
            Some(p) => spec_string_items(s@, i as int, texts_view(acc@), first, fuel as nat)
                == Some((texts_view(p.0@), p.1 as int)) && p.1 <= s@.len(),
            None => spec_string_items(s@, i as int, texts_view(acc@), first, fuel as nat) is None,
        },
    decreases fuel,
{
    if fuel == 0 {
        return None;
    }
    let j = skip_ws(s, i);
    if j >= s.len() {
        return None;
    }
    if first && s[j] == RBRACKET {
        return Some((acc, j + 1));
    }
    match parse_string(s, j) {
        None => None,
        Some(v) => {
            let e = skip_ws(s, v.1);
            if e < s.len() && s[e] == COMMA {
                let ghost old_acc = acc@;
                let mut acc2 = acc;
                acc2.push(v.0);
                proof {
                    assert(texts_view(acc2@) =~= texts_view(old_acc).push(
                        spec_string(s@, j as int)->Some_0.0,
                    ));
                }
                string_items(s, e + 1, acc2, false, fuel - 1)
            } else if e < s.len() && s[e] == RBRACKET {
                let ghost old_acc = acc@;
                let mut acc2 = acc;
                acc2.push(v.0);
                proof {
                    assert(texts_view(acc2@) =~= texts_view(old_acc).push(
                        spec_string(s@, j as int)->Some_0.0,
                    ));
                }
                Some((acc2, e + 1))
            } else {
                None
            }
        },
    }
}

/// The view of an optional gathered `certificates` array.
pub open spec fn opt_texts_view(f: Option<Vec<Vec<u8>>>) -> Option<Seq<Seq<u8>>> {
    match f {
        Some(v) => Some(texts_view(v@)),
        None => None,
    }
}

fn chain_members(
    s: &[u8],
    i: usize,
    found: Option<Vec<Vec<u8>>>,
    first: bool,
    fuel: usize,
) -> (r: Option<(Vec<Vec<u8>>, usize)>)
    requires
        i <= s@.len(),
    ensures
        match r {
            Some(p) => spec_chain_members(s@, i as int, opt_texts_view(found), first, fuel as nat)
                == Some((texts_view(p.0@), p.1 as int)) && p.1 <= s@.len(),
            None => spec_chain_members(
                s@,
                i as int,
                opt_texts_view(found),
                first,
                fuel as nat,
            ) is None,
        },
    decreases fuel, 1int,
{
    if fuel == 0 {
        return None;
    }
    let j = skip_ws(s, i);
    if j >= s.len() {
        return None;
    }
    if first && s[j] == RBRACE {
        return match found {
            Some(v) => Some((v, j + 1)),
            None => None,
        };
    }
    match parse_string(s, j) {
        None => None,
        Some(k) => {
            let c = skip_ws(s, k.1);
            if !(c < s.len() && s[c] == COLON) {
                return None;
            }
            let kcert = key_certificates_vec();
            if bytes_eq(k.0.as_slice(), kcert.as_slice()) {
                if found.is_some() {
                    return None;
                }
                let a = skip_ws(s, c + 1);
                if !(a < s.len() && s[a] == LBRACKET) {
                    return None;
                }
                match string_items(s, a + 1, Vec::new(), true, fuel - 1) {
                    None => {
                        proof {
                            assert(texts_view(Seq::<Vec<u8>>::empty()) =~= Seq::<Seq<u8>>::empty());
                        }
                        None
                    },
                    Some(items) => {
                        proof {
                            assert(texts_view(Seq::<Vec<u8>>::empty()) =~= Seq::<Seq<u8>>::empty());
                        }
                        chain_close(s, items.1, Some(items.0), fuel - 1)
                    },
                }
            } else {
                match skip_value(s, c + 1, fuel - 1) {
                    None => None,
                    Some(m) => chain_close(s, m, found, fuel - 1),
                }
            }
        },
    }
}

fn chain_close(s: &[u8], i: usize, found: Option<Vec<Vec<u8>>>, fuel: usize) -> (r: Option<
    (Vec<Vec<u8>>, usize),
>)
    requires
        i <= s@.len(),
    ensures
        match r {
            Some(p) => spec_chain_close(s@, i as int, opt_texts_view(found), fuel as nat) == Some(
                (texts_view(p.0@), p.1 as int),
            ) && p.1 <= s@.len(),
            None => spec_chain_close(s@, i as int, opt_texts_view(found), fuel as nat) is None,
        },
    decreases fuel, 0int,
{
    if fuel == 0 {
        return None;
    }
    let e = skip_ws(s, i);
    if e < s.len() && s[e] == COMMA {
        chain_members(s, e + 1, found, false, fuel - 1)
    } else if e < s.len() && s[e] == RBRACE {
        match found {
            Some(v) => Some((v, e + 1)),
            None => None,
        }
    } else {
        None
    }
}

fn inner_members(
    s: &[u8],
    i: usize,
    found: Option<Vec<Vec<u8>>>,
    first: bool,
    fuel: usize,
) -> (r: Option<(Vec<Vec<u8>>, usize)>)
    requires
        i <= s@.len(),
    ensures
        match r {
            Some(p) => spec_inner_members(s@, i as int, opt_texts_view(found), first, fuel as nat)
                == Some((texts_view(p.0@), p.1 as int)) && p.1 <= s@.len(),
            None => spec_inner_members(
                s@,
                i as int,
                opt_texts_view(found),
                first,
                fuel as nat,
            ) is None,
        },
    decreases fuel, 1int,
{
    if fuel == 0 {
        return None;
    }
    let j = skip_ws(s, i);
    if j >= s.len() {
        return None;
    }
    if first && s[j] == RBRACE {
        return match found {
            Some(v) => Some((v, j + 1)),
            None => None,
        };
    }
    match parse_string(s, j) {
        None => None,
        Some(k) => {
            let c = skip_ws(s, k.1);
            if !(c < s.len() && s[c] == COLON) {
                return None;
            }
            let kchain = key_chain_vec();
            if bytes_eq(k.0.as_slice(), kchain.as_slice()) {
                if found.is_some() {
                    return None;
                }
                let b = skip_ws(s, c + 1);
                if !(b < s.len() && s[b] == LBRACE) {
                    return None;
                }
                match chain_members(s, b + 1, None, true, fuel - 1) {
                    None => None,
                    Some(ch) => inner_close(s, ch.1, Some(ch.0), fuel - 1),
                }
            } else {
                match skip_value(s, c + 1, fuel - 1) {
                    None => None,
                    Some(m) => inner_close(s, m, found, fuel - 1),
                }
            }
        },
    }
}

fn inner_close(s: &[u8], i: usize, found: Option<Vec<Vec<u8>>>, fuel: usize) -> (r: Option<
    (Vec<Vec<u8>>, usize),
>)
    requires
        i <= s@.len(),
    ensures
        match r {
            Some(p) => spec_inner_close(s@, i as int, opt_texts_view(found), fuel as nat) == Some(
                (texts_view(p.0@), p.1 as int),
            ) && p.1 <= s@.len(),
            None => spec_inner_close(s@, i as int, opt_texts_view(found), fuel as nat) is None,
        },
    decreases fuel, 0int,
{
    if fuel == 0 {
        return None;
    }
    let e = skip_ws(s, i);
    if e < s.len() && s[e] == COMMA {
        inner_members(s, e + 1, found, false, fuel - 1)
    } else if e < s.len() && s[e] == RBRACE {
        match found {
            Some(v) => Some((v, e + 1)),
            None => None,
        }
    } else {
        None
    }
}

/// Decode a response body down to its shape flag and the chain's
/// certificate texts, before any PEM parsing.
fn decode_response_raw(s: &[u8]) -> (r: Result<(bool, Vec<Vec<u8>>), FulcioError>)
    requires
        s@.len() < usize::MAX,
    ensures
        match r {
            Ok(p) => spec_decode_response(s@) == Ok::<(bool, Seq<Seq<u8>>), FulcioError>(
                (p.0, texts_view(p.1@)),
            ),
            Err(e) => spec_decode_response(s@) == Err::<(bool, Seq<Seq<u8>>), FulcioError>(e),
        },
{
    let fuel = s.len() + 1;
    let i = skip_ws(s, 0);
    if !(i < s.len() && s[i] == LBRACE) {
        return Err(FulcioError::ResponseShape);
    }
    let k = match parse_string(s, skip_ws(s, i + 1)) {
        Some(k) => k,
        None => {
            return Err(FulcioError::ResponseShape);
        },
    };
    let kemb = key_embedded_vec();
    let kdet = key_detached_vec();
    let embedded = bytes_eq(k.0.as_slice(), kemb.as_slice());
    if !embedded && !bytes_eq(k.0.as_slice(), kdet.as_slice()) {
        return Err(FulcioError::ResponseShape);
    }
    let c = skip_ws(s, k.1);
    if !(c < s.len() && s[c] == COLON) {
        return Err(FulcioError::ResponseShape);
    }
    let b = skip_ws(s, c + 1);
    if !(b < s.len() && s[b] == LBRACE) {
        return Err(FulcioError::ResponseShape);
    }
    let res = match inner_members(s, b + 1, None, true, fuel) {
        Some(res) => res,
        None => {
            return Err(FulcioError::ResponseShape);
        },
    };
    let e = skip_ws(s, res.1);
    if !(e < s.len() && s[e] == RBRACE) {
        return Err(FulcioError::ResponseShape);
    }
    if skip_ws(s, e + 1) != s.len() {
        return Err(FulcioError::ResponseShape);
    }
    if res.0.len() == 0 {
        return Err(FulcioError::ResponseShape);
    }
    Ok((embedded, res.0))
}

/// An ordered certificate chain, exactly as the response carried it: the
/// leaf first, each following block one step toward the root.
pub struct CertificateChain {
    pub certificates: Vec<PemBlock>,
}

impl View for CertificateChain {
    type V = Seq<(Seq<u8>, Seq<u8>)>;

    open spec fn view(&self) -> Seq<(Seq<u8>, Seq<u8>)> {
        self.certificates@.map_values(|p: PemBlock| p@)
    }
}

/// The detached-timestamp response shape: the chain, with the timestamp
/// delivered separately by the authority.
pub struct SigningCertificateDetachedSCT {
    pub chain: CertificateChain,
}

/// The embedded-timestamp response shape: the chain, with the timestamp
/// inside the leaf certificate.
pub struct SigningCertificateEmbeddedSCT {
    pub chain: CertificateChain,
}

/// A decoded response: one of the two shapes, each carrying its chain.
/// The view is the pair of a flag — true for the embedded shape — and the
/// chain's blocks.
pub enum SigningCertificate {
    SignedCertificateDetachedSct(SigningCertificateDetachedSCT),
    SignedCertificateEmbeddedSct(SigningCertificateEmbeddedSCT),
}

impl View for SigningCertificate {
    type V = (bool, Seq<(Seq<u8>, Seq<u8>)>);

    open spec fn view(&self) -> (bool, Seq<(Seq<u8>, Seq<u8>)>) {
        match self {
            SigningCertificate::SignedCertificateDetachedSct(d) => (false, d.chain@),
            SigningCertificate::SignedCertificateEmbeddedSct(e) => (true, e.chain@),
        }
    }
}

impl SigningCertificate {
    /// Decode a raw response body. The shape is selected by the one
    /// top-level member name; each element of the `certificates` array is
    /// parsed as a PEM block, and one bad element fails the whole decode,
    /// so no partial chain is ever produced.
    pub fn from_json_bytes(body: &[u8]) -> (r: Result<SigningCertificate, FulcioError>)
        requires
            body@.len() < usize::MAX,
        ensures
            r is Ok ==> r->Ok_0@.1.len() >= 1,
            r is Err ==> r->Err_0 == FulcioError::ResponseShape || r->Err_0
                == FulcioError::CertificateParse,
            match spec_decode_response(body@) {
                Err(e) => r == Err::<SigningCertificate, FulcioError>(e),
                Ok(sh) => if forall|m: int|
                    0 <= m < sh.1.len() ==> pem_block_of(#[trigger] sh.1[m]) is Some {
                    &&& r is Ok
                    &&& r->Ok_0@.0 == sh.0
                    &&& r->Ok_0@.1 == sh.1.map_values(|t: Seq<u8>| pem_block_of(t)->Some_0)
                } else {
                    r == Err::<SigningCertificate, FulcioError>(FulcioError::CertificateParse)
                },
            },
    {
        let (embedded, texts) = match decode_response_raw(body) {
            Ok(p) => p,
            Err(e) => {
                return Err(e);
            },
        };
        let mut pems: Vec<PemBlock> = Vec::new();
        let mut k: usize = 0;
        while k < texts.len()
            invariant
                0 <= k <= texts@.len(),
                pems@.len() == k,
                spec_decode_response(body@) == Ok::<(bool, Seq<Seq<u8>>), FulcioError>(
                    (embedded, texts_view(texts@)),
                ),
                forall|m: int|
                    0 <= m < k ==> pem_block_of(#[trigger] texts_view(texts@)[m]) is Some,
                forall|m: int|
                    0 <= m < k ==> pems@[m]@ == pem_block_of(#[trigger] texts_view(texts@)[m])->Some_0,
            decreases texts@.len() - k,
        {
            match parse_pem_block(texts[k].as_slice()) {
                Ok(p) => {
                    pems.push(p);
                },
                Err(e) => {
                    proof {
                        let sh = spec_decode_response(body@)->Ok_0;
                        assert(sh.1 == texts_view(texts@));
                        assert(pem_block_of(sh.1[k as int]) is None);
                        assert(!(forall|m: int|
                            0 <= m < sh.1.len() ==> pem_block_of(#[trigger] sh.1[m]) is Some));
                    }
                    return Err(e);
                },
            }
            k = k + 1;
        }
        let chain = CertificateChain { certificates: pems };
        let sc = if embedded {
            SigningCertificate::SignedCertificateEmbeddedSct(
                SigningCertificateEmbeddedSCT { chain },
            )
        } else {
            SigningCertificate::SignedCertificateDetachedSct(
                SigningCertificateDetachedSCT { chain },
            )
        };
        proof {
            assert(sc@.1 =~= texts_view(texts@).map_values(|t: Seq<u8>| pem_block_of(t)->Some_0));
        }
        Ok(sc)
    }
}

/// The normalized output of a decoded and materialized response: the leaf
/// certificate that binds the requester's key, and the remaining chain,
/// in the order the authority sent it.
pub struct CertificateResponse {
    pub cert: Certificate,
    pub chain: Vec<Certificate>,
}

impl CertificateResponse {
    /// Materialize a decoded response: parse every PEM block's contents
    /// into a structured certificate. The first block becomes the leaf;
    /// the rest become the chain, in their received order, each
    /// certificate identified by the canonicalized DER of its block. It
    /// succeeds exactly when the chain is nonempty and every block's
    /// contents parse as a certificate; one bad block fails the whole
    /// call — no partial chain is ever produced — and an empty chain is a
    /// response-shape error, never a degenerate result.
    pub fn from_signing_certificate(sc: &SigningCertificate) -> (r: Result<
        CertificateResponse,
        FulcioError,
    >)
        ensures
            sc@.1.len() == 0 ==> r == Err::<CertificateResponse, FulcioError>(
                FulcioError::ResponseShape,
            ),
            sc@.1.len() >= 1 && (forall|m: int|
                0 <= m < sc@.1.len() ==> cert_from_der_of(#[trigger] sc@.1[m].1) is Some) ==> r
                is Ok,
            r is Ok ==> {
                &&& sc@.1.len() >= 1
                &&& forall|m: int|
                    0 <= m < sc@.1.len() ==> cert_from_der_of(#[trigger] sc@.1[m].1) is Some
                &&& cert_der(r->Ok_0.cert) == cert_from_der_of(sc@.1[0].1)->Some_0
                &&& r->Ok_0.chain@.len() == sc@.1.len() - 1
                &&& forall|m: int|
                    0 <= m < sc@.1.len() - 1 ==> cert_der(#[trigger] r->Ok_0.chain@[m])
                        == cert_from_der_of(sc@.1[m + 1].1)->Some_0
            },
            r is Err && sc@.1.len() >= 1 ==> r->Err_0 == FulcioError::CertificateParse,
    {
        let certs: &Vec<PemBlock> = match sc {
            SigningCertificate::SignedCertificateDetachedSct(d) => &d.chain.certificates,
            SigningCertificate::SignedCertificateEmbeddedSct(e) => &e.chain.certificates,
        };
        if certs.len() == 0 {
            return Err(FulcioError::ResponseShape);
        }
        let cert = match certificate_from_der(certs[0].contents.as_slice()) {
            Ok(c) => c,
            Err(e) => {
                proof {
                    assert(cert_from_der_of(sc@.1[0].1) is None);
                }
                return Err(e);
            },
        };
        let mut chain: Vec<Certificate> = Vec::new();
        let mut k: usize = 1;
        while k < certs.len()
            invariant
                1 <= k <= certs@.len(),
                chain@.len() == k - 1,
                sc@.1 == certs@.map_values(|p: PemBlock| p@),
                cert_from_der_of(certs@[0]@.1) is Some,
                cert_der(cert) == cert_from_der_of(certs@[0]@.1)->Some_0,
                forall|m: int|
                    1 <= m < k ==> cert_from_der_of(#[trigger] certs@[m]@.1) is Some,
                forall|m: int|
                    0 <= m < k - 1 ==> cert_der(#[trigger] chain@[m]) == cert_from_der_of(
                        certs@[m + 1]@.1,
                    )->Some_0,
            decreases certs@.len() - k,
        {
            match certificate_from_der(certs[k].contents.as_slice()) {
                Ok(c) => {
                    chain.push(c);
                },
                Err(e) => {
                    proof {
                        assert(cert_from_der_of(sc@.1[k as int].1) is None);
                    }
                    return Err(e);
                },
            }
            k = k + 1;
        }
        proof {
            assert forall|m: int|
                0 <= m < sc@.1.len() implies cert_from_der_of(#[trigger] sc@.1[m].1) is Some by {
                assert(sc@.1[m].1 == certs@[m]@.1);
            }
        }
        Ok(CertificateResponse { cert, chain })
    }
}

/// The canonical rendering of the `certificates` array's items:
/// `"t0","t1",...`, each text quoted, the items separated by commas.
pub open spec fn spec_render_items(texts: Seq<Seq<u8>>) -> Seq<u8>
    decreases texts.len(),
{
    if texts.len() == 0 {
        seq![]
    } else if texts.len() == 1 {
        seq![QUOTE] + texts[0] + seq![QUOTE]
    } else {
        seq![QUOTE] + texts[0] + seq![QUOTE, COMMA] + spec_render_items(texts.drop_first())
    }
}

/// The canonical response body up to the opening bracket of the
/// `certificates` array.
pub open spec fn spec_response_prefix(embedded: bool) -> Seq<u8> {
    let key = if embedded {
        key_embedded()
    } else {
        key_detached()
    };
    seq![LBRACE, QUOTE] + key + seq![QUOTE, COLON, LBRACE, QUOTE] + key_chain() + seq![
        QUOTE,
        COLON,
        LBRACE,
        QUOTE,
    ] + key_certificates() + seq![QUOTE, COLON, LBRACKET]
}

/// The canonical response body for a shape and its certificate texts:
/// the one discriminant member around `{"chain":{"certificates":[...]}}`,
/// without insignificant whitespace.
pub open spec fn spec_response_body(embedded: bool, texts: Seq<Seq<u8>>) -> Seq<u8> {
    spec_response_prefix(embedded) + spec_render_items(texts) + seq![
        RBRACKET,
        RBRACE,
        RBRACE,
        RBRACE,
    ]
}

proof fn lemma_render_items_len(texts: Seq<Seq<u8>>)
    requires
        texts.len() >= 1,
    ensures
        spec_render_items(texts).len() >= texts.len(),
    decreases texts.len(),
{
    if texts.len() > 1 {
        lemma_render_items_len(texts.drop_first());
    }
}

/// Parsing the rendered items of a nonempty array, in place inside a
/// larger text and up to the closing bracket that follows them, gathers
/// exactly the rendered texts.
#[verifier::rlimit(100)]
proof fn lemma_string_items_parse(
    s: Seq<u8>,
    i: int,
    texts: Seq<Seq<u8>>,
    acc: Seq<Seq<u8>>,
    first: bool,
    fuel: nat,
)
    requires
        texts.len() >= 1,
        0 <= i,
        i + spec_render_items(texts).len() < s.len(),
        forall|k: int|
            0 <= k < spec_render_items(texts).len() ==> s[i + k] == spec_render_items(texts)[k],
        s[i + spec_render_items(texts).len()] == RBRACKET,
        forall|m: int, k: int|
            0 <= m < texts.len() && 0 <= k < texts[m].len() ==> is_plain(#[trigger] texts[m][k]),
        fuel >= texts.len() + 1,
    ensures
        spec_string_items(s, i, acc, first, fuel) == Some(
            (acc + texts, i + spec_render_items(texts).len() + 1),
        ),
    decreases texts.len(),
{
    let r = spec_render_items(texts);
    let t0 = texts[0];
    assert(s[i] == QUOTE) by {
        assert(r[0] == QUOTE);
    }
    assert forall|k: int| i + 1 <= k < i + 1 + t0.len() implies is_plain(#[trigger] s[k]) by {
        assert(s[k] == r[k - i]);
        assert(r[k - i] == t0[k - i - 1]);
        assert(is_plain(t0[k - i - 1]));
    }
    assert(s[i + 1 + t0.len()] == QUOTE) by {
        assert(r[1 + t0.len() as int] == QUOTE);
    }
    assert(spec_skip_ws(s, i) == i);
    lemma_string_body_plain(s, i + 1, i + 1 + t0.len(), seq![]);
    assert(seq![] + s.subrange(i + 1, i + 1 + t0.len()) =~= t0) by {
        assert forall|k: int| 0 <= k < t0.len() implies s[i + 1 + k] == t0[k] by {
            assert(s[i + 1 + k] == r[1 + k]);
        }
    }
    let v1 = i + t0.len() + 2;
    assert(spec_string(s, i) == Some((t0, v1)));
    if texts.len() == 1 {
        assert(r.len() == t0.len() + 2);
        assert(s[v1] == RBRACKET);
        assert(spec_skip_ws(s, v1) == v1);
        assert(acc.push(t0) =~= acc + texts);
    } else {
        let rest = spec_render_items(texts.drop_first());
        assert(r == seq![QUOTE] + t0 + seq![QUOTE, COMMA] + rest);
        assert(s[v1] == COMMA) by {
            assert(r[t0.len() as int + 2] == COMMA);
        }
        assert(spec_skip_ws(s, v1) == v1);
        assert(texts.drop_first().len() >= 1);
        assert forall|k: int| 0 <= k < rest.len() implies s[v1 + 1 + k] == rest[k] by {
            assert(s[v1 + 1 + k] == r[t0.len() + 3 + k]);
            assert(r[t0.len() + 3 + k] == rest[k]);
        }
        assert(s[v1 + 1 + rest.len()] == RBRACKET) by {
            assert(v1 + 1 + rest.len() == i + r.len());
        }
        assert forall|m: int, k: int|
            0 <= m < texts.drop_first().len() && 0 <= k < texts.drop_first()[m].len() implies
            is_plain(#[trigger] texts.drop_first()[m][k]) by {
            assert(texts.drop_first()[m] == texts[m + 1]);
            assert(is_plain(texts[m + 1][k]));
        }
        lemma_string_items_parse(
            s,
            v1 + 1,
            texts.drop_first(),
            acc.push(t0),
            false,
            (fuel - 1) as nat,
        );
        assert(acc.push(t0) + texts.drop_first() =~= acc + texts);
        assert(v1 + 1 + rest.len() + 1 == i + r.len() + 1);
    }
}

/// A quoted key of plain bytes at `i` parses to exactly that key.
proof fn lemma_parse_key(s: Seq<u8>, i: int, key: Seq<u8>)
    requires
        0 <= i,
        i + key.len() + 2 <= s.len(),
        s[i] == QUOTE,
        s[i + key.len() + 1] == QUOTE,
        forall|k: int| 0 <= k < key.len() ==> s[i + 1 + k] == #[trigger] key[k],
        forall|k: int| 0 <= k < key.len() ==> is_plain(#[trigger] key[k]),
    ensures
        spec_string(s, i) == Some((key, i + key.len() + 2)),
{
    assert forall|k: int| i + 1 <= k < i + 1 + key.len() implies is_plain(#[trigger] s[k]) by {
        assert(s[k] == key[k - i - 1]);
    }
    lemma_string_body_plain(s, i + 1, i + 1 + key.len(), seq![]);
    assert(seq![] + s.subrange(i + 1, i + 1 + key.len()) =~= key);
}

/// The canonical response prefix, region by region: its punctuation and
/// the three member names it spells out.
#[verifier::rlimit(100)]
proof fn lemma_prefix_facts(embedded: bool)
    ensures
        spec_response_prefix(embedded).len() == 58,
        spec_response_prefix(embedded)[0] == LBRACE,
        spec_response_prefix(embedded)[1] == QUOTE,
        spec_response_prefix(embedded)[30] == QUOTE,
        spec_response_prefix(embedded)[31] == COLON,
        spec_response_prefix(embedded)[32] == LBRACE,
        spec_response_prefix(embedded)[33] == QUOTE,
        spec_response_prefix(embedded)[39] == QUOTE,
        spec_response_prefix(embedded)[40] == COLON,
        spec_response_prefix(embedded)[41] == LBRACE,
        spec_response_prefix(embedded)[42] == QUOTE,
        spec_response_prefix(embedded)[55] == QUOTE,
        spec_response_prefix(embedded)[56] == COLON,
        spec_response_prefix(embedded)[57] == LBRACKET,
        spec_response_prefix(embedded).subrange(2, 30) == if embedded {
            key_embedded()
        } else {
            key_detached()
        },
        spec_response_prefix(embedded).subrange(34, 39) == key_chain(),
        spec_response_prefix(embedded).subrange(43, 55) == key_certificates(),
{
    reveal(key_detached);
    reveal(key_embedded);
    reveal(key_chain);
    reveal(key_certificates);
    let p = spec_response_prefix(embedded);
    assert(p.subrange(2, 30) =~= if embedded {
        key_embedded()
    } else {
        key_detached()
    });
    assert(p.subrange(34, 39) =~= key_chain());
    assert(p.subrange(43, 55) =~= key_certificates());
}

/// The bytes of every member name the protocol spells out are plain, and
/// the names' lengths.
proof fn lemma_keys_plain()
    ensures
        key_embedded().len() == 28,
        key_detached().len() == 28,
        key_chain().len() == 5,
        key_certificates().len() == 12,
        forall|k: int| 0 <= k < 28 ==> is_plain(#[trigger] key_embedded()[k]),
        forall|k: int| 0 <= k < 28 ==> is_plain(#[trigger] key_detached()[k]),
        forall|k: int| 0 <= k < 5 ==> is_plain(#[trigger] key_chain()[k]),
        forall|k: int| 0 <= k < 12 ==> is_plain(#[trigger] key_certificates()[k]),
{
    reveal(key_detached);
    reveal(key_embedded);
    reveal(key_chain);
    reveal(key_certificates);
}

/// Parsing the shape object of a canonical rendering, whose members
/// begin at position 33, yields the rendered texts.
#[verifier::rlimit(100)]
proof fn lemma_inner_parse(s: Seq<u8>, texts: Seq<Seq<u8>>, fuel: nat)
    requires
        texts.len() >= 1,
        forall|m: int, k: int|
            0 <= m < texts.len() && 0 <= k < texts[m].len() ==> is_plain(#[trigger] texts[m][k]),
        61 + spec_render_items(texts).len() < s.len(),
        s[33] == QUOTE,
        s[39] == QUOTE,
        s[40] == COLON,
        s[41] == LBRACE,
        s[42] == QUOTE,
        s[55] == QUOTE,
        s[56] == COLON,
        s[57] == LBRACKET,
        forall|k: int| 0 <= k < 5 ==> s[34 + k] == #[trigger] key_chain()[k],
        forall|k: int| 0 <= k < 12 ==> s[43 + k] == #[trigger] key_certificates()[k],
        forall|k: int|
            0 <= k < spec_render_items(texts).len() ==> s[58 + k] == spec_render_items(texts)[k],
        s[58 + spec_render_items(texts).len() as int] == RBRACKET,
        s[59 + spec_render_items(texts).len() as int] == RBRACE,
        s[60 + spec_render_items(texts).len() as int] == RBRACE,
        fuel >= texts.len() + 4,
    ensures
        spec_inner_members(s, 33, None, true, fuel) == Some(
            (texts, 61 + spec_render_items(texts).len() as int),
        ),
{
    let ln = spec_render_items(texts).len() as int;
    lemma_keys_plain();
    assert(spec_skip_ws(s, 33) == 33);
    lemma_parse_key(s, 33, key_chain());
    assert(spec_string(s, 33) == Some((key_chain(), 40int)));
    assert(spec_skip_ws(s, 40) == 40);
    assert(spec_skip_ws(s, 41) == 41);
    assert(spec_skip_ws(s, 42) == 42);
    lemma_parse_key(s, 42, key_certificates());
    assert(spec_string(s, 42) == Some((key_certificates(), 56int)));
    assert(key_chain() != key_certificates()) by {
        reveal(key_chain);
        reveal(key_certificates);
        assert(key_chain().len() == 5);
        assert(key_certificates().len() == 12);
    }
    assert(spec_skip_ws(s, 56) == 56);
    assert(spec_skip_ws(s, 57) == 57);
    lemma_string_items_parse(s, 58, texts, seq![], true, (fuel - 2) as nat);
    assert(seq![] + texts =~= texts);
    assert(spec_string_items(s, 58, seq![], true, (fuel - 2) as nat) == Some((texts, 59 + ln)));
    assert(spec_skip_ws(s, 59 + ln) == 59 + ln);
    assert(spec_chain_close(s, 59 + ln, Some(texts), (fuel - 2) as nat) == Some(
        (texts, 60 + ln),
    ));
    assert(spec_chain_members(s, 42, None, true, (fuel - 1) as nat) == Some((texts, 60 + ln)));
    assert(spec_skip_ws(s, 60 + ln) == 60 + ln);
    assert(spec_inner_close(s, 60 + ln, Some(texts), (fuel - 1) as nat) == Some(
        (texts, 61 + ln),
    ));
}

/// The byte layout of a canonical rendering: its punctuation, its member
/// names and its items region, position by position.
pub open spec fn layout_facts(s: Seq<u8>, embedded: bool, texts: Seq<Seq<u8>>) -> bool {
    let key = if embedded {
        key_embedded()
    } else {
        key_detached()
    };
    let ln = spec_render_items(texts).len() as int;
    &&& s.len() == 62 + ln
    &&& ln >= texts.len()
    &&& s[0] == LBRACE
    &&& s[1] == QUOTE
    &&& s[30] == QUOTE
    &&& s[31] == COLON
    &&& s[32] == LBRACE
    &&& s[33] == QUOTE
    &&& s[39] == QUOTE
    &&& s[40] == COLON
    &&& s[41] == LBRACE
    &&& s[42] == QUOTE
    &&& s[55] == QUOTE
    &&& s[56] == COLON
    &&& s[57] == LBRACKET
    &&& key.len() == 28
    &&& (embedded ==> forall|k: int| 0 <= k < 28 ==> s[2 + k] == #[trigger] key_embedded()[k])
    &&& (!embedded ==> forall|k: int| 0 <= k < 28 ==> s[2 + k] == #[trigger] key_detached()[k])
    &&& (forall|k: int| 0 <= k < 5 ==> s[34 + k] == #[trigger] key_chain()[k])
    &&& (forall|k: int| 0 <= k < 12 ==> s[43 + k] == #[trigger] key_certificates()[k])
    &&& (forall|k: int| 0 <= k < ln ==> s[58 + k] == #[trigger] spec_render_items(texts)[k])
    &&& s[58 + ln] == RBRACKET
    &&& s[59 + ln] == RBRACE
    &&& s[60 + ln] == RBRACE
    &&& s[61 + ln] == RBRACE
}

#[verifier::rlimit(100)]
proof fn lemma_body_facts(embedded: bool, texts: Seq<Seq<u8>>)
    ensures
        layout_facts(spec_response_body(embedded, texts), embedded, texts),
{
    let key = if embedded {
        key_embedded()
    } else {
        key_detached()
    };
    let r = spec_render_items(texts);
    let ln = r.len() as int;
    let p = spec_response_prefix(embedded);
    let s = spec_response_body(embedded, texts);
    lemma_prefix_facts(embedded);
    lemma_keys_plain();
    if texts.len() >= 1 {
        lemma_render_items_len(texts);
    }
    assert(s.len() == 62 + ln);
    assert forall|k: int| 0 <= k < 58 implies s[k] == p[k] by {
        assert(s[k] == (p + r)[k]);
    }
    assert forall|k: int| 0 <= k < ln implies s[58 + k] == r[k] by {
        assert(s[58 + k] == (p + r)[58 + k]);
    }
    assert forall|k: int| 0 <= k < 28 implies s[2 + k] == key[k] by {
        assert(s[2 + k] == p[2 + k]);
        assert(p.subrange(2, 30)[k] == p[2 + k]);
    }
    if embedded {
        assert forall|k: int| 0 <= k < 28 implies s[2 + k] == key_embedded()[k] by {
            assert(s[2 + k] == key[k]);
        }
    } else {
        assert forall|k: int| 0 <= k < 28 implies s[2 + k] == key_detached()[k] by {
            assert(s[2 + k] == key[k]);
        }
    }
    assert forall|k: int| 0 <= k < 5 implies s[34 + k] == key_chain()[k] by {
        assert(s[34 + k] == p[34 + k]);
        assert(p.subrange(34, 39)[k] == p[34 + k]);
    }
    assert forall|k: int| 0 <= k < 12 implies s[43 + k] == key_certificates()[k] by {
        assert(s[43 + k] == p[43 + k]);
        assert(p.subrange(43, 55)[k] == p[43 + k]);
    }
}

/// Decoding any text with the canonical layout yields its shape and its
/// rendered texts.
#[verifier::rlimit(100)]
proof fn lemma_top_parse(s: Seq<u8>, embedded: bool, texts: Seq<Seq<u8>>)
    requires
        texts.len() >= 1,
        forall|m: int, k: int|
            0 <= m < texts.len() && 0 <= k < texts[m].len() ==> is_plain(#[trigger] texts[m][k]),
        layout_facts(s, embedded, texts),
    ensures
        spec_decode_response(s) == Ok::<(bool, Seq<Seq<u8>>), FulcioError>((embedded, texts)),
{
    let key = if embedded {
        key_embedded()
    } else {
        key_detached()
    };
    let ln = spec_render_items(texts).len() as int;
    lemma_keys_plain();
    let fuel = (s.len() + 1) as nat;
    assert(spec_skip_ws(s, 0) == 0);
    assert(spec_skip_ws(s, 1) == 1);
    assert forall|k: int| 0 <= k < key.len() implies s[1 + 1 + k] == #[trigger] key[k] by {
        if embedded {
            assert(s[2 + k] == key_embedded()[k]);
        } else {
            assert(s[2 + k] == key_detached()[k]);
        }
    }
    lemma_parse_key(s, 1, key);
    assert(spec_string(s, 1) == Some((key, 31int)));
    assert(key_embedded() != key_detached()) by {
        reveal(key_embedded);
        reveal(key_detached);
        assert(key_embedded()[17] == 69);
        assert(key_detached()[17] == 68);
    }
    assert(spec_skip_ws(s, 31) == 31);
    assert(spec_skip_ws(s, 32) == 32);
    lemma_inner_parse(s, texts, fuel);
    assert(spec_inner_members(s, 33, None, true, fuel) == Some((texts, 61 + ln)));
    assert(spec_skip_ws(s, 61 + ln) == 61 + ln);
    assert(spec_skip_ws(s, 62 + ln) == 62 + ln);
}

/// Law: decoding the canonical rendering of a response returns its shape
/// and its certificate texts unchanged — for every shape and every
/// nonempty chain, the decoder yields exactly the rendered texts, in
/// their rendered order.
pub proof fn lemma_response_round_trip(embedded: bool, texts: Seq<Seq<u8>>)
    requires
        texts.len() >= 1,
        forall|m: int, k: int|
            0 <= m < texts.len() && 0 <= k < texts[m].len() ==> is_plain(#[trigger] texts[m][k]),
    ensures
        spec_decode_response(spec_response_body(embedded, texts)) == Ok::<
            (bool, Seq<Seq<u8>>),
            FulcioError,
        >((embedded, texts)),
{
    lemma_body_facts(embedded, texts);
    lemma_top_parse(spec_response_body(embedded, texts), embedded, texts);
}

/// Law: the canonical rendering of a response whose `certificates` array
/// is empty fails to decode with a response-shape error, for either
/// shape — never with a zero-certificate value.
#[verifier::rlimit(100)]
pub proof fn lemma_empty_chain_rejected(embedded: bool)
    ensures
        spec_decode_response(spec_response_body(embedded, seq![])) == Err::<
            (bool, Seq<Seq<u8>>),
            FulcioError,
        >(FulcioError::ResponseShape),
{
    let texts: Seq<Seq<u8>> = seq![];
    let key = if embedded {
        key_embedded()
    } else {
        key_detached()
    };
    let s = spec_response_body(embedded, texts);
    lemma_body_facts(embedded, texts);
    lemma_keys_plain();
    assert(spec_render_items(texts).len() == 0);
    assert(s.len() == 62);
    let fuel = (s.len() + 1) as nat;
    assert(spec_skip_ws(s, 0) == 0);
    assert(spec_skip_ws(s, 1) == 1);
    assert forall|k: int| 0 <= k < key.len() implies s[1 + 1 + k] == #[trigger] key[k] by {
        if embedded {
            assert(s[2 + k] == key_embedded()[k]);
        } else {
            assert(s[2 + k] == key_detached()[k]);
        }
    }
    lemma_parse_key(s, 1, key);
    assert(spec_string(s, 1) == Some((key, 31int)));
    assert(key_embedded() != key_detached()) by {
        reveal(key_embedded);
        reveal(key_detached);
        assert(key_embedded()[17] == 69);
        assert(key_detached()[17] == 68);
    }
    assert(spec_skip_ws(s, 31) == 31);
    assert(spec_skip_ws(s, 32) == 32);
    assert(spec_skip_ws(s, 33) == 33);
    lemma_parse_key(s, 33, key_chain());
    assert(spec_string(s, 33) == Some((key_chain(), 40int)));
    assert(spec_skip_ws(s, 40) == 40);
    assert(spec_skip_ws(s, 41) == 41);
    assert(spec_skip_ws(s, 42) == 42);
    lemma_parse_key(s, 42, key_certificates());
    assert(spec_string(s, 42) == Some((key_certificates(), 56int)));
    assert(key_chain() != key_certificates()) by {
        reveal(key_chain);
        reveal(key_certificates);
        assert(key_chain().len() == 5);
        assert(key_certificates().len() == 12);
    }
    assert(spec_skip_ws(s, 56) == 56);
    assert(spec_skip_ws(s, 57) == 57);
    assert(spec_skip_ws(s, 58) == 58);
    assert(s[58] == RBRACKET);
    assert(spec_string_items(s, 58, seq![], true, (fuel - 2) as nat) == Some((texts, 59int)));
    assert(spec_skip_ws(s, 59) == 59);
    assert(spec_chain_close(s, 59, Some(texts), (fuel - 2) as nat) == Some((texts, 60int)));
    assert(spec_chain_members(s, 42, None, true, (fuel - 1) as nat) == Some((texts, 60int)));
    assert(spec_skip_ws(s, 60) == 60);
    assert(spec_inner_close(s, 60, Some(texts), (fuel - 1) as nat) == Some((texts, 61int)));
    assert(spec_inner_members(s, 33, None, true, fuel) == Some((texts, 61int)));
    assert(spec_skip_ws(s, 61) == 61);
    assert(spec_skip_ws(s, 62) == 62);
}

/// Law: a decoded response never carries an empty chain. A response whose
/// `certificates` array is empty fails with a response-shape error, so no
/// zero-certificate value ever reaches the materializer.
pub proof fn lemma_decoded_chain_nonempty(s: Seq<u8>)
    ensures
        spec_decode_response(s) is Ok ==> spec_decode_response(s)->Ok_0.1.len() >= 1,
{
}

/// Law: a response whose top-level member is neither of the two
/// discriminants fails with a response-shape error, whatever follows the
/// member name.
pub proof fn lemma_unknown_discriminant_rejected(key: Seq<u8>, rest: Seq<u8>)
    requires
        forall|k: int| 0 <= k < key.len() ==> is_plain(#[trigger] key[k]),
        key != key_embedded(),
        key != key_detached(),
    ensures
        spec_decode_response(seq![LBRACE, QUOTE] + key + seq![QUOTE] + rest) == Err::<
            (bool, Seq<Seq<u8>>),
            FulcioError,
        >(FulcioError::ResponseShape),
{
    let s = seq![LBRACE, QUOTE] + key + seq![QUOTE] + rest;
    let n = key.len() as int;
    assert(s[0] == LBRACE);
    assert(s[1] == QUOTE);
    assert(s[2 + n] == QUOTE);
    assert forall|k: int| 2 <= k < 2 + n implies is_plain(#[trigger] s[k]) by {
        assert(s[k] == key[k - 2]);
    }
    assert(spec_skip_ws(s, 0) == 0);
    lemma_string_body_plain(s, 2, 2 + n, seq![]);
    assert(seq![] + s.subrange(2, 2 + n) =~= key);
    assert(spec_string(s, 1) == Some((key, 3 + n)));
}

} // verus!

