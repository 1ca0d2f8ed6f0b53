//! The signed-certificate-timestamp version tag: a decode-time guard that
//! keeps future protocol versions an explicit, typed decision point.

use vstd::prelude::*;

use crate::errors::FulcioError;
use crate::jsontext::{
    bytes_eq, digits_end, is_digit, is_plain, lemma_string_body_plain, parse_string, skip_value,
    skip_ws, spec_digits_end, spec_skip_value, spec_skip_ws, spec_string, COLON, COMMA, LBRACE,
    MINUS, QUOTE, RBRACE,
};

verus! {

/// The closed set of timestamp versions this library understands:
/// version 1, carried on the wire as the integer 0.
#[derive(Clone, Copy, Debug, PartialEq, Eq, Structural)]
pub enum SCTVersion {
    V1,
}

impl SCTVersion {
    /// The version a wire integer stands for. Zero is version 1; every
    /// other value fails with the unknown-version error rather than being
    /// coerced to a known one.
    pub fn from_wire(v: u64) -> (r: Result<SCTVersion, FulcioError>)
        ensures
            v == 0 <==> r == Ok::<SCTVersion, FulcioError>(SCTVersion::V1),
            v != 0 <==> r == Err::<SCTVersion, FulcioError>(FulcioError::UnknownSctVersion),
    {
        if v == 0 {
            Ok(SCTVersion::V1)
        } else {
            Err(FulcioError::UnknownSctVersion)
        }
    }
}

/// The member name `version`, as bytes.
pub open spec fn key_version() -> Seq<u8> {
    seq![118u8, 101, 114, 115, 105, 111, 110]
}

fn key_version_vec() -> (r: Vec<u8>)
    ensures
        r@ == key_version(),
{
    let mut v: Vec<u8> = Vec::new();
    v.push(118);
    v.push(101);
    v.push(114);
    v.push(115);
    v.push(105);
    v.push(111);
    v.push(110);
    proof {
        assert(v@ =~= key_version());
    }
    v
}

/// One JSON integer token at `i`: whether it is exactly `0`, and the
/// position after it. A sign other than on a nonzero value, a fraction,
/// an exponent or a superfluous digit disqualifies the token.
pub open spec fn spec_int_token(s: Seq<u8>, i: int) -> Option<(bool, int)> {
    let p0 = if 0 <= i < s.len() && s[i] == MINUS {
        i + 1
    } else {
        i
    };
    if !(0 <= p0 < s.len() && is_digit(s[p0])) {
        None
    } else {
        let p1 = if s[p0] == 48 {
            p0 + 1
        } else {
            spec_digits_end(s, p0)
        };
        if p1 < s.len() && (s[p1] == 46 || s[p1] == 101 || s[p1] == 69 || is_digit(s[p1])) {
            None
        } else {
            Some((p0 == i && s[p0] == 48, p1))
        }
    }
}

fn int_token(s: &[u8], i: usize) -> (r: Option<(bool, usize)>)
    requires
        i <= s@.len(),
    ensures
        match r {
            Some(t) => spec_int_token(s@, i as int) == Some((t.0, t.1 as int)) && t.1 <= s@.len(),
            None => spec_int_token(s@, i as int) is None,
        },
{
    let p0 = if i < s.len() && s[i] == MINUS {
        i + 1
    } else {
        i
    };
    if !(p0 < s.len() && 48 <= s[p0] && s[p0] <= 57) {
        return None;
    }
    let p1 = if s[p0] == 48 {
        p0 + 1
    } else {
        digits_end(s, p0)
    };
    if p1 < s.len() && (s[p1] == 46 || s[p1] == 101 || s[p1] == 69 || (48 <= s[p1] && s[p1]
        <= 57)) {
        None
    } else {
        Some((p0 == i && s[p0] == 48, p1))
    }
}

/// The members of a version object after position `i`: `found` carries
/// whether an earlier `version` member held exactly the integer `0`.
pub open spec fn spec_version_members(
    s: Seq<u8>,
    i: int,
    found: Option<bool>,
    first: bool,
    fuel: nat,
) -> Option<(bool, int)>
    decreases fuel,
{
    if fuel == 0 {
        None
    } else {
        let j = spec_skip_ws(s, i);
        if !(0 <= j < s.len()) {
            None
        } else if first && s[j] == RBRACE {
            match found {
                Some(z) => Some((z, j + 1)),
                None => None,
            }
        } else {
            match spec_string(s, j) {
                None => None,
                Some(k) => {
                    let c = spec_skip_ws(s, k.1);
                    if !(0 <= c < s.len() && s[c] == COLON) {
                        None
                    } else if k.0 == key_version() {
                        if found is Some {
                            None
                        } else {
                            match spec_int_token(s, spec_skip_ws(s, c + 1)) {
                                None => None,
                                Some(t) => spec_version_close(s, t.1, Some(t.0), (fuel - 1) as nat),
                            }
                        }
                    } else {
                        match spec_skip_value(s, c + 1, (fuel - 1) as nat) {
                            None => None,
                            Some(m) => spec_version_close(s, m, found, (fuel - 1) as nat),
                        }
                    }
                },
            }
        }
    }
}

/// After one member of a version object: a comma continues the members, a
/// closing brace ends them.
pub open spec fn spec_version_close(s: Seq<u8>, i: int, found: Option<bool>, fuel: nat) -> Option<
    (bool, int),
>
    decreases fuel,
{
    if fuel == 0 {
        None
    } else {
        let e = spec_skip_ws(s, i);
        if 0 <= e < s.len() && s[e] == COMMA {
            spec_version_members(s, e + 1, found, false, (fuel - 1) as nat)
        } else if 0 <= e < s.len() && s[e] == RBRACE {
            match found {
                Some(z) => Some((z, e + 1)),
                None => None,
            }
        } else {
            None
        }
    }
}

/// What decoding `{"version": <integer>}`-shaped data yields: version 1
/// for the integer 0, the unknown-version error for every other integer,
/// and the response-shape error for anything that is not such an object.
pub open spec fn spec_decode_sct_version(s: Seq<u8>) -> Result<SCTVersion, FulcioError> {
    let fuel = (s.len() + 1) as nat;
    let i = spec_skip_ws(s, 0);
    if !(0 <= i < s.len() && s[i] == LBRACE) {
        Err(FulcioError::ResponseShape)
    } else {
        match spec_version_members(s, i + 1, None, true, fuel) {
            None => Err(FulcioError::ResponseShape),
            Some(t) => {
                if spec_skip_ws(s, t.1) != s.len() {
                    Err(FulcioError::ResponseShape)
                } else if t.0 {
                    Ok(SCTVersion::V1)
                } else {
                    Err(FulcioError::UnknownSctVersion)
                }
            },
        }
    }
}

fn version_members(s: &[u8], i: usize, found: Option<bool>, first: bool, fuel: usize) -> (r:
    Option<(bool, usize)>)
    requires
        i <= s@.len(),
    ensures
        match r {
            Some(t) => spec_version_members(s@, i as int, found, first, fuel as nat) == Some(
                (t.0, t.1 as int),
            ) && t.1 <= s@.len(),
            None => spec_version_members(s@, i as int, found, first, fuel as nat) is None,
        },
    decreases fuel, 1int,
{
    if fuel == 0 {
        return None;
    }
    let j = skip_ws(s, i);
    if j >= s.len() {
        return None;
    }
    if first && s[j] == RBRACE {
        return match found {
            Some(z) => Some((z, j + 1)),
            None => None,
        };
    }
    match parse_string(s, j) {
        None => None,
        Some(k) => {
            let c = skip_ws(s, k.1);
            if !(c < s.len() && s[c] == COLON) {
                return None;
            }
            let kver = key_version_vec();
            if bytes_eq(k.0.as_slice(), kver.as_slice()) {
                if found.is_some() {
                    return None;
                }
                match int_token(s, skip_ws(s, c + 1)) {
                    None => None,
                    Some(t) => version_close(s, t.1, Some(t.0), fuel - 1),
                }
            } else {
                match skip_value(s, c + 1, fuel - 1) {
                    None => None,
                    Some(m) => version_close(s, m, found, fuel - 1),
                }
            }
        },
    }
}

fn version_close(s: &[u8], i: usize, found: Option<bool>, fuel: usize) -> (r: Option<
    (bool, usize),
>)
    requires
        i <= s@.len(),
    ensures
        match r {
            Some(t) => spec_version_close(s@, i as int, found, fuel as nat) == Some(
                (t.0, t.1 as int),
            ) && t.1 <= s@.len(),
            None => spec_version_close(s@, i as int, found, fuel as nat) is None,
        },
    decreases fuel, 0int,
{
    if fuel == 0 {
        return None;
    }
    let e = skip_ws(s, i);
    if e < s.len() && s[e] == COMMA {
        version_members(s, e + 1, found, false, fuel - 1)
    } else if e < s.len() && s[e] == RBRACE {
        match found {
            Some(z) => Some((z, e + 1)),
            None => None,
        }
    } else {
        None
    }
}

/// Decode `{"version": <integer>}`-shaped timestamp version data.
pub fn decode_sct_version(body: &[u8]) -> (r: Result<SCTVersion, FulcioError>)
    requires
        body@.len() < usize::MAX,
    ensures
        r == spec_decode_sct_version(body@),
{
    let fuel = body.len() + 1;
    let i = skip_ws(body, 0);
    if !(i < body.len() && body[i] == LBRACE) {
        return Err(FulcioError::ResponseShape);
    }
    match version_members(body, i + 1, None, true, fuel) {
        None => Err(FulcioError::ResponseShape),
        Some(t) => {
            if skip_ws(body, t.1) != body.len() {
                Err(FulcioError::ResponseShape)
            } else if t.0 {
                Ok(SCTVersion::V1)
            } else {
                Err(FulcioError::UnknownSctVersion)
            }
        },
    }
}

/// The version object around a rendered integer: `{"version":<digits>}`.
pub open spec fn spec_version_body(d: Seq<u8>) -> Seq<u8> {
    seq![LBRACE, QUOTE] + key_version() + seq![QUOTE, COLON] + d + seq![RBRACE]
}

/// A run of digits bounded by a non-digit ends the digit scan exactly at
/// the non-digit.
proof fn lemma_digits_end_run(s: Seq<u8>, i: int, j: int)
    requires
        0 <= i <= j < s.len(),
        forall|k: int| i <= k < j ==> is_digit(#[trigger] s[k]),
        !is_digit(s[j]),
    ensures
        spec_digits_end(s, i) == j,
    decreases j - i,
{
    if i < j {
        assert(is_digit(s[i]));
        lemma_digits_end_run(s, i + 1, j);
    }
}

/// Law: over the version object's wire shape, the canonical rendering of
/// zero decodes as version 1, and the canonical rendering of every other
/// integer fails as an unknown version, never as some other version.
pub proof fn lemma_sct_version_decode(d: Seq<u8>)
    requires
        d.len() >= 1,
        forall|k: int| 0 <= k < d.len() ==> is_digit(#[trigger] d[k]),
        d[0] == 48 ==> d.len() == 1,
    ensures
        spec_decode_sct_version(spec_version_body(d)) == if d == seq![48u8] {
            Ok::<SCTVersion, FulcioError>(SCTVersion::V1)
        } else {
            Err::<SCTVersion, FulcioError>(FulcioError::UnknownSctVersion)
        },
{
    let s = spec_version_body(d);
    let n = d.len() as int;
    assert(s.len() == n + 12);
    assert(s[0] == LBRACE);
    assert(s[1] == QUOTE);
    assert(s[9] == QUOTE);
    assert(s[10] == COLON);
    assert(s[11 + n] == RBRACE);
    assert forall|k: int| 2 <= k < 9 implies is_plain(#[trigger] s[k]) by {
        assert(s[k] == key_version()[k - 2]);
    }
    assert forall|k: int| 11 <= k < 11 + n implies is_digit(#[trigger] s[k]) by {
        assert(s[k] == d[k - 11]);
    }
    assert(spec_skip_ws(s, 0) == 0);
    lemma_string_body_plain(s, 2, 9, seq![]);
    assert(seq![] + s.subrange(2, 9) =~= key_version());
    assert(spec_string(s, 1) == Some((key_version(), 10int)));
    assert(spec_skip_ws(s, 1) == 1);
    assert(spec_skip_ws(s, 10) == 10);
    assert(spec_skip_ws(s, 11) == 11);
    if d[0] == 48 {
        assert(n == 1);
        assert(spec_int_token(s, 11) == Some((true, 12int)));
        assert(d =~= seq![48u8]);
    } else {
        lemma_digits_end_run(s, 11, 11 + n);
        assert(spec_int_token(s, 11) == Some((false, 11 + n)));
        assert(d != seq![48u8]);
    }
    assert(spec_skip_ws(s, 11 + n) == 11 + n);
    assert(spec_skip_ws(s, 12 + n) == 12 + n);
}

} // verus!
