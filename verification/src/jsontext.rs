//! A byte-level scanner for the JSON subset the certificate-authority
//! protocol uses: objects, arrays, strings with the standard escapes
//! (`\uXXXX` included, surrogate pairs handled), integers, and the three
//! literal words. Anything outside the subset is rejected, never coerced.
//! Strings are handled as byte sequences: the escapes decode to UTF-8
//! bytes, and unescaped non-ASCII bytes pass through unchecked, since
//! every payload the protocol reads from them is checked downstream.
//!
//! Every executable function mirrors a specification function over
//! `Seq<u8>`; the recursive scanners thread an explicit fuel so that the
//! specification terminates on all inputs. Callers hand a fuel no smaller
//! than the input length plus one, which every value of the grammar stays
//! under, since each recursive step consumes at least one byte.

use vstd::prelude::*;

verus! {

pub const QUOTE: u8 = 34;
pub const BACKSLASH: u8 = 92;
pub const LBRACE: u8 = 123;
pub const RBRACE: u8 = 125;
pub const LBRACKET: u8 = 91;
pub const RBRACKET: u8 = 93;
pub const COLON: u8 = 58;
pub const COMMA: u8 = 44;
pub const MINUS: u8 = 45;

/// JSON insignificant whitespace.
pub open spec fn is_ws(b: u8) -> bool {
    b == 32 || b == 9 || b == 10 || b == 13
}

pub open spec fn is_digit(b: u8) -> bool {
    48 <= b <= 57
}

/// A byte a JSON string holds literally: not a quote, not a backslash,
/// not a control byte.
pub open spec fn is_plain(b: u8) -> bool {
    b >= 32 && b != QUOTE && b != BACKSLASH
}

/// The first position at or after `i` that does not hold whitespace.
pub open spec fn spec_skip_ws(s: Seq<u8>, i: int) -> int
    decreases s.len() - i,
{
    if 0 <= i < s.len() && is_ws(s[i]) {
        spec_skip_ws(s, i + 1)
    } else {
        i
    }
}

/// What a single-character escape stands for; `None` for every other
/// byte (`\u` escapes are handled separately, by [`spec_hex4`] and
/// [`spec_utf8_enc`]).
pub open spec fn spec_unescape(b: u8) -> Option<u8> {
    if b == QUOTE {
        Some(QUOTE)
    } else if b == BACKSLASH {
        Some(BACKSLASH)
    } else if b == 47 {
        Some(47)
    } else if b == 98 {
        Some(8)
    } else if b == 102 {
        Some(12)
    } else if b == 110 {
        Some(10)
    } else if b == 114 {
        Some(13)
    } else if b == 116 {
        Some(9)
    } else {
        None
    }
}

/// The value of one hexadecimal digit, upper or lower case.
pub open spec fn spec_hex_digit(b: u8) -> Option<int> {
    if 48 <= b <= 57 {
        Some(b - 48)
    } else if 65 <= b <= 70 {
        Some(b - 55)
    } else if 97 <= b <= 102 {
        Some(b - 87)
    } else {
        None
    }
}

/// The value of the four hexadecimal digits at `i`.
pub open spec fn spec_hex4(s: Seq<u8>, i: int) -> Option<int> {
    if 0 <= i && i + 4 <= s.len() && spec_hex_digit(s[i]) is Some && spec_hex_digit(s[i + 1])
        is Some && spec_hex_digit(s[i + 2]) is Some && spec_hex_digit(s[i + 3]) is Some {
        Some(
            spec_hex_digit(s[i])->Some_0 * 4096 + spec_hex_digit(s[i + 1])->Some_0 * 256
                + spec_hex_digit(s[i + 2])->Some_0 * 16 + spec_hex_digit(s[i + 3])->Some_0,
        )
    } else {
        None
    }
}

/// The UTF-8 encoding of a scalar value.
pub open spec fn spec_utf8_enc(cp: int) -> Seq<u8> {
    if cp < 0x80 {
        seq![cp as u8]
    } else if cp < 0x800 {
        seq![(0xC0 + cp / 0x40) as u8, (0x80 + cp % 0x40) as u8]
    } else if cp < 0x10000 {
        seq![
            (0xE0 + cp / 0x1000) as u8,
            (0x80 + (cp / 0x40) % 0x40) as u8,
            (0x80 + cp % 0x40) as u8,
        ]
    } else {
        seq![
            (0xF0 + cp / 0x40000) as u8,
            (0x80 + (cp / 0x1000) % 0x40) as u8,
            (0x80 + (cp / 0x40) % 0x40) as u8,
            (0x80 + cp % 0x40) as u8,
        ]
    }
}

/// The rest of a string whose opening quote stands before `i`: the
/// decoded bytes gathered so far in `acc`, and the position after the
/// closing quote.
pub open spec fn spec_string_body(s: Seq<u8>, i: int, acc: Seq<u8>) -> Option<(Seq<u8>, int)>
    decreases s.len() - i,
{
    if i < 0 || i >= s.len() {
        None
    } else if s[i] == QUOTE {
        Some((acc, i + 1))
    } else if s[i] == BACKSLASH {
        if i + 1 >= s.len() {
            None
        } else if s[i + 1] == 117 {
            match spec_hex4(s, i + 2) {
                None => None,
                Some(cp) => {
                    if 0xD800 <= cp < 0xDC00 {
                        if i + 8 <= s.len() && s[i + 6] == BACKSLASH && s[i + 7] == 117 {
                            match spec_hex4(s, i + 8) {
                                None => None,
                                Some(lo) => {
                                    if 0xDC00 <= lo < 0xE000 {
                                        spec_string_body(
                                            s,
                                            i + 12,
                                            acc + spec_utf8_enc(
                                                0x10000 + (cp - 0xD800) * 0x400 + (lo - 0xDC00),
                                            ),
                                        )
                                    } else {
                                        None
                                    }
                                },
                            }
                        } else {
                            None
                        }
                    } else if 0xDC00 <= cp < 0xE000 {
                        None
                    } else {
                        spec_string_body(s, i + 6, acc + spec_utf8_enc(cp))
                    }
                },
            }
        } else {
            match spec_unescape(s[i + 1]) {
                Some(c) => spec_string_body(s, i + 2, acc.push(c)),
                None => None,
            }
        }
    } else if s[i] < 32 {
        None
    } else {
        spec_string_body(s, i + 1, acc.push(s[i]))
    }
}

/// A whole string at `i`: opening quote, body, closing quote.
pub open spec fn spec_string(s: Seq<u8>, i: int) -> Option<(Seq<u8>, int)> {
    if 0 <= i < s.len() && s[i] == QUOTE {
        spec_string_body(s, i + 1, seq![])
    } else {
        None
    }
}

/// A run of plain bytes closed by a quote decodes to exactly those bytes.
pub proof fn lemma_string_body_plain(s: Seq<u8>, i: int, j: int, acc: Seq<u8>)
    requires
        0 <= i <= j < s.len(),
        forall|k: int| i <= k < j ==> is_plain(#[trigger] s[k]),
        s[j] == QUOTE,
    ensures
        spec_string_body(s, i, acc) == Some((acc + s.subrange(i, j), j + 1)),
    decreases j - i,
{
    if i == j {
        assert(acc + s.subrange(i, j) =~= acc);
    } else {
        assert(is_plain(s[i]));
        lemma_string_body_plain(s, i + 1, j, acc.push(s[i]));
        assert(acc.push(s[i]) + s.subrange(i + 1, j) =~= acc + s.subrange(i, j));
    }
}

pub(crate) fn skip_ws(s: &[u8], i: usize) -> (r: usize)
    requires
        i <= s@.len(),
    ensures
        r == spec_skip_ws(s@, i as int),
        i <= r <= s@.len(),
{
    let mut j = i;
    while j < s.len() && (s[j] == 32 || s[j] == 9 || s[j] == 10 || s[j] == 13)
        invariant
            i <= j <= s@.len(),
            spec_skip_ws(s@, i as int) == spec_skip_ws(s@, j as int),
        decreases s@.len() - j,
    {
        j = j + 1;
    }
    j
}

fn unescape(b: u8) -> (r: Option<u8>)
    ensures
        r == spec_unescape(b),
{
    if b == QUOTE {
        Some(QUOTE)
    } else if b == BACKSLASH {
        Some(BACKSLASH)
    } else if b == 47 {
        Some(47)
    } else if b == 98 {
        Some(8)
    } else if b == 102 {
        Some(12)
    } else if b == 110 {
        Some(10)
    } else if b == 114 {
        Some(13)
    } else if b == 116 {
        Some(9)
    } else {
        None
    }
}

fn hex_digit(b: u8) -> (r: Option<u8>)
    ensures
        match r {
            Some(v) => spec_hex_digit(b) == Some(v as int) && v < 16,
            None => spec_hex_digit(b) is None,
        },
{
    if 48 <= b && b <= 57 {
        Some(b - 48)
    } else if 65 <= b && b <= 70 {
        Some(b - 55)
    } else if 97 <= b && b <= 102 {
        Some(b - 87)
    } else {
        None
    }
}

fn hex4(s: &[u8], i: usize) -> (r: Option<u32>)
    requires
        i <= s@.len(),
    ensures
        match r {
            Some(v) => spec_hex4(s@, i as int) == Some(v as int) && v < 0x10000,
            None => spec_hex4(s@, i as int) is None,
        },
{
    if s.len() - i < 4 {
        return None;
    }
    let a = match hex_digit(s[i]) {
        Some(v) => v,
        None => {
            return None;
        },
    };
    let b = match hex_digit(s[i + 1]) {
        Some(v) => v,
        None => {
            return None;
        },
    };
    let c = match hex_digit(s[i + 2]) {
        Some(v) => v,
        None => {
            return None;
        },
    };
    let d = match hex_digit(s[i + 3]) {
        Some(v) => v,
        None => {
            return None;
        },
    };
    Some((a as u32) * 4096 + (b as u32) * 256 + (c as u32) * 16 + (d as u32))
}

fn push_utf8(acc: &mut Vec<u8>, cp: u32)
    requires
        cp < 0x110000,
    ensures
        final(acc)@ == old(acc)@ + spec_utf8_enc(cp as int),
{
    if cp < 0x80 {
        acc.push(cp as u8);
        proof {
            assert(acc@ =~= old(acc)@ + spec_utf8_enc(cp as int));
        }
    } else if cp < 0x800 {
        acc.push((0xC0 + cp / 0x40) as u8);
        acc.push((0x80 + cp % 0x40) as u8);
        proof {
            assert(acc@ =~= old(acc)@ + spec_utf8_enc(cp as int));
        }
    } else if cp < 0x10000 {
        acc.push((0xE0 + cp / 0x1000) as u8);
        acc.push((0x80 + (cp / 0x40) % 0x40) as u8);
        acc.push((0x80 + cp % 0x40) as u8);
        proof {
            assert(acc@ =~= old(acc)@ + spec_utf8_enc(cp as int));
        }
    } else {
        acc.push((0xF0 + cp / 0x40000) as u8);
        acc.push((0x80 + (cp / 0x1000) % 0x40) as u8);
        acc.push((0x80 + (cp / 0x40) % 0x40) as u8);
        acc.push((0x80 + cp % 0x40) as u8);
        proof {
            assert(acc@ =~= old(acc)@ + spec_utf8_enc(cp as int));
        }
    }
}

/// Scan one string at `i`: its decoded bytes and the position after the
/// closing quote.
pub(crate) fn parse_string(s: &[u8], i: usize) -> (r: Option<(Vec<u8>, usize)>)
    requires
        i <= s@.len(),
    ensures
        match r {
            Some(p) => {
                &&& spec_string(s@, i as int) == Some((p.0@, p.1 as int))
                &&& i < p.1 <= s@.len()
            },
            None => spec_string(s@, i as int) is None,
        },
{
    if i >= s.len() || s[i] != QUOTE {
        return None;
    }
    let mut j = i + 1;
    let mut acc: Vec<u8> = Vec::new();
    loop
        invariant
            i + 1 <= j <= s@.len(),
            spec_string(s@, i as int) == spec_string_body(s@, j as int, acc@),
        decreases s@.len() - j,
    {
        if j >= s.len() {
            return None;
        }
        let b = s[j];
        if b == QUOTE {
            return Some((acc, j + 1));
        } else if b == BACKSLASH {
            if j + 1 >= s.len() {
                return None;
            }
            if s[j + 1] == 117 {
                let cp = match hex4(s, j + 2) {
                    Some(v) => v,
                    None => {
                        return None;
                    },
                };
                if 0xD800 <= cp && cp < 0xDC00 {
                    if !(s.len() - j >= 8 && s[j + 6] == BACKSLASH && s[j + 7] == 117) {
                        return None;
                    }
                    let lo = match hex4(s, j + 8) {
                        Some(v) => v,
                        None => {
                            return None;
                        },
                    };
                    if !(0xDC00 <= lo && lo < 0xE000) {
                        return None;
                    }
                    push_utf8(&mut acc, 0x10000 + (cp - 0xD800) * 0x400 + (lo - 0xDC00));
                    j = j + 12;
                } else if 0xDC00 <= cp && cp < 0xE000 {
                    return None;
                } else {
                    push_utf8(&mut acc, cp);
                    j = j + 6;
                }
            } else {
                match unescape(s[j + 1]) {
                    Some(c) => {
                        acc.push(c);
                        j = j + 2;
                    }
                    None => {
                        return None;
                    }
                }
            }
        } else if b < 32 {
            return None;
        } else {
            acc.push(b);
            j = j + 1;
        }
    }
}

/// The first position at or after `i` that does not hold a digit.
pub open spec fn spec_digits_end(s: Seq<u8>, i: int) -> int
    decreases s.len() - i,
{
    if 0 <= i < s.len() && is_digit(s[i]) {
        spec_digits_end(s, i + 1)
    } else {
        i
    }
}

/// The position after one JSON number at `i`: an optional sign, an
/// integer part without a superfluous leading zero, an optional fraction
/// and an optional exponent.
pub open spec fn spec_skip_number(s: Seq<u8>, i: int) -> Option<int> {
    let p0 = if 0 <= i < s.len() && s[i] == MINUS {
        i + 1
    } else {
        i
    };
    if !(0 <= p0 < s.len() && is_digit(s[p0])) {
        None
    } else {
        let p1 = if s[p0] == 48 {
            p0 + 1
        } else {
            spec_digits_end(s, p0)
        };
        let p2 = if p1 < s.len() && s[p1] == 46 {
            if p1 + 1 < s.len() && is_digit(s[p1 + 1]) {
                spec_digits_end(s, p1 + 1)
            } else {
                -1
            }
        } else {
            p1
        };
        if p2 < 0 {
            None
        } else {
            let p3 = if p2 < s.len() && (s[p2] == 101 || s[p2] == 69) {
                let q = if p2 + 1 < s.len() && (s[p2 + 1] == 43 || s[p2 + 1] == MINUS) {
                    p2 + 2
                } else {
                    p2 + 1
                };
                if q < s.len() && is_digit(s[q]) {
                    spec_digits_end(s, q)
                } else {
                    -1
                }
            } else {
                p2
            };
            if p3 < 0 {
                None
            } else {
                Some(p3)
            }
        }
    }
}

/// The position after one value of the subset at `i`, leading whitespace
/// allowed; `None` where none of the subset's forms stands there, or
/// where the fuel runs out before the value closes.
pub open spec fn spec_skip_value(s: Seq<u8>, i: int, fuel: nat) -> Option<int>
    decreases fuel,
{
    if fuel == 0 {
        None
    } else {
        let j = spec_skip_ws(s, i);
        if !(0 <= j < s.len()) {
            None
        } else if s[j] == QUOTE {
            match spec_string(s, j) {
                Some(p) => Some(p.1),
                None => None,
            }
        } else if s[j] == LBRACE {
            spec_skip_members(s, j + 1, true, (fuel - 1) as nat)
        } else if s[j] == LBRACKET {
            spec_skip_items(s, j + 1, true, (fuel - 1) as nat)
        } else if s[j] == MINUS || is_digit(s[j]) {
            spec_skip_number(s, j)
        } else if s[j] == 116 {
            if j + 4 <= s.len() && s[j + 1] == 114 && s[j + 2] == 117 && s[j + 3] == 101 {
                Some(j + 4)
            } else {
                None
            }
        } else if s[j] == 102 {
            if j + 5 <= s.len() && s[j + 1] == 97 && s[j + 2] == 108 && s[j + 3] == 115 && s[j + 4]
                == 101 {
                Some(j + 5)
            } else {
                None
            }
        } else if s[j] == 110 {
            if j + 4 <= s.len() && s[j + 1] == 117 && s[j + 2] == 108 && s[j + 3] == 108 {
                Some(j + 4)
            } else {
                None
            }
        } else {
            None
        }
    }
}

/// The position after the members of an object whose opening brace stands
/// before `i`, the closing brace included. `first` says whether no member
/// was read yet, so that only `{}` and not a trailing comma closes early.
pub open spec fn spec_skip_members(s: Seq<u8>, i: int, first: bool, fuel: nat) -> Option<int>
    decreases fuel,
{
    if fuel == 0 {
        None
    } else {
        let j = spec_skip_ws(s, i);
        if !(0 <= j < s.len()) {
            None
        } else if first && s[j] == RBRACE {
            Some(j + 1)
        } else {
            match spec_string(s, j) {
                None => None,
                Some(k) => {
                    let c = spec_skip_ws(s, k.1);
                    if !(0 <= c < s.len() && s[c] == COLON) {
                        None
                    } else {
                        match spec_skip_value(s, c + 1, (fuel - 1) as nat) {
                            None => None,
                            Some(m) => {
                                let e = spec_skip_ws(s, m);
                                if 0 <= e < s.len() && s[e] == COMMA {
                                    spec_skip_members(s, e + 1, false, (fuel - 1) as nat)
                                } else if 0 <= e < s.len() && s[e] == RBRACE {
                                    Some(e + 1)
                                } else {
                                    None
                                }
                            },
                        }
                    }
                },
            }
        }
    }
}

/// The position after the items of an array whose opening bracket stands
/// before `i`, the closing bracket included.
pub open spec fn spec_skip_items(s: Seq<u8>, i: int, first: bool, fuel: nat) -> Option<int>
    decreases fuel,
{
    if fuel == 0 {
        None
    } else {
        let j = spec_skip_ws(s, i);
        if !(0 <= j < s.len()) {
            None
        } else if first && s[j] == RBRACKET {
            Some(j + 1)
        } else {
            match spec_skip_value(s, j, (fuel - 1) as nat) {
                None => None,
                Some(m) => {
                    let e = spec_skip_ws(s, m);
                    if 0 <= e < s.len() && s[e] == COMMA {
                        spec_skip_items(s, e + 1, false, (fuel - 1) as nat)
                    } else if 0 <= e < s.len() && s[e] == RBRACKET {
                        Some(e + 1)
                    } else {
                        None
                    }
                },
            }
        }
    }
}

pub(crate) fn digits_end(s: &[u8], i: usize) -> (r: usize)
    requires
        i <= s@.len(),
    ensures
        r == spec_digits_end(s@, i as int),
        i <= r <= s@.len(),
{
    let mut j = i;
    while j < s.len() && 48 <= s[j] && s[j] <= 57
        invariant
            i <= j <= s@.len(),
            spec_digits_end(s@, i as int) == spec_digits_end(s@, j as int),
        decreases s@.len() - j,
    {
        j = j + 1;
    }
    j
}

fn skip_number(s: &[u8], i: usize) -> (r: Option<usize>)
    requires
        i <= s@.len(),
    ensures
        match r {
            Some(m) => spec_skip_number(s@, i as int) == Some(m as int) && m <= s@.len(),
            None => spec_skip_number(s@, i as int) is None,
        },
{
    let p0 = if i < s.len() && s[i] == MINUS {
        i + 1
    } else {
        i
    };
    if !(p0 < s.len() && 48 <= s[p0] && s[p0] <= 57) {
        return None;
    }
    let p1 = if s[p0] == 48 {
        p0 + 1
    } else {
        digits_end(s, p0)
    };
    let p2 = if p1 < s.len() && s[p1] == 46 {
        if p1 + 1 < s.len() && 48 <= s[p1 + 1] && s[p1 + 1] <= 57 {
            digits_end(s, p1 + 1)
        } else {
            return None;
        }
    } else {
        p1
    };
    if p2 < s.len() && (s[p2] == 101 || s[p2] == 69) {
        let q = if p2 + 1 < s.len() && (s[p2 + 1] == 43 || s[p2 + 1] == MINUS) {
            p2 + 2
        } else {
            p2 + 1
        };
        if q < s.len() && 48 <= s[q] && s[q] <= 57 {
            Some(digits_end(s, q))
        } else {
            None
        }
    } else {
        Some(p2)
    }
}

/// Step past one value, whatever it holds; used for members of the
/// response this library has no interest in.
pub(crate) fn skip_value(s: &[u8], i: usize, fuel: usize) -> (r: Option<usize>)
    requires
        i <= s@.len(),
    ensures
        match r {
            Some(m) => spec_skip_value(s@, i as int, fuel as nat) == Some(m as int) && m <= s@.len(),
            None => spec_skip_value(s@, i as int, fuel as nat) is None,
        },
    decreases fuel,
{
    if fuel == 0 {
        return None;
    }
    let j = skip_ws(s, i);
    if j >= s.len() {
        return None;
    }
    let b = s[j];
    if b == QUOTE {
        match parse_string(s, j) {
            Some(p) => Some(p.1),
            None => None,
        }
    } else if b == LBRACE {
        skip_members(s, j + 1, true, fuel - 1)
    } else if b == LBRACKET {
        skip_items(s, j + 1, true, fuel - 1)
    } else if b == MINUS || (48 <= b && b <= 57) {
        skip_number(s, j)
    } else if b == 116 {
        if s.len() - j >= 4 && s[j + 1] == 114 && s[j + 2] == 117 && s[j + 3] == 101 {
            Some(j + 4)
        } else {
            None
        }
    } else if b == 102 {
        if s.len() - j >= 5 && s[j + 1] == 97 && s[j + 2] == 108 && s[j + 3] == 115 && s[j + 4]
            == 101 {
            Some(j + 5)
        } else {
            None
        }
    } else if b == 110 {
        if s.len() - j >= 4 && s[j + 1] == 117 && s[j + 2] == 108 && s[j + 3] == 108 {
            Some(j + 4)
        } else {
            None
        }
    } else {
        None
    }
}

fn skip_members(s: &[u8], i: usize, first: bool, fuel: usize) -> (r: Option<usize>)
    requires
        i <= s@.len(),
    ensures
        match r {
            Some(m) => spec_skip_members(s@, i as int, first, fuel as nat) == Some(m as int) && m
                <= s@.len(),
            None => spec_skip_members(s@, i as int, first, fuel as nat) is None,
        },
    decreases fuel,
{
    if fuel == 0 {
        return None;
    }
    let j = skip_ws(s, i);
    if j >= s.len() {
        return None;
    }
    if first && s[j] == RBRACE {
        return Some(j + 1);
    }
    match parse_string(s, j) {
        None => None,
        Some(k) => {
            let c = skip_ws(s, k.1);
            if !(c < s.len() && s[c] == COLON) {
                return None;
            }
            match skip_value(s, c + 1, fuel - 1) {
                None => None,
                Some(m) => {
                    let e = skip_ws(s, m);
                    if e < s.len() && s[e] == COMMA {
                        skip_members(s, e + 1, false, fuel - 1)
                    } else if e < s.len() && s[e] == RBRACE {
                        Some(e + 1)
                    } else {
                        None
                    }
                },
            }
        },
    }
}

fn skip_items(s: &[u8], i: usize, first: bool, fuel: usize) -> (r: Option<usize>)
    requires
        i <= s@.len(),
    ensures
        match r {
            Some(m) => spec_skip_items(s@, i as int, first, fuel as nat) == Some(m as int) && m
                <= s@.len(),
            None => spec_skip_items(s@, i as int, first, fuel as nat) is None,
        },
    decreases fuel,
{
    if fuel == 0 {
        return None;
    }
    let j = skip_ws(s, i);
    if j >= s.len() {
        return None;
    }
    if first && s[j] == RBRACKET {
        return Some(j + 1);
    }
    match skip_value(s, j, fuel - 1) {
        None => None,
        Some(m) => {
            let e = skip_ws(s, m);
            if e < s.len() && s[e] == COMMA {
                skip_items(s, e + 1, false, fuel - 1)
            } else if e < s.len() && s[e] == RBRACKET {
                Some(e + 1)
            } else {
                None
            }
        },
    }
}

/// Whether two byte slices hold the same bytes.
pub(crate) fn bytes_eq(a: &[u8], b: &[u8]) -> (r: bool)
    ensures
        r == (a@ == b@),
{
    if a.len() != b.len() {
        assert(a@ != b@) by {
            assert(a@.len() != b@.len());
        }
        return false;
    }
    let mut k: usize = 0;
    while k < a.len()
        invariant
            0 <= k <= a@.len(),
            a@.len() == b@.len(),
            forall|m: int| 0 <= m < k ==> a@[m] == b@[m],
        decreases a@.len() - k,
    {
        if a[k] != b[k] {
            return false;
        }
        k = k + 1;
    }
    proof {
        assert(a@ =~= b@);
    }
    true
}

} // verus!
