//! The JSON wire format of the service.
//!
//! The grammar is specified by spec functions over `Seq<char>` and implemented
//! by executable scanners proved against them. Documents are the bodies the
//! routes exchange: `null`, a mug object, a creation payload object, a message
//! envelope, and an array of mug objects. Objects take their keys in
//! declaration order, with whitespace allowed between tokens; strings accept
//! the JSON escapes and `\u00XX`; numbers follow the JSON number grammar, and
//! the two coordinate fields keep their number token verbatim.

use vstd::prelude::*;
use vstd::string::*;
use crate::message::Message;
use crate::mugs::{EphemeralMug, EphemeralMugModel, Mug, MugModel};

verus! {

/// Relies on `String::push`: appends exactly the one character to the end of
/// the string. vstd gives this std function no specification of its own.
pub assume_specification[ String::push ](s: &mut String, ch: char)
    ensures
        final(s)@ == old(s)@.push(ch),
;

/// Relies on `char::from_u32`: yields the character of a Unicode scalar
/// value, and `None` exactly on surrogates and on values above the plane
/// limit. vstd gives this std function no specification of its own.
pub assume_specification[ char::from_u32 ](v: u32) -> (r: Option<char>)
    ensures
        r is Some <==> (v < 0xD800 || (0xE000 <= v && v < 0x110000)),
        (r matches Some(c) ==> c as u32 == v),
;

/// Why a request body failed to decode.
#[derive(Debug)]
pub enum DecodeErr {
    /// The body is not valid UTF-8 text.
    NotUtf8,
    /// The text ended where the grammar required another token.
    UnexpectedEnd,
    /// A token or key other than the expected one was found.
    UnexpectedToken,
    /// A string contained an unsupported escape or a raw control character.
    BadString,
    /// A number token was malformed.
    BadNumber,
    /// An integer field held a fraction, an exponent, or a non-digit.
    NotAnInteger,
    /// An integer field did not fit the target integer type.
    IntOutOfRange,
    /// Characters remained after the document's final token.
    TrailingChars,
    /// An object repeated a field.
    DuplicateField,
    /// An object ended before every field was seen.
    MissingField,
}

impl DecodeErr {
    /// The diagnostic text carried to the error envelope.
    pub open spec fn spec_describe(&self) -> Seq<char> {
        match self {
            DecodeErr::NotUtf8 => "body is not valid UTF-8"@,
            DecodeErr::UnexpectedEnd => "unexpected end of JSON input"@,
            DecodeErr::UnexpectedToken => "unexpected token in JSON input"@,
            DecodeErr::BadString => "malformed JSON string"@,
            DecodeErr::BadNumber => "malformed JSON number"@,
            DecodeErr::NotAnInteger => "expected an integer"@,
            DecodeErr::IntOutOfRange => "integer out of range"@,
            DecodeErr::TrailingChars => "trailing characters after JSON document"@,
            DecodeErr::DuplicateField => "duplicate field"@,
            DecodeErr::MissingField => "missing field"@,
        }
    }

    /// Renders the diagnostic text.
    pub fn describe(&self) -> (r: String)
        ensures
            r@ == self.spec_describe(),
    {
        match self {
            DecodeErr::NotUtf8 => "body is not valid UTF-8".to_owned(),
            DecodeErr::UnexpectedEnd => "unexpected end of JSON input".to_owned(),
            DecodeErr::UnexpectedToken => "unexpected token in JSON input".to_owned(),
            DecodeErr::BadString => "malformed JSON string".to_owned(),
            DecodeErr::BadNumber => "malformed JSON number".to_owned(),
            DecodeErr::NotAnInteger => "expected an integer".to_owned(),
            DecodeErr::IntOutOfRange => "integer out of range".to_owned(),
            DecodeErr::TrailingChars => "trailing characters after JSON document".to_owned(),
            DecodeErr::DuplicateField => "duplicate field".to_owned(),
            DecodeErr::MissingField => "missing field".to_owned(),
        }
    }
}

// ---------------------------------------------------------------------------
// Whitespace and digits
// ---------------------------------------------------------------------------

/// The JSON whitespace characters.
pub open spec fn is_ws_char(c: char) -> bool {
    c == ' ' || c == '\n' || c == '\r' || c == '\t'
}

/// Index of the first non-whitespace character at or after `i`.
pub open spec fn skip_ws(s: Seq<char>, i: int) -> int
    decreases s.len() - i,
{
    if 0 <= i < s.len() && is_ws_char(s[i]) {
        skip_ws(s, i + 1)
    } else {
        i
    }
}

pub proof fn lemma_skip_ws_bounds(s: Seq<char>, i: int)
    requires
        0 <= i <= s.len(),
    ensures
        i <= skip_ws(s, i) <= s.len(),
    decreases s.len() - i,
{
    if i < s.len() && is_ws_char(s[i]) {
        lemma_skip_ws_bounds(s, i + 1);
    }
}

pub open spec fn is_digit(c: char) -> bool {
    48 <= (c as u32) <= 57
}

/// Index of the first non-digit character at or after `i`.
pub open spec fn digits_end(s: Seq<char>, i: int) -> int
    decreases s.len() - i,
{
    if 0 <= i < s.len() && is_digit(s[i]) {
        digits_end(s, i + 1)
    } else {
        i
    }
}

pub proof fn lemma_digits_end_bounds(s: Seq<char>, i: int)
    requires
        0 <= i <= s.len(),
    ensures
        i <= digits_end(s, i) <= s.len(),
    decreases s.len() - i,
{
    if i < s.len() && is_digit(s[i]) {
        lemma_digits_end_bounds(s, i + 1);
    }
}

fn ws_to(s: &str, n: usize, i: usize) -> (j: usize)
    requires
        n == s@.len(),
        i <= n,
    ensures
        j as int == skip_ws(s@, i as int),
        i <= j <= n,
{
    let mut k = i;
    loop
        invariant
            i <= k <= n,
            n == s@.len(),
            skip_ws(s@, i as int) == skip_ws(s@, k as int),
        decreases n - k,
    {
        if k == n {
            return k;
        }
        let c = s.get_char(k);
        if c == ' ' || c == '\n' || c == '\r' || c == '\t' {
            k = k + 1;
        } else {
            return k;
        }
    }
}

fn digits_to(s: &str, n: usize, i: usize) -> (j: usize)
    requires
        n == s@.len(),
        i <= n,
    ensures
        j as int == digits_end(s@, i as int),
        i <= j <= n,
{
    let mut k = i;
    loop
        invariant
            i <= k <= n,
            n == s@.len(),
            digits_end(s@, i as int) == digits_end(s@, k as int),
        decreases n - k,
    {
        if k == n {
            return k;
        }
        let u = s.get_char(k) as u32;
        if 48 <= u && u <= 57 {
            k = k + 1;
        } else {
            return k;
        }
    }
}

// ---------------------------------------------------------------------------
// Strings
// ---------------------------------------------------------------------------

/// The character a simple escape (the letter after the backslash) stands for,
/// or `None` for an unsupported escape.
pub open spec fn esc_char(e: char) -> Option<char> {
    if e == '"' {
        Some('"')
    } else if e == '\\' {
        Some('\\')
    } else if e == '/' {
        Some('/')
    } else if e == 'b' {
        Some('\u{8}')
    } else if e == 'f' {
        Some('\u{c}')
    } else if e == 'n' {
        Some('\n')
    } else if e == 'r' {
        Some('\r')
    } else if e == 't' {
        Some('\t')
    } else {
        None
    }
}

/// Value of one hex digit, or `None`.
pub open spec fn hex_val(c: char) -> Option<int> {
    let u = c as u32;
    if 48 <= u <= 57 {
        Some(u - 48)
    } else if 97 <= u <= 102 {
        Some(u - 87)
    } else if 65 <= u <= 70 {
        Some(u - 55)
    } else {
        None
    }
}

/// Parses the remainder of a JSON string, starting just after the opening
/// quote, up to and including the closing quote. Yields the unescaped
/// contents and the index after the closing quote. Escapes `\u00XX` are
/// accepted; other `\u` escapes are not part of this format.
pub open spec fn parse_string_chars(s: Seq<char>, i: int) -> Option<(Seq<char>, int)>
    decreases s.len() - i,
{
    if i < 0 || i >= s.len() {
        None
    } else {
        let c = s[i];
        if c == '"' {
            Some((Seq::empty(), i + 1))
        } else if c == '\\' {
            if i + 1 < s.len() {
                let e = s[i + 1];
                if e == 'u' {
                    if i + 5 < s.len() && hex_val(s[i + 2]) is Some && hex_val(s[i + 3]) is Some
                        && hex_val(s[i + 4]) is Some && hex_val(s[i + 5]) is Some {
                        let v = 4096 * hex_val(s[i + 2])->0 + 256 * hex_val(s[i + 3])->0 + 16
                            * hex_val(s[i + 4])->0 + hex_val(s[i + 5])->0;
                        if 0xD800 <= v < 0xDC00 {
                            // a high surrogate must pair with a low surrogate escape
                            if i + 11 < s.len() && s[i + 6] == '\\' && s[i + 7] == 'u' && hex_val(
                                s[i + 8],
                            ) is Some && hex_val(s[i + 9]) is Some && hex_val(s[i + 10]) is Some
                                && hex_val(s[i + 11]) is Some {
                                let w = 4096 * hex_val(s[i + 8])->0 + 256 * hex_val(s[i + 9])->0
                                    + 16 * hex_val(s[i + 10])->0 + hex_val(s[i + 11])->0;
                                if 0xDC00 <= w < 0xE000 {
                                    let scalar = 0x10000 + (v - 0xD800) * 1024 + (w - 0xDC00);
                                    match parse_string_chars(s, i + 12) {
                                        Some((rest, j)) => Some(
                                            (seq![(scalar as u32) as char] + rest, j),
                                        ),
                                        None => None,
                                    }
                                } else {
                                    None
                                }
                            } else {
                                None
                            }
                        } else if 0xDC00 <= v < 0xE000 {
                            None
                        } else {
                            match parse_string_chars(s, i + 6) {
                                Some((rest, j)) => Some(((seq![(v as u32) as char]) + rest, j)),
                                None => None,
                            }
                        }
                    } else {
                        None
                    }
                } else {
                    match esc_char(e) {
                        Some(d) => match parse_string_chars(s, i + 2) {
                            Some((rest, j)) => Some((seq![d] + rest, j)),
                            None => None,
                        },
                        None => None,
                    }
                }
            } else {
                None
            }
        } else if (c as u32) < 32 {
            None
        } else {
            match parse_string_chars(s, i + 1) {
                Some((rest, j)) => Some((seq![c] + rest, j)),
                None => None,
            }
        }
    }
}

pub proof fn lemma_parse_string_chars_bounds(s: Seq<char>, i: int)
    requires
        0 <= i <= s.len(),
        parse_string_chars(s, i) is Some,
    ensures
        i < (parse_string_chars(s, i)->0).1 <= s.len(),
    decreases s.len() - i,
{
    if i < s.len() {
        let c = s[i];
        if c == '"' {
        } else if c == '\\' {
            if i + 1 < s.len() && s[i + 1] == 'u' {
                if i + 5 < s.len() && hex_val(s[i + 2]) is Some && hex_val(s[i + 3]) is Some
                    && hex_val(s[i + 4]) is Some && hex_val(s[i + 5]) is Some {
                    let v = 4096 * hex_val(s[i + 2])->0 + 256 * hex_val(s[i + 3])->0 + 16 * hex_val(
                        s[i + 4],
                    )->0 + hex_val(s[i + 5])->0;
                    if 0xD800 <= v < 0xDC00 {
                        if i + 11 < s.len() {
                            lemma_parse_string_chars_bounds(s, i + 12);
                        }
                    } else {
                        lemma_parse_string_chars_bounds(s, i + 6);
                    }
                }
            } else if i + 1 < s.len() {
                lemma_parse_string_chars_bounds(s, i + 2);
            }
        } else if (c as u32) < 32 {
        } else {
            lemma_parse_string_chars_bounds(s, i + 1);
        }
    }
}

/// Parses a JSON string (opening quote at `i`).
pub open spec fn parse_string(s: Seq<char>, i: int) -> Option<(Seq<char>, int)> {
    if 0 <= i < s.len() && s[i] == '"' {
        parse_string_chars(s, i + 1)
    } else {
        None
    }
}

fn hex_digit(c: char) -> (r: Option<u8>)
    ensures
        match r {
            Some(v) => hex_val(c) == Some(v as int) && v < 16,
            None => hex_val(c) is None,
        },
{
    let u = c as u32;
    if 48 <= u && u <= 57 {
        Some((u - 48) as u8)
    } else if 97 <= u && u <= 102 {
        Some((u - 87) as u8)
    } else if 65 <= u && u <= 70 {
        Some((u - 55) as u8)
    } else {
        None
    }
}

/// Scans a JSON string whose contents begin at `i` (just after the opening
/// quote); returns the unescaped contents and the index after the closing
/// quote.
fn scan_string_chars(s: &str, n: usize, i: usize) -> (r: Result<(String, usize), DecodeErr>)
    requires
        n == s@.len(),
        i <= n,
    ensures
        match r {
            Ok(p) => parse_string_chars(s@, i as int) == Some((p.0@, p.1 as int)) && p.1 <= n,
            Err(_) => parse_string_chars(s@, i as int) is None,
        },
{
    let mut acc = String::new();
    let mut k = i;
    loop
        invariant
            i <= k <= n,
            n == s@.len(),
            parse_string_chars(s@, i as int) == (match parse_string_chars(s@, k as int) {
                Some((rest, j)) => Some((acc@ + rest, j)),
                None => None::<(Seq<char>, int)>,
            }),
        decreases n - k,
    {
        if k == n {
            return Err(DecodeErr::UnexpectedEnd);
        }
        let c = s.get_char(k);
        if c == '"' {
            proof {
                assert(acc@ + Seq::<char>::empty() =~= acc@);
            }
            return Ok((acc, k + 1));
        } else if c == '\\' {
            if k + 1 == n {
                return Err(DecodeErr::UnexpectedEnd);
            }
            let e = s.get_char(k + 1);
            if e == 'u' {
                if n - k <= 5 {
                    return Err(DecodeErr::BadString);
                }
                let v: u32 = match (
                    hex_digit(s.get_char(k + 2)),
                    hex_digit(s.get_char(k + 3)),
                    hex_digit(s.get_char(k + 4)),
                    hex_digit(s.get_char(k + 5)),
                ) {
                    (Some(a), Some(b), Some(c2), Some(d2)) => 4096 * (a as u32) + 256 * (b as u32)
                        + 16 * (c2 as u32) + (d2 as u32),
                    _ => {
                        return Err(DecodeErr::BadString);
                    },
                };
                if 0xD800 <= v && v < 0xDC00 {
                    if n - k <= 11 {
                        return Err(DecodeErr::BadString);
                    }
                    if !(s.get_char(k + 6) == '\\' && s.get_char(k + 7) == 'u') {
                        return Err(DecodeErr::BadString);
                    }
                    let w: u32 = match (
                        hex_digit(s.get_char(k + 8)),
                        hex_digit(s.get_char(k + 9)),
                        hex_digit(s.get_char(k + 10)),
                        hex_digit(s.get_char(k + 11)),
                    ) {
                        (Some(a), Some(b), Some(c2), Some(d2)) => 4096 * (a as u32) + 256 * (b
                            as u32) + 16 * (c2 as u32) + (d2 as u32),
                        _ => {
                            return Err(DecodeErr::BadString);
                        },
                    };
                    if !(0xDC00 <= w && w < 0xE000) {
                        return Err(DecodeErr::BadString);
                    }
                    let scalar: u32 = 0x10000 + (v - 0xD800) * 1024 + (w - 0xDC00);
                    match char::from_u32(scalar) {
                        Some(dc) => {
                            let ghost prev = acc@;
                            acc.push(dc);
                            proof {
                                vstd::utf8::char_u32_cast(dc, scalar);
                                assert forall|rest: Seq<char>|
                                    prev + (seq![(scalar as u32) as char] + rest) =~= acc@
                                        + rest by {}
                            }
                            k = k + 12;
                        },
                        None => {
                            proof {
                                assert(false);
                            }
                            return Err(DecodeErr::BadString);
                        },
                    }
                } else if 0xDC00 <= v && v < 0xE000 {
                    return Err(DecodeErr::BadString);
                } else {
                    match char::from_u32(v) {
                        Some(dc) => {
                            let ghost prev = acc@;
                            acc.push(dc);
                            proof {
                                vstd::utf8::char_u32_cast(dc, v);
                                assert forall|rest: Seq<char>|
                                    prev + (seq![(v as u32) as char] + rest) =~= acc@ + rest by {}
                            }
                            k = k + 6;
                        },
                        None => {
                            proof {
                                assert(false);
                            }
                            return Err(DecodeErr::BadString);
                        },
                    }
                }
            } else {
                let d: Option<char> = if e == '"' {
                    Some('"')
                } else if e == '\\' {
                    Some('\\')
                } else if e == '/' {
                    Some('/')
                } else if e == 'b' {
                    Some('\u{8}')
                } else if e == 'f' {
                    Some('\u{c}')
                } else if e == 'n' {
                    Some('\n')
                } else if e == 'r' {
                    Some('\r')
                } else if e == 't' {
                    Some('\t')
                } else {
                    None
                };
                match d {
                    Some(dc) => {
                        let ghost prev = acc@;
                        acc.push(dc);
                        proof {
                            assert forall|rest: Seq<char>| prev + (seq![dc] + rest) =~= acc@ + rest by {}
                        }
                        k = k + 2;
                    },
                    None => {
                        return Err(DecodeErr::BadString);
                    },
                }
            }
        } else if (c as u32) < 32 {
            return Err(DecodeErr::BadString);
        } else {
            let ghost prev = acc@;
            acc.push(c);
            proof {
                assert forall|rest: Seq<char>| prev + (seq![c] + rest) =~= acc@ + rest by {}
            }
            k = k + 1;
        }
    }
}

/// Scans a JSON string whose opening quote stands at `i`.
fn scan_string(s: &str, n: usize, i: usize) -> (r: Result<(String, usize), DecodeErr>)
    requires
        n == s@.len(),
        i <= n,
    ensures
        match r {
            Ok(p) => parse_string(s@, i as int) == Some((p.0@, p.1 as int)) && p.1 <= n,
            Err(_) => parse_string(s@, i as int) is None,
        },
{
    if i == n {
        return Err(DecodeErr::UnexpectedEnd);
    }
    if s.get_char(i) != '"' {
        return Err(DecodeErr::UnexpectedToken);
    }
    scan_string_chars(s, n, i + 1)
}

// ---------------------------------------------------------------------------
// Numbers
// ---------------------------------------------------------------------------

/// End of the integer part of a number whose first digit would stand at `i`:
/// a single `0`, or a nonzero digit followed by digits.
pub open spec fn int_part_end(s: Seq<char>, i: int) -> Option<int> {
    if 0 <= i < s.len() && is_digit(s[i]) {
        if s[i] == '0' {
            Some(i + 1)
        } else {
            Some(digits_end(s, i))
        }
    } else {
        None
    }
}

/// End of the optional fraction part starting at `i`.
pub open spec fn frac_end(s: Seq<char>, i: int) -> Option<int> {
    if 0 <= i < s.len() && s[i] == '.' {
        if i + 1 < s.len() && is_digit(s[i + 1]) {
            Some(digits_end(s, i + 1))
        } else {
            None
        }
    } else {
        Some(i)
    }
}

/// End of the optional exponent part starting at `i`.
pub open spec fn exp_end(s: Seq<char>, i: int) -> Option<int> {
    if 0 <= i < s.len() && (s[i] == 'e' || s[i] == 'E') {
        let j = if i + 1 < s.len() && (s[i + 1] == '+' || s[i + 1] == '-') {
            i + 2
        } else {
            i + 1
        };
        if j < s.len() && is_digit(s[j]) {
            Some(digits_end(s, j))
        } else {
            None
        }
    } else {
        Some(i)
    }
}

/// Parses a JSON number token starting at `i`; yields the index after the
/// token.
pub open spec fn parse_number(s: Seq<char>, i: int) -> Option<int> {
    let st = if 0 <= i < s.len() && s[i] == '-' {
        i + 1
    } else {
        i
    };
    match int_part_end(s, st) {
        Some(a) => match frac_end(s, a) {
            Some(b) => exp_end(s, b),
            None => None,
        },
        None => None,
    }
}

pub proof fn lemma_parse_number_bounds(s: Seq<char>, i: int)
    requires
        0 <= i <= s.len(),
        parse_number(s, i) is Some,
    ensures
        i < parse_number(s, i)->0 <= s.len(),
{
    let st = if i < s.len() && s[i] == '-' {
        i + 1
    } else {
        i
    };
    let a = int_part_end(s, st)->0;
    if s[st] == '0' {
    } else {
        assert(digits_end(s, st) == digits_end(s, st + 1));
        lemma_digits_end_bounds(s, st + 1);
    }
    assert(st < a <= s.len());
    let b = frac_end(s, a)->0;
    if a < s.len() && s[a] == '.' {
        lemma_digits_end_bounds(s, a + 1);
    }
    assert(a <= b <= s.len());
    if b < s.len() && (s[b] == 'e' || s[b] == 'E') {
        let j = if b + 1 < s.len() && (s[b + 1] == '+' || s[b + 1] == '-') {
            b + 2
        } else {
            b + 1
        };
        if j < s.len() && is_digit(s[j]) {
            lemma_digits_end_bounds(s, j);
        }
    }
}

/// Scans a JSON number token starting at `i`; yields the index after the
/// token.
fn scan_number(s: &str, n: usize, i: usize) -> (r: Result<usize, DecodeErr>)
    requires
        n == s@.len(),
        i <= n,
    ensures
        match r {
            Ok(j) => parse_number(s@, i as int) == Some(j as int) && i < j <= n,
            Err(_) => parse_number(s@, i as int) is None,
        },
{
    let st = if i < n && s.get_char(i) == '-' {
        i + 1
    } else {
        i
    };
    if !(st < n) {
        return Err(DecodeErr::UnexpectedEnd);
    }
    let c0 = s.get_char(st) as u32;
    if !(48 <= c0 && c0 <= 57) {
        return Err(DecodeErr::BadNumber);
    }
    let a = if c0 == 48 {
        st + 1
    } else {
        digits_to(s, n, st)
    };
    let b = if a < n && s.get_char(a) == '.' {
        if a + 1 < n {
            let d = s.get_char(a + 1) as u32;
            if 48 <= d && d <= 57 {
                digits_to(s, n, a + 1)
            } else {
                return Err(DecodeErr::BadNumber);
            }
        } else {
            return Err(DecodeErr::BadNumber);
        }
    } else {
        a
    };
    if b < n && (s.get_char(b) == 'e' || s.get_char(b) == 'E') {
        let j = if b + 1 < n {
            let sc = s.get_char(b + 1);
            if sc == '+' || sc == '-' {
                b + 2
            } else {
                b + 1
            }
        } else {
            b + 1
        };
        if j < n {
            let d = s.get_char(j) as u32;
            if 48 <= d && d <= 57 {
                let e = digits_to(s, n, j);
                proof {
                    assert(parse_number(s@, i as int) == Some(e as int));
                    lemma_parse_number_bounds(s@, i as int);
                }
                Ok(e)
            } else {
                Err(DecodeErr::BadNumber)
            }
        } else {
            Err(DecodeErr::BadNumber)
        }
    } else {
        proof {
            assert(parse_number(s@, i as int) == Some(b as int));
            lemma_parse_number_bounds(s@, i as int);
        }
        Ok(b)
    }
}

// ---------------------------------------------------------------------------
// Integer tokens
// ---------------------------------------------------------------------------

/// A non-empty run of decimal digits.
pub open spec fn is_digits(t: Seq<char>) -> bool {
    t.len() > 0 && forall|k: int| 0 <= k < t.len() ==> is_digit(t[k])
}

/// Value of a run of decimal digits.
pub open spec fn dec_val(t: Seq<char>) -> int
    decreases t.len(),
{
    if t.len() == 0 {
        0
    } else {
        dec_val(t.drop_last()) * 10 + ((t.last() as u32) - 48)
    }
}

/// Value of an optionally signed run of decimal digits; `None` for any other
/// token, in particular one with a fraction or an exponent.
pub open spec fn int_token_val(t: Seq<char>) -> Option<int> {
    if t.len() > 0 && t[0] == '-' {
        if is_digits(t.subrange(1, t.len() as int)) {
            Some(-dec_val(t.subrange(1, t.len() as int)))
        } else {
            None
        }
    } else {
        if is_digits(t) {
            Some(dec_val(t))
        } else {
            None
        }
    }
}

pub proof fn lemma_dec_val_nonneg(t: Seq<char>)
    requires
        forall|k: int| 0 <= k < t.len() ==> is_digit(t[k]),
    ensures
        dec_val(t) >= 0,
    decreases t.len(),
{
    if t.len() > 0 {
        lemma_dec_val_nonneg(t.drop_last());
    }
}

/// A digit run is worth at least any of its prefixes.
pub proof fn lemma_dec_val_prefix(t: Seq<char>, k: int)
    requires
        forall|j: int| 0 <= j < t.len() ==> is_digit(t[j]),
        0 <= k <= t.len(),
    ensures
        dec_val(t.subrange(0, k)) <= dec_val(t),
    decreases t.len() - k,
{
    if k == t.len() {
        assert(t.subrange(0, k) =~= t);
    } else {
        lemma_dec_val_prefix(t, k + 1);
        let p = t.subrange(0, k + 1);
        assert(p.drop_last() =~= t.subrange(0, k));
        lemma_dec_val_nonneg(p.drop_last());
        assert(dec_val(p) == dec_val(t.subrange(0, k)) * 10 + ((t[k] as u32) - 48));
    }
}

/// Scans an optionally signed digit token into its sign and magnitude.
#[verifier::loop_isolation(false)]
fn token_int_parts(t: &str) -> (r: Result<(bool, u64), DecodeErr>)
    ensures
        match r {
            Ok(p) => int_token_val(t@) == Some(
                if p.0 {
                    -(p.1 as int)
                } else {
                    p.1 as int
                },
            ),
            Err(e) => match e {
                DecodeErr::NotAnInteger => int_token_val(t@) is None,
                DecodeErr::IntOutOfRange => int_token_val(t@) is Some && (int_token_val(t@)->0
                    > u64::MAX || int_token_val(t@)->0 < -(u64::MAX as int)),
                _ => false,
            },
        },
{
    let n = t.unicode_len();
    let neg = n > 0 && t.get_char(0) == '-';
    let p: usize = if neg {
        1
    } else {
        0
    };
    let ghost d = t@.subrange(p as int, n as int);
    proof {
        assert(t@.subrange(0, t@.len() as int) =~= t@);
    }
    if p == n {
        return Err(DecodeErr::NotAnInteger);
    }
    let mut k = p;
    while k < n
        invariant
            p <= k <= n,
            n == t@.len(),
            d == t@.subrange(p as int, n as int),
            forall|j: int| p <= j < k ==> is_digit(t@[j]),
        decreases n - k,
    {
        let u = t.get_char(k) as u32;
        if !(48 <= u && u <= 57) {
            assert(!is_digits(d)) by {
                assert(d[k - p] == t@[k as int]);
            }
            return Err(DecodeErr::NotAnInteger);
        }
        k = k + 1;
    }
    assert(is_digits(d)) by {
        assert(forall|j: int| 0 <= j < d.len() ==> d[j] == t@[j + p]);
    }
    let mut acc: u128 = 0;
    let mut m = p;
    while m < n
        invariant
            p <= m <= n,
            n == t@.len(),
            d == t@.subrange(p as int, n as int),
            is_digits(d),
            forall|j: int| 0 <= j < d.len() ==> is_digit(d[j]),
            acc == dec_val(d.subrange(0, m - p)),
            acc <= u64::MAX,
        decreases n - m,
    {
        let u = t.get_char(m) as u32;
        assert(is_digit(t@[m as int])) by {
            assert(d[m - p] == t@[m as int]);
        }
        let dv: u128 = (u - 48) as u128;
        let next: u128 = acc * 10 + dv;
        proof {
            let pre = d.subrange(0, m + 1 - p);
            assert(pre.drop_last() =~= d.subrange(0, m - p));
            assert(pre.last() == d[m - p]);
            assert(d[m - p] == t@[m as int]);
            assert(next == dec_val(pre));
        }
        if next > u64::MAX as u128 {
            proof {
                lemma_dec_val_prefix(d, m + 1 - p);
            }
            return Err(DecodeErr::IntOutOfRange);
        }
        acc = next;
        m = m + 1;
    }
    proof {
        assert(d.subrange(0, n - p) =~= d);
    }
    Ok((neg, acc as u64))
}

/// Parses an integer token into an `i64`.
fn token_to_i64(t: &str) -> (r: Result<i64, DecodeErr>)
    ensures
        match r {
            Ok(v) => int_token_val(t@) == Some(v as int),
            Err(e) => match e {
                DecodeErr::NotAnInteger => int_token_val(t@) is None,
                DecodeErr::IntOutOfRange => int_token_val(t@) is Some && !(i64::MIN
                    <= int_token_val(t@)->0 <= i64::MAX),
                _ => false,
            },
        },
{
    match token_int_parts(t) {
        Ok((neg, mag)) => {
            if neg {
                if mag > 9223372036854775808u64 {
                    Err(DecodeErr::IntOutOfRange)
                } else if mag == 9223372036854775808u64 {
                    Ok(i64::MIN)
                } else {
                    Ok(-(mag as i64))
                }
            } else {
                if mag > 9223372036854775807u64 {
                    Err(DecodeErr::IntOutOfRange)
                } else {
                    Ok(mag as i64)
                }
            }
        },
        Err(e) => Err(e),
    }
}

/// Parses an integer token into a `u32`.
fn token_to_u32(t: &str) -> (r: Result<u32, DecodeErr>)
    ensures
        match r {
            Ok(v) => int_token_val(t@) == Some(v as int),
            Err(e) => match e {
                DecodeErr::NotAnInteger => int_token_val(t@) is None,
                DecodeErr::IntOutOfRange => int_token_val(t@) is Some && !(0 <= int_token_val(
                    t@,
                )->0 <= u32::MAX),
                _ => false,
            },
        },
{
    match token_int_parts(t) {
        Ok((neg, mag)) => {
            if neg && mag > 0 {
                Err(DecodeErr::IntOutOfRange)
            } else if mag > 4294967295u64 {
                Err(DecodeErr::IntOutOfRange)
            } else {
                Ok(mag as u32)
            }
        },
        Err(e) => Err(e),
    }
}

// ---------------------------------------------------------------------------
// Literal tokens
// ---------------------------------------------------------------------------

/// Whether the literal `lit` stands verbatim at index `i` of `s`.
pub open spec fn lit_at(s: Seq<char>, i: int, lit: Seq<char>) -> bool {
    0 <= i && i + lit.len() <= s.len() && s.subrange(i, i + lit.len()) == lit
}

/// Compares two borrowed strings by contents.
pub fn str_eq(a: &str, b: &str) -> (r: bool)
    ensures
        r == (a@ == b@),
{
    let sa = String::from_str(a);
    let sb = String::from_str(b);
    sa == sb
}

/// Whether `lit`, whose character count is `m`, stands verbatim at index `i`.
fn has_lit(s: &str, n: usize, i: usize, lit: &str, m: usize) -> (r: bool)
    requires
        n == s@.len(),
        i <= n,
        m == lit@.len(),
    ensures
        r == lit_at(s@, i as int, lit@),
{
    if m > n - i {
        return false;
    }
    let sub = s.substring_char(i, i + m);
    str_eq(sub, lit)
}

// ---------------------------------------------------------------------------
// Fields and records
// ---------------------------------------------------------------------------

/// Whitespace, then the single character `c`.
pub open spec fn expect_tok(s: Seq<char>, i: int, c: char) -> Option<int> {
    let a = skip_ws(s, i);
    if 0 <= a < s.len() && s[a] == c {
        Some(a + 1)
    } else {
        None
    }
}

/// Whitespace, then the exact characters of `lit`.
pub open spec fn expect_lit(s: Seq<char>, i: int, lit: Seq<char>) -> Option<int> {
    let a = skip_ws(s, i);
    if lit_at(s, a, lit) {
        Some(a + lit.len())
    } else {
        None
    }
}

/// Whitespace, a quoted key written verbatim, whitespace, and a colon.
pub open spec fn expect_key(s: Seq<char>, i: int, key: Seq<char>) -> Option<int> {
    match expect_lit(s, i, key) {
        Some(a) => expect_tok(s, a, ':'),
        None => None,
    }
}

/// Whitespace, then a JSON string.
pub open spec fn str_field(s: Seq<char>, i: int) -> Option<(Seq<char>, int)> {
    parse_string(s, skip_ws(s, i))
}

/// Whitespace, then a JSON number; yields the token verbatim.
pub open spec fn num_field(s: Seq<char>, i: int) -> Option<(Seq<char>, int)> {
    let a = skip_ws(s, i);
    match parse_number(s, a) {
        Some(j) => Some((s.subrange(a, j), j)),
        None => None,
    }
}

/// Whitespace, then an integer number token whose value fits an `i64`.
pub open spec fn i64_field(s: Seq<char>, i: int) -> Option<(int, int)> {
    match num_field(s, i) {
        Some((t, j)) => match int_token_val(t) {
            Some(v) => if i64::MIN <= v <= i64::MAX {
                Some((v, j))
            } else {
                None
            },
            None => None,
        },
        None => None,
    }
}

/// Whitespace, then an integer number token whose value fits a `u32`.
pub open spec fn u32_field(s: Seq<char>, i: int) -> Option<(int, int)> {
    match num_field(s, i) {
        Some((t, j)) => match int_token_val(t) {
            Some(v) => if 0 <= v <= u32::MAX {
                Some((v, j))
            } else {
                None
            },
            None => None,
        },
        None => None,
    }
}

/// One parsed record member, bound to the field its key names.
pub ghost enum FieldBind {
    BName(Seq<char>),
    BLat(Seq<char>),
    BLon(Seq<char>),
    BAddress(Seq<char>),
    BNum(int),
    BId(int),
}

/// One record member: a key written as a JSON string, a colon, and the
/// value the key calls for. A key outside the record's fields is not part
/// of the format.
pub open spec fn parse_field(s: Seq<char>, i: int) -> Option<(FieldBind, int)> {
    match str_field(s, i) {
        Some((k, a)) => match expect_tok(s, a, ':') {
            Some(b) => if k == "name"@ {
                match str_field(s, b) {
                    Some((x, c)) => Some((FieldBind::BName(x), c)),
                    None => None,
                }
            } else if k == "address"@ {
                match str_field(s, b) {
                    Some((x, c)) => Some((FieldBind::BAddress(x), c)),
                    None => None,
                }
            } else if k == "lat"@ {
                match num_field(s, b) {
                    Some((t, c)) => Some((FieldBind::BLat(t), c)),
                    None => None,
                }
            } else if k == "lon"@ {
                match num_field(s, b) {
                    Some((t, c)) => Some((FieldBind::BLon(t), c)),
                    None => None,
                }
            } else if k == "num_mugs"@ {
                match u32_field(s, b) {
                    Some((v, c)) => Some((FieldBind::BNum(v), c)),
                    None => None,
                }
            } else if k == "id"@ {
                match i64_field(s, b) {
                    Some((v, c)) => Some((FieldBind::BId(v), c)),
                    None => None,
                }
            } else {
                None
            },
            None => None,
        },
        None => None,
    }
}

pub proof fn lemma_parse_field_bounds(s: Seq<char>, i: int)
    requires
        0 <= i <= s.len(),
        parse_field(s, i) is Some,
    ensures
        i < (parse_field(s, i)->0).1 <= s.len(),
{
    lemma_skip_ws_bounds(s, i);
    lemma_parse_string_chars_bounds(s, skip_ws(s, i) + 1);
    let a = (str_field(s, i)->0).1;
    assert(i < a <= s.len());
    lemma_skip_ws_bounds(s, a);
    let b = expect_tok(s, a, ':')->0;
    assert(a < b <= s.len());
    lemma_skip_ws_bounds(s, b);
    let k = (str_field(s, i)->0).0;
    if k == "name"@ || k == "address"@ {
        lemma_parse_string_chars_bounds(s, skip_ws(s, b) + 1);
    } else {
        lemma_parse_number_bounds(s, skip_ws(s, b));
    }
}

/// The members of a record object, keys in any order, each field exactly
/// once. The `Option` parameters carry the fields already seen; a repeated
/// or unknown key, or a missing field at the closing brace, is an error.
pub open spec fn parse_mug_fields(
    s: Seq<char>,
    i: int,
    id: Option<int>,
    name: Option<Seq<char>>,
    lat: Option<Seq<char>>,
    lon: Option<Seq<char>>,
    address: Option<Seq<char>>,
    num: Option<int>,
) -> Option<(MugModel, int)>
    decreases s.len() - i, 1int,
    when 0 <= i <= s.len()
{
    match parse_field(s, i) {
        Some((b, j)) => {
            proof {
                lemma_parse_field_bounds(s, i);
            }
            match b {
                FieldBind::BId(v) => if id is Some {
                    None
                } else {
                    parse_mug_sep(s, j, Some(v), name, lat, lon, address, num)
                },
                FieldBind::BName(x) => if name is Some {
                    None
                } else {
                    parse_mug_sep(s, j, id, Some(x), lat, lon, address, num)
                },
                FieldBind::BLat(x) => if lat is Some {
                    None
                } else {
                    parse_mug_sep(s, j, id, name, Some(x), lon, address, num)
                },
                FieldBind::BLon(x) => if lon is Some {
                    None
                } else {
                    parse_mug_sep(s, j, id, name, lat, Some(x), address, num)
                },
                FieldBind::BAddress(x) => if address is Some {
                    None
                } else {
                    parse_mug_sep(s, j, id, name, lat, lon, Some(x), num)
                },
                FieldBind::BNum(v) => if num is Some {
                    None
                } else {
                    parse_mug_sep(s, j, id, name, lat, lon, address, Some(v))
                },
            }
        },
        None => None,
    }
}

/// After a member's value: a comma continues with further members, a
/// closing brace ends the object if every field has been seen.
pub open spec fn parse_mug_sep(
    s: Seq<char>,
    j: int,
    id: Option<int>,
    name: Option<Seq<char>>,
    lat: Option<Seq<char>>,
    lon: Option<Seq<char>>,
    address: Option<Seq<char>>,
    num: Option<int>,
) -> Option<(MugModel, int)>
    decreases s.len() - j, 0int,
    when 0 <= j <= s.len()
{
    match expect_tok(s, j, ',') {
        Some(c) => {
            proof {
                lemma_skip_ws_bounds(s, j);
            }
            parse_mug_fields(s, c, id, name, lat, lon, address, num)
        },
        None => match expect_tok(s, j, '}') {
            Some(c) => match (id, name, lat, lon, address, num) {
                (Some(i0), Some(n0), Some(la), Some(lo), Some(a0), Some(nm)) => Some(
                    (
                        MugModel {
                            id: i0,
                            name: n0,
                            lat: la,
                            lon: lo,
                            address: a0,
                            num_mugs: nm,
                        },
                        c,
                    ),
                ),
                _ => None,
            },
            None => None,
        },
    }
}

/// The members of a creation-payload object: as for a full record, but
/// without an `id` field.
pub open spec fn parse_eph_fields(
    s: Seq<char>,
    i: int,
    name: Option<Seq<char>>,
    lat: Option<Seq<char>>,
    lon: Option<Seq<char>>,
    address: Option<Seq<char>>,
    num: Option<int>,
) -> Option<(EphemeralMugModel, int)>
    decreases s.len() - i, 1int,
    when 0 <= i <= s.len()
{
    match parse_field(s, i) {
        Some((b, j)) => {
            proof {
                lemma_parse_field_bounds(s, i);
            }
            match b {
                FieldBind::BId(v) => None,
                FieldBind::BName(x) => if name is Some {
                    None
                } else {
                    parse_eph_sep(s, j, Some(x), lat, lon, address, num)
                },
                FieldBind::BLat(x) => if lat is Some {
                    None
                } else {
                    parse_eph_sep(s, j, name, Some(x), lon, address, num)
                },
                FieldBind::BLon(x) => if lon is Some {
                    None
                } else {
                    parse_eph_sep(s, j, name, lat, Some(x), address, num)
                },
                FieldBind::BAddress(x) => if address is Some {
                    None
                } else {
                    parse_eph_sep(s, j, name, lat, lon, Some(x), num)
                },
                FieldBind::BNum(v) => if num is Some {
                    None
                } else {
                    parse_eph_sep(s, j, name, lat, lon, address, Some(v))
                },
            }
        },
        None => None,
    }
}

/// After a creation-payload member's value: comma or closing brace.
pub open spec fn parse_eph_sep(
    s: Seq<char>,
    j: int,
    name: Option<Seq<char>>,
    lat: Option<Seq<char>>,
    lon: Option<Seq<char>>,
    address: Option<Seq<char>>,
    num: Option<int>,
) -> Option<(EphemeralMugModel, int)>
    decreases s.len() - j, 0int,
    when 0 <= j <= s.len()
{
    match expect_tok(s, j, ',') {
        Some(c) => {
            proof {
                lemma_skip_ws_bounds(s, j);
            }
            parse_eph_fields(s, c, name, lat, lon, address, num)
        },
        None => match expect_tok(s, j, '}') {
            Some(c) => match (name, lat, lon, address, num) {
                (Some(n0), Some(la), Some(lo), Some(a0), Some(nm)) => Some(
                    (
                        EphemeralMugModel {
                            name: n0,
                            lat: la,
                            lon: lo,
                            address: a0,
                            num_mugs: nm,
                        },
                        c,
                    ),
                ),
                _ => None,
            },
            None => None,
        },
    }
}

proof fn lemma_mug_fields_bounds(
    s: Seq<char>,
    i: int,
    id: Option<int>,
    name: Option<Seq<char>>,
    lat: Option<Seq<char>>,
    lon: Option<Seq<char>>,
    address: Option<Seq<char>>,
    num: Option<int>,
)
    requires
        0 <= i <= s.len(),
        parse_mug_fields(s, i, id, name, lat, lon, address, num) is Some,
    ensures
        i < (parse_mug_fields(s, i, id, name, lat, lon, address, num)->0).1 <= s.len(),
    decreases s.len() - i, 1int,
{
    lemma_parse_field_bounds(s, i);
    let j = (parse_field(s, i)->0).1;
    match (parse_field(s, i)->0).0 {
        FieldBind::BId(v) => lemma_mug_sep_bounds(s, j, Some(v), name, lat, lon, address, num),
        FieldBind::BName(x) => lemma_mug_sep_bounds(s, j, id, Some(x), lat, lon, address, num),
        FieldBind::BLat(x) => lemma_mug_sep_bounds(s, j, id, name, Some(x), lon, address, num),
        FieldBind::BLon(x) => lemma_mug_sep_bounds(s, j, id, name, lat, Some(x), address, num),
        FieldBind::BAddress(x) => lemma_mug_sep_bounds(s, j, id, name, lat, lon, Some(x), num),
        FieldBind::BNum(v) => lemma_mug_sep_bounds(s, j, id, name, lat, lon, address, Some(v)),
    }
}

proof fn lemma_mug_sep_bounds(
    s: Seq<char>,
    j: int,
    id: Option<int>,
    name: Option<Seq<char>>,
    lat: Option<Seq<char>>,
    lon: Option<Seq<char>>,
    address: Option<Seq<char>>,
    num: Option<int>,
)
    requires
        0 <= j <= s.len(),
        parse_mug_sep(s, j, id, name, lat, lon, address, num) is Some,
    ensures
        j < (parse_mug_sep(s, j, id, name, lat, lon, address, num)->0).1 <= s.len(),
    decreases s.len() - j, 0int,
{
    lemma_skip_ws_bounds(s, j);
    match expect_tok(s, j, ',') {
        Some(c) => {
            lemma_mug_fields_bounds(s, c, id, name, lat, lon, address, num);
        },
        None => {},
    }
}

proof fn lemma_eph_fields_bounds(
    s: Seq<char>,
    i: int,
    name: Option<Seq<char>>,
    lat: Option<Seq<char>>,
    lon: Option<Seq<char>>,
    address: Option<Seq<char>>,
    num: Option<int>,
)
    requires
        0 <= i <= s.len(),
        parse_eph_fields(s, i, name, lat, lon, address, num) is Some,
    ensures
        i < (parse_eph_fields(s, i, name, lat, lon, address, num)->0).1 <= s.len(),
    decreases s.len() - i, 1int,
{
    lemma_parse_field_bounds(s, i);
    let j = (parse_field(s, i)->0).1;
    match (parse_field(s, i)->0).0 {
        FieldBind::BId(v) => {},
        FieldBind::BName(x) => lemma_eph_sep_bounds(s, j, Some(x), lat, lon, address, num),
        FieldBind::BLat(x) => lemma_eph_sep_bounds(s, j, name, Some(x), lon, address, num),
        FieldBind::BLon(x) => lemma_eph_sep_bounds(s, j, name, lat, Some(x), address, num),
        FieldBind::BAddress(x) => lemma_eph_sep_bounds(s, j, name, lat, lon, Some(x), num),
        FieldBind::BNum(v) => lemma_eph_sep_bounds(s, j, name, lat, lon, address, Some(v)),
    }
}

proof fn lemma_eph_sep_bounds(
    s: Seq<char>,
    j: int,
    name: Option<Seq<char>>,
    lat: Option<Seq<char>>,
    lon: Option<Seq<char>>,
    address: Option<Seq<char>>,
    num: Option<int>,
)
    requires
        0 <= j <= s.len(),
        parse_eph_sep(s, j, name, lat, lon, address, num) is Some,
    ensures
        j < (parse_eph_sep(s, j, name, lat, lon, address, num)->0).1 <= s.len(),
    decreases s.len() - j, 0int,
{
    lemma_skip_ws_bounds(s, j);
    match expect_tok(s, j, ',') {
        Some(c) => {
            lemma_eph_fields_bounds(s, c, name, lat, lon, address, num);
        },
        None => {},
    }
}

/// A creation-payload object starting (after whitespace) at `i`.
pub open spec fn parse_eph_at(s: Seq<char>, i: int) -> Option<(EphemeralMugModel, int)> {
    match expect_tok(s, i, '{') {
        Some(a0) => if 0 <= a0 <= s.len() {
            parse_eph_fields(s, a0, None, None, None, None, None)
        } else {
            None
        },
        None => None,
    }
}

/// A full record object starting (after whitespace) at `i`.
pub open spec fn parse_mug_at(s: Seq<char>, i: int) -> Option<(MugModel, int)> {
    match expect_tok(s, i, '{') {
        Some(a0) => if 0 <= a0 <= s.len() {
            parse_mug_fields(s, a0, None, None, None, None, None, None)
        } else {
            None
        },
        None => None,
    }
}

/// A message-envelope object starting (after whitespace) at `i`.
pub open spec fn parse_message_at(s: Seq<char>, i: int) -> Option<(Seq<char>, int)> {
    match expect_tok(s, i, '{') {
        Some(a0) => match expect_key(s, a0, "\"message\""@) {
            Some(a1) => match str_field(s, a1) {
                Some((text, a2)) => match expect_tok(s, a2, '}') {
                    Some(a3) => Some((text, a3)),
                    None => None,
                },
                None => None,
            },
            None => None,
        },
        None => None,
    }
}

// ---------------------------------------------------------------------------
// Bounds of the record parsers
// ---------------------------------------------------------------------------

pub proof fn lemma_parse_mug_at_bounds(s: Seq<char>, i: int)
    requires
        0 <= i <= s.len(),
        parse_mug_at(s, i) is Some,
    ensures
        i < (parse_mug_at(s, i)->0).1 <= s.len(),
{
    lemma_skip_ws_bounds(s, i);
    let a0 = expect_tok(s, i, '{')->0;
    lemma_mug_fields_bounds(s, a0, None, None, None, None, None, None);
}

// ---------------------------------------------------------------------------
// Documents
// ---------------------------------------------------------------------------

/// The whole text is the literal `null` amid whitespace.
pub open spec fn parse_null_doc(s: Seq<char>) -> bool {
    match expect_lit(s, 0, "null"@) {
        Some(j) => skip_ws(s, j) == s.len(),
        None => false,
    }
}

/// The whole text is one record object amid whitespace.
pub open spec fn parse_mug_doc(s: Seq<char>) -> Option<MugModel> {
    match parse_mug_at(s, 0) {
        Some((m, j)) => if skip_ws(s, j) == s.len() {
            Some(m)
        } else {
            None
        },
        None => None,
    }
}

/// The whole text is one creation-payload object amid whitespace.
pub open spec fn parse_eph_doc(s: Seq<char>) -> Option<EphemeralMugModel> {
    match parse_eph_at(s, 0) {
        Some((m, j)) => if skip_ws(s, j) == s.len() {
            Some(m)
        } else {
            None
        },
        None => None,
    }
}

/// The whole text is one message envelope amid whitespace.
pub open spec fn parse_message_doc(s: Seq<char>) -> Option<Seq<char>> {
    match parse_message_at(s, 0) {
        Some((t, j)) => if skip_ws(s, j) == s.len() {
            Some(t)
        } else {
            None
        },
        None => None,
    }
}

/// After one array item: either the closing bracket, or a comma and a further
/// record, repeated.
pub open spec fn parse_mugs_rest(s: Seq<char>, i: int) -> Option<(Seq<MugModel>, int)>
    decreases s.len() - i,
    when 0 <= i <= s.len()
{
    let a = skip_ws(s, i);
    if 0 <= a < s.len() && s[a] == ']' {
        Some((Seq::empty(), a + 1))
    } else {
        match expect_tok(s, i, ',') {
            Some(b) => match parse_mug_at(s, b) {
                Some((m, j)) => {
                    proof {
                        lemma_skip_ws_bounds(s, i);
                        lemma_parse_mug_at_bounds(s, b);
                    }
                    match parse_mugs_rest(s, j) {
                        Some((rest, k)) => Some((seq![m] + rest, k)),
                        None => None,
                    }
                },
                None => None,
            },
            None => None,
        }
    }
}

/// The whole text is a JSON array of record objects amid whitespace.
pub open spec fn parse_mugs_doc(s: Seq<char>) -> Option<Seq<MugModel>> {
    match expect_tok(s, 0, '[') {
        Some(b0) => {
            let b = skip_ws(s, b0);
            if 0 <= b < s.len() && s[b] == ']' {
                if skip_ws(s, b + 1) == s.len() {
                    Some(Seq::empty())
                } else {
                    None
                }
            } else {
                match parse_mug_at(s, b0) {
                    Some((m, j)) => match parse_mugs_rest(s, j) {
                        Some((rest, k)) => if skip_ws(s, k) == s.len() {
                            Some(seq![m] + rest)
                        } else {
                            None
                        },
                        None => None,
                    },
                    None => None,
                }
            }
        },
        None => None,
    }
}

// ---------------------------------------------------------------------------
// Executable scanners
// ---------------------------------------------------------------------------

/// Skips whitespace and consumes the single character `c`.
fn eat_tok(s: &str, n: usize, i: usize, c: char) -> (r: Result<usize, DecodeErr>)
    requires
        n == s@.len(),
        i <= n,
    ensures
        match r {
            Ok(j) => expect_tok(s@, i as int, c) == Some(j as int) && j <= n,
            Err(_) => expect_tok(s@, i as int, c) is None,
        },
{
    let a = ws_to(s, n, i);
    if a == n {
        return Err(DecodeErr::UnexpectedEnd);
    }
    if s.get_char(a) == c {
        Ok(a + 1)
    } else {
        Err(DecodeErr::UnexpectedToken)
    }
}

/// Skips whitespace, consumes the quoted key `lit` written verbatim, then
/// whitespace and a colon.
fn eat_key(s: &str, n: usize, i: usize, lit: &str, m: usize) -> (r: Result<usize, DecodeErr>)
    requires
        n == s@.len(),
        i <= n,
        m == lit@.len(),
    ensures
        match r {
            Ok(j) => expect_key(s@, i as int, lit@) == Some(j as int) && j <= n,
            Err(_) => expect_key(s@, i as int, lit@) is None,
        },
{
    let a = ws_to(s, n, i);
    if has_lit(s, n, a, lit, m) {
        eat_tok(s, n, a + m, ':')
    } else {
        Err(DecodeErr::UnexpectedToken)
    }
}

/// Skips whitespace and scans a JSON string.
fn scan_str_field(s: &str, n: usize, i: usize) -> (r: Result<(String, usize), DecodeErr>)
    requires
        n == s@.len(),
        i <= n,
    ensures
        match r {
            Ok(p) => str_field(s@, i as int) == Some((p.0@, p.1 as int)) && p.1 <= n,
            Err(_) => str_field(s@, i as int) is None,
        },
{
    let a = ws_to(s, n, i);
    scan_string(s, n, a)
}

/// Skips whitespace and scans a JSON number, keeping its token verbatim.
fn scan_num_field(s: &str, n: usize, i: usize) -> (r: Result<(String, usize), DecodeErr>)
    requires
        n == s@.len(),
        i <= n,
    ensures
        match r {
            Ok(p) => num_field(s@, i as int) == Some((p.0@, p.1 as int)) && p.1 <= n,
            Err(_) => num_field(s@, i as int) is None,
        },
{
    let a = ws_to(s, n, i);
    match scan_number(s, n, a) {
        Ok(j) => {
            let tok = s.substring_char(a, j).to_owned();
            Ok((tok, j))
        },
        Err(e) => Err(e),
    }
}

/// Skips whitespace and scans an integer number token into an `i64`.
fn scan_i64_field(s: &str, n: usize, i: usize) -> (r: Result<(i64, usize), DecodeErr>)
    requires
        n == s@.len(),
        i <= n,
    ensures
        match r {
            Ok(p) => i64_field(s@, i as int) == Some((p.0 as int, p.1 as int)) && p.1 <= n,
            Err(_) => i64_field(s@, i as int) is None,
        },
{
    match scan_num_field(s, n, i) {
        Ok((tok, j)) => match token_to_i64(tok.as_str()) {
            Ok(v) => Ok((v, j)),
            Err(e) => Err(e),
        },
        Err(e) => Err(e),
    }
}

/// Skips whitespace and scans an integer number token into a `u32`.
fn scan_u32_field(s: &str, n: usize, i: usize) -> (r: Result<(u32, usize), DecodeErr>)
    requires
        n == s@.len(),
        i <= n,
    ensures
        match r {
            Ok(p) => u32_field(s@, i as int) == Some((p.0 as int, p.1 as int)) && p.1 <= n,
            Err(_) => u32_field(s@, i as int) is None,
        },
{
    match scan_num_field(s, n, i) {
        Ok((tok, j)) => match token_to_u32(tok.as_str()) {
            Ok(v) => Ok((v, j)),
            Err(e) => Err(e),
        },
        Err(e) => Err(e),
    }
}

/// One scanned record member, bound to the field its key names.
pub enum FieldData {
    DName(String),
    DLat(String),
    DLon(String),
    DAddress(String),
    DNum(u32),
    DId(i64),
}

impl View for FieldData {
    type V = FieldBind;

    open spec fn view(&self) -> FieldBind {
        match self {
            FieldData::DName(x) => FieldBind::BName(x@),
            FieldData::DLat(x) => FieldBind::BLat(x@),
            FieldData::DLon(x) => FieldBind::BLon(x@),
            FieldData::DAddress(x) => FieldBind::BAddress(x@),
            FieldData::DNum(v) => FieldBind::BNum(*v as int),
            FieldData::DId(v) => FieldBind::BId(*v as int),
        }
    }
}

spec fn slot_str(o: Option<String>) -> Option<Seq<char>> {
    match o {
        Some(x) => Some(x@),
        None => None,
    }
}

spec fn slot_i64(o: Option<i64>) -> Option<int> {
    match o {
        Some(v) => Some(v as int),
        None => None,
    }
}

spec fn slot_u32(o: Option<u32>) -> Option<int> {
    match o {
        Some(v) => Some(v as int),
        None => None,
    }
}

/// Scans one record member: a key string, a colon, and the value the key
/// calls for.
fn scan_field(s: &str, n: usize, i: usize) -> (r: Result<(FieldData, usize), DecodeErr>)
    requires
        n == s@.len(),
        i <= n,
    ensures
        match r {
            Ok(p) => parse_field(s@, i as int) == Some((p.0@, p.1 as int)) && i < p.1 <= n,
            Err(_) => parse_field(s@, i as int) is None,
        },
{
    let (k, a) = match scan_str_field(s, n, i) {
        Ok(v) => v,
        Err(e) => {
            return Err(e);
        },
    };
    let b = match eat_tok(s, n, a, ':') {
        Ok(v) => v,
        Err(e) => {
            return Err(e);
        },
    };
    let out: Result<(FieldData, usize), DecodeErr> = if str_eq(k.as_str(), "name") {
        match scan_str_field(s, n, b) {
            Ok((x, c)) => Ok((FieldData::DName(x), c)),
            Err(e) => Err(e),
        }
    } else if str_eq(k.as_str(), "address") {
        match scan_str_field(s, n, b) {
            Ok((x, c)) => Ok((FieldData::DAddress(x), c)),
            Err(e) => Err(e),
        }
    } else if str_eq(k.as_str(), "lat") {
        match scan_num_field(s, n, b) {
            Ok((x, c)) => Ok((FieldData::DLat(x), c)),
            Err(e) => Err(e),
        }
    } else if str_eq(k.as_str(), "lon") {
        match scan_num_field(s, n, b) {
            Ok((x, c)) => Ok((FieldData::DLon(x), c)),
            Err(e) => Err(e),
        }
    } else if str_eq(k.as_str(), "num_mugs") {
        match scan_u32_field(s, n, b) {
            Ok((v, c)) => Ok((FieldData::DNum(v), c)),
            Err(e) => Err(e),
        }
    } else if str_eq(k.as_str(), "id") {
        match scan_i64_field(s, n, b) {
            Ok((v, c)) => Ok((FieldData::DId(v), c)),
            Err(e) => Err(e),
        }
    } else {
        Err(DecodeErr::UnexpectedToken)
    };
    proof {
        if parse_field(s@, i as int) is Some {
            lemma_parse_field_bounds(s@, i as int);
        }
    }
    out
}

/// Scans a record object's members, keys in any order, each field exactly
/// once, through the closing brace.
#[verifier::loop_isolation(false)]
fn scan_mug_fields(s: &str, n: usize, i: usize) -> (r: Result<(Mug, usize), DecodeErr>)
    requires
        n == s@.len(),
        i <= n,
    ensures
        match r {
            Ok(p) => parse_mug_fields(s@, i as int, None, None, None, None, None, None) == Some(
                (p.0@, p.1 as int),
            ) && p.1 <= n,
            Err(_) => parse_mug_fields(s@, i as int, None, None, None, None, None, None) is None,
        },
{
    let mut id: Option<i64> = None;
    let mut name: Option<String> = None;
    let mut lat: Option<String> = None;
    let mut lon: Option<String> = None;
    let mut address: Option<String> = None;
    let mut num: Option<u32> = None;
    let mut cur = i;
    loop
        invariant
            cur <= n,
            parse_mug_fields(s@, i as int, None, None, None, None, None, None) == parse_mug_fields(
                s@,
                cur as int,
                slot_i64(id),
                slot_str(name),
                slot_str(lat),
                slot_str(lon),
                slot_str(address),
                slot_u32(num),
            ),
        decreases n - cur,
    {
        let (fd, j) = match scan_field(s, n, cur) {
            Ok(v) => v,
            Err(e) => {
                return Err(e);
            },
        };
        match fd {
            FieldData::DId(v) => {
                if id.is_some() {
                    return Err(DecodeErr::DuplicateField);
                }
                id = Some(v);
            },
            FieldData::DName(x) => {
                if name.is_some() {
                    return Err(DecodeErr::DuplicateField);
                }
                name = Some(x);
            },
            FieldData::DLat(x) => {
                if lat.is_some() {
                    return Err(DecodeErr::DuplicateField);
                }
                lat = Some(x);
            },
            FieldData::DLon(x) => {
                if lon.is_some() {
                    return Err(DecodeErr::DuplicateField);
                }
                lon = Some(x);
            },
            FieldData::DAddress(x) => {
                if address.is_some() {
                    return Err(DecodeErr::DuplicateField);
                }
                address = Some(x);
            },
            FieldData::DNum(v) => {
                if num.is_some() {
                    return Err(DecodeErr::DuplicateField);
                }
                num = Some(v);
            },
        }
        let a = ws_to(s, n, j);
        if a < n && s.get_char(a) == ',' {
            cur = a + 1;
        } else if a < n && s.get_char(a) == '}' {
            match (id, name, lat, lon, address, num) {
                (Some(i0), Some(n0), Some(la), Some(lo), Some(a0), Some(nm)) => {
                    let m = Mug {
                        id: i0,
                        name: n0,
                        lat: la,
                        lon: lo,
                        address: a0,
                        num_mugs: nm,
                    };
                    return Ok((m, a + 1));
                },
                _ => {
                    return Err(DecodeErr::MissingField);
                },
            }
        } else if a == n {
            return Err(DecodeErr::UnexpectedEnd);
        } else {
            return Err(DecodeErr::UnexpectedToken);
        }
    }
}

/// Scans a creation-payload object's members, keys in any order, each
/// field exactly once, through the closing brace.
#[verifier::loop_isolation(false)]
fn scan_eph_fields(s: &str, n: usize, i: usize) -> (r: Result<(EphemeralMug, usize), DecodeErr>)
    requires
        n == s@.len(),
        i <= n,
    ensures
        match r {
            Ok(p) => parse_eph_fields(s@, i as int, None, None, None, None, None) == Some(
                (p.0@, p.1 as int),
            ) && p.1 <= n,
            Err(_) => parse_eph_fields(s@, i as int, None, None, None, None, None) is None,
        },
{
    let mut name: Option<String> = None;
    let mut lat: Option<String> = None;
    let mut lon: Option<String> = None;
    let mut address: Option<String> = None;
    let mut num: Option<u32> = None;
    let mut cur = i;
    loop
        invariant
            cur <= n,
            parse_eph_fields(s@, i as int, None, None, None, None, None) == parse_eph_fields(
                s@,
                cur as int,
                slot_str(name),
                slot_str(lat),
                slot_str(lon),
                slot_str(address),
                slot_u32(num),
            ),
        decreases n - cur,
    {
        let (fd, j) = match scan_field(s, n, cur) {
            Ok(v) => v,
            Err(e) => {
                return Err(e);
            },
        };
        match fd {
            FieldData::DId(_) => {
                return Err(DecodeErr::UnexpectedToken);
            },
            FieldData::DName(x) => {
                if name.is_some() {
                    return Err(DecodeErr::DuplicateField);
                }
                name = Some(x);
            },
            FieldData::DLat(x) => {
                if lat.is_some() {
                    return Err(DecodeErr::DuplicateField);
                }
                lat = Some(x);
            },
            FieldData::DLon(x) => {
                if lon.is_some() {
                    return Err(DecodeErr::DuplicateField);
                }
                lon = Some(x);
            },
            FieldData::DAddress(x) => {
                if address.is_some() {
                    return Err(DecodeErr::DuplicateField);
                }
                address = Some(x);
            },
            FieldData::DNum(v) => {
                if num.is_some() {
                    return Err(DecodeErr::DuplicateField);
                }
                num = Some(v);
            },
        }
        let a = ws_to(s, n, j);
        if a < n && s.get_char(a) == ',' {
            cur = a + 1;
        } else if a < n && s.get_char(a) == '}' {
            match (name, lat, lon, address, num) {
                (Some(n0), Some(la), Some(lo), Some(a0), Some(nm)) => {
                    let m = EphemeralMug {
                        name: n0,
                        lat: la,
                        lon: lo,
                        address: a0,
                        num_mugs: nm,
                    };
                    return Ok((m, a + 1));
                },
                _ => {
                    return Err(DecodeErr::MissingField);
                },
            }
        } else if a == n {
            return Err(DecodeErr::UnexpectedEnd);
        } else {
            return Err(DecodeErr::UnexpectedToken);
        }
    }
}

/// Scans one record object starting (after whitespace) at `i`.
fn scan_mug_at(s: &str, n: usize, i: usize) -> (r: Result<(Mug, usize), DecodeErr>)
    requires
        n == s@.len(),
        i <= n,
    ensures
        match r {
            Ok(p) => parse_mug_at(s@, i as int) == Some((p.0@, p.1 as int)) && p.1 <= n,
            Err(_) => parse_mug_at(s@, i as int) is None,
        },
{
    let a0 = match eat_tok(s, n, i, '{') {
        Ok(v) => v,
        Err(e) => {
            return Err(e);
        },
    };
    scan_mug_fields(s, n, a0)
}

// ---------------------------------------------------------------------------
// Document decoding
// ---------------------------------------------------------------------------

/// Decodes a whole body as the JSON `null` document.
pub fn decode_unit(s: &str) -> (r: Result<(), DecodeErr>)
    ensures
        r is Ok <==> parse_null_doc(s@),
{
    proof {
        reveal_strlit("null");
    }
    let n = s.unicode_len();
    let a = ws_to(s, n, 0);
    if !has_lit(s, n, a, "null", 4) {
        return Err(DecodeErr::UnexpectedToken);
    }
    let j = ws_to(s, n, a + 4);
    if j == n {
        Ok(())
    } else {
        Err(DecodeErr::TrailingChars)
    }
}

/// Decodes a whole body as one record object.
pub fn decode_mug(s: &str) -> (r: Result<Mug, DecodeErr>)
    ensures
        match r {
            Ok(m) => parse_mug_doc(s@) == Some(m@),
            Err(_) => parse_mug_doc(s@) is None,
        },
{
    let n = s.unicode_len();
    match scan_mug_at(s, n, 0) {
        Ok((m, j)) => {
            if ws_to(s, n, j) == n {
                Ok(m)
            } else {
                Err(DecodeErr::TrailingChars)
            }
        },
        Err(e) => Err(e),
    }
}

/// Decodes a whole body as one creation-payload object.
pub fn decode_ephemeral_mug(s: &str) -> (r: Result<EphemeralMug, DecodeErr>)
    ensures
        match r {
            Ok(m) => parse_eph_doc(s@) == Some(m@),
            Err(_) => parse_eph_doc(s@) is None,
        },
{
    let n = s.unicode_len();
    let a0 = match eat_tok(s, n, 0, '{') {
        Ok(v) => v,
        Err(e) => {
            return Err(e);
        },
    };
    match scan_eph_fields(s, n, a0) {
        Ok((m, j)) => {
            if ws_to(s, n, j) == n {
                Ok(m)
            } else {
                Err(DecodeErr::TrailingChars)
            }
        },
        Err(e) => Err(e),
    }
}

/// Decodes a whole body as one message envelope.
pub fn decode_message(s: &str) -> (r: Result<Message, DecodeErr>)
    ensures
        match r {
            Ok(m) => parse_message_doc(s@) == Some(m.message@),
            Err(_) => parse_message_doc(s@) is None,
        },
{
    proof {
        reveal_strlit("\"message\"");
    }
    let n = s.unicode_len();
    let a0 = match eat_tok(s, n, 0, '{') {
        Ok(v) => v,
        Err(e) => {
            return Err(e);
        },
    };
    let a1 = match eat_key(s, n, a0, "\"message\"", 9) {
        Ok(v) => v,
        Err(e) => {
            return Err(e);
        },
    };
    let (text, a2) = match scan_str_field(s, n, a1) {
        Ok(v) => v,
        Err(e) => {
            return Err(e);
        },
    };
    let a3 = match eat_tok(s, n, a2, '}') {
        Ok(v) => v,
        Err(e) => {
            return Err(e);
        },
    };
    if ws_to(s, n, a3) == n {
        Ok(Message { message: text })
    } else {
        Err(DecodeErr::TrailingChars)
    }
}

/// Decodes a whole body as a JSON array of record objects.
#[verifier::loop_isolation(false)]
#[verifier::rlimit(60)]
pub fn decode_mugs(s: &str) -> (r: Result<Vec<Mug>, DecodeErr>)
    ensures
        match r {
            Ok(v) => parse_mugs_doc(s@) == Some(mug_models(v@)),
            Err(_) => parse_mugs_doc(s@) is None,
        },
{
    let n = s.unicode_len();
    let b0 = match eat_tok(s, n, 0, '[') {
        Ok(v) => v,
        Err(e) => {
            return Err(e);
        },
    };
    let b = ws_to(s, n, b0);
    let mut acc: Vec<Mug> = Vec::new();
    if b < n && s.get_char(b) == ']' {
        if ws_to(s, n, b + 1) == n {
            proof {
                assert(mug_models(acc@) =~= Seq::<MugModel>::empty());
            }
            return Ok(acc);
        } else {
            return Err(DecodeErr::TrailingChars);
        }
    }
    let (m0, j0) = match scan_mug_at(s, n, b0) {
        Ok(v) => v,
        Err(e) => {
            return Err(e);
        },
    };
    acc.push(m0);
    let mut cur = j0;
    loop
        invariant
            cur <= n,
            acc@.len() >= 1,
            parse_mugs_doc(s@) == (match parse_mugs_rest(s@, cur as int) {
                Some((rest, k)) => if skip_ws(s@, k) == s@.len() {
                    Some(mug_models(acc@) + rest)
                } else {
                    None::<Seq<MugModel>>
                },
                None => None::<Seq<MugModel>>,
            }),
        decreases n - cur,
    {
        let a2 = ws_to(s, n, cur);
        if a2 < n && s.get_char(a2) == ']' {
            proof {
                assert(parse_mugs_rest(s@, cur as int) == Some(
                    (Seq::<MugModel>::empty(), a2 + 1 as int),
                ));
            }
            if ws_to(s, n, a2 + 1) == n {
                proof {
                    assert(mug_models(acc@) + Seq::<MugModel>::empty() =~= mug_models(acc@));
                }
                return Ok(acc);
            } else {
                return Err(DecodeErr::TrailingChars);
            }
        }
        if a2 == n {
            return Err(DecodeErr::UnexpectedEnd);
        }
        if s.get_char(a2) != ',' {
            return Err(DecodeErr::UnexpectedToken);
        }
        let (m, j) = match scan_mug_at(s, n, a2 + 1) {
            Ok(v) => v,
            Err(e) => {
                return Err(e);
            },
        };
        let ghost prev = acc@;
        acc.push(m);
        proof {
            assert(mug_models(acc@) =~= mug_models(prev) + seq![m@]);
            assert forall|rest: Seq<MugModel>|
                mug_models(prev) + (seq![m@] + rest) =~= mug_models(acc@) + rest by {}
            lemma_skip_ws_bounds(s@, cur as int);
            lemma_parse_mug_at_bounds(s@, a2 + 1 as int);
        }
        cur = j;
    }
}

// ---------------------------------------------------------------------------
// Encoding
// ---------------------------------------------------------------------------

/// The character for one decimal digit value.
pub open spec fn dec_digit_char(v: int) -> char {
    if v == 0 {
        '0'
    } else if v == 1 {
        '1'
    } else if v == 2 {
        '2'
    } else if v == 3 {
        '3'
    } else if v == 4 {
        '4'
    } else if v == 5 {
        '5'
    } else if v == 6 {
        '6'
    } else if v == 7 {
        '7'
    } else if v == 8 {
        '8'
    } else {
        '9'
    }
}

/// The character for one hex digit value, lower case.
pub open spec fn hex_char_low(v: int) -> char {
    if v < 10 {
        dec_digit_char(v)
    } else if v == 10 {
        'a'
    } else if v == 11 {
        'b'
    } else if v == 12 {
        'c'
    } else if v == 13 {
        'd'
    } else if v == 14 {
        'e'
    } else {
        'f'
    }
}

/// Decimal notation of a non-negative integer.
pub open spec fn dec_digits(v: int) -> Seq<char>
    recommends
        v >= 0,
    decreases v,
{
    if v < 10 {
        seq![dec_digit_char(v)]
    } else {
        dec_digits(v / 10).push(dec_digit_char(v % 10))
    }
}

/// Decimal notation of an integer.
pub open spec fn int_dec(v: int) -> Seq<char> {
    if v < 0 {
        seq!['-'] + dec_digits(-v)
    } else {
        dec_digits(v)
    }
}

/// How one character is written inside a JSON string: itself, a two-character
/// escape, or `\u00XX` for the remaining control characters.
pub open spec fn esc_seq(c: char) -> Seq<char> {
    if c == '"' {
        seq!['\\', '"']
    } else if c == '\\' {
        seq!['\\', '\\']
    } else if c == '\u{8}' {
        seq!['\\', 'b']
    } else if c == '\u{c}' {
        seq!['\\', 'f']
    } else if c == '\n' {
        seq!['\\', 'n']
    } else if c == '\r' {
        seq!['\\', 'r']
    } else if c == '\t' {
        seq!['\\', 't']
    } else if (c as u32) < 32 {
        seq!['\\', 'u', '0', '0', hex_char_low((c as u32) as int / 16), hex_char_low((c as u32) as int % 16)]
    } else {
        seq![c]
    }
}

/// JSON-escaped text.
pub open spec fn escape(s: Seq<char>) -> Seq<char>
    decreases s.len(),
{
    if s.len() == 0 {
        Seq::empty()
    } else {
        escape(s.drop_last()) + esc_seq(s.last())
    }
}

/// A JSON string token for the given text.
pub open spec fn json_string(s: Seq<char>) -> Seq<char> {
    seq!['"'] + escape(s) + seq!['"']
}

/// The JSON object written for one mug record.
pub open spec fn mug_json(m: MugModel) -> Seq<char> {
    "{\"id\":"@ + int_dec(m.id) + ",\"name\":"@ + json_string(m.name) + ",\"lat\":"@ + m.lat
        + ",\"lon\":"@ + m.lon + ",\"address\":"@ + json_string(m.address) + ",\"num_mugs\":"@
        + dec_digits(m.num_mugs) + "}"@
}

/// The comma-separated items of a mug array.
pub open spec fn mugs_json_items(l: Seq<MugModel>) -> Seq<char>
    decreases l.len(),
{
    if l.len() == 0 {
        Seq::empty()
    } else if l.len() == 1 {
        mug_json(l[0])
    } else {
        mugs_json_items(l.drop_last()) + seq![','] + mug_json(l.last())
    }
}

/// The JSON array written for a sequence of mug records.
pub open spec fn mugs_json(l: Seq<MugModel>) -> Seq<char> {
    "["@ + mugs_json_items(l) + "]"@
}

/// The models of a sequence of records.
pub open spec fn mug_models(l: Seq<Mug>) -> Seq<MugModel> {
    l.map_values(|m: Mug| m@)
}

/// The JSON object written for a message envelope.
pub open spec fn message_json(text: Seq<char>) -> Seq<char> {
    "{\"message\":"@ + json_string(text) + "}"@
}

/// An empty collection lists as the empty JSON array.
pub proof fn lemma_empty_mugs_json()
    ensures
        mugs_json(Seq::<MugModel>::empty()) == "[]"@,
{
    reveal_strlit("[");
    reveal_strlit("]");
    reveal_strlit("[]");
    assert(mugs_json(Seq::<MugModel>::empty()) =~= "[]"@);
}

fn dec_digit(d: u64) -> (c: char)
    requires
        d < 10,
    ensures
        c == dec_digit_char(d as int),
{
    if d == 0 {
        '0'
    } else if d == 1 {
        '1'
    } else if d == 2 {
        '2'
    } else if d == 3 {
        '3'
    } else if d == 4 {
        '4'
    } else if d == 5 {
        '5'
    } else if d == 6 {
        '6'
    } else if d == 7 {
        '7'
    } else if d == 8 {
        '8'
    } else {
        '9'
    }
}

fn hex_digit_low(d: u32) -> (c: char)
    requires
        d < 16,
    ensures
        c == hex_char_low(d as int),
{
    if d < 10 {
        dec_digit(d as u64)
    } else if d == 10 {
        'a'
    } else if d == 11 {
        'b'
    } else if d == 12 {
        'c'
    } else if d == 13 {
        'd'
    } else if d == 14 {
        'e'
    } else {
        'f'
    }
}

/// Writes the decimal notation of `v` onto `out`.
fn push_u64_dec(out: &mut String, v: u64)
    ensures
        final(out)@ == old(out)@ + dec_digits(v as int),
    decreases v,
{
    if v < 10 {
        out.push(dec_digit(v));
    } else {
        push_u64_dec(out, v / 10);
        out.push(dec_digit(v % 10));
        proof {
            assert(old(out)@ + dec_digits((v / 10) as int).push(dec_digit_char(v as int % 10))
                =~= old(out)@ + dec_digits((v / 10) as int) + seq![dec_digit_char(v as int % 10)]);
        }
    }
}

/// Writes the decimal notation of `v` onto `out`.
fn push_i64_dec(out: &mut String, v: i64)
    ensures
        final(out)@ == old(out)@ + int_dec(v as int),
{
    if v < 0 {
        out.push('-');
        let mag: u64 = if v == i64::MIN {
            9223372036854775808u64
        } else {
            (-v) as u64
        };
        push_u64_dec(out, mag);
        proof {
            assert(old(out)@ + seq!['-'] + dec_digits(mag as int) =~= old(out)@ + (seq!['-']
                + dec_digits(-(v as int))));
        }
    } else {
        push_u64_dec(out, v as u64);
    }
}

/// Writes the JSON-escaped form of `s` onto `out`.
#[verifier::loop_isolation(false)]
fn escape_onto(out: &mut String, s: &str)
    ensures
        final(out)@ == old(out)@ + escape(s@),
{
    let n = s.unicode_len();
    let mut i: usize = 0;
    while i < n
        invariant
            i <= n,
            out@ == old(out)@ + escape(s@.subrange(0, i as int)),
        decreases n - i,
    {
        let ghost prefix = s@.subrange(0, i as int);
        let ghost prefix1 = s@.subrange(0, i + 1);
        proof {
            assert(prefix1.drop_last() =~= prefix);
            assert(escape(prefix1) == escape(prefix) + esc_seq(s@[i as int]));
        }
        let c = s.get_char(i);
        if c == '"' {
            out.push('\\');
            out.push('"');
        } else if c == '\\' {
            out.push('\\');
            out.push('\\');
        } else if c == '\u{8}' {
            out.push('\\');
            out.push('b');
        } else if c == '\u{c}' {
            out.push('\\');
            out.push('f');
        } else if c == '\n' {
            out.push('\\');
            out.push('n');
        } else if c == '\r' {
            out.push('\\');
            out.push('r');
        } else if c == '\t' {
            out.push('\\');
            out.push('t');
        } else {
            let u = c as u32;
            if u < 32 {
                out.push('\\');
                out.push('u');
                out.push('0');
                out.push('0');
                out.push(hex_digit_low(u / 16));
                out.push(hex_digit_low(u % 16));
            } else {
                out.push(c);
            }
        }
        proof {
            assert(out@ =~= old(out)@ + escape(prefix1));
        }
        i = i + 1;
    }
    proof {
        assert(s@.subrange(0, n as int) =~= s@);
    }
}

/// Writes a JSON string token for `s` onto `out`.
fn push_json_string(out: &mut String, s: &str)
    ensures
        final(out)@ == old(out)@ + json_string(s@),
{
    out.push('"');
    escape_onto(out, s);
    out.push('"');
    proof {
        assert(final(out)@ =~= old(out)@ + json_string(s@));
    }
}

/// Writes the JSON object for `m` onto `out`.
fn encode_mug_onto(out: &mut String, m: &Mug)
    ensures
        final(out)@ == old(out)@ + mug_json(m@),
{
    out.append("{\"id\":");
    push_i64_dec(out, m.id);
    out.append(",\"name\":");
    push_json_string(out, m.name.as_str());
    out.append(",\"lat\":");
    out.append(m.lat.as_str());
    out.append(",\"lon\":");
    out.append(m.lon.as_str());
    out.append(",\"address\":");
    push_json_string(out, m.address.as_str());
    out.append(",\"num_mugs\":");
    push_u64_dec(out, m.num_mugs as u64);
    out.append("}");
    proof {
        assert(final(out)@ =~= old(out)@ + mug_json(m@));
    }
}

/// Renders one record as its JSON object.
pub fn encode_mug(m: &Mug) -> (r: String)
    ensures
        r@ == mug_json(m@),
{
    let mut out = String::new();
    encode_mug_onto(&mut out, m);
    out
}

/// Renders a list of records as a JSON array.
#[verifier::loop_isolation(false)]
pub fn encode_mugs(v: &Vec<Mug>) -> (r: String)
    ensures
        r@ == mugs_json(mug_models(v@)),
{
    let ghost models = mug_models(v@);
    let mut out = String::new();
    out.append("[");
    let mut i: usize = 0;
    while i < v.len()
        invariant
            i <= v@.len(),
            models == mug_models(v@),
            out@ == "["@ + mugs_json_items(models.subrange(0, i as int)),
        decreases v@.len() - i,
    {
        let ghost pre = models.subrange(0, i as int);
        let ghost pre1 = models.subrange(0, i + 1);
        proof {
            assert(pre1.drop_last() =~= pre);
            assert(pre1.last() == models[i as int]);
            assert(models[i as int] == v@[i as int]@);
        }
        if i > 0 {
            out.push(',');
        }
        encode_mug_onto(&mut out, &v[i]);
        proof {
            if i == 0 {
                assert(pre1.len() == 1);
                assert(pre1[0] == models[0]);
                assert(out@ =~= "["@ + mugs_json_items(pre1));
            } else {
                assert(out@ =~= "["@ + mugs_json_items(pre1));
            }
        }
        i = i + 1;
    }
    out.append("]");
    proof {
        assert(models.subrange(0, models.len() as int) =~= models);
        assert(out@ =~= "["@ + mugs_json_items(models) + "]"@);
    }
    out
}

// ---------------------------------------------------------------------------
// The decode/encode round trip
// ---------------------------------------------------------------------------

/// `escape` can also be read off from the front.
proof fn lemma_escape_head(x: Seq<char>)
    requires
        x.len() > 0,
    ensures
        escape(x) == esc_seq(x[0]) + escape(x.drop_first()),
    decreases x.len(),
{
    if x.len() == 1 {
        assert(x.drop_last() =~= Seq::<char>::empty());
        assert(x.drop_first() =~= Seq::<char>::empty());
        assert(escape(x) =~= esc_seq(x[0]) + escape(x.drop_first()));
    } else {
        lemma_escape_head(x.drop_last());
        assert(x.drop_last()[0] == x[0]);
        assert(x.drop_last().drop_first() =~= x.drop_first().drop_last());
        assert(x.drop_first().last() == x.last());
        assert(escape(x) == escape(x.drop_last()) + esc_seq(x.last()));
        assert(escape(x.drop_last()) == esc_seq(x[0]) + escape(x.drop_last().drop_first()));
        assert(escape(x.drop_first()) == escape(x.drop_first().drop_last()) + esc_seq(
            x.drop_first().last(),
        ));
        assert(escape(x) =~= esc_seq(x[0]) + escape(x.drop_first()));
    }
}

proof fn lemma_hex_val_of_hex_char(v: int)
    requires
        0 <= v < 16,
    ensures
        hex_val(hex_char_low(v)) == Some(v),
{
}

/// Parsing the escaped form of `x`, closed by a quote, yields `x` back and
/// stops just after the quote.
proof fn lemma_parse_escaped_at(s: Seq<char>, i: int, x: Seq<char>)
    requires
        0 <= i,
        i + escape(x).len() + 1 <= s.len(),
        s.subrange(i, i + escape(x).len() + 1) == escape(x) + seq!['"'],
    ensures
        parse_string_chars(s, i) == Some((x, i + escape(x).len() + 1)),
    decreases x.len(),
{
    let whole = s.subrange(i, i + escape(x).len() + 1);
    if x.len() == 0 {
        assert(s[i] == whole[0]);
        assert(whole[0] == '"');
    } else {
        lemma_escape_head(x);
        let c = x[0];
        let e0 = esc_seq(c);
        let d = e0.len() as int;
        let x1 = x.drop_first();
        assert(escape(x).len() == d + escape(x1).len());
        assert forall|k: int| 0 <= k < d implies s[i + k] == e0[k] by {
            assert(whole[k] == s[i + k]);
            assert(whole[k] == escape(x)[k]);
            assert(escape(x)[k] == (e0 + escape(x1))[k]);
        }
        assert(s.subrange(i + d, i + d + escape(x1).len() + 1) =~= escape(x1) + seq!['"']) by {
            assert forall|k: int| 0 <= k < escape(x1).len() + 1 implies s[i + d + k] == (escape(x1)
                + seq!['"'])[k] by {
                assert(whole[d + k] == s[i + d + k]);
                assert(whole[d + k] == (escape(x) + seq!['"'])[d + k]);
            }
        }
        lemma_parse_escaped_at(s, i + d, x1);
        let end = i + escape(x).len() + 1;
        assert(parse_string_chars(s, i + d) == Some((x1, end)));
        assert(seq![c] + x1 =~= x);
        if c == '"' {
            assert(s[i] == '\\' && s[i + 1] == '"');
            assert(esc_char(s[i + 1]) == Some('"'));
        } else if c == '\\' {
            assert(s[i] == '\\' && s[i + 1] == '\\');
            assert(esc_char(s[i + 1]) == Some('\\'));
        } else if c == '\u{8}' {
            assert(s[i] == '\\' && s[i + 1] == 'b');
        } else if c == '\u{c}' {
            assert(s[i] == '\\' && s[i + 1] == 'f');
        } else if c == '\n' {
            assert(s[i] == '\\' && s[i + 1] == 'n');
        } else if c == '\r' {
            assert(s[i] == '\\' && s[i + 1] == 'r');
        } else if c == '\t' {
            assert(s[i] == '\\' && s[i + 1] == 't');
        } else if (c as u32) < 32 {
            let u = c as u32;
            assert(s[i] == '\\' && s[i + 1] == 'u' && s[i + 2] == '0' && s[i + 3] == '0');
            assert(s[i + 4] == hex_char_low(u as int / 16));
            assert(s[i + 5] == hex_char_low(u as int % 16));
            assert(hex_val('0') == Some(0int));
            lemma_hex_val_of_hex_char(u as int / 16);
            lemma_hex_val_of_hex_char(u as int % 16);
            let v = 4096 * hex_val(s[i + 2])->0 + 256 * hex_val(s[i + 3])->0 + 16 * hex_val(
                s[i + 4],
            )->0 + hex_val(s[i + 5])->0;
            assert(v == u as int);
            vstd::utf8::char_u32_cast(c, u);
            assert((v as u32) as char == c);
        } else {
            assert(s[i] == c);
            assert(c != '"' && c != '\\' && (c as u32) >= 32);
        }
    }
}

/// Every character of a decimal rendering is a digit; a multi-digit
/// rendering never starts with zero.
proof fn lemma_dec_digits_shape(v: int)
    requires
        v >= 0,
    ensures
        forall|k: int| 0 <= k < dec_digits(v).len() ==> is_digit(#[trigger] dec_digits(v)[k]),
        dec_digits(v).len() >= 1,
        v >= 10 ==> dec_digits(v)[0] != '0',
        v < 10 ==> dec_digits(v).len() == 1,
        v == 0 <==> dec_digits(v)[0] == '0',
    decreases v,
{
    if v >= 10 {
        lemma_dec_digits_shape(v / 10);
        assert forall|k: int| 0 <= k < dec_digits(v).len() implies is_digit(
            #[trigger] dec_digits(v)[k],
        ) by {
            if k < dec_digits(v / 10).len() {
                assert(dec_digits(v)[k] == dec_digits(v / 10)[k]);
            } else {
                assert(dec_digits(v)[k] == dec_digit_char(v % 10));
            }
        }
        assert(dec_digits(v)[0] == dec_digits(v / 10)[0]);
    }
}

proof fn lemma_dec_digit_char_val(d: int)
    requires
        0 <= d < 10,
    ensures
        dec_digit_char(d) as u32 == 48 + d,
{
}

proof fn lemma_dec_val_of_dec_digits(v: int)
    requires
        v >= 0,
    ensures
        dec_val(dec_digits(v)) == v,
    decreases v,
{
    if v < 10 {
        lemma_dec_digit_char_val(v);
        let t = dec_digits(v);
        assert(t =~= seq![dec_digit_char(v)]);
        assert(t.drop_last() =~= Seq::<char>::empty());
        assert(dec_val(t.drop_last()) == 0);
        assert(t.last() == dec_digit_char(v));
        assert(dec_val(t) == dec_val(t.drop_last()) * 10 + ((t.last() as u32) - 48));
    } else {
        lemma_dec_val_of_dec_digits(v / 10);
        lemma_dec_digit_char_val(v % 10);
        let t = dec_digits(v);
        assert(t == dec_digits(v / 10).push(dec_digit_char(v % 10)));
        assert(t.drop_last() =~= dec_digits(v / 10));
        assert(t.last() == dec_digit_char(v % 10));
        assert(t.len() == dec_digits(v / 10).len() + 1);
        assert(dec_val(t) == dec_val(t.drop_last()) * 10 + ((t.last() as u32) - 48));
        assert(dec_val(t.drop_last()) == v / 10);
        assert(dec_val(t) == (v / 10) * 10 + v % 10);
        assert((v / 10) * 10 + v % 10 == v) by (nonlinear_arith)
            requires
                v >= 10,
        ;
    }
}

/// A digit run bounded by a non-digit ends exactly at the boundary.
proof fn lemma_digits_end_run(s: Seq<char>, i: int, j: int)
    requires
        0 <= i <= j <= s.len(),
        forall|k: int| i <= k < j ==> is_digit(#[trigger] s[k]),
        j == s.len() || !is_digit(s[j]),
    ensures
        digits_end(s, i) == j,
    decreases j - i,
{
    if i < j {
        lemma_digits_end_run(s, i + 1, j);
    }
}

/// The digit run read by `digits_end`, characterized character by
/// character.
proof fn lemma_digits_end_chars(s: Seq<char>, i: int)
    requires
        0 <= i <= s.len(),
    ensures
        i <= digits_end(s, i) <= s.len(),
        forall|k: int| i <= k < digits_end(s, i) ==> is_digit(#[trigger] s[k]),
        digits_end(s, i) < s.len() ==> !is_digit(s[digits_end(s, i)]),
    decreases s.len() - i,
{
    if i < s.len() && is_digit(s[i]) {
        lemma_digits_end_chars(s, i + 1);
    }
}

/// A whole text that is exactly one JSON number token.
pub open spec fn number_token(t: Seq<char>) -> bool {
    t.len() > 0 && parse_number(t, 0) == Some(t.len() as int)
}

/// A number token cut out of a larger text is a well-formed number token on
/// its own.
proof fn lemma_parse_number_extract(s: Seq<char>, i: int)
    requires
        0 <= i <= s.len(),
        parse_number(s, i) is Some,
    ensures
        number_token(s.subrange(i, parse_number(s, i)->0)),
{
    let j = parse_number(s, i)->0;
    lemma_parse_number_bounds(s, i);
    let t = s.subrange(i, j);
    let n = t.len() as int;
    assert(n == j - i);
    assert forall|k: int| 0 <= k < n implies #[trigger] t[k] == s[i + k] by {}
    let st = if s[i] == '-' {
        i + 1
    } else {
        i
    };
    assert(int_part_end(s, st) is Some);
    let a = int_part_end(s, st)->0;
    assert(frac_end(s, a) is Some);
    let b = frac_end(s, a)->0;
    assert(exp_end(s, b) == Some(j));
    assert(is_digit(s[st]));
    assert(st < a) by {
        if s[st] == '0' {
        } else {
            assert(digits_end(s, st) == digits_end(s, st + 1));
            lemma_digits_end_bounds(s, st + 1);
        }
    }
    let stt = st - i;
    assert(t[0] == s[i]);
    assert(a <= b) by {
        if 0 <= a < s.len() && s[a] == '.' {
            lemma_digits_end_bounds(s, a + 1);
        }
    }
    assert(b <= j) by {
        if 0 <= b < s.len() && (s[b] == 'e' || s[b] == 'E') {
            let j0 = if b + 1 < s.len() && (s[b + 1] == '+' || s[b + 1] == '-') {
                b + 2
            } else {
                b + 1
            };
            if j0 < s.len() && is_digit(s[j0]) {
                lemma_digits_end_bounds(s, j0);
            }
        }
    }
    // the integer part, standalone
    if s[st] == '0' {
        assert(a == st + 1);
        assert(stt < n);
        assert(t[stt] == s[i + stt]);
        assert(t[stt] == '0');
        assert(int_part_end(t, stt) == Some(a - i));
    } else {
        assert(a == digits_end(s, st));
        lemma_digits_end_chars(s, st);
        assert forall|k: int| stt <= k < a - i implies is_digit(#[trigger] t[k]) by {
            assert(t[k] == s[i + k]);
        }
        assert(a - i == n || !is_digit(t[a - i])) by {
            if a < j {
                assert(t[a - i] == s[a]);
            }
        }
        lemma_digits_end_run(t, stt, a - i);
        assert(t[stt] == s[st]);
        assert(int_part_end(t, stt) == Some(a - i));
    }
    // the fraction, standalone
    if a < s.len() && s[a] == '.' {
        assert(a + 1 < s.len() && is_digit(s[a + 1]));
        assert(b == digits_end(s, a + 1));
        lemma_digits_end_chars(s, a + 1);
        assert(a + 2 <= b) by {
            assert(digits_end(s, a + 1) == digits_end(s, a + 2));
            lemma_digits_end_bounds(s, a + 2);
        }
        assert(a - i < n && t[a - i] == '.') by {
            assert(t[a - i] == s[i + (a - i)]);
        }
        assert(t[a - i + 1] == s[a + 1]);
        assert forall|k: int| a - i + 1 <= k < b - i implies is_digit(#[trigger] t[k]) by {
            assert(t[k] == s[i + k]);
        }
        assert(b - i == n || !is_digit(t[b - i])) by {
            if b < j {
                assert(t[b - i] == s[b]);
            }
        }
        lemma_digits_end_run(t, a - i + 1, b - i);
        assert(frac_end(t, a - i) == Some(b - i));
    } else {
        assert(b == a);
        assert(a - i == n || t[a - i] != '.') by {
            if a < j {
                assert(t[a - i] == s[a]);
            }
        }
        assert(frac_end(t, a - i) == Some(a - i));
    }
    // the exponent, standalone
    if b < s.len() && (s[b] == 'e' || s[b] == 'E') {
        let j0 = if b + 1 < s.len() && (s[b + 1] == '+' || s[b + 1] == '-') {
            b + 2
        } else {
            b + 1
        };
        assert(j0 < s.len() && is_digit(s[j0]));
        assert(digits_end(s, j0) == j);
        lemma_digits_end_chars(s, j0);
        assert(j0 < j);
        assert(b < j);
        assert(t[b - i] == s[b]);
        assert(b + 1 < j) by {
            assert(digits_end(s, j0) == digits_end(s, j0 + 1));
            lemma_digits_end_bounds(s, j0 + 1);
        }
        let j0t = if b - i + 1 < n && (t[b - i + 1] == '+' || t[b - i + 1] == '-') {
            b - i + 2
        } else {
            b - i + 1
        };
        assert(t[b - i + 1] == s[b + 1]);
        assert(j0t == j0 - i);
        assert forall|k: int| j0 - i <= k < j - i implies is_digit(#[trigger] t[k]) by {
            assert(t[k] == s[i + k]);
        }
        lemma_digits_end_run(t, j0 - i, j - i);
        assert(t[j0 - i] == s[j0]);
        assert(exp_end(t, b - i) == Some(n));
    } else {
        assert(b == j);
        assert(exp_end(t, b - i) == Some(n));
    }
    assert(parse_number(t, 0) == Some(n));
}

/// The decimal rendering of an integer, placed before a character that can
/// extend no part of a number, reads back as that integer.
proof fn lemma_parse_int_dec_at(s: Seq<char>, i: int, v: int)
    requires
        0 <= i,
        i + int_dec(v).len() < s.len(),
        s.subrange(i, i + int_dec(v).len()) == int_dec(v),
        !is_digit(s[i + int_dec(v).len()]),
        s[i + int_dec(v).len()] != '.',
        s[i + int_dec(v).len()] != 'e',
        s[i + int_dec(v).len()] != 'E',
    ensures
        parse_number(s, i) == Some(i + int_dec(v).len()),
        int_token_val(s.subrange(i, i + int_dec(v).len())) == Some(v),
{
    let t = int_dec(v);
    let n = t.len() as int;
    let j = i + n;
    assert forall|k: int| 0 <= k < n implies #[trigger] s[i + k] == t[k] by {
        assert(s.subrange(i, j)[k] == s[i + k]);
    }
    if v < 0 {
        lemma_dec_digits_shape(-v);
        assert(t == seq!['-'] + dec_digits(-v));
        let d = dec_digits(-v);
        assert(t[0] == '-') by {
            assert((seq!['-'] + d)[0] == '-');
        }
        assert forall|k: int| 1 <= k < n implies #[trigger] t[k] == d[k - 1] by {
            assert((seq!['-'] + d)[k] == d[k - 1]);
        }
        assert(s[i] == t[0]);
        assert(s[i] == '-');
        assert forall|k: int| i + 1 <= k < j implies is_digit(#[trigger] s[k]) by {
            assert(s[k] == t[k - i]);
            assert(t[k - i] == d[k - i - 1]);
        }
        assert(s[i + 1] == t[1]);
        assert(t[1] == d[0]);
        assert(d[0] != '0');
        assert(('-' as u32) == 45);
        lemma_digits_end_run(s, i + 1, j);
        assert(int_part_end(s, i + 1) == Some(j));
        assert(frac_end(s, j) == Some(j));
        assert(exp_end(s, j) == Some(j));
        assert(parse_number(s, i) == Some(j));
        let tok = s.subrange(i, j);
        assert(tok == t);
        assert(tok[0] == '-');
        assert(tok.subrange(1, n) =~= d);
        assert(is_digits(d));
        lemma_dec_val_of_dec_digits(-v);
        assert(int_token_val(tok) == Some(v));
    } else {
        lemma_dec_digits_shape(v);
        assert(t == dec_digits(v));
        assert forall|k: int| i <= k < j implies is_digit(#[trigger] s[k]) by {
            assert(s[k] == t[k - i]);
        }
        assert(is_digit(s[i]));
        assert(s[i] != '-') by {
            assert(('-' as u32) == 45);
        }
        if v == 0 {
            assert(n == 1);
            assert(s[i] == '0');
            assert(int_part_end(s, i) == Some(j));
        } else {
            assert(s[i] == t[0]);
            assert(t[0] != '0');
            lemma_digits_end_run(s, i, j);
            assert(int_part_end(s, i) == Some(j));
        }
        assert(frac_end(s, j) == Some(j));
        assert(exp_end(s, j) == Some(j));
        assert(parse_number(s, i) == Some(j));
        let tok = s.subrange(i, j);
        assert(tok == t);
        assert(is_digits(tok));
        lemma_dec_val_of_dec_digits(v);
        assert(int_token_val(tok) == Some(v));
    }
}

/// A standalone number token, placed before a character that can extend no
/// part of a number, parses in place and ends at its own end.
proof fn lemma_parse_number_embed(s: Seq<char>, i: int, t: Seq<char>)
    requires
        0 <= i,
        number_token(t),
        i + t.len() < s.len(),
        s.subrange(i, i + t.len()) == t,
        !is_digit(s[i + t.len()]),
        s[i + t.len()] != '.',
        s[i + t.len()] != 'e',
        s[i + t.len()] != 'E',
    ensures
        parse_number(s, i) == Some(i + t.len()),
{
    let n = t.len() as int;
    let j = i + n;
    assert forall|k: int| 0 <= k < n implies s[i + k] == t[k] by {
        assert(s.subrange(i, j)[k] == s[i + k]);
    }
    let st = if t[0] == '-' {
        1int
    } else {
        0int
    };
    assert(int_part_end(t, st) is Some);
    let a = int_part_end(t, st)->0;
    assert(frac_end(t, a) is Some);
    let b = frac_end(t, a)->0;
    assert(exp_end(t, b) == Some(n));
    assert(is_digit(t[st]));
    // the integer part transfers
    if t[st] == '0' {
        assert(a == st + 1);
        assert(int_part_end(s, i + st) == Some(i + a));
    } else {
        lemma_digits_end_chars(t, st);
        assert(a == digits_end(t, st));
        assert forall|k: int| i + st <= k < i + a implies is_digit(#[trigger] s[k]) by {
            assert(s[k] == t[k - i]);
        }
        assert(i + a == s.len() || !is_digit(s[i + a])) by {
            if a < n {
                assert(s[i + a] == t[a]);
            }
        }
        lemma_digits_end_run(s, i + st, i + a);
        assert(int_part_end(s, i + st) == Some(i + a));
    }
    // the fraction transfers
    if a < n && t[a] == '.' {
        assert(a + 1 < n && is_digit(t[a + 1]));
        assert(b == digits_end(t, a + 1));
        lemma_digits_end_chars(t, a + 1);
        assert forall|k: int| i + a + 1 <= k < i + b implies is_digit(#[trigger] s[k]) by {
            assert(s[k] == t[k - i]);
        }
        assert(i + b == s.len() || !is_digit(s[i + b])) by {
            if b < n {
                assert(s[i + b] == t[b]);
            }
        }
        lemma_digits_end_run(s, i + a + 1, i + b);
        assert(s[i + a] == '.');
        assert(frac_end(s, i + a) == Some(i + b));
    } else {
        assert(b == a);
        assert(s[i + a] != '.') by {
            if a < n {
                assert(s[i + a] == t[a]);
            }
        }
        assert(frac_end(s, i + a) == Some(i + a));
    }
    // the exponent transfers
    if b < n && (t[b] == 'e' || t[b] == 'E') {
        let j0 = if b + 1 < n && (t[b + 1] == '+' || t[b + 1] == '-') {
            b + 2
        } else {
            b + 1
        };
        assert(j0 < n && is_digit(t[j0]));
        assert(digits_end(t, j0) == n);
        lemma_digits_end_chars(t, j0);
        assert(s[i + b] == t[b]);
        let j0s = if i + b + 1 < s.len() && (s[i + b + 1] == '+' || s[i + b + 1] == '-') {
            i + b + 2
        } else {
            i + b + 1
        };
        assert(j0s == i + j0) by {
            if b + 1 < n {
                assert(s[i + b + 1] == t[b + 1]);
            } else {
                assert(j0 == b + 1);
                assert(is_digit(t[j0]));
            }
        }
        assert forall|k: int| i + j0 <= k < i + n implies is_digit(#[trigger] s[k]) by {
            assert(s[k] == t[k - i]);
        }
        lemma_digits_end_run(s, i + j0, i + n);
        assert(exp_end(s, i + b) == Some(j));
    } else {
        assert(b == n);
        assert(s[i + b] != 'e' && s[i + b] != 'E');
        assert(exp_end(s, i + b) == Some(j));
    }
    // and the sign prefix agrees
    assert(s[i] == t[0]);
    if t[0] == '-' {
        assert(parse_number(s, i) == Some(j));
    } else {
        assert(parse_number(s, i) == Some(j));
    }
}

proof fn lemma_sub_left(x: Seq<char>, y: Seq<char>, a: int, b: int)
    requires
        0 <= a <= b <= x.len(),
    ensures
        (x + y).subrange(a, b) == x.subrange(a, b),
{
    assert((x + y).subrange(a, b) =~= x.subrange(a, b));
}

proof fn lemma_sub_right(x: Seq<char>, y: Seq<char>, a: int, b: int)
    requires
        x.len() <= a <= b <= x.len() + y.len(),
    ensures
        (x + y).subrange(a, b) == y.subrange(a - x.len(), b - x.len()),
{
    assert((x + y).subrange(a, b) =~= y.subrange(a - x.len(), b - x.len()));
}

proof fn lemma_not_ws(c: char)
    requires
        (c as u32) != 32,
        (c as u32) != 10,
        (c as u32) != 13,
        (c as u32) != 9,
    ensures
        !is_ws_char(c),
{
    if c == ' ' {
        assert(c as u32 == 32);
    }
    if c == '\n' {
        assert(c as u32 == 10);
    }
    if c == '\r' {
        assert(c as u32 == 13);
    }
    if c == '\t' {
        assert(c as u32 == 9);
    }
}

/// A number token opens with a sign or a digit, never with whitespace.
proof fn lemma_number_head(t: Seq<char>)
    requires
        number_token(t),
    ensures
        !is_ws_char(t[0]),
{
    if t[0] == '-' {
        assert(('-' as u32) == 45);
        lemma_not_ws(t[0]);
    } else {
        assert(is_digit(t[0]));
        lemma_not_ws(t[0]);
    }
}

/// The wire validity of a record model: the coordinate tokens follow the
/// number grammar and the integer fields fit their machine types. Every
/// decoded record satisfies this, and so does the model of every `Mug`
/// whose coordinate strings hold number tokens.
pub open spec fn mug_model_valid(m: MugModel) -> bool {
    &&& i64::MIN <= m.id <= i64::MAX
    &&& 0 <= m.num_mugs <= u32::MAX
    &&& number_token(m.lat)
    &&& number_token(m.lon)
}

/// Where each wire segment of an encoded record stands in the whole text.
spec fn mug_layout_facts(m: MugModel) -> bool {
    let s = mug_json(m);
    let tid = int_dec(m.id);
    let qn = json_string(m.name);
    let qa = json_string(m.address);
    let tnum = dec_digits(m.num_mugs);
    let p1 = 6int;
    let p2 = p1 + tid.len();
    let p3 = p2 + 8;
    let p4 = p3 + qn.len();
    let p5 = p4 + 7;
    let p6 = p5 + m.lat.len();
    let p7 = p6 + 7;
    let p8 = p7 + m.lon.len();
    let p9 = p8 + 11;
    let p10 = p9 + qa.len();
    let p11 = p10 + 12;
    let p12 = p11 + tnum.len();
    &&& s.len() == p12 + 1
    &&& s.subrange(0, p1) == "{\"id\":"@
    &&& s.subrange(p1, p2) == tid
    &&& s.subrange(p2, p3) == ",\"name\":"@
    &&& s.subrange(p3, p4) == qn
    &&& s.subrange(p4, p5) == ",\"lat\":"@
    &&& s.subrange(p5, p6) == m.lat
    &&& s.subrange(p6, p7) == ",\"lon\":"@
    &&& s.subrange(p7, p8) == m.lon
    &&& s.subrange(p8, p9) == ",\"address\":"@
    &&& s.subrange(p9, p10) == qa
    &&& s.subrange(p10, p11) == ",\"num_mugs\":"@
    &&& s.subrange(p11, p12) == tnum
    &&& s.subrange(p12, p12 + 1) == "}"@
}

#[verifier::rlimit(100)]
proof fn lemma_mug_doc_layout(m: MugModel)
    ensures
        mug_layout_facts(m),
{
    reveal_strlit("{\"id\":");
    reveal_strlit(",\"name\":");
    reveal_strlit(",\"lat\":");
    reveal_strlit(",\"lon\":");
    reveal_strlit(",\"address\":");
    reveal_strlit(",\"num_mugs\":");
    reveal_strlit("}");
    reveal_strlit("\"id\"");
    reveal_strlit("\"name\"");
    reveal_strlit("\"lat\"");
    reveal_strlit("\"lon\"");
    reveal_strlit("\"address\"");
    reveal_strlit("\"num_mugs\"");
    let l0 = "{\"id\":"@;
    let l1 = ",\"name\":"@;
    let l2 = ",\"lat\":"@;
    let l3 = ",\"lon\":"@;
    let l4 = ",\"address\":"@;
    let l5 = ",\"num_mugs\":"@;
    let l6 = "}"@;
    let tid = int_dec(m.id);
    let qn = json_string(m.name);
    let tlat = m.lat;
    let tlon = m.lon;
    let qa = json_string(m.address);
    let tnum = dec_digits(m.num_mugs);
    let c1 = l0 + tid;
    let c2 = c1 + l1;
    let c3 = c2 + qn;
    let c4 = c3 + l2;
    let c5 = c4 + tlat;
    let c6 = c5 + l3;
    let c7 = c6 + tlon;
    let c8 = c7 + l4;
    let c9 = c8 + qa;
    let c10 = c9 + l5;
    let c11 = c10 + tnum;
    let s = mug_json(m);
    assert(s == c11 + l6);
    let p1 = 6int;
    let p2 = p1 + tid.len();
    let p3 = p2 + 8;
    let p4 = p3 + qn.len();
    let p5 = p4 + 7;
    let p6 = p5 + tlat.len();
    let p7 = p6 + 7;
    let p8 = p7 + tlon.len();
    let p9 = p8 + 11;
    let p10 = p9 + qa.len();
    let p11 = p10 + 12;
    let p12 = p11 + tnum.len();
    let n = s.len() as int;
    assert(n == p12 + 1);
    // each wire segment read back out of the whole document
    assert(s.subrange(0, p1) == l0) by {
        lemma_sub_left(c11, l6, 0, p1);
        lemma_sub_left(c10, tnum, 0, p1);
        lemma_sub_left(c9, l5, 0, p1);
        lemma_sub_left(c8, qa, 0, p1);
        lemma_sub_left(c7, l4, 0, p1);
        lemma_sub_left(c6, tlon, 0, p1);
        lemma_sub_left(c5, l3, 0, p1);
        lemma_sub_left(c4, tlat, 0, p1);
        lemma_sub_left(c3, l2, 0, p1);
        lemma_sub_left(c2, qn, 0, p1);
        lemma_sub_left(c1, l1, 0, p1);
        lemma_sub_left(l0, tid, 0, p1);
        assert(l0.subrange(0, p1) =~= l0);
    }
    assert(s.subrange(p1, p2) == tid) by {
        lemma_sub_left(c11, l6, p1, p2);
        lemma_sub_left(c10, tnum, p1, p2);
        lemma_sub_left(c9, l5, p1, p2);
        lemma_sub_left(c8, qa, p1, p2);
        lemma_sub_left(c7, l4, p1, p2);
        lemma_sub_left(c6, tlon, p1, p2);
        lemma_sub_left(c5, l3, p1, p2);
        lemma_sub_left(c4, tlat, p1, p2);
        lemma_sub_left(c3, l2, p1, p2);
        lemma_sub_left(c2, qn, p1, p2);
        lemma_sub_left(c1, l1, p1, p2);
        lemma_sub_right(l0, tid, p1, p2);
        assert(tid.subrange(0, tid.len() as int) =~= tid);
    }
    assert(s.subrange(p2, p3) == l1) by {
        lemma_sub_left(c11, l6, p2, p3);
        lemma_sub_left(c10, tnum, p2, p3);
        lemma_sub_left(c9, l5, p2, p3);
        lemma_sub_left(c8, qa, p2, p3);
        lemma_sub_left(c7, l4, p2, p3);
        lemma_sub_left(c6, tlon, p2, p3);
        lemma_sub_left(c5, l3, p2, p3);
        lemma_sub_left(c4, tlat, p2, p3);
        lemma_sub_left(c3, l2, p2, p3);
        lemma_sub_left(c2, qn, p2, p3);
        lemma_sub_right(c1, l1, p2, p3);
        assert(l1.subrange(0, 8) =~= l1);
    }
    assert(s.subrange(p3, p4) == qn) by {
        lemma_sub_left(c11, l6, p3, p4);
        lemma_sub_left(c10, tnum, p3, p4);
        lemma_sub_left(c9, l5, p3, p4);
        lemma_sub_left(c8, qa, p3, p4);
        lemma_sub_left(c7, l4, p3, p4);
        lemma_sub_left(c6, tlon, p3, p4);
        lemma_sub_left(c5, l3, p3, p4);
        lemma_sub_left(c4, tlat, p3, p4);
        lemma_sub_left(c3, l2, p3, p4);
        lemma_sub_right(c2, qn, p3, p4);
        assert(qn.subrange(0, qn.len() as int) =~= qn);
    }
    assert(s.subrange(p4, p5) == l2) by {
        lemma_sub_left(c11, l6, p4, p5);
        lemma_sub_left(c10, tnum, p4, p5);
        lemma_sub_left(c9, l5, p4, p5);
        lemma_sub_left(c8, qa, p4, p5);
        lemma_sub_left(c7, l4, p4, p5);
        lemma_sub_left(c6, tlon, p4, p5);
        lemma_sub_left(c5, l3, p4, p5);
        lemma_sub_left(c4, tlat, p4, p5);
        lemma_sub_right(c3, l2, p4, p5);
        assert(l2.subrange(0, 7) =~= l2);
    }
    assert(s.subrange(p5, p6) == tlat) by {
        lemma_sub_left(c11, l6, p5, p6);
        lemma_sub_left(c10, tnum, p5, p6);
        lemma_sub_left(c9, l5, p5, p6);
        lemma_sub_left(c8, qa, p5, p6);
        lemma_sub_left(c7, l4, p5, p6);
        lemma_sub_left(c6, tlon, p5, p6);
        lemma_sub_left(c5, l3, p5, p6);
        lemma_sub_right(c4, tlat, p5, p6);
        assert(tlat.subrange(0, tlat.len() as int) =~= tlat);
    }
    assert(s.subrange(p6, p7) == l3) by {
        lemma_sub_left(c11, l6, p6, p7);
        lemma_sub_left(c10, tnum, p6, p7);
        lemma_sub_left(c9, l5, p6, p7);
        lemma_sub_left(c8, qa, p6, p7);
        lemma_sub_left(c7, l4, p6, p7);
        lemma_sub_left(c6, tlon, p6, p7);
        lemma_sub_right(c5, l3, p6, p7);
        assert(l3.subrange(0, 7) =~= l3);
    }
    assert(s.subrange(p7, p8) == tlon) by {
        lemma_sub_left(c11, l6, p7, p8);
        lemma_sub_left(c10, tnum, p7, p8);
        lemma_sub_left(c9, l5, p7, p8);
        lemma_sub_left(c8, qa, p7, p8);
        lemma_sub_left(c7, l4, p7, p8);
        lemma_sub_right(c6, tlon, p7, p8);
        assert(tlon.subrange(0, tlon.len() as int) =~= tlon);
    }
    assert(s.subrange(p8, p9) == l4) by {
        lemma_sub_left(c11, l6, p8, p9);
        lemma_sub_left(c10, tnum, p8, p9);
        lemma_sub_left(c9, l5, p8, p9);
        lemma_sub_left(c8, qa, p8, p9);
        lemma_sub_right(c7, l4, p8, p9);
        assert(l4.subrange(0, 11) =~= l4);
    }
    assert(s.subrange(p9, p10) == qa) by {
        lemma_sub_left(c11, l6, p9, p10);
        lemma_sub_left(c10, tnum, p9, p10);
        lemma_sub_left(c9, l5, p9, p10);
        lemma_sub_right(c8, qa, p9, p10);
        assert(qa.subrange(0, qa.len() as int) =~= qa);
    }
    assert(s.subrange(p10, p11) == l5) by {
        lemma_sub_left(c11, l6, p10, p11);
        lemma_sub_left(c10, tnum, p10, p11);
        lemma_sub_right(c9, l5, p10, p11);
        assert(l5.subrange(0, 12) =~= l5);
    }
    assert(s.subrange(p11, p12) == tnum) by {
        lemma_sub_left(c11, l6, p11, p12);
        lemma_sub_right(c10, tnum, p11, p12);
        assert(tnum.subrange(0, tnum.len() as int) =~= tnum);
    }
    assert(s.subrange(p12, n) == l6) by {
        lemma_sub_right(c11, l6, p12, n);
        assert(l6.subrange(0, 1) =~= l6);
    }
}

spec fn rt_p2(m: MugModel) -> int {
    6 + int_dec(m.id).len() as int
}

spec fn rt_p4(m: MugModel) -> int {
    rt_p2(m) + 8 + json_string(m.name).len() as int
}

spec fn rt_p6(m: MugModel) -> int {
    rt_p4(m) + 7 + m.lat.len() as int
}

spec fn rt_p8(m: MugModel) -> int {
    rt_p6(m) + 7 + m.lon.len() as int
}

spec fn rt_p10(m: MugModel) -> int {
    rt_p8(m) + 11 + json_string(m.address).len() as int
}

spec fn rt_p12(m: MugModel) -> int {
    rt_p10(m) + 12 + dec_digits(m.num_mugs).len() as int
}

/// Escaping text that holds no quote, no backslash and no control
/// character leaves it unchanged.
proof fn lemma_escape_plain(x: Seq<char>)
    requires
        forall|k: int|
            0 <= k < x.len() ==> x[k] != '"' && x[k] != '\\' && (#[trigger] x[k] as u32) >= 32,
    ensures
        escape(x) == x,
    decreases x.len(),
{
    if x.len() == 0 {
        assert(escape(x) =~= x);
    } else {
        lemma_escape_plain(x.drop_last());
        assert(esc_seq(x.last()) =~= seq![x.last()]);
        assert(escape(x) =~= x);
    }
}

/// A plain quoted key standing verbatim in the text reads back as itself.
proof fn lemma_key_at(s: Seq<char>, i: int, key: Seq<char>)
    requires
        0 <= i,
        i + key.len() + 2 <= s.len(),
        s[i] == '"',
        s.subrange(i + 1, i + key.len() + 2) == key + seq!['"'],
        forall|k: int|
            0 <= k < key.len() ==> key[k] != '"' && key[k] != '\\' && (#[trigger] key[k] as u32)
                >= 32,
    ensures
        str_field(s, i) == Some((key, i + key.len() + 2)),
{
    assert(('"' as u32) == 34);
    lemma_not_ws('"');
    assert(skip_ws(s, i) == i);
    lemma_escape_plain(key);
    lemma_parse_escaped_at(s, i + 1, key);
}

/// The name member of an encoded record parses in place.
#[verifier::rlimit(100)]
proof fn lemma_mug_rt_name(m: MugModel)
    requires
        mug_model_valid(m),
    ensures
        parse_field(mug_json(m), rt_p2(m) + 1) == Some((FieldBind::BName(m.name), rt_p4(m))),
        expect_tok(mug_json(m), rt_p4(m), ',') == Some(rt_p4(m) + 1),
{
    lemma_mug_doc_layout(m);
    reveal_strlit(",\"name\":");
    reveal_strlit(",\"lat\":");
    reveal_strlit("name");
    let tid = int_dec(m.id);
    let qn = json_string(m.name);
    let s = mug_json(m);
    let p1 = 6int;
    let p2 = p1 + tid.len();
    let p3 = p2 + 8;
    let p4 = p3 + qn.len();
    let p5 = p4 + 7;
    assert(s[p2 + 1] == '"' && s[p2 + 7] == ':') by {
        assert(s.subrange(p2, p3)[1] == s[p2 + 1]);
        assert(s.subrange(p2, p3)[7] == s[p2 + 7]);
    }
    assert(s[p3] == '"') by {
        assert(s.subrange(p3, p4)[0] == s[p3]);
        assert(qn[0] == '"') by {
            assert((seq!['"'] + escape(m.name) + seq!['"'])[0] == '"');
        }
    }
    assert(s[p4] == ',') by {
        assert(s.subrange(p4, p5)[0] == s[p4]);
    }
    assert((',' as u32) == 44 && ('"' as u32) == 34 && (':' as u32) == 58);
    lemma_not_ws('"');
    lemma_not_ws(':');
    lemma_not_ws(',');
    assert(str_field(s, p2 + 1) == Some(("name"@, p2 + 7))) by {
        assert(s.subrange(p2 + 2, p2 + 7) =~= "name"@ + seq!['"']) by {
            assert forall|k: int| 0 <= k < 5 implies s.subrange(p2 + 2, p2 + 7)[k] == ("name"@
                + seq!['"'])[k] by {
                assert(s.subrange(p2 + 2, p2 + 7)[k] == s[p2 + 2 + k]);
                assert(s.subrange(p2, p3)[2 + k] == s[p2 + 2 + k]);
            }
        }
        lemma_key_at(s, p2 + 1, "name"@);
    }
    assert(expect_tok(s, p2 + 7, ':') == Some(p3));
    assert(str_field(s, p3) == Some((m.name, p4))) by {
        assert(skip_ws(s, p3) == p3);
        assert(s.subrange(p3 + 1, p3 + 1 + escape(m.name).len() + 1) =~= escape(m.name) + seq!['"'])
            by {
            assert(qn == seq!['"'] + (escape(m.name) + seq!['"']));
            assert forall|k: int| 0 <= k < escape(m.name).len() + 1 implies s.subrange(
                p3 + 1,
                p3 + 1 + escape(m.name).len() + 1,
            )[k] == (escape(m.name) + seq!['"'])[k] by {
                assert(s.subrange(p3 + 1, p3 + 1 + escape(m.name).len() + 1)[k] == s[p3 + 1 + k]);
                assert(s.subrange(p3, p4)[1 + k] == s[p3 + 1 + k]);
                assert(qn[1 + k] == (seq!['"'] + (escape(m.name) + seq!['"']))[1 + k]);
            }
        }
        lemma_parse_escaped_at(s, p3 + 1, m.name);
    }
    assert(parse_field(s, p2 + 1) == Some((FieldBind::BName(m.name), p4)));
    assert(expect_tok(s, p4, ',') == Some(p4 + 1));
}

/// The latitude member of an encoded record parses in place.
#[verifier::rlimit(100)]
proof fn lemma_mug_rt_lat(m: MugModel)
    requires
        mug_model_valid(m),
    ensures
        parse_field(mug_json(m), rt_p4(m) + 1) == Some((FieldBind::BLat(m.lat), rt_p6(m))),
        expect_tok(mug_json(m), rt_p6(m), ',') == Some(rt_p6(m) + 1),
{
    lemma_mug_doc_layout(m);
    reveal_strlit(",\"lat\":");
    reveal_strlit(",\"lon\":");
    reveal_strlit("name");
    reveal_strlit("address");
    reveal_strlit("lat");
    let tid = int_dec(m.id);
    let qn = json_string(m.name);
    let tlat = m.lat;
    let s = mug_json(m);
    let p1 = 6int;
    let p2 = p1 + tid.len();
    let p3 = p2 + 8;
    let p4 = p3 + qn.len();
    let p5 = p4 + 7;
    let p6 = p5 + tlat.len();
    assert(s[p4 + 1] == '"' && s[p4 + 6] == ':') by {
        assert(s.subrange(p4, p5)[1] == s[p4 + 1]);
        assert(s.subrange(p4, p5)[6] == s[p4 + 6]);
    }
    assert(s[p5] == tlat[0]) by {
        assert(s.subrange(p5, p6)[0] == s[p5]);
    }
    assert(s[p6] == ',') by {
        assert(s.subrange(p6, p6 + 7)[0] == s[p6]);
    }
    assert((',' as u32) == 44 && ('"' as u32) == 34 && (':' as u32) == 58);
    lemma_not_ws('"');
    lemma_not_ws(':');
    lemma_not_ws(',');
    lemma_number_head(tlat);
    assert(!is_ws_char(s[p5]));
    assert(str_field(s, p4 + 1) == Some(("lat"@, p4 + 6))) by {
        assert(s.subrange(p4 + 2, p4 + 6) =~= "lat"@ + seq!['"']) by {
            assert forall|k: int| 0 <= k < 4 implies s.subrange(p4 + 2, p4 + 6)[k] == ("lat"@
                + seq!['"'])[k] by {
                assert(s.subrange(p4 + 2, p4 + 6)[k] == s[p4 + 2 + k]);
                assert(s.subrange(p4, p5)[2 + k] == s[p4 + 2 + k]);
            }
        }
        lemma_key_at(s, p4 + 1, "lat"@);
    }
    assert(expect_tok(s, p4 + 6, ':') == Some(p5));
    assert(num_field(s, p5) == Some((m.lat, p6))) by {
        assert(skip_ws(s, p5) == p5);
        lemma_parse_number_embed(s, p5, tlat);
        assert(!is_digit(s[p6]) && s[p6] != '.' && s[p6] != 'e' && s[p6] != 'E');
    }
    assert("lat"@ != "name"@ && "lat"@ != "address"@) by {
        assert("lat"@.len() == 3 && "name"@.len() == 4 && "address"@.len() == 7);
    }
    assert(parse_field(s, p4 + 1) == Some((FieldBind::BLat(m.lat), p6)));
    assert(expect_tok(s, p6, ',') == Some(p6 + 1));
}

/// The longitude member of an encoded record parses in place.
#[verifier::rlimit(100)]
proof fn lemma_mug_rt_lon(m: MugModel)
    requires
        mug_model_valid(m),
    ensures
        parse_field(mug_json(m), rt_p6(m) + 1) == Some((FieldBind::BLon(m.lon), rt_p8(m))),
        expect_tok(mug_json(m), rt_p8(m), ',') == Some(rt_p8(m) + 1),
{
    lemma_mug_doc_layout(m);
    reveal_strlit(",\"lon\":");
    reveal_strlit(",\"address\":");
    reveal_strlit(",\"num_mugs\":");
    reveal_strlit("name");
    reveal_strlit("address");
    reveal_strlit("lat");
    reveal_strlit("lon");
    let tid = int_dec(m.id);
    let qn = json_string(m.name);
    let tlon = m.lon;
    let qa = json_string(m.address);
    let s = mug_json(m);
    let p1 = 6int;
    let p2 = p1 + tid.len();
    let p3 = p2 + 8;
    let p4 = p3 + qn.len();
    let p5 = p4 + 7;
    let p6 = p5 + m.lat.len();
    let p7 = p6 + 7;
    let p8 = p7 + tlon.len();
    let p9 = p8 + 11;
    let p10 = p9 + qa.len();
    assert(s[p6 + 1] == '"' && s[p6 + 6] == ':') by {
        assert(s.subrange(p6, p7)[1] == s[p6 + 1]);
        assert(s.subrange(p6, p7)[6] == s[p6 + 6]);
    }
    assert(s[p7] == tlon[0]) by {
        assert(s.subrange(p7, p8)[0] == s[p7]);
    }
    assert(s[p8] == ',') by {
        assert(s.subrange(p8, p9)[0] == s[p8]);
    }
    assert((',' as u32) == 44 && ('"' as u32) == 34 && (':' as u32) == 58);
    lemma_not_ws('"');
    lemma_not_ws(':');
    lemma_not_ws(',');
    lemma_number_head(tlon);
    assert(!is_ws_char(s[p7]));
    // the lon member
    assert(str_field(s, p6 + 1) == Some(("lon"@, p6 + 6))) by {
        assert(s.subrange(p6 + 2, p6 + 6) =~= "lon"@ + seq!['"']) by {
            assert forall|k: int| 0 <= k < 4 implies s.subrange(p6 + 2, p6 + 6)[k] == ("lon"@
                + seq!['"'])[k] by {
                assert(s.subrange(p6 + 2, p6 + 6)[k] == s[p6 + 2 + k]);
                assert(s.subrange(p6, p7)[2 + k] == s[p6 + 2 + k]);
            }
        }
        lemma_key_at(s, p6 + 1, "lon"@);
    }
    assert(expect_tok(s, p6 + 6, ':') == Some(p7));
    assert(num_field(s, p7) == Some((m.lon, p8))) by {
        assert(skip_ws(s, p7) == p7);
        lemma_parse_number_embed(s, p7, tlon);
        assert(!is_digit(s[p8]) && s[p8] != '.' && s[p8] != 'e' && s[p8] != 'E');
    }
    assert("lon"@ != "name"@ && "lon"@ != "address"@ && "lon"@ != "lat"@) by {
        assert("lon"@.len() == 3 && "name"@.len() == 4 && "address"@.len() == 7);
        assert("lon"@[1] == 'o' && "lat"@[1] == 'a');
    }
    assert(parse_field(s, p6 + 1) == Some((FieldBind::BLon(m.lon), p8)));
    assert(expect_tok(s, p8, ',') == Some(p8 + 1));
}

/// The address member of an encoded record parses in place.
#[verifier::rlimit(100)]
proof fn lemma_mug_rt_address(m: MugModel)
    requires
        mug_model_valid(m),
    ensures
        parse_field(mug_json(m), rt_p8(m) + 1) == Some((FieldBind::BAddress(m.address), rt_p10(m))),
        expect_tok(mug_json(m), rt_p10(m), ',') == Some(rt_p10(m) + 1),
{
    lemma_mug_doc_layout(m);
    reveal_strlit(",\"address\":");
    reveal_strlit(",\"num_mugs\":");
    reveal_strlit("name");
    reveal_strlit("address");
    reveal_strlit("lat");
    reveal_strlit("lon");
    let tid = int_dec(m.id);
    let qn = json_string(m.name);
    let qa = json_string(m.address);
    let s = mug_json(m);
    let p1 = 6int;
    let p2 = p1 + tid.len();
    let p3 = p2 + 8;
    let p4 = p3 + qn.len();
    let p5 = p4 + 7;
    let p6 = p5 + m.lat.len();
    let p7 = p6 + 7;
    let p8 = p7 + m.lon.len();
    let p9 = p8 + 11;
    let p10 = p9 + qa.len();
    assert(s[p8] == ',' && s[p8 + 1] == '"' && s[p8 + 10] == ':') by {
        assert(s.subrange(p8, p9)[0] == s[p8]);
        assert(s.subrange(p8, p9)[1] == s[p8 + 1]);
        assert(s.subrange(p8, p9)[10] == s[p8 + 10]);
    }
    assert(s[p9] == '"') by {
        assert(s.subrange(p9, p10)[0] == s[p9]);
        assert(qa[0] == '"') by {
            assert((seq!['"'] + escape(m.address) + seq!['"'])[0] == '"');
        }
    }
    assert(s[p10] == ',') by {
        assert(s.subrange(p10, p10 + 12)[0] == s[p10]);
    }
    assert((',' as u32) == 44 && ('"' as u32) == 34 && (':' as u32) == 58);
    lemma_not_ws('"');
    lemma_not_ws(':');
    lemma_not_ws(',');
    // the address member
    assert(str_field(s, p8 + 1) == Some(("address"@, p8 + 10))) by {
        assert(s.subrange(p8 + 2, p8 + 10) =~= "address"@ + seq!['"']) by {
            assert forall|k: int| 0 <= k < 8 implies s.subrange(p8 + 2, p8 + 10)[k] == ("address"@
                + seq!['"'])[k] by {
                assert(s.subrange(p8 + 2, p8 + 10)[k] == s[p8 + 2 + k]);
                assert(s.subrange(p8, p9)[2 + k] == s[p8 + 2 + k]);
            }
        }
        lemma_key_at(s, p8 + 1, "address"@);
    }
    assert(expect_tok(s, p8 + 10, ':') == Some(p9));
    assert(str_field(s, p9) == Some((m.address, p10))) by {
        assert(skip_ws(s, p9) == p9);
        assert(s.subrange(p9 + 1, p9 + 1 + escape(m.address).len() + 1) =~= escape(m.address)
            + seq!['"']) by {
            assert(qa == seq!['"'] + (escape(m.address) + seq!['"']));
            assert forall|k: int| 0 <= k < escape(m.address).len() + 1 implies s.subrange(
                p9 + 1,
                p9 + 1 + escape(m.address).len() + 1,
            )[k] == (escape(m.address) + seq!['"'])[k] by {
                assert(s.subrange(p9 + 1, p9 + 1 + escape(m.address).len() + 1)[k] == s[p9 + 1 + k]);
                assert(s.subrange(p9, p10)[1 + k] == s[p9 + 1 + k]);
                assert(qa[1 + k] == (seq!['"'] + (escape(m.address) + seq!['"']))[1 + k]);
            }
        }
        lemma_parse_escaped_at(s, p9 + 1, m.address);
    }
    assert("address"@ != "name"@) by {
        assert("address"@.len() == 7 && "name"@.len() == 4);
    }
    assert(parse_field(s, p8 + 1) == Some((FieldBind::BAddress(m.address), p10)));
    assert(expect_tok(s, p10, ',') == Some(p10 + 1));
}

/// The count member's key parses in place.
#[verifier::rlimit(100)]
proof fn lemma_mug_rt_count_key(m: MugModel)
    requires
        mug_model_valid(m),
    ensures
        str_field(mug_json(m), rt_p10(m) + 1) == Some(("num_mugs"@, rt_p10(m) + 11)),
        expect_tok(mug_json(m), rt_p10(m) + 11, ':') == Some(rt_p10(m) + 12),
{
    lemma_mug_doc_layout(m);
    reveal_strlit(",\"num_mugs\":");
    reveal_strlit("num_mugs");
    let s = mug_json(m);
    let p10 = rt_p10(m);
    let p11 = p10 + 12;
    assert(s[p10 + 1] == '"' && s[p10 + 11] == ':') by {
        assert(s.subrange(p10, p11)[1] == s[p10 + 1]);
        assert(s.subrange(p10, p11)[11] == s[p10 + 11]);
    }
    assert(('"' as u32) == 34 && (':' as u32) == 58);
    lemma_not_ws('"');
    lemma_not_ws(':');
    assert(str_field(s, p10 + 1) == Some(("num_mugs"@, p10 + 11))) by {
        assert(s.subrange(p10 + 2, p10 + 11) =~= "num_mugs"@ + seq!['"']) by {
            assert forall|k: int| 0 <= k < 9 implies s.subrange(p10 + 2, p10 + 11)[k]
                == ("num_mugs"@ + seq!['"'])[k] by {
                assert(s.subrange(p10 + 2, p10 + 11)[k] == s[p10 + 2 + k]);
                assert(s.subrange(p10, p11)[2 + k] == s[p10 + 2 + k]);
            }
        }
        lemma_key_at(s, p10 + 1, "num_mugs"@);
    }
    assert(expect_tok(s, p10 + 11, ':') == Some(p11));
}

/// The count member and the closing brace of an encoded record parse in
/// place.
#[verifier::rlimit(100)]
proof fn lemma_mug_rt_count(m: MugModel)
    requires
        mug_model_valid(m),
    ensures
        parse_field(mug_json(m), rt_p10(m) + 1) == Some(
            (FieldBind::BNum(m.num_mugs), rt_p12(m)),
        ),
        expect_tok(mug_json(m), rt_p12(m), ',') is None,
        expect_tok(mug_json(m), rt_p12(m), '}') == Some(rt_p12(m) + 1),
        mug_json(m).len() == rt_p12(m) + 1,
{
    lemma_mug_doc_layout(m);
    reveal_strlit(",\"num_mugs\":");
    reveal_strlit("}");
    reveal_strlit("name");
    reveal_strlit("address");
    reveal_strlit("lat");
    reveal_strlit("lon");
    reveal_strlit("num_mugs");
    let tnum = dec_digits(m.num_mugs);
    let s = mug_json(m);
    let p10 = rt_p8(m) + 11 + json_string(m.address).len();
    let p11 = p10 + 12;
    let p12 = p11 + tnum.len();
    let n = s.len() as int;
    assert(n == p12 + 1);
    assert(tnum.len() >= 1) by {
        lemma_dec_digits_shape(m.num_mugs);
    }
    assert(s[p10 + 1] == '"' && s[p10 + 11] == ':') by {
        assert(s.subrange(p10, p11)[1] == s[p10 + 1]);
        assert(s.subrange(p10, p11)[11] == s[p10 + 11]);
    }
    assert(s[p11] == tnum[0]) by {
        assert(s.subrange(p11, p12)[0] == s[p11]);
    }
    assert(s[p12] == '}') by {
        assert(s.subrange(p12, n)[0] == s[p12]);
    }
    assert(('"' as u32) == 34 && (':' as u32) == 58 && ('}' as u32) == 125 && (',' as u32) == 44);
    lemma_not_ws('"');
    lemma_not_ws(':');
    lemma_not_ws('}');
    assert(is_digit(tnum[0])) by {
        lemma_dec_digits_shape(m.num_mugs);
    }
    assert(!is_ws_char(s[p11])) by {
        lemma_not_ws(s[p11]);
    }
    lemma_mug_rt_count_key(m);
    assert(expect_tok(s, p10 + 11, ':') == Some(p11));
    assert(u32_field(s, p11) == Some((m.num_mugs, p12))) by {
        assert(skip_ws(s, p11) == p11);
        assert(int_dec(m.num_mugs) == tnum);
        lemma_parse_int_dec_at(s, p11, m.num_mugs);
        assert(!is_digit(s[p12]) && s[p12] != '.' && s[p12] != 'e' && s[p12] != 'E');
    }
    assert("num_mugs"@ != "name"@ && "num_mugs"@ != "address"@ && "num_mugs"@ != "lat"@
        && "num_mugs"@ != "lon"@) by {
        assert("num_mugs"@.len() == 8 && "name"@.len() == 4 && "address"@.len() == 7 && "lat"@.len()
            == 3 && "lon"@.len() == 3);
    }
    assert(parse_field(s, p10 + 1) == Some((FieldBind::BNum(m.num_mugs), p12)));
    assert(skip_ws(s, p12) == p12);
    assert(expect_tok(s, p12, ',') is None);
    assert(expect_tok(s, p12, '}') == Some(n));
}

/// The fields collected along a record object's members keep their
/// validity into the parsed model.
proof fn lemma_mug_fields_valid(
    s: Seq<char>,
    i: int,
    id: Option<int>,
    name: Option<Seq<char>>,
    lat: Option<Seq<char>>,
    lon: Option<Seq<char>>,
    address: Option<Seq<char>>,
    num: Option<int>,
)
    requires
        0 <= i <= s.len(),
        parse_mug_fields(s, i, id, name, lat, lon, address, num) is Some,
        (id matches Some(v) ==> i64::MIN <= v <= i64::MAX),
        (num matches Some(v) ==> 0 <= v <= u32::MAX),
        (lat matches Some(t) ==> number_token(t)),
        (lon matches Some(t) ==> number_token(t)),
    ensures
        mug_model_valid((parse_mug_fields(s, i, id, name, lat, lon, address, num)->0).0),
    decreases s.len() - i, 1int,
{
    lemma_parse_field_bounds(s, i);
    let j = (parse_field(s, i)->0).1;
    let a = (str_field(s, i)->0).1;
    let b = expect_tok(s, a, ':')->0;
    match (parse_field(s, i)->0).0 {
        FieldBind::BId(v) => {
            lemma_mug_sep_valid(s, j, Some(v), name, lat, lon, address, num);
        },
        FieldBind::BName(x) => {
            lemma_mug_sep_valid(s, j, id, Some(x), lat, lon, address, num);
        },
        FieldBind::BLat(x) => {
            let w = skip_ws(s, b);
            assert(parse_number(s, w) is Some);
            assert(0 <= w <= s.len()) by {
                let st = if 0 <= w < s.len() && s[w] == '-' {
                    w + 1
                } else {
                    w
                };
                assert(int_part_end(s, st) is Some);
            }
            lemma_parse_number_extract(s, w);
            assert(number_token(x)) by {
                assert(x == s.subrange(w, parse_number(s, w)->0));
            }
            lemma_mug_sep_valid(s, j, id, name, Some(x), lon, address, num);
        },
        FieldBind::BLon(x) => {
            let w = skip_ws(s, b);
            assert(parse_number(s, w) is Some);
            assert(0 <= w <= s.len()) by {
                let st = if 0 <= w < s.len() && s[w] == '-' {
                    w + 1
                } else {
                    w
                };
                assert(int_part_end(s, st) is Some);
            }
            lemma_parse_number_extract(s, w);
            assert(number_token(x)) by {
                assert(x == s.subrange(w, parse_number(s, w)->0));
            }
            lemma_mug_sep_valid(s, j, id, name, lat, Some(x), address, num);
        },
        FieldBind::BAddress(x) => {
            lemma_mug_sep_valid(s, j, id, name, lat, lon, Some(x), num);
        },
        FieldBind::BNum(v) => {
            lemma_mug_sep_valid(s, j, id, name, lat, lon, address, Some(v));
        },
    }
}

proof fn lemma_mug_sep_valid(
    s: Seq<char>,
    j: int,
    id: Option<int>,
    name: Option<Seq<char>>,
    lat: Option<Seq<char>>,
    lon: Option<Seq<char>>,
    address: Option<Seq<char>>,
    num: Option<int>,
)
    requires
        0 <= j <= s.len(),
        parse_mug_sep(s, j, id, name, lat, lon, address, num) is Some,
        (id matches Some(v) ==> i64::MIN <= v <= i64::MAX),
        (num matches Some(v) ==> 0 <= v <= u32::MAX),
        (lat matches Some(t) ==> number_token(t)),
        (lon matches Some(t) ==> number_token(t)),
    ensures
        mug_model_valid((parse_mug_sep(s, j, id, name, lat, lon, address, num)->0).0),
    decreases s.len() - j, 0int,
{
    lemma_skip_ws_bounds(s, j);
    match expect_tok(s, j, ',') {
        Some(c) => {
            lemma_mug_fields_valid(s, c, id, name, lat, lon, address, num);
        },
        None => {},
    }
}

/// Every record model the decoder yields is wire-valid, so the round trip
/// applies to it: what was decoded can be re-encoded and decoded again.
pub proof fn lemma_decoded_mug_valid(s: Seq<char>)
    requires
        parse_mug_doc(s) is Some,
    ensures
        mug_model_valid(parse_mug_doc(s)->0),
{
    assert(parse_mug_at(s, 0) is Some);
    lemma_skip_ws_bounds(s, 0);
    let a0 = expect_tok(s, 0, '{')->0;
    lemma_mug_fields_valid(s, a0, None, None, None, None, None, None);
}

/// The opening brace and the id member of an encoded record parse in
/// place.
#[verifier::rlimit(100)]
proof fn lemma_mug_rt_id(m: MugModel)
    requires
        mug_model_valid(m),
    ensures
        expect_tok(mug_json(m), 0, '{') == Some(1int),
        parse_field(mug_json(m), 1) == Some((FieldBind::BId(m.id), rt_p2(m))),
        expect_tok(mug_json(m), rt_p2(m), ',') == Some(rt_p2(m) + 1),
{
    lemma_mug_doc_layout(m);
    reveal_strlit("{\"id\":");
    reveal_strlit(",\"name\":");
    reveal_strlit("id");
    reveal_strlit("name");
    reveal_strlit("address");
    reveal_strlit("lat");
    reveal_strlit("lon");
    reveal_strlit("num_mugs");
    let tid = int_dec(m.id);
    let s = mug_json(m);
    let p1 = 6int;
    let p2 = p1 + tid.len();
    let p3 = p2 + 8;
    let n = s.len() as int;
    assert(tid.len() >= 1) by {
        if m.id >= 0 {
            lemma_dec_digits_shape(m.id);
        } else {
            lemma_dec_digits_shape(-m.id);
        }
    }
    assert(s[0] == '{' && s[1] == '"' && s[2] == 'i' && s[3] == 'd' && s[4] == '"' && s[5] == ':')
        by {
        assert(s.subrange(0, p1)[0] == s[0]);
        assert(s.subrange(0, p1)[1] == s[1]);
        assert(s.subrange(0, p1)[2] == s[2]);
        assert(s.subrange(0, p1)[3] == s[3]);
        assert(s.subrange(0, p1)[4] == s[4]);
        assert(s.subrange(0, p1)[5] == s[5]);
    }
    assert(s[p2] == ',') by {
        assert(s.subrange(p2, p3)[0] == s[p2]);
    }
    assert((',' as u32) == 44 && ('"' as u32) == 34 && (':' as u32) == 58 && ('{' as u32) == 123);
    lemma_not_ws('{');
    lemma_not_ws('"');
    lemma_not_ws(':');
    lemma_not_ws(',');
    assert(!is_ws_char(s[p1])) by {
        if m.id >= 0 {
            lemma_dec_digits_shape(m.id);
            assert(s.subrange(p1, p2)[0] == s[p1]);
            assert(is_digit(tid[0]));
            lemma_not_ws(s[p1]);
        } else {
            assert(s.subrange(p1, p2)[0] == s[p1]);
            assert(tid[0] == '-') by {
                assert((seq!['-'] + dec_digits(-m.id))[0] == '-');
            }
            assert(('-' as u32) == 45);
            lemma_not_ws(s[p1]);
        }
    }
    // the opening brace and the id member
    assert(expect_tok(s, 0, '{') == Some(1int));
    assert(str_field(s, 1) == Some(("id"@, 5int))) by {
        assert(s.subrange(2, 5) =~= "id"@ + seq!['"']) by {
            assert forall|k: int| 0 <= k < 3 implies s.subrange(2, 5)[k] == ("id"@
                + seq!['"'])[k] by {
                assert(s.subrange(2, 5)[k] == s[2 + k]);
            }
        }
        lemma_key_at(s, 1, "id"@);
    }
    assert(expect_tok(s, 5, ':') == Some(p1));
    assert(i64_field(s, p1) == Some((m.id, p2))) by {
        assert(skip_ws(s, p1) == p1);
        lemma_parse_int_dec_at(s, p1, m.id);
        assert(!is_digit(s[p2]) && s[p2] != '.' && s[p2] != 'e' && s[p2] != 'E');
    }
    assert("id"@ != "name"@ && "id"@ != "address"@ && "id"@ != "lat"@ && "id"@ != "lon"@ && "id"@
        != "num_mugs"@) by {
        assert("id"@.len() == 2 && "name"@.len() == 4 && "address"@.len() == 7 && "lat"@.len() == 3
            && "lon"@.len() == 3 && "num_mugs"@.len() == 8);
    }
    assert(parse_field(s, 1) == Some((FieldBind::BId(m.id), p2)));
    assert(expect_tok(s, p2, ',') == Some(p2 + 1));
}

/// Decoding what the encoder wrote yields the record back: on every valid
/// record model the record parser inverts the record printer exactly.
#[verifier::rlimit(100)]
pub proof fn lemma_mug_doc_round_trip(m: MugModel)
    requires
        mug_model_valid(m),
    ensures
        parse_mug_doc(mug_json(m)) == Some(m),
{
    let s = mug_json(m);
    let p2 = rt_p2(m);
    let n = s.len() as int;
    lemma_mug_rt_id(m);
    lemma_mug_rt_name(m);
    lemma_mug_rt_lat(m);
    lemma_mug_rt_lon(m);
    lemma_mug_rt_address(m);
    lemma_mug_rt_count(m);
    assert(n == rt_p12(m) + 1);
    // the member chain, slot by slot
    assert(parse_mug_fields(s, 1, None, None, None, None, None, None) == parse_mug_sep(
        s,
        p2,
        Some(m.id),
        None,
        None,
        None,
        None,
        None,
    ));
    assert(parse_mug_sep(s, p2, Some(m.id), None, None, None, None, None) == parse_mug_fields(
        s,
        p2 + 1,
        Some(m.id),
        None,
        None,
        None,
        None,
        None,
    ));
    assert(parse_mug_fields(s, p2 + 1, Some(m.id), None, None, None, None, None) == parse_mug_sep(
        s,
        rt_p4(m),
        Some(m.id),
        Some(m.name),
        None,
        None,
        None,
        None,
    ));
    assert(parse_mug_sep(s, rt_p4(m), Some(m.id), Some(m.name), None, None, None, None)
        == parse_mug_fields(s, rt_p4(m) + 1, Some(m.id), Some(m.name), None, None, None, None));
    assert(parse_mug_fields(s, rt_p4(m) + 1, Some(m.id), Some(m.name), None, None, None, None)
        == parse_mug_sep(s, rt_p6(m), Some(m.id), Some(m.name), Some(m.lat), None, None, None));
    assert(parse_mug_sep(s, rt_p6(m), Some(m.id), Some(m.name), Some(m.lat), None, None, None)
        == parse_mug_fields(
        s,
        rt_p6(m) + 1,
        Some(m.id),
        Some(m.name),
        Some(m.lat),
        None,
        None,
        None,
    ));
    assert(parse_mug_fields(s, rt_p6(m) + 1, Some(m.id), Some(m.name), Some(m.lat), None, None, None)
        == parse_mug_sep(
        s,
        rt_p8(m),
        Some(m.id),
        Some(m.name),
        Some(m.lat),
        Some(m.lon),
        None,
        None,
    ));
    assert(parse_mug_sep(s, rt_p8(m), Some(m.id), Some(m.name), Some(m.lat), Some(m.lon), None, None)
        == parse_mug_fields(
        s,
        rt_p8(m) + 1,
        Some(m.id),
        Some(m.name),
        Some(m.lat),
        Some(m.lon),
        None,
        None,
    ));
    assert(parse_mug_fields(
        s,
        rt_p8(m) + 1,
        Some(m.id),
        Some(m.name),
        Some(m.lat),
        Some(m.lon),
        None,
        None,
    ) == parse_mug_sep(
        s,
        rt_p10(m),
        Some(m.id),
        Some(m.name),
        Some(m.lat),
        Some(m.lon),
        Some(m.address),
        None,
    ));
    assert(parse_mug_sep(
        s,
        rt_p10(m),
        Some(m.id),
        Some(m.name),
        Some(m.lat),
        Some(m.lon),
        Some(m.address),
        None,
    ) == parse_mug_fields(
        s,
        rt_p10(m) + 1,
        Some(m.id),
        Some(m.name),
        Some(m.lat),
        Some(m.lon),
        Some(m.address),
        None,
    ));
    assert(parse_mug_fields(
        s,
        rt_p10(m) + 1,
        Some(m.id),
        Some(m.name),
        Some(m.lat),
        Some(m.lon),
        Some(m.address),
        None,
    ) == parse_mug_sep(
        s,
        rt_p12(m),
        Some(m.id),
        Some(m.name),
        Some(m.lat),
        Some(m.lon),
        Some(m.address),
        Some(m.num_mugs),
    ));
    assert(parse_mug_sep(
        s,
        rt_p12(m),
        Some(m.id),
        Some(m.name),
        Some(m.lat),
        Some(m.lon),
        Some(m.address),
        Some(m.num_mugs),
    ) == Some((m, n)));
    assert(parse_mug_at(s, 0) == Some((m, n)));
    assert(skip_ws(s, n) == n);
}

/// Renders a message envelope as its JSON object.
pub fn encode_message(m: &Message) -> (r: String)
    ensures
        r@ == message_json(m.message@),
{
    let mut out = String::new();
    out.append("{\"message\":");
    push_json_string(&mut out, m.message.as_str());
    out.append("}");
    proof {
        assert(out@ =~= message_json(m.message@));
    }
    out
}

} // verus!
