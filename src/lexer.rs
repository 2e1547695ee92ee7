//! The lexer: atoms and operators read from the bytes of a bound.
//!
//! Every scanner here is stated against a spec function over `Seq<u8>` that
//! describes the grammar directly; positions are byte offsets into the whole
//! source, so spans come out without further bookkeeping.
use vstd::prelude::*;
use crate::atom::{DSLItem, DSLKeywords, DSLOp, DSLType, keyword_text};
use crate::error::{ErrorCode, ParseError, ParseErrorKind};

verus! {

pub open spec fn is_digit(b: u8) -> bool {
    48 <= b <= 57
}

/// Space or tab.
pub open spec fn is_blank(b: u8) -> bool {
    b == 32 || b == 9
}

pub open spec fn is_letter(b: u8) -> bool {
    (65 <= b <= 90) || (97 <= b <= 122)
}

pub open spec fn byte_at(s: Seq<u8>, i: int, b: u8) -> bool {
    0 <= i < s.len() && s[i] == b
}

/// First position at or after `i` that does not hold a blank.
pub open spec fn skip_blanks(s: Seq<u8>, i: int) -> int
    decreases s.len() - i,
{
    if 0 <= i < s.len() && is_blank(s[i]) {
        skip_blanks(s, i + 1)
    } else {
        i
    }
}

/// End of the run of decimal digits that starts at `i`.
pub open spec fn digits_end(s: Seq<u8>, i: int) -> int
    decreases s.len() - i,
{
    if 0 <= i < s.len() && is_digit(s[i]) {
        digits_end(s, i + 1)
    } else {
        i
    }
}

/// End of the run of ASCII letters that starts at `i`.
pub open spec fn letters_end(s: Seq<u8>, i: int) -> int
    decreases s.len() - i,
{
    if 0 <= i < s.len() && is_letter(s[i]) {
        letters_end(s, i + 1)
    } else {
        i
    }
}

/// The decimal value of the digits in `s[i..j]`.
pub open spec fn digits_value(s: Seq<u8>, i: int, j: int) -> nat
    decreases j - i,
{
    if j <= i {
        0
    } else {
        digits_value(s, i, j - 1) * 10 + (s[j - 1] - 48) as nat
    }
}

/// A decimal number at `i` that fits in `u64`: its end and its value.
pub open spec fn number_at(s: Seq<u8>, i: int) -> Option<(int, u64)> {
    let e = digits_end(s, i);
    if e > i && digits_value(s, i, e) <= u64::MAX {
        Some((e, digits_value(s, i, e) as u64))
    } else {
        None
    }
}

/// `x`, or `u64::MAX` where `x` is larger.
pub open spec fn cap(x: int) -> u64 {
    if x > u64::MAX {
        u64::MAX
    } else {
        x as u64
    }
}

/// Milliseconds given by the fractional digits `s[a..b]`: the first three
/// digits count, padded on the right with zeros.
pub open spec fn fraction_millis(s: Seq<u8>, a: int, b: int) -> nat {
    if b - a >= 3 {
        digits_value(s, a, a + 3)
    } else if b - a == 2 {
        digits_value(s, a, a + 2) * 10
    } else {
        digits_value(s, a, a + 1) * 100
    }
}

/// `N f`: a frame index.
pub open spec fn frame_at(s: Seq<u8>, i: int) -> Option<(usize, DSLType)> {
    match number_at(s, i) {
        Some((e, v)) => if byte_at(s, e, 102) {
            Some(((e + 1) as usize, DSLType::FrameIndex(v)))
        } else {
            None
        },
        None => None,
    }
}

/// `N[.D]s`: seconds, with any number of fractional digits, of which the
/// first three count.
pub open spec fn seconds_at(s: Seq<u8>, i: int) -> Option<(usize, DSLType)> {
    match number_at(s, i) {
        Some((e, v)) => if byte_at(s, e, 46) {
            let f = digits_end(s, e + 1);
            if f > e + 1 && byte_at(s, f, 115) {
                Some(((f + 1) as usize, DSLType::Timestamp(cap(v * 1000 + fraction_millis(s, e + 1, f)))))
            } else {
                None
            }
        } else if byte_at(s, e, 115) {
            Some(((e + 1) as usize, DSLType::Timestamp(cap(v * 1000))))
        } else {
            None
        },
        None => None,
    }
}

/// `N ms`: milliseconds.
pub open spec fn millis_at(s: Seq<u8>, i: int) -> Option<(usize, DSLType)> {
    match number_at(s, i) {
        Some((e, v)) => if byte_at(s, e, 109) && byte_at(s, e + 1, 115) {
            Some(((e + 2) as usize, DSLType::Timestamp(v)))
        } else {
            None
        },
        None => None,
    }
}

fn skip_blank_bytes(s: &[u8], i: usize) -> (r: usize)
    requires
        i <= s.len(),
    ensures
        r as int == skip_blanks(s@, i as int),
        r <= s.len(),
{
    let mut j = i;
    while j < s.len() && (s[j] == 32 || s[j] == 9)
        invariant
            i <= j <= s.len(),
            skip_blanks(s@, i as int) == skip_blanks(s@, j as int),
        decreases s.len() - j,
    {
        j = j + 1;
    }
    j
}

pub(crate) fn letter_run_end(s: &[u8], i: usize) -> (r: usize)
    requires
        i <= s.len(),
    ensures
        r as int == letters_end(s@, i as int),
        i <= r <= s.len(),
{
    let mut j = i;
    while j < s.len() && ((65 <= s[j] && s[j] <= 90) || (97 <= s[j] && s[j] <= 122))
        invariant
            i <= j <= s.len(),
            letters_end(s@, i as int) == letters_end(s@, j as int),
        decreases s.len() - j,
    {
        j = j + 1;
    }
    j
}

proof fn lemma_digits_end_bounds(s: Seq<u8>, i: int)
    requires
        0 <= i <= s.len(),
    ensures
        i <= digits_end(s, i) <= s.len(),
    decreases s.len() - i,
{
    if i < s.len() && is_digit(s[i]) {
        lemma_digits_end_bounds(s, i + 1);
    }
}

/// Reads the run of digits at `i`: where it ends, and its value where that
/// fits in `u64`.
fn scan_digits(s: &[u8], i: usize) -> (r: (usize, Option<u64>))
    requires
        i <= s.len(),
    ensures
        r.0 as int == digits_end(s@, i as int),
        i <= r.0 <= s.len(),
        r.1 is Some <==> digits_value(s@, i as int, r.0 as int) <= u64::MAX,
        r.1 is Some ==> r.1->0 as nat == digits_value(s@, i as int, r.0 as int),
{
    let mut j = i;
    let mut v: u64 = 0;
    let mut over = false;
    while j < s.len() && 48 <= s[j] && s[j] <= 57
        invariant
            i <= j <= s.len(),
            digits_end(s@, i as int) == digits_end(s@, j as int),
            !over ==> v as nat == digits_value(s@, i as int, j as int),
            over ==> digits_value(s@, i as int, j as int) > u64::MAX,
        decreases s.len() - j,
    {
        let d = (s[j] - 48) as u64;
        assert(digits_value(s@, i as int, j + 1) == digits_value(s@, i as int, j as int) * 10 + d);
        if !over {
            let nv: u128 = v as u128 * 10 + d as u128;
            if nv > u64::MAX as u128 {
                over = true;
            } else {
                v = nv as u64;
            }
        }
        j = j + 1;
    }
    if over {
        (j, None)
    } else {
        (j, Some(v))
    }
}

fn scan_number(s: &[u8], i: usize) -> (r: Option<(usize, u64)>)
    requires
        i <= s.len(),
    ensures
        match r {
            Some((e, v)) => number_at(s@, i as int) == Some((e as int, v)) && e <= s.len(),
            None => number_at(s@, i as int) is None,
        },
{
    let (e, v) = scan_digits(s, i);
    if e == i {
        return None;
    }
    match v {
        Some(v) => Some((e, v)),
        None => None,
    }
}

fn cap_u128(x: u128) -> (r: u64)
    ensures
        r == cap(x as int),
{
    if x > u64::MAX as u128 {
        u64::MAX
    } else {
        x as u64
    }
}

/// Reads the fractional digits `s[a..b]` as milliseconds.
fn scan_fraction(s: &[u8], a: usize, b: usize) -> (r: u64)
    requires
        a < b <= s.len(),
        forall|k: int| a <= k < b ==> is_digit(#[trigger] s@[k]),
    ensures
        r as nat == fraction_millis(s@, a as int, b as int),
        r < 1000,
{
    let d0 = (s[a] - 48) as u64;
    assert(digits_value(s@, a as int, a + 1) == d0) by {
        assert(digits_value(s@, a as int, a as int) == 0);
    }
    if b - a == 1 {
        return d0 * 100;
    }
    let d1 = (s[a + 1] - 48) as u64;
    assert(digits_value(s@, a as int, a + 2) == d0 * 10 + d1);
    if b - a == 2 {
        return (d0 * 10 + d1) * 10;
    }
    let d2 = (s[a + 2] - 48) as u64;
    assert(digits_value(s@, a as int, a + 3) == (d0 * 10 + d1) * 10 + d2);
    (d0 * 10 + d1) * 10 + d2
}

/// Reads a frame index `N f` at `pos`.
pub fn parse_frame_index(input: &[u8], pos: usize) -> (r: Option<(usize, DSLType)>)
    requires
        pos <= input.len(),
    ensures
        r == frame_at(input@, pos as int),
{
    match scan_number(input, pos) {
        Some((e, v)) => if e < input.len() && input[e] == 102 {
            Some((e + 1, DSLType::FrameIndex(v)))
        } else {
            None
        },
        None => None,
    }
}

/// Reads a seconds timestamp `N[.D]s` at `pos`.
pub fn parse_timestamp1(input: &[u8], pos: usize) -> (r: Option<(usize, DSLType)>)
    requires
        pos <= input.len(),
    ensures
        r == seconds_at(input@, pos as int),
{
    match scan_number(input, pos) {
        Some((e, v)) => {
            let whole: u128 = v as u128 * 1000;
            if e < input.len() && input[e] == 46 {
                let (f, _) = scan_digits(input, e + 1);
                if f > e + 1 && f < input.len() && input[f] == 115 {
                    proof {
                        assert forall|k: int| e + 1 <= k < f implies is_digit(#[trigger] input@[k]) by {
                            lemma_digit_run(input@, e + 1, k);
                        }
                    }
                    let ms = scan_fraction(input, e + 1, f);
                    Some((f + 1, DSLType::Timestamp(cap_u128(whole + ms as u128))))
                } else {
                    None
                }
            } else if e < input.len() && input[e] == 115 {
                Some((e + 1, DSLType::Timestamp(cap_u128(whole))))
            } else {
                None
            }
        },
        None => None,
    }
}

/// Reads a milliseconds timestamp `N ms` at `pos`.
pub fn parse_timestamp3(input: &[u8], pos: usize) -> (r: Option<(usize, DSLType)>)
    requires
        pos <= input.len(),
    ensures
        r == millis_at(input@, pos as int),
{
    match scan_number(input, pos) {
        Some((e, v)) => if e < input.len() && input[e] == 109 && e + 1 < input.len() && input[e + 1] == 115 {
            Some((e + 2, DSLType::Timestamp(v)))
        } else {
            None
        },
        None => None,
    }
}

/// Every byte of a digit run is a digit.
proof fn lemma_digit_run(s: Seq<u8>, i: int, k: int)
    requires
        0 <= i <= k < digits_end(s, i),
    ensures
        is_digit(s[k]),
    decreases k - i,
{
    if k > i {
        lemma_digit_run(s, i + 1, k);
    }
}

/// What follows the last field of a clock time `H:M:S`, `M:S` or `S`, read
/// with `fields` fields worth `secs` seconds and ending at `e`: an optional
/// fraction of one to three digits. A single field counts only with a
/// fraction and without a unit letter after it (`1.5s` is a seconds
/// timestamp, `1.5` a clock time). `Err` marks a hard failure: more than
/// three fractional digits on a time that has a colon.
pub open spec fn clock_tail(s: Seq<u8>, e: int, fields: int, secs: int) -> Result<Option<(usize, DSLType)>, usize> {
    if byte_at(s, e, 46) {
        let g = digits_end(s, e + 1);
        if g == e + 1 {
            Ok(None)
        } else if g - (e + 1) > 3 {
            if fields >= 2 {
                Err(g as usize)
            } else {
                Ok(None)
            }
        } else if fields == 1 && 0 <= g < s.len() && is_letter(s[g]) {
            Ok(None)
        } else {
            Ok(Some((g as usize, DSLType::Timestamp(cap(secs * 1000 + fraction_millis(s, e + 1, g))))))
        }
    } else if fields >= 2 {
        Ok(Some((e as usize, DSLType::Timestamp(cap(secs * 1000)))))
    } else {
        Ok(None)
    }
}

/// A clock time at `i`: colon-separated fields, each a decimal number,
/// worth `sum field * 60^(rank from the right)` seconds. `Ok(None)`: no
/// clock time here. `Err(end)`: a fourth field was read, ending at `end`.
pub open spec fn clock_at(s: Seq<u8>, i: int) -> Result<Option<(usize, DSLType)>, usize> {
    match number_at(s, i) {
        None => Ok(None),
        Some((e1, f1)) => if !byte_at(s, e1, 58) {
            clock_tail(s, e1, 1, f1 as int)
        } else {
            match number_at(s, e1 + 1) {
                None => Ok(None),
                Some((e2, f2)) => if !byte_at(s, e2, 58) {
                    clock_tail(s, e2, 2, f1 * 60 + f2)
                } else {
                    match number_at(s, e2 + 1) {
                        None => Ok(None),
                        Some((e3, f3)) => if !byte_at(s, e3, 58) {
                            clock_tail(s, e3, 3, f1 * 3600 + f2 * 60 + f3)
                        } else {
                            match number_at(s, e3 + 1) {
                                None => Ok(None),
                                Some((e4, _)) => Err(e4 as usize),
                            }
                        }
                    }
                },
            }
        },
    }
}

pub open spec fn has_text_at(s: Seq<u8>, i: int, t: Seq<u8>) -> bool {
    0 <= i && i + t.len() <= s.len() && s.subrange(i, i + t.len()) == t
}

/// A keyword at `i`; the first of `end`, `from`, `to` that the text starts with.
pub open spec fn keyword_at(s: Seq<u8>, i: int) -> Option<(usize, DSLType)> {
    if has_text_at(s, i, keyword_text(DSLKeywords::End)) {
        Some(((i + 3) as usize, DSLType::Keyword(DSLKeywords::End)))
    } else if has_text_at(s, i, keyword_text(DSLKeywords::From)) {
        Some(((i + 4) as usize, DSLType::Keyword(DSLKeywords::From)))
    } else if has_text_at(s, i, keyword_text(DSLKeywords::To)) {
        Some(((i + 2) as usize, DSLType::Keyword(DSLKeywords::To)))
    } else {
        None
    }
}

/// A frame index, seconds or milliseconds timestamp, tried in that order.
pub open spec fn unit_atom_at(s: Seq<u8>, i: int) -> Option<(usize, DSLType)> {
    match frame_at(s, i) {
        Some(r) => Some(r),
        None => match seconds_at(s, i) {
            Some(r) => Some(r),
            None => millis_at(s, i),
        },
    }
}

pub open spec fn spanned<T>(t: T, start: int, end: int) -> DSLItem<T> {
    DSLItem { content: t, offset: start as usize, length: (end - start) as usize }
}

pub open spec fn parse_error(kind: ParseErrorKind, source: ErrorCode, start: int, end: int) -> ParseError {
    ParseError { offset: start as usize, length: (end - start) as usize, source, kind }
}

/// One atom at `p`, after blanks: `Ok((end, None))` at the end of the input.
/// A clock time is tried first, then the forms with a unit; input that
/// starts with a digit and matches none is an error at the atom, of code
/// `Digit` where the number does not fit in 64 bits and `Tag` (covering the
/// digits) where the unit is wrong. An operator where an atom belongs is
/// `Escaped`; any other text must start with a keyword.
pub open spec fn lex_item(s: Seq<u8>, p: int) -> Result<(usize, Option<DSLItem<DSLType>>), ParseError> {
    let q = skip_blanks(s, p);
    if q >= s.len() {
        Ok((q as usize, None))
    } else if is_digit(s[q]) {
        match clock_at(s, q) {
            Err(e) => Err(parse_error(ParseErrorKind::Nom, ErrorCode::Count, q, e as int)),
            Ok(Some((e, t))) => Ok((e, Some(spanned(t, q, e as int)))),
            Ok(None) => match unit_atom_at(s, q) {
                Some((e, t)) => Ok((e, Some(spanned(t, q, e as int)))),
                None => if number_at(s, q) is None {
                    Err(parse_error(ParseErrorKind::Nom, ErrorCode::Digit, q, q))
                } else {
                    Err(parse_error(ParseErrorKind::Nom, ErrorCode::Tag, q, digits_end(s, q)))
                },
            },
        }
    } else if s[q] == 43 || s[q] == 45 {
        Err(parse_error(ParseErrorKind::Nom, ErrorCode::Escaped, q, q + 1))
    } else {
        match keyword_at(s, q) {
            Some((e, t)) => Ok((e, Some(spanned(t, q, e as int)))),
            None => Err(parse_error(ParseErrorKind::Keywords, ErrorCode::Tag, q, q)),
        }
    }
}

fn clock_rest(s: &[u8], e: usize, fields: u8, secs: u128) -> (r: Result<Option<(usize, DSLType)>, usize>)
    requires
        e <= s.len(),
        1 <= fields <= 3,
        secs < 0x1_0000_0000_0000_0000_0000,
    ensures
        r == clock_tail(s@, e as int, fields as int, secs as int),
{
    if e < s.len() && s[e] == 46 {
        let (g, _) = scan_digits(s, e + 1);
        if g == e + 1 {
            Ok(None)
        } else if g - (e + 1) > 3 {
            if fields >= 2 {
                Err(g)
            } else {
                Ok(None)
            }
        } else if fields == 1 && g < s.len() && ((65 <= s[g] && s[g] <= 90) || (97 <= s[g] && s[g] <= 122)) {
            Ok(None)
        } else {
            proof {
                assert forall|k: int| e + 1 <= k < g implies is_digit(#[trigger] s@[k]) by {
                    lemma_digit_run(s@, e + 1, k);
                }
            }
            let ms = scan_fraction(s, e + 1, g);
            Ok(Some((g, DSLType::Timestamp(cap_u128(secs * 1000 + ms as u128)))))
        }
    } else if fields >= 2 {
        Ok(Some((e, DSLType::Timestamp(cap_u128(secs * 1000)))))
    } else {
        Ok(None)
    }
}

/// Reads a clock time `H:M:S`, `M:S` or `S.fff` at `pos`. `Ok(None)` where
/// there is none; `Err(end)` where the text has too many fields or
/// fractional digits for one.
pub fn parse_timestamp2(input: &[u8], pos: usize) -> (r: Result<Option<(usize, DSLType)>, usize>)
    requires
        pos <= input.len(),
    ensures
        r == clock_at(input@, pos as int),
{
    let (e1, f1) = match scan_number(input, pos) {
        Some(x) => x,
        None => return Ok(None),
    };
    if !(e1 < input.len() && input[e1] == 58) {
        return clock_rest(input, e1, 1, f1 as u128);
    }
    let (e2, f2) = match scan_number(input, e1 + 1) {
        Some(x) => x,
        None => return Ok(None),
    };
    if !(e2 < input.len() && input[e2] == 58) {
        return clock_rest(input, e2, 2, f1 as u128 * 60 + f2 as u128);
    }
    let (e3, f3) = match scan_number(input, e2 + 1) {
        Some(x) => x,
        None => return Ok(None),
    };
    if !(e3 < input.len() && input[e3] == 58) {
        return clock_rest(input, e3, 3, f1 as u128 * 3600 + f2 as u128 * 60 + f3 as u128);
    }
    match scan_number(input, e3 + 1) {
        Some((e4, _)) => Err(e4),
        None => Ok(None),
    }
}

fn text_at(s: &[u8], i: usize, t: &Vec<u8>) -> (r: bool)
    requires
        i <= s.len(),
    ensures
        r == has_text_at(s@, i as int, t@),
{
    if t.len() > s.len() - i {
        return false;
    }
    let mut k: usize = 0;
    while k < t.len()
        invariant
            k <= t.len(),
            i + t.len() <= s.len(),
            forall|m: int| 0 <= m < k ==> s@[i + m] == t@[m],
        decreases t.len() - k,
    {
        if s[i + k] != t[k] {
            assert(s@.subrange(i as int, i + t.len())[k as int] != t@[k as int]);
            return false;
        }
        k = k + 1;
    }
    assert(s@.subrange(i as int, i + t.len()) =~= t@);
    true
}

/// Reads one of the keywords `end`, `from`, `to` at `pos`.
pub fn parse_keyword(input: &[u8], pos: usize) -> (r: Option<(usize, DSLType)>)
    requires
        pos <= input.len(),
    ensures
        r == keyword_at(input@, pos as int),
{
    if text_at(input, pos, &DSLKeywords::End.token()) {
        Some((pos + 3, DSLType::Keyword(DSLKeywords::End)))
    } else if text_at(input, pos, &DSLKeywords::From.token()) {
        Some((pos + 4, DSLType::Keyword(DSLKeywords::From)))
    } else if text_at(input, pos, &DSLKeywords::To.token()) {
        Some((pos + 2, DSLType::Keyword(DSLKeywords::To)))
    } else {
        None
    }
}

/// Reads one atom at `pos`, after blanks, with its span.
pub fn parse_item(input: &[u8], pos: usize) -> (r: Result<(usize, Option<DSLItem<DSLType>>), ParseError>)
    requires
        pos <= input.len(),
    ensures
        r == lex_item(input@, pos as int),
{
    let q = skip_blank_bytes(input, pos);
    if q >= input.len() {
        return Ok((q, None));
    }
    let b = input[q];
    if 48 <= b && b <= 57 {
        match parse_timestamp2(input, q) {
            Err(e) => {
                proof { lemma_clock_end(input@, q as int); }
                return Err(ParseError { offset: q, length: e - q, source: ErrorCode::Count, kind: ParseErrorKind::Nom });
            },
            Ok(Some((e, t))) => {
                proof { lemma_clock_end(input@, q as int); }
                return Ok((e, Some(DSLItem { content: t, offset: q, length: e - q })));
            },
            Ok(None) => {},
        }
        let found = match parse_frame_index(input, q) {
            Some(x) => Some(x),
            None => match parse_timestamp1(input, q) {
                Some(x) => Some(x),
                None => parse_timestamp3(input, q),
            },
        };
        match found {
            Some((e, t)) => {
                proof { lemma_unit_end(input@, q as int); }
                Ok((e, Some(DSLItem { content: t, offset: q, length: e - q })))
            },
            None => {
                let (d, v) = scan_digits(input, q);
                proof {
                    assert(digits_end(input@, q as int) == digits_end(input@, q + 1));
                    lemma_digits_end_bounds(input@, q + 1);
                }
                match v {
                    None => Err(ParseError { offset: q, length: 0, source: ErrorCode::Digit, kind: ParseErrorKind::Nom }),
                    Some(_) => Err(ParseError { offset: q, length: d - q, source: ErrorCode::Tag, kind: ParseErrorKind::Nom }),
                }
            },
        }
    } else if b == 43 || b == 45 {
        Err(ParseError { offset: q, length: 1, source: ErrorCode::Escaped, kind: ParseErrorKind::Nom })
    } else {
        match parse_keyword(input, q) {
            Some((e, t)) => Ok((e, Some(DSLItem { content: t, offset: q, length: e - q }))),
            None => Err(ParseError { offset: q, length: 0, source: ErrorCode::Tag, kind: ParseErrorKind::Keywords }),
        }
    }
}

proof fn lemma_number_end(s: Seq<u8>, i: int)
    requires
        0 <= i <= s.len(),
        s.len() <= usize::MAX,
    ensures
        number_at(s, i) matches Some((e, _)) ==> i < e <= s.len(),
{
    lemma_digits_end_bounds(s, i);
}

proof fn lemma_fraction_end(s: Seq<u8>, e: int)
    requires
        0 <= e <= s.len(),
        s.len() <= usize::MAX,
    ensures
        byte_at(s, e, 46) ==> e + 1 <= digits_end(s, e + 1) <= s.len(),
{
    if byte_at(s, e, 46) {
        lemma_digits_end_bounds(s, e + 1);
    }
}

/// A clock time that is read ends after its start and within the input.
proof fn lemma_clock_end(s: Seq<u8>, i: int)
    requires
        0 <= i <= s.len(),
        s.len() <= usize::MAX,
    ensures
        clock_at(s, i) matches Ok(Some((e, _))) ==> i < e <= s.len(),
        clock_at(s, i) matches Err(e) ==> i < e <= s.len(),
{
    lemma_number_end(s, i);
    if let Some((e1, _)) = number_at(s, i) {
        lemma_fraction_end(s, e1);
        if byte_at(s, e1, 58) {
            lemma_number_end(s, e1 + 1);
            if let Some((e2, _)) = number_at(s, e1 + 1) {
                lemma_fraction_end(s, e2);
                if byte_at(s, e2, 58) {
                    lemma_number_end(s, e2 + 1);
                    if let Some((e3, _)) = number_at(s, e2 + 1) {
                        lemma_fraction_end(s, e3);
                        if byte_at(s, e3, 58) {
                            lemma_number_end(s, e3 + 1);
                        }
                    }
                }
            }
        }
    }
}

/// An atom with a unit that is read ends after its start and within the input.
proof fn lemma_unit_end(s: Seq<u8>, i: int)
    requires
        0 <= i <= s.len(),
        s.len() <= usize::MAX,
    ensures
        unit_atom_at(s, i) matches Some((e, _)) ==> i < e <= s.len(),
{
    lemma_number_end(s, i);
    if let Some((e, _)) = number_at(s, i) {
        lemma_fraction_end(s, e);
    }
}

proof fn lemma_skip_blanks_bounds(s: Seq<u8>, i: int)
    requires
        0 <= i <= s.len(),
    ensures
        i <= skip_blanks(s, i) <= s.len(),
        skip_blanks(s, i) < s.len() ==> !is_blank(s[skip_blanks(s, i)]),
    decreases s.len() - i,
{
    if i < s.len() && is_blank(s[i]) {
        lemma_skip_blanks_bounds(s, i + 1);
    }
}

/// An atom that is read lies after `p` and within the input; where none is
/// read, the input is used up.
pub proof fn lemma_item_end(s: Seq<u8>, p: int)
    requires
        0 <= p <= s.len(),
        s.len() <= usize::MAX,
    ensures
        lex_item(s, p) matches Ok((r, Some(_))) ==> p < r <= s.len(),
        lex_item(s, p) matches Ok((r, None)) ==> r == s.len(),
{
    lemma_skip_blanks_bounds(s, p);
    let q = skip_blanks(s, p);
    if q < s.len() {
        lemma_clock_end(s, q);
        lemma_unit_end(s, q);
    }
}

/// One operator at `p`, after blanks: `Ok((end, None))` at the end of the input.
pub open spec fn lex_op(s: Seq<u8>, p: int) -> Result<(usize, Option<DSLItem<DSLOp>>), ParseError> {
    let q = skip_blanks(s, p);
    if q >= s.len() {
        Ok((q as usize, None))
    } else if s[q] == 43 {
        Ok(((q + 1) as usize, Some(spanned(DSLOp::Add, q, q + 1))))
    } else if s[q] == 45 {
        Ok(((q + 1) as usize, Some(spanned(DSLOp::Sub, q, q + 1))))
    } else {
        Err(parse_error(ParseErrorKind::Op, ErrorCode::Tag, q, q))
    }
}

proof fn lemma_op_end(s: Seq<u8>, p: int)
    requires
        0 <= p <= s.len(),
        s.len() <= usize::MAX,
    ensures
        lex_op(s, p) matches Ok((q, Some(op))) ==> p <= op.offset && op.offset + 1 == q <= s.len(),
        lex_op(s, p) matches Ok((q, None)) ==> q == s.len(),
{
    lemma_skip_blanks_bounds(s, p);
}

/// One step of the `(op item)*` loop.
proof fn lemma_tail_step(s: Seq<u8>, p: int)
    requires
        0 <= p < s.len(),
        s.len() <= usize::MAX,
    ensures
        lex_op(s, p) matches Err(e) ==> lex_tail(s, p) == Err::<Parsed, ParseError>(e),
        lex_op(s, p) matches Ok((_, None)) ==> lex_tail(s, p) == Ok::<Parsed, ParseError>((seq![], seq![])),
        lex_op(s, p) matches Ok((q, Some(op))) ==> {
            &&& p < q <= s.len()
            &&& lex_item(s, q as int) matches Err(e) ==> lex_tail(s, p) == Err::<Parsed, ParseError>(e)
            &&& lex_item(s, q as int) matches Ok((r, None)) ==> lex_tail(s, p) == Err::<Parsed, ParseError>(
                parse_error(ParseErrorKind::Nom, ErrorCode::Escaped, op.offset as int, r as int))
            &&& lex_item(s, q as int) matches Ok((r, Some(it))) ==> p < r <= s.len() && lex_tail(s, p) == attach(
                seq![it], seq![op], lex_tail(s, r as int))
        },
{
    lemma_op_end(s, p);
    if let Ok((q, Some(_))) = lex_op(s, p) {
        lemma_item_end(s, q as int);
    }
}

/// Reads one operator at `pos`, after blanks, with its span.
pub fn parse_op(input: &[u8], pos: usize) -> (r: Result<(usize, Option<DSLItem<DSLOp>>), ParseError>)
    requires
        pos <= input.len(),
    ensures
        r == lex_op(input@, pos as int),
{
    let q = skip_blank_bytes(input, pos);
    if q >= input.len() {
        Ok((q, None))
    } else if input[q] == 43 {
        Ok((q + 1, Some(DSLItem { content: DSLOp::Add, offset: q, length: 1 })))
    } else if input[q] == 45 {
        Ok((q + 1, Some(DSLItem { content: DSLOp::Sub, offset: q, length: 1 })))
    } else {
        Err(ParseError { offset: q, length: 0, source: ErrorCode::Tag, kind: ParseErrorKind::Op })
    }
}

/// A parsed expression: atoms with the operators between them.
#[derive(Debug)]
pub struct Expr {
    /// The atoms, in source order.
    pub items: Vec<DSLItem<DSLType>>,
    /// The operators; as parsed, `ops[i]` stands between `items[i]` and
    /// `items[i + 1]`.
    pub ops: Vec<DSLItem<DSLOp>>,
}

pub type Parsed = (Seq<DSLItem<DSLType>>, Seq<DSLItem<DSLOp>>);

/// Prefixes a successful parse with atoms and operators read before it.
pub open spec fn attach(is: Seq<DSLItem<DSLType>>, os: Seq<DSLItem<DSLOp>>, r: Result<Parsed, ParseError>) -> Result<Parsed, ParseError> {
    match r {
        Ok((a, b)) => Ok((is + a, os + b)),
        Err(e) => Err(e),
    }
}

/// The `(op item)*` part of an expression, from `p` on.
pub open spec fn lex_tail(s: Seq<u8>, p: int) -> Result<Parsed, ParseError>
    decreases s.len() - p,
{
    if p < 0 || p >= s.len() {
        Ok((seq![], seq![]))
    } else {
        match lex_op(s, p) {
            Err(e) => Err(e),
            Ok((_, None)) => Ok((seq![], seq![])),
            Ok((q, Some(op))) => match lex_item(s, q as int) {
                Err(e) => Err(e),
                Ok((r, None)) => Err(parse_error(ParseErrorKind::Nom, ErrorCode::Escaped, op.offset as int, r as int)),
                Ok((r, Some(it))) => if r as int <= p || r as int > s.len() {
                    // not reached: an atom that is read is not empty
                    Ok((seq![], seq![]))
                } else {
                    attach(seq![it], seq![op], lex_tail(s, r as int))
                },
            },
        }
    }
}

/// A whole expression `[op] item (op item)*`: the first atom may carry a
/// sign of its own. The empty text gives no atoms.
pub open spec fn lex_expr(s: Seq<u8>) -> Result<Parsed, ParseError> {
    match lex_op(s, 0) {
        Ok((q, Some(op))) => match lex_item(s, q as int) {
            Err(e) => Err(e),
            Ok((r, None)) => Err(parse_error(ParseErrorKind::Nom, ErrorCode::Escaped, op.offset as int, r as int)),
            Ok((r, Some(it))) => attach(seq![it], seq![op], lex_tail(s, r as int)),
        },
        _ => match lex_item(s, 0) {
            Err(e) => Err(e),
            Ok((_, None)) => Ok((seq![], seq![])),
            Ok((p, Some(it))) => attach(seq![it], seq![], lex_tail(s, p as int)),
        },
    }
}

/// Parses a whole time expression. An operator with no atom after it is
/// an `Escaped` error at the operator.
pub fn parse_expr(input: &[u8]) -> (r: Result<Expr, ParseError>)
    ensures
        match r {
            Ok(e) => lex_expr(input@) == Ok::<Parsed, ParseError>((e.items@, e.ops@)),
            Err(x) => lex_expr(input@) == Err::<Parsed, ParseError>(x),
        },
{
    let n = input.len();
    proof {
        assert(input@.len() == n);
        lemma_item_end(input@, 0);
        lemma_op_end(input@, 0);
    }
    let mut items: Vec<DSLItem<DSLType>> = Vec::new();
    let mut ops: Vec<DSLItem<DSLOp>> = Vec::new();
    let mut pos: usize;
    let leading = match parse_op(input, 0) {
        Ok((q, Some(op))) => Some((q, op)),
        _ => None,
    };
    match leading {
        Some((q, op)) => {
            proof { lemma_item_end(input@, q as int); }
            let (r, it) = match parse_item(input, q) {
                Err(e) => return Err(e),
                Ok(x) => x,
            };
            match it {
                None => {
                    return Err(ParseError { offset: op.offset, length: r - op.offset, source: ErrorCode::Escaped, kind: ParseErrorKind::Nom });
                },
                Some(it) => {
                    items.push(it);
                    ops.push(op);
                    pos = r;
                },
            }
        },
        None => {
            let (p, first) = match parse_item(input, 0) {
                Err(e) => return Err(e),
                Ok(x) => x,
            };
            match first {
                None => {
                    let r = Expr { items, ops };
                    assert(r.items@ =~= seq![]);
                    assert(r.ops@ =~= seq![]);
                    return Ok(r);
                },
                Some(it) => {
                    items.push(it);
                    pos = p;
                },
            }
        },
    }
    parse_rest(input, pos, items, ops)
}

/// Reads `(op item)*` from `start` on, after the atoms and operators read so far.
fn parse_rest(input: &[u8], start: usize, done_items: Vec<DSLItem<DSLType>>, done_ops: Vec<DSLItem<DSLOp>>) -> (r: Result<Expr, ParseError>)
    requires
        start <= input.len(),
    ensures
        match r {
            Ok(e) => attach(done_items@, done_ops@, lex_tail(input@, start as int)) == Ok::<Parsed, ParseError>((e.items@, e.ops@)),
            Err(x) => attach(done_items@, done_ops@, lex_tail(input@, start as int)) == Err::<Parsed, ParseError>(x),
        },
{
    let ghost goal = attach(done_items@, done_ops@, lex_tail(input@, start as int));
    let mut items = done_items;
    let mut ops = done_ops;
    let mut pos: usize = start;
    while pos < input.len()
        invariant
            pos <= input.len(),
            goal == attach(items@, ops@, lex_tail(input@, pos as int)),
            goal == attach(done_items@, done_ops@, lex_tail(input@, start as int)),
        ensures
            goal == attach(items@, ops@, Ok((seq![], seq![]))),
        decreases input.len() - pos,
    {
        proof { lemma_tail_step(input@, pos as int); }
        let (q, op) = match parse_op(input, pos) {
            Err(e) => return Err(e),
            Ok(x) => x,
        };
        let op = match op {
            None => break,
            Some(op) => op,
        };
        proof {
            lemma_op_end(input@, pos as int);
            assert(op.offset < q);
        }
        proof { lemma_item_end(input@, q as int); }
        let (r, it) = match parse_item(input, q) {
            Err(e) => return Err(e),
            Ok(x) => x,
        };
        let it = match it {
            None => {
                assert(r == input.len());
                return Err(ParseError { offset: op.offset, length: r - op.offset, source: ErrorCode::Escaped, kind: ParseErrorKind::Nom });
            },
            Some(it) => it,
        };
        proof {
            let tail = lex_tail(input@, r as int);
            match tail {
                Ok((a, b)) => {
                    assert(items@.push(it) + a =~= items@ + (seq![it] + a));
                    assert(ops@.push(op) + b =~= ops@ + (seq![op] + b));
                },
                Err(_) => {},
            }
        }
        items.push(it);
        ops.push(op);
        pos = r;
    }
    proof {
        assert(items@ + seq![] =~= items@);
        assert(ops@ + seq![] =~= ops@);
    }
    Ok(Expr { items, ops })
}

proof fn lemma_tail_shape(s: Seq<u8>, p: int)
    requires
        s.len() <= usize::MAX,
    ensures
        lex_tail(s, p) matches Ok((is, os)) ==> is.len() == os.len(),
    decreases s.len() - p,
{
    if 0 <= p < s.len() {
        lemma_tail_step(s, p);
        if let Ok((q, Some(_))) = lex_op(s, p) {
            if let Ok((r, Some(_))) = lex_item(s, q as int) {
                lemma_tail_shape(s, r as int);
            }
        }
    }
}

/// A parsed expression has one operator between each two atoms.
pub proof fn lemma_expr_shape(s: Seq<u8>)
    requires
        s.len() <= usize::MAX,
    ensures
        lex_expr(s) matches Ok((is, os)) ==> os.len() + 1 == is.len() || os.len() == is.len(),
{
    lemma_item_end(s, 0);
    lemma_op_end(s, 0);
    if let Ok((q, Some(_))) = lex_op(s, 0) {
        lemma_item_end(s, q as int);
        if let Ok((r, Some(_))) = lex_item(s, q as int) {
            lemma_tail_shape(s, r as int);
        }
    } else if let Ok((p, Some(_))) = lex_item(s, 0) {
        lemma_tail_shape(s, p as int);
    }
}

/// The decimal digits of `n`, without leading zeros.
pub open spec fn decimal(n: nat) -> Seq<u8>
    decreases n,
{
    if n < 10 {
        seq![(48 + n) as u8]
    } else {
        decimal(n / 10).push((48 + n % 10) as u8)
    }
}

pub open spec fn pow10(k: nat) -> nat
    decreases k,
{
    if k == 0 {
        1
    } else {
        10 * pow10((k - 1) as nat)
    }
}

proof fn lemma_decimal_digits(n: nat)
    ensures
        decimal(n).len() >= 1,
        forall|j: int| 0 <= j < decimal(n).len() ==> is_digit(#[trigger] decimal(n)[j]),
    decreases n,
{
    if n >= 10 {
        lemma_decimal_digits(n / 10);
        let d = decimal(n / 10);
        assert forall|j: int| 0 <= j < decimal(n).len() implies is_digit(#[trigger] decimal(n)[j]) by {
            if j < d.len() {
                assert(decimal(n)[j] == d[j]);
            }
        }
    }
}

proof fn lemma_decimal_len(n: nat, k: nat)
    requires
        k >= 1,
        n < pow10(k),
    ensures
        decimal(n).len() <= k,
    decreases k,
{
    if n >= 10 {
        assert(n / 10 < pow10((k - 1) as nat)) by (nonlinear_arith)
            requires
                n < 10 * pow10((k - 1) as nat),
        ;
        assert(k - 1 >= 1) by {
            if k == 1 {
                assert(pow10(0) == 1);
            }
        }
        lemma_decimal_len(n / 10, (k - 1) as nat);
    }
}

/// A `u64` has at most twenty digits.
proof fn lemma_u64_decimal_len(n: u64)
    ensures
        decimal(n as nat).len() <= 20,
{
    reveal_with_fuel(pow10, 21);
    assert(pow10(20) == 100000000000000000000);
    lemma_decimal_len(n as nat, 20);
}

/// Where `t` holds the digits of `n` at `i`, followed by a non-digit or the
/// end, the number read at `i` is `n`.
proof fn lemma_number_of_decimal(t: Seq<u8>, i: int, n: nat)
    requires
        0 <= i,
        i + decimal(n).len() <= t.len(),
        t.subrange(i, i + decimal(n).len()) == decimal(n),
        n <= u64::MAX,
        i + decimal(n).len() < t.len() ==> !is_digit(t[i + decimal(n).len()]),
    ensures
        number_at(t, i) == Some((i + decimal(n).len(), n as u64)),
{
    let l = decimal(n).len() as int;
    lemma_decimal_digits(n);
    lemma_digits_value_of_decimal(t, i, n);
    assert forall|j: int| i <= j <= i + l implies digits_end(t, j) == i + l by {
        lemma_digits_end_from(t, i, l, j);
    }
}

proof fn lemma_digits_end_from(t: Seq<u8>, i: int, l: int, j: int)
    requires
        0 <= i <= j <= i + l <= t.len(),
        forall|m: int| i <= m < i + l ==> is_digit(#[trigger] t[m]),
        i + l < t.len() ==> !is_digit(t[i + l]),
    ensures
        digits_end(t, j) == i + l,
    decreases i + l - j,
{
    if j < i + l {
        lemma_digits_end_from(t, i, l, j + 1);
    }
}

proof fn lemma_digits_value_of_decimal(t: Seq<u8>, i: int, n: nat)
    requires
        0 <= i,
        i + decimal(n).len() <= t.len(),
        t.subrange(i, i + decimal(n).len()) == decimal(n),
    ensures
        digits_value(t, i, i + decimal(n).len()) == n,
        forall|m: int| i <= m < i + decimal(n).len() ==> is_digit(#[trigger] t[m]),
    decreases n,
{
    let l = decimal(n).len() as int;
    lemma_decimal_digits(n);
    assert forall|m: int| i <= m < i + l implies is_digit(#[trigger] t[m]) by {
        assert(t[m] == t.subrange(i, i + l)[m - i]);
    }
    if n < 10 {
        assert(t[i] == t.subrange(i, i + l)[0]);
        assert(digits_value(t, i, i) == 0);
    } else {
        let d = decimal(n / 10);
        assert(t.subrange(i, i + d.len()) =~= d) by {
            assert forall|m: int| 0 <= m < d.len() implies t.subrange(i, i + d.len())[m] == d[m] by {
                assert(t.subrange(i, i + l)[m] == decimal(n)[m]);
            }
        }
        lemma_digits_value_of_decimal(t, i, n / 10);
        assert(t[i + l - 1] == t.subrange(i, i + l)[l - 1]);
    }
}

/// Reading a frame index back: `N f` gives `FrameIndex(N)` over the whole text.
pub proof fn lemma_frame_round_trip(n: u64)
    ensures
        ({
            let t = decimal(n as nat).push(102);
            lex_item(t, 0) == Ok::<(usize, Option<DSLItem<DSLType>>), ParseError>(
                (t.len() as usize, Some(spanned(DSLType::FrameIndex(n), 0, t.len() as int))),
            )
        }),
{
    let d = decimal(n as nat);
    let t = d.push(102);
    lemma_u64_decimal_len(n);
    lemma_decimal_digits(n as nat);
    assert(t.subrange(0, d.len() as int) =~= d);
    lemma_number_of_decimal(t, 0, n as nat);
    assert(t[0] == d[0]);
    assert(skip_blanks(t, 0) == 0);
}

/// Reading a millisecond timestamp back: `N ms` gives `Timestamp(N)` over
/// the whole text.
pub proof fn lemma_millis_round_trip(n: u64)
    ensures
        ({
            let t = decimal(n as nat).push(109).push(115);
            lex_item(t, 0) == Ok::<(usize, Option<DSLItem<DSLType>>), ParseError>(
                (t.len() as usize, Some(spanned(DSLType::Timestamp(n), 0, t.len() as int))),
            )
        }),
{
    let d = decimal(n as nat);
    let t = d.push(109).push(115);
    lemma_u64_decimal_len(n);
    lemma_decimal_digits(n as nat);
    assert(t.subrange(0, d.len() as int) =~= d);
    lemma_number_of_decimal(t, 0, n as nat);
    assert(t[0] == d[0]);
    assert(skip_blanks(t, 0) == 0);
}

/// Reading a seconds timestamp back: `N s` gives `N * 1000` milliseconds
/// (at most `u64::MAX`) over the whole text.
pub proof fn lemma_seconds_round_trip(n: u64)
    ensures
        ({
            let t = decimal(n as nat).push(115);
            lex_item(t, 0) == Ok::<(usize, Option<DSLItem<DSLType>>), ParseError>(
                (t.len() as usize, Some(spanned(DSLType::Timestamp(cap(n * 1000)), 0, t.len() as int))),
            )
        }),
{
    let d = decimal(n as nat);
    let t = d.push(115);
    lemma_u64_decimal_len(n);
    lemma_decimal_digits(n as nat);
    assert(t.subrange(0, d.len() as int) =~= d);
    lemma_number_of_decimal(t, 0, n as nat);
    assert(t[0] == d[0]);
    assert(skip_blanks(t, 0) == 0);
}

/// Reading a clock time back: `M:S` gives `(M * 60 + S) * 1000`
/// milliseconds (at most `u64::MAX`) over the whole text.
pub proof fn lemma_clock_round_trip(m: u64, sec: u64)
    ensures
        ({
            let t = decimal(m as nat).push(58) + decimal(sec as nat);
            lex_item(t, 0) == Ok::<(usize, Option<DSLItem<DSLType>>), ParseError>(
                (t.len() as usize, Some(spanned(DSLType::Timestamp(cap((m * 60 + sec) * 1000)), 0, t.len() as int))),
            )
        }),
{
    let a = decimal(m as nat);
    let b = decimal(sec as nat);
    let t = a.push(58) + b;
    lemma_u64_decimal_len(m);
    lemma_u64_decimal_len(sec);
    lemma_decimal_digits(m as nat);
    lemma_decimal_digits(sec as nat);
    assert(t.subrange(0, a.len() as int) =~= a);
    assert(t[a.len() as int] == 58);
    lemma_number_of_decimal(t, 0, m as nat);
    assert(t.subrange(a.len() + 1int, a.len() + 1int + b.len()) =~= b);
    lemma_number_of_decimal(t, a.len() + 1int, sec as nat);
    assert(t[0] == a[0]);
    assert(skip_blanks(t, 0) == 0);
}

/// Reading a keyword back: its text gives the keyword over the whole text.
pub proof fn lemma_keyword_round_trip(k: DSLKeywords)
    ensures
        ({
            let t = keyword_text(k);
            lex_item(t, 0) == Ok::<(usize, Option<DSLItem<DSLType>>), ParseError>(
                (t.len() as usize, Some(spanned(DSLType::Keyword(k), 0, t.len() as int))),
            )
        }),
{
    let t = keyword_text(k);
    assert(skip_blanks(t, 0) == 0);
    assert(t.subrange(0, t.len() as int) =~= t);
    match k {
        DSLKeywords::End => {},
        DSLKeywords::From => {
            assert(t.subrange(0, 3) != keyword_text(DSLKeywords::End)) by {
                assert(t.subrange(0, 3)[0] != keyword_text(DSLKeywords::End)[0]);
            }
        },
        DSLKeywords::To => {},
    }
}

} // verus!
