//! What a parse error is reported as: the message, where the caret goes,
//! and a keyword to suggest for a misspelt one.
use vstd::prelude::*;
use crate::atom::{DSLKeywords, keyword_text};
use crate::error::{ErrorCode, ParseError, ParseErrorKind};
use crate::lexer::letters_end;

verus! {

/// The Damerau-Levenshtein distance between two byte strings.
pub uninterp spec fn dl_distance(a: Seq<u8>, b: Seq<u8>) -> nat;

/// Relies on `strsim::generic_damerau_levenshtein`, which returns the
/// Damerau-Levenshtein distance of two slices and depends on nothing else.
#[verifier::external_body]
fn edit_distance(a: &[u8], b: &[u8]) -> (r: usize)
    ensures
        r as nat == dl_distance(a@, b@),
{
    strsim::generic_damerau_levenshtein(a, b)
}

/// The distance of `word` to a keyword, one less (but not below zero) when
/// the two start with the same letter.
pub open spec fn keyword_score(word: Seq<u8>, k: DSLKeywords, d: nat) -> nat {
    if word.len() > 0 && word[0] == keyword_text(k)[0] {
        if d >= 1 {
            (d - 1) as nat
        } else {
            0
        }
    } else {
        d
    }
}

/// The keyword whose score is at most 2 and strictly below both others.
pub open spec fn best_keyword(from_score: nat, to_score: nat, end_score: nat) -> Option<DSLKeywords> {
    if from_score <= 2 && from_score < to_score && from_score < end_score {
        Some(DSLKeywords::From)
    } else if to_score <= 2 && to_score < from_score && to_score < end_score {
        Some(DSLKeywords::To)
    } else if end_score <= 2 && end_score < from_score && end_score < to_score {
        Some(DSLKeywords::End)
    } else {
        None
    }
}

/// The suggestion for `word`, given its distances to `from`, `to` and `end`.
pub open spec fn suggestion(word: Seq<u8>, d_from: nat, d_to: nat, d_end: nat) -> Option<DSLKeywords> {
    best_keyword(
        keyword_score(word, DSLKeywords::From, d_from),
        keyword_score(word, DSLKeywords::To, d_to),
        keyword_score(word, DSLKeywords::End, d_end),
    )
}

fn score(word: &[u8], k: DSLKeywords, d: usize) -> (r: usize)
    ensures
        r as nat == keyword_score(word@, k, d as nat),
{
    let text = k.token();
    if word.len() > 0 && word[0] == text[0] {
        if d >= 1 {
            d - 1
        } else {
            0
        }
    } else {
        d
    }
}

/// Picks the keyword to suggest for `word` from its distances to `from`,
/// `to` and `end`: the one with the lowest score, if that score is at most
/// 2 and no other keyword has it.
pub fn pick_keyword(word: &[u8], d_from: usize, d_to: usize, d_end: usize) -> (r: Option<DSLKeywords>)
    ensures
        r == suggestion(word@, d_from as nat, d_to as nat, d_end as nat),
{
    let f = score(word, DSLKeywords::From, d_from);
    let t = score(word, DSLKeywords::To, d_to);
    let e = score(word, DSLKeywords::End, d_end);
    if f <= 2 && f < t && f < e {
        Some(DSLKeywords::From)
    } else if t <= 2 && t < f && t < e {
        Some(DSLKeywords::To)
    } else if e <= 2 && e < f && e < t {
        Some(DSLKeywords::End)
    } else {
        None
    }
}

/// The keyword to suggest for a misspelt `word`, if one stands out.
pub fn suggest_keyword(word: &[u8]) -> (r: Option<DSLKeywords>)
    ensures
        r == suggestion(
            word@,
            dl_distance(word@, keyword_text(DSLKeywords::From)),
            dl_distance(word@, keyword_text(DSLKeywords::To)),
            dl_distance(word@, keyword_text(DSLKeywords::End)),
        ),
{
    let d_from = edit_distance(word, DSLKeywords::From.token().as_slice());
    let d_to = edit_distance(word, DSLKeywords::To.token().as_slice());
    let d_end = edit_distance(word, DSLKeywords::End.token().as_slice());
    pick_keyword(word, d_from, d_to, d_end)
}

/// What went wrong, as the user is told.
#[derive(Debug, Clone, Copy, PartialEq, Eq, Structural)]
pub enum DiagnosticKind {
    /// A clock time with too many fields.
    TooManyFields,
    /// Something other than `+` or `-` after an atom.
    MissingOperator,
    /// A word that is not a keyword.
    UnknownKeyword,
    /// Text that is no atom.
    InvalidToken,
    /// An operator with no atom after it.
    EscapedOperator,
}

/// A report on a parse error, ready to render under the source line.
#[derive(Debug, Clone, Copy, PartialEq, Eq, Structural)]
pub struct Diagnostic {
    pub kind: DiagnosticKind,
    /// First byte of the source that the caret marks.
    pub caret_offset: usize,
    /// Number of bytes the caret marks.
    pub caret_length: usize,
    /// Start of the offending word (empty if there is none).
    pub word_start: usize,
    /// End of the offending word.
    pub word_end: usize,
    /// A keyword to suggest.
    pub help: Option<DSLKeywords>,
}

/// The report on `err` for `source`; `None` for errors that are reported
/// without details (a number too large).
pub open spec fn diagnosis(source: Seq<u8>, err: ParseError) -> Option<Diagnostic> {
    let at = err.offset + err.length;
    match err.source {
        ErrorCode::Count => Some(Diagnostic {
            kind: DiagnosticKind::TooManyFields,
            caret_offset: err.offset,
            caret_length: err.length,
            word_start: err.offset,
            word_end: err.offset,
            help: None,
        }),
        ErrorCode::Escaped => Some(Diagnostic {
            kind: DiagnosticKind::EscapedOperator,
            caret_offset: err.offset,
            caret_length: err.length,
            word_start: err.offset,
            word_end: err.offset,
            help: None,
        }),
        ErrorCode::Tag => if err.kind == ParseErrorKind::Op {
            Some(Diagnostic {
                kind: DiagnosticKind::MissingOperator,
                caret_offset: err.offset,
                caret_length: 1,
                word_start: err.offset,
                word_end: err.offset,
                help: None,
            })
        } else {
            let end = letters_end(source, at);
            let word = source.subrange(at, end);
            Some(Diagnostic {
                kind: if err.kind == ParseErrorKind::Keywords {
                    DiagnosticKind::UnknownKeyword
                } else {
                    DiagnosticKind::InvalidToken
                },
                caret_offset: at as usize,
                caret_length: if end > at { (end - at) as usize } else { 1 },
                word_start: at as usize,
                word_end: end as usize,
                help: if err.kind == ParseErrorKind::Keywords && end > at {
                    suggestion(
                        word,
                        dl_distance(word, keyword_text(DSLKeywords::From)),
                        dl_distance(word, keyword_text(DSLKeywords::To)),
                        dl_distance(word, keyword_text(DSLKeywords::End)),
                    )
                } else {
                    None
                },
            })
        },
        ErrorCode::Digit => None,
    }
}

/// Decides how a parse error of `source` is reported.
pub fn diagnose(source: &[u8], err: &ParseError) -> (r: Option<Diagnostic>)
    requires
        err.offset + err.length <= source.len(),
    ensures
        r == diagnosis(source@, *err),
{
    let at = err.offset + err.length;
    match err.source {
        ErrorCode::Count => Some(Diagnostic {
            kind: DiagnosticKind::TooManyFields,
            caret_offset: err.offset,
            caret_length: err.length,
            word_start: err.offset,
            word_end: err.offset,
            help: None,
        }),
        ErrorCode::Escaped => Some(Diagnostic {
            kind: DiagnosticKind::EscapedOperator,
            caret_offset: err.offset,
            caret_length: err.length,
            word_start: err.offset,
            word_end: err.offset,
            help: None,
        }),
        ErrorCode::Tag => if err.kind == ParseErrorKind::Op {
            Some(Diagnostic {
                kind: DiagnosticKind::MissingOperator,
                caret_offset: err.offset,
                caret_length: 1,
                word_start: err.offset,
                word_end: err.offset,
                help: None,
            })
        } else {
            let end = crate::lexer::letter_run_end(source, at);
            let keywords = err.kind == ParseErrorKind::Keywords;
            let help = if keywords && end > at {
                let word = slice_of(source, at, end);
                suggest_keyword(word.as_slice())
            } else {
                None
            };
            Some(Diagnostic {
                kind: if keywords {
                    DiagnosticKind::UnknownKeyword
                } else {
                    DiagnosticKind::InvalidToken
                },
                caret_offset: at,
                caret_length: if end > at { end - at } else { 1 },
                word_start: at,
                word_end: end,
                help,
            })
        },
        ErrorCode::Digit => None,
    }
}

fn slice_of(s: &[u8], a: usize, b: usize) -> (r: Vec<u8>)
    requires
        a <= b <= s.len(),
    ensures
        r@ == s@.subrange(a as int, b as int),
{
    let mut r: Vec<u8> = Vec::new();
    let mut i = a;
    while i < b
        invariant
            a <= i <= b <= s.len(),
            r@ == s@.subrange(a as int, i as int),
        decreases b - i,
    {
        r.push(s[i]);
        i = i + 1;
        assert(r@ =~= s@.subrange(a as int, i as int));
    }
    r
}

} // verus!
