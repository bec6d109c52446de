//! Scanners for the literal values of an expression: numbers, quoted text,
//! translated text and variables. Each reads the characters `s[p..]` of an
//! expression whose character `p` stands at byte `byte` of the template, and
//! returns the span of the literal and the index just past it.

use vstd::prelude::*;
use crate::text::{byte_len, find_ws, first_ws, lemma_first_ws, width_of};

verus! {

/// Why an expression could not be lexed.
#[derive(Debug, PartialEq, Eq)]
pub enum LexerError {
    /// A quoted or translated literal is missing its closing delimiter.
    UnterminatedLiteral { at: (usize, usize) },
    /// `_(` is not followed by a quoted literal.
    InvalidTranslatedText { at: (usize, usize) },
    /// A value is directly followed by more text.
    InvalidRemainder { at: (usize, usize) },
}

impl LexerError {
    /// A short description of the error.
    pub fn message(&self) -> (r: String)
        ensures
            r@ == match self {
                LexerError::UnterminatedLiteral { .. } => "Unterminated literal"@,
                LexerError::InvalidTranslatedText { .. } => "Expected a quoted string after '_('"@,
                LexerError::InvalidRemainder { .. } => "Could not parse the remainder"@,
            },
    {
        match self {
            LexerError::UnterminatedLiteral { .. } => String::from_str("Unterminated literal"),
            LexerError::InvalidTranslatedText { .. } => String::from_str(
                "Expected a quoted string after '_('",
            ),
            LexerError::InvalidRemainder { .. } => String::from_str(
                "Could not parse the remainder",
            ),
        }
    }
}

/// `byte_len` is additive over adjacent ranges.
pub proof fn lemma_width_split(s: Seq<char>, p: int, e: int, f: int)
    requires
        0 <= p <= e <= f <= s.len(),
    ensures
        byte_len(s.subrange(p, f)) == byte_len(s.subrange(p, e)) + byte_len(s.subrange(e, f)),
{
    crate::text::lemma_encode_concat(s.subrange(p, e), s.subrange(e, f));
    assert(s.subrange(p, f) =~= s.subrange(p, e) + s.subrange(e, f));
}

/// Index of the first `q` in `s` at or after `i`, or `s.len()`.
pub open spec fn first_eq(s: Seq<char>, i: int, q: char) -> int
    decreases s.len() - i,
{
    if 0 <= i < s.len() {
        if s[i] == q {
            i
        } else {
            first_eq(s, i + 1, q)
        }
    } else {
        s.len() as int
    }
}

pub proof fn lemma_first_eq(s: Seq<char>, i: int, q: char)
    requires
        0 <= i <= s.len(),
    ensures
        i <= first_eq(s, i, q) <= s.len(),
        forall|k: int| i <= k < first_eq(s, i, q) ==> #[trigger] s[k] != q,
        first_eq(s, i, q) < s.len() ==> s[first_eq(s, i, q)] == q,
    decreases s.len() - i,
{
    if i < s.len() && s[i] != q {
        lemma_first_eq(s, i + 1, q);
    }
}

/// Characters that continue a number after its first character.
pub open spec fn is_numeric_char(c: char) -> bool {
    ('0' <= c && c <= '9') || c == '.'
}

/// Index of the first character of `s` at or after `i` that cannot continue
/// a number, or `s.len()`.
pub open spec fn numeric_end(s: Seq<char>, i: int) -> int
    decreases s.len() - i,
{
    if 0 <= i < s.len() {
        if !is_numeric_char(s[i]) {
            i
        } else {
            numeric_end(s, i + 1)
        }
    } else {
        s.len() as int
    }
}

pub proof fn lemma_numeric_end(s: Seq<char>, i: int)
    requires
        0 <= i <= s.len(),
    ensures
        i <= numeric_end(s, i) <= s.len(),
    decreases s.len() - i,
{
    if i < s.len() && is_numeric_char(s[i]) {
        lemma_numeric_end(s, i + 1);
    }
}

/// Where a quoted literal that opens at `s[p]` ends, or the error.
pub open spec fn text_lexed(byte: int, s: Seq<char>, p: int) -> Result<int, LexerError> {
    let k = first_eq(s, p + 1, s[p]);
    if k == s.len() {
        Err(
            LexerError::UnterminatedLiteral {
                at: (byte as usize, byte_len(s.subrange(p, s.len() as int)) as usize),
            },
        )
    } else {
        Ok(k + 1)
    }
}

/// Where a translated literal `_("...")` that opens at `s[p]` ends, or the error.
pub open spec fn translated_lexed(byte: int, s: Seq<char>, p: int) -> Result<int, LexerError> {
    if p + 2 >= s.len() || !(s[p + 2] == '"' || s[p + 2] == '\'') {
        Err(
            LexerError::InvalidTranslatedText {
                at: (byte as usize, byte_len(s.subrange(p, p + 2)) as usize),
            },
        )
    } else {
        match text_lexed(byte + byte_len(s.subrange(p, p + 2)), s, p + 2) {
            Err(_) => Err(
                LexerError::UnterminatedLiteral {
                    at: (byte as usize, byte_len(s.subrange(p, s.len() as int)) as usize),
                },
            ),
            Ok(e) => if e < s.len() && s[e] == ')' {
                Ok(e + 1)
            } else {
                Err(
                    LexerError::UnterminatedLiteral {
                        at: (byte as usize, byte_len(s.subrange(p, e)) as usize),
                    },
                )
            },
        }
    }
}

/// The span of `s[p..e]` when `s[p]` stands at byte `byte`.
pub open spec fn span_from(byte: int, s: Seq<char>, p: int, e: int) -> (usize, usize) {
    (byte as usize, byte_len(s.subrange(p, e)) as usize)
}

fn find_eq(s: &Vec<char>, from: usize, q: char) -> (r: usize)
    requires
        from <= s.len(),
    ensures
        r == first_eq(s@, from as int, q),
{
    let mut i: usize = from;
    while i < s.len() && s[i] != q
        invariant
            from <= i <= s.len(),
            first_eq(s@, i as int, q) == first_eq(s@, from as int, q),
        decreases s.len() - i,
    {
        i = i + 1;
    }
    i
}

/// Lexes a variable, with its attributes and filters: everything up to the
/// next whitespace.
pub fn lex_variable(s: &Vec<char>, p: usize, byte: usize) -> (r: ((usize, usize), usize))
    requires
        p <= s.len(),
        byte + byte_len(s@.subrange(p as int, s@.len() as int)) <= usize::MAX,
    ensures
        r.1 == first_ws(s@, p as int),
        r.0 == span_from(byte as int, s@, p as int, r.1 as int),
{
    let e = find_ws(s, p);
    proof {
        lemma_first_ws(s@, p as int);
        lemma_width_split(s@, p as int, e as int, s@.len() as int);
    }
    let len = width_of(s, p, e);
    ((byte, len), e)
}

/// Lexes a number: a digit or `-`, then digits and `.`.
pub fn lex_numeric(s: &Vec<char>, p: usize, byte: usize) -> (r: ((usize, usize), usize))
    requires
        p < s.len(),
        byte + byte_len(s@.subrange(p as int, s@.len() as int)) <= usize::MAX,
    ensures
        r.1 == numeric_end(s@, p + 1),
        r.0 == span_from(byte as int, s@, p as int, r.1 as int),
{
    let mut e: usize = p + 1;
    while e < s.len() && (('0' <= s[e] && s[e] <= '9') || s[e] == '.')
        invariant
            p < e <= s.len(),
            numeric_end(s@, e as int) == numeric_end(s@, p + 1),
        decreases s.len() - e,
    {
        e = e + 1;
    }
    proof {
        lemma_width_split(s@, p as int, e as int, s@.len() as int);
    }
    let len = width_of(s, p, e);
    ((byte, len), e)
}

/// Lexes a literal quoted by the character `s[p]`, quotes included.
pub fn lex_text(s: &Vec<char>, p: usize, byte: usize) -> (r: Result<
    ((usize, usize), usize),
    LexerError,
>)
    requires
        p < s.len(),
        byte + byte_len(s@.subrange(p as int, s@.len() as int)) <= usize::MAX,
    ensures
        match text_lexed(byte as int, s@, p as int) {
            Ok(e) => r == Ok::<_, LexerError>((span_from(byte as int, s@, p as int, e), e as usize)),
            Err(err) => r == Err::<((usize, usize), usize), _>(err),
        },
{
    let k = find_eq(s, p + 1, s[p]);
    proof {
        lemma_first_eq(s@, p + 1, s@[p as int]);
    }
    if k == s.len() {
        let len = width_of(s, p, s.len());
        return Err(LexerError::UnterminatedLiteral { at: (byte, len) });
    }
    proof {
        lemma_width_split(s@, p as int, k + 1, s@.len() as int);
    }
    let len = width_of(s, p, k + 1);
    Ok(((byte, len), k + 1))
}

/// Lexes a translated literal `_('...')` or `_("...")` that opens at `s[p]`.
pub fn lex_translated(s: &Vec<char>, p: usize, byte: usize) -> (r: Result<
    ((usize, usize), usize),
    LexerError,
>)
    requires
        p + 1 < s.len(),
        byte + byte_len(s@.subrange(p as int, s@.len() as int)) <= usize::MAX,
    ensures
        match translated_lexed(byte as int, s@, p as int) {
            Ok(e) => r == Ok::<_, LexerError>((span_from(byte as int, s@, p as int, e), e as usize)),
            Err(err) => r == Err::<((usize, usize), usize), _>(err),
        },
{
    proof {
        lemma_width_split(s@, p as int, p + 2, s@.len() as int);
    }
    if p + 2 >= s.len() || !(s[p + 2] == '"' || s[p + 2] == '\'') {
        let len = width_of(s, p, p + 2);
        return Err(LexerError::InvalidTranslatedText { at: (byte, len) });
    }
    let prefix = width_of(s, p, p + 2);
    match lex_text(s, p + 2, byte + prefix) {
        Err(_) => {
            let len = width_of(s, p, s.len());
            Err(LexerError::UnterminatedLiteral { at: (byte, len) })
        },
        Ok((_, e)) => {
            proof {
                lemma_first_eq(s@, p + 3, s@[p + 2]);
                lemma_width_split(s@, p as int, e as int, s@.len() as int);
            }
            if e < s.len() && s[e] == ')' {
                proof {
                    lemma_width_split(s@, p as int, e + 1, s@.len() as int);
                }
                let len = width_of(s, p, e + 1);
                Ok(((byte, len), e + 1))
            } else {
                let len = width_of(s, p, e);
                Err(LexerError::UnterminatedLiteral { at: (byte, len) })
            }
        },
    }
}

} // verus!
