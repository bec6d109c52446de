//! The lexer for the expression of a conditional tag: words and operators
//! separated by whitespace, and the literal values of `common`.

use vstd::prelude::*;
use vstd::utf8::encode_utf8;
use crate::lex::common::{
    lemma_first_eq, lemma_numeric_end, lemma_width_split, lex_numeric, lex_text, lex_translated,
    lex_variable, numeric_end, span_from, text_lexed, translated_lexed, LexerError,
};
use crate::lex::tag::TagParts;
use crate::text::{
    byte_len, chars_of, find_non_ws, find_ws, first_non_ws, first_ws, is_ws, lemma_encode_split,
    lemma_first_non_ws, lemma_first_ws, valid_span, width_of,
};
use crate::types::TemplateString;

verus! {

/// The kinds of token of a conditional expression.
#[derive(Debug, PartialEq, Eq, Clone, Copy)]
pub enum IfConditionTokenType {
    Numeric,
    Text,
    TranslatedText,
    Variable,
    And,
    Or,
    Not,
    Equal,
    NotEqual,
    LessThan,
    GreaterThan,
    LessThanEqual,
    GreaterThanEqual,
    In,
    NotIn,
    Is,
    IsNot,
}

/// A token of a conditional expression and its span in the template.
#[derive(Debug, PartialEq, Eq)]
pub struct IfConditionToken {
    pub at: (usize, usize),
    pub token_type: IfConditionTokenType,
}

/// The operator spelled by the word `w`, if it spells one.
pub open spec fn keyword(w: Seq<char>) -> Option<IfConditionTokenType> {
    if w.len() == 1 && w[0] == '<' {
        Some(IfConditionTokenType::LessThan)
    } else if w.len() == 1 && w[0] == '>' {
        Some(IfConditionTokenType::GreaterThan)
    } else if w.len() == 2 && w[0] == 'o' && w[1] == 'r' {
        Some(IfConditionTokenType::Or)
    } else if w.len() == 2 && w[0] == '=' && w[1] == '=' {
        Some(IfConditionTokenType::Equal)
    } else if w.len() == 2 && w[0] == '!' && w[1] == '=' {
        Some(IfConditionTokenType::NotEqual)
    } else if w.len() == 2 && w[0] == '<' && w[1] == '=' {
        Some(IfConditionTokenType::LessThanEqual)
    } else if w.len() == 2 && w[0] == '>' && w[1] == '=' {
        Some(IfConditionTokenType::GreaterThanEqual)
    } else if w.len() == 2 && w[0] == 'i' && w[1] == 'n' {
        Some(IfConditionTokenType::In)
    } else if w.len() == 2 && w[0] == 'i' && w[1] == 's' {
        Some(IfConditionTokenType::Is)
    } else if w.len() == 3 && w[0] == 'a' && w[1] == 'n' && w[2] == 'd' {
        Some(IfConditionTokenType::And)
    } else if w.len() == 3 && w[0] == 'n' && w[1] == 'o' && w[2] == 't' {
        Some(IfConditionTokenType::Not)
    } else {
        None
    }
}

/// The operator that starts at `s[p]` and the index just past it, if the
/// word there is an operator. `not in` and `is not` are one operator each.
pub open spec fn operator_lexed(s: Seq<char>, p: int) -> Option<(IfConditionTokenType, int)> {
    let i = first_ws(s, p);
    let j = first_non_ws(s, i);
    let f = first_ws(s, j);
    match keyword(s.subrange(p, i)) {
        None => None,
        Some(k) => if k == IfConditionTokenType::Not {
            if keyword(s.subrange(j, f)) == Some(IfConditionTokenType::In) {
                Some((IfConditionTokenType::NotIn, f))
            } else {
                Some((IfConditionTokenType::Not, i))
            }
        } else if k == IfConditionTokenType::Is {
            if keyword(s.subrange(j, f)) == Some(IfConditionTokenType::Not) {
                Some((IfConditionTokenType::IsNot, f))
            } else {
                Some((IfConditionTokenType::Is, i))
            }
        } else {
            Some((k, i))
        },
    }
}

/// The kind of value that starts at `s[p]` (byte `byte`) and the index just
/// past it, or the error.
pub open spec fn value_lexed(byte: int, s: Seq<char>, p: int) -> Result<
    (IfConditionTokenType, int),
    LexerError,
> {
    let c = s[p];
    if c == '_' && p + 1 < s.len() && s[p + 1] == '(' {
        match translated_lexed(byte, s, p) {
            Ok(e) => Ok((IfConditionTokenType::TranslatedText, e)),
            Err(x) => Err(x),
        }
    } else if c == '"' || c == '\'' {
        match text_lexed(byte, s, p) {
            Ok(e) => Ok((IfConditionTokenType::Text, e)),
            Err(x) => Err(x),
        }
    } else if ('0' <= c && c <= '9') || c == '-' {
        Ok((IfConditionTokenType::Numeric, numeric_end(s, p + 1)))
    } else {
        Ok((IfConditionTokenType::Variable, first_ws(s, p)))
    }
}

/// One value at `s[p]`, checked to be followed by whitespace or the end:
/// the token or error, and the index where lexing goes on.
pub open spec fn value_step(byte: int, s: Seq<char>, p: int) -> (
    Result<IfConditionToken, LexerError>,
    int,
) {
    match value_lexed(byte, s, p) {
        Err(x) => (Err(x), s.len() as int),
        Ok((k, e)) => {
            let n = first_ws(s, e);
            if n == e {
                (Ok(IfConditionToken { at: span_from(byte, s, p, e), token_type: k }), first_non_ws(s, e))
            } else {
                (
                    Err(
                        LexerError::InvalidRemainder {
                            at: span_from(byte + byte_len(s.subrange(p, e)), s, e, n),
                        },
                    ),
                    s.len() as int,
                )
            }
        },
    }
}

/// One step of the lexer at `s[p]` (byte `byte`), for `p < s.len()`: the
/// token or error, and the index where lexing goes on. After an error that
/// index is the end.
pub open spec fn lexed(byte: int, s: Seq<char>, p: int) -> (
    Result<IfConditionToken, LexerError>,
    int,
) {
    match operator_lexed(s, p) {
        Some((k, e)) => (
            Ok(IfConditionToken { at: span_from(byte, s, p, e), token_type: k }),
            first_non_ws(s, e),
        ),
        None => value_step(byte, s, p),
    }
}

/// The end of the text that the token of a step at `s[p]` is lexed from.
pub open spec fn lexeme_end(byte: int, s: Seq<char>, p: int) -> int {
    match operator_lexed(s, p) {
        Some((k, e)) => e,
        None => match value_lexed(byte, s, p) {
            Ok((k, e)) => e,
            Err(_) => p,
        },
    }
}

/// Every step moves forward and stays within the expression, and a token
/// spans the text from `s[p]` to its lexeme's end.
pub proof fn lemma_lexed_progress(byte: int, s: Seq<char>, p: int)
    requires
        0 <= p < s.len(),
    ensures
        p <= lexeme_end(byte, s, p) <= lexed(byte, s, p).1 <= s.len(),
        p < lexed(byte, s, p).1,
        lexed(byte, s, p).0 matches Ok(t) ==> t.at == span_from(
            byte,
            s,
            p,
            lexeme_end(byte, s, p),
        ),
{
    lemma_first_ws(s, p);
    let i = first_ws(s, p);
    lemma_first_non_ws(s, i);
    let j = first_non_ws(s, i);
    lemma_first_ws(s, j);
    lemma_first_non_ws(s, j);
    match operator_lexed(s, p) {
        Some((k, e)) => {
            lemma_first_non_ws(s, e);
        },
        None => {
            lemma_numeric_end(s, p + 1);
            lemma_first_eq(s, p + 1, s[p]);
            if p + 2 < s.len() {
                lemma_first_eq(s, p + 3, s[p + 2]);
            }
            match value_lexed(byte, s, p) {
                Err(_) => {},
                Ok((k, e)) => {
                    lemma_first_ws(s, e);
                    lemma_first_non_ws(s, e);
                    lemma_first_non_ws(s, p);
                },
            }
        },
    }
}

/// The tokens, and at most one error, that lexing yields from `s[p]` on.
pub open spec fn lexed_all(byte: int, s: Seq<char>, p: int) -> Seq<
    Result<IfConditionToken, LexerError>,
>
    decreases s.len() - p,
{
    if 0 <= p < s.len() {
        let (r, q) = lexed(byte, s, p);
        if p < q <= s.len() {
            seq![r] + lexed_all(byte + byte_len(s.subrange(p, q)), s, q)
        } else {
            seq![r]
        }
    } else {
        Seq::empty()
    }
}

fn keyword_of(s: &Vec<char>, from: usize, to: usize) -> (r: Option<IfConditionTokenType>)
    requires
        from <= to <= s.len(),
    ensures
        r == keyword(s@.subrange(from as int, to as int)),
{
    let ghost w = s@.subrange(from as int, to as int);
    let n = to - from;
    if n == 1 {
        let a = s[from];
        assert(w[0] == a);
        if a == '<' {
            Some(IfConditionTokenType::LessThan)
        } else if a == '>' {
            Some(IfConditionTokenType::GreaterThan)
        } else {
            None
        }
    } else if n == 2 {
        let a = s[from];
        let b = s[from + 1];
        assert(w[0] == a && w[1] == b);
        if a == 'o' && b == 'r' {
            Some(IfConditionTokenType::Or)
        } else if a == '=' && b == '=' {
            Some(IfConditionTokenType::Equal)
        } else if a == '!' && b == '=' {
            Some(IfConditionTokenType::NotEqual)
        } else if a == '<' && b == '=' {
            Some(IfConditionTokenType::LessThanEqual)
        } else if a == '>' && b == '=' {
            Some(IfConditionTokenType::GreaterThanEqual)
        } else if a == 'i' && b == 'n' {
            Some(IfConditionTokenType::In)
        } else if a == 'i' && b == 's' {
            Some(IfConditionTokenType::Is)
        } else {
            None
        }
    } else if n == 3 {
        let a = s[from];
        let b = s[from + 1];
        let c = s[from + 2];
        assert(w[0] == a && w[1] == b && w[2] == c);
        if a == 'a' && b == 'n' && c == 'd' {
            Some(IfConditionTokenType::And)
        } else if a == 'n' && b == 'o' && c == 't' {
            Some(IfConditionTokenType::Not)
        } else {
            None
        }
    } else {
        None
    }
}

/// The lexer of a conditional expression: yields its tokens one at a time,
/// and nothing more after the first error.
pub struct IfConditionLexer {
    chars: Vec<char>,
    pos: usize,
    byte: usize,
    end: usize,
}

impl IfConditionLexer {
    /// The characters of the expression.
    pub closed spec fn expr(&self) -> Seq<char> {
        self.chars@
    }

    /// Index in `expr()` of the next character to lex.
    pub closed spec fn position(&self) -> int {
        self.pos as int
    }

    /// Byte offset in the template of the next character to lex.
    pub closed spec fn cursor(&self) -> int {
        self.byte as int
    }

    pub closed spec fn wf(&self) -> bool {
        &&& self.pos <= self.chars@.len()
        &&& self.byte + byte_len(self.chars@.subrange(self.pos as int, self.chars@.len() as int))
            == self.end
    }

    /// A lexer for the expression at span `parts.at` of `template`.
    pub fn new(template: TemplateString, parts: TagParts) -> (l: Self)
        requires
            valid_span(template.0@, parts.at),
        ensures
            l.wf(),
            l.position() == 0,
            l.cursor() == parts.at.0,
            encode_utf8(l.expr()) == encode_utf8(template.0@).subrange(
                parts.at.0 as int,
                parts.at.0 + parts.at.1,
            ),
    {
        let text = template.content(parts.at);
        let chars = chars_of(text);
        proof {
            let s = template.0@;
            let (i, j) = choose|i: int, j: int|
                0 <= i <= j <= s.len() && byte_len(s.take(i)) == parts.at.0 && byte_len(
                    s.take(j),
                ) == parts.at.0 + parts.at.1;
            lemma_encode_split(s, j, j);
            assert(chars@.subrange(0, chars@.len() as int) =~= chars@);
        }
        IfConditionLexer { chars, pos: 0, byte: parts.at.0, end: parts.at.0 + parts.at.1 }
    }

    /// Stops the lexer: nothing is left to lex.
    fn halt(&mut self)
        requires
            old(self).wf(),
        ensures
            final(self).wf(),
            final(self).expr() == old(self).expr(),
            final(self).position() == final(self).expr().len(),
            final(self).cursor() == old(self).cursor() + byte_len(
                old(self).expr().subrange(old(self).position(), old(self).expr().len() as int),
            ),
    {
        self.pos = self.chars.len();
        self.byte = self.end;
        assert(self.chars@.subrange(self.pos as int, self.pos as int) =~= Seq::<char>::empty());
    }

    /// Moves past `s[pos..e]`, which is `len` bytes long.
    fn advance(&mut self, e: usize, len: usize)
        requires
            old(self).wf(),
            old(self).pos <= e <= old(self).chars.len(),
            len == span_from(old(self).cursor(), old(self).expr(), old(self).position(), e as int).1,
        ensures
            final(self).wf(),
            final(self).expr() == old(self).expr(),
            final(self).position() == e,
            final(self).cursor() == old(self).cursor() + len,
            len == byte_len(old(self).expr().subrange(old(self).position(), e as int)),
    {
        proof {
            lemma_width_split(self.chars@, self.pos as int, e as int, self.chars@.len() as int);
        }
        self.pos = e;
        self.byte = self.byte + len;
    }

    fn lex_variable(&mut self) -> (t: IfConditionToken)
        requires
            old(self).wf(),
        ensures
            final(self).wf(),
            final(self).expr() == old(self).expr(),
            final(self).position() == first_ws(old(self).expr(), old(self).position()),
            t == (IfConditionToken {
                at: span_from(old(self).cursor(), old(self).expr(), old(self).position(), final(self).position()),
                token_type: IfConditionTokenType::Variable,
            }),
            final(self).cursor() == old(self).cursor() + byte_len(
                old(self).expr().subrange(old(self).position(), final(self).position()),
            ),
    {
        let (at, e) = lex_variable(&self.chars, self.pos, self.byte);
        proof {
            lemma_first_ws(self.chars@, self.pos as int);
        }
        self.advance(e, at.1);
        IfConditionToken { at, token_type: IfConditionTokenType::Variable }
    }

    fn lex_numeric(&mut self) -> (t: IfConditionToken)
        requires
            old(self).wf(),
            old(self).position() < old(self).expr().len(),
        ensures
            final(self).wf(),
            final(self).expr() == old(self).expr(),
            final(self).position() == numeric_end(old(self).expr(), old(self).position() + 1),
            t == (IfConditionToken {
                at: span_from(old(self).cursor(), old(self).expr(), old(self).position(), final(self).position()),
                token_type: IfConditionTokenType::Numeric,
            }),
            final(self).cursor() == old(self).cursor() + byte_len(
                old(self).expr().subrange(old(self).position(), final(self).position()),
            ),
    {
        let (at, e) = lex_numeric(&self.chars, self.pos, self.byte);
        proof {
            lemma_numeric_end(self.chars@, self.pos + 1);
        }
        self.advance(e, at.1);
        IfConditionToken { at, token_type: IfConditionTokenType::Numeric }
    }

    fn lex_text(&mut self) -> (r: Result<IfConditionToken, LexerError>)
        requires
            old(self).wf(),
            old(self).position() < old(self).expr().len(),
        ensures
            final(self).wf(),
            final(self).expr() == old(self).expr(),
            match text_lexed(old(self).cursor(), old(self).expr(), old(self).position()) {
                Ok(e) => {
                    &&& r == Ok::<_, LexerError>(
                        IfConditionToken {
                            at: span_from(old(self).cursor(), old(self).expr(), old(self).position(), e),
                            token_type: IfConditionTokenType::Text,
                        },
                    )
                    &&& final(self).position() == e
                    &&& final(self).cursor() == old(self).cursor() + byte_len(
                        old(self).expr().subrange(old(self).position(), e),
                    )
                },
                Err(x) => {
                    &&& r == Err::<IfConditionToken, _>(x)
                    &&& final(self).position() == final(self).expr().len()
                    &&& final(self).cursor() == old(self).cursor() + byte_len(
                        old(self).expr().subrange(old(self).position(), old(self).expr().len() as int),
                    )
                },
            },
    {
        proof {
            lemma_first_eq(self.chars@, self.pos + 1, self.chars@[self.pos as int]);
        }
        match lex_text(&self.chars, self.pos, self.byte) {
            Ok((at, e)) => {
                self.advance(e, at.1);
                Ok(IfConditionToken { at, token_type: IfConditionTokenType::Text })
            },
            Err(x) => {
                self.halt();
                Err(x)
            },
        }
    }

    fn lex_translated(&mut self) -> (r: Result<IfConditionToken, LexerError>)
        requires
            old(self).wf(),
            old(self).position() + 1 < old(self).expr().len(),
        ensures
            final(self).wf(),
            final(self).expr() == old(self).expr(),
            match translated_lexed(old(self).cursor(), old(self).expr(), old(self).position()) {
                Ok(e) => {
                    &&& r == Ok::<_, LexerError>(
                        IfConditionToken {
                            at: span_from(old(self).cursor(), old(self).expr(), old(self).position(), e),
                            token_type: IfConditionTokenType::TranslatedText,
                        },
                    )
                    &&& final(self).position() == e
                    &&& final(self).cursor() == old(self).cursor() + byte_len(
                        old(self).expr().subrange(old(self).position(), e),
                    )
                },
                Err(x) => {
                    &&& r == Err::<IfConditionToken, _>(x)
                    &&& final(self).position() == final(self).expr().len()
                    &&& final(self).cursor() == old(self).cursor() + byte_len(
                        old(self).expr().subrange(old(self).position(), old(self).expr().len() as int),
                    )
                },
            },
    {
        proof {
            if self.pos + 2 < self.chars.len() {
                lemma_first_eq(self.chars@, self.pos + 3, self.chars@[self.pos + 2]);
            }
        }
        match lex_translated(&self.chars, self.pos, self.byte) {
            Ok((at, e)) => {
                self.advance(e, at.1);
                Ok(IfConditionToken { at, token_type: IfConditionTokenType::TranslatedText })
            },
            Err(x) => {
                self.halt();
                Err(x)
            },
        }
    }

    /// Checks that what was just lexed is followed by whitespace or the end,
    /// and moves past that whitespace.
    fn lex_remainder(&mut self) -> (r: Result<(), LexerError>)
        requires
            old(self).wf(),
        ensures
            final(self).wf(),
            final(self).expr() == old(self).expr(),
            ({
                let s = old(self).expr();
                let p = old(self).position();
                let n = first_ws(s, p);
                if n == p {
                    &&& r is Ok
                    &&& final(self).position() == first_non_ws(s, p)
                    &&& final(self).cursor() == old(self).cursor() + byte_len(
                        s.subrange(p, final(self).position()),
                    )
                } else {
                    &&& r == Err::<(), _>(
                        LexerError::InvalidRemainder { at: span_from(old(self).cursor(), s, p, n) },
                    )
                    &&& final(self).position() == s.len()
                    &&& final(self).cursor() == old(self).cursor() + byte_len(
                        s.subrange(p, s.len() as int),
                    )
                }
            }),
    {
        let n = find_ws(&self.chars, self.pos);
        proof {
            lemma_first_ws(self.chars@, self.pos as int);
            lemma_width_split(self.chars@, self.pos as int, n as int, self.chars@.len() as int);
        }
        if n == self.pos {
            let q = find_non_ws(&self.chars, n);
            proof {
                lemma_first_non_ws(self.chars@, n as int);
                lemma_width_split(self.chars@, self.pos as int, q as int, self.chars@.len() as int);
            }
            let len = width_of(&self.chars, self.pos, q);
            self.advance(q, len);
            Ok(())
        } else {
            let len = width_of(&self.chars, self.pos, n);
            let at = (self.byte, len);
            self.halt();
            Err(LexerError::InvalidRemainder { at })
        }
    }

    /// Lexes the value that starts at the current position.
    fn lex_condition(&mut self) -> (r: Result<IfConditionToken, LexerError>)
        requires
            old(self).wf(),
            old(self).position() < old(self).expr().len(),
        ensures
            final(self).wf(),
            final(self).expr() == old(self).expr(),
            r == value_step(old(self).cursor(), old(self).expr(), old(self).position()).0,
            final(self).position() == value_step(
                old(self).cursor(),
                old(self).expr(),
                old(self).position(),
            ).1,
            final(self).cursor() == old(self).cursor() + byte_len(
                old(self).expr().subrange(old(self).position(), final(self).position()),
            ),
    {
        let ghost s = self.chars@;
        let ghost p = self.pos as int;
        let c = self.chars[self.pos];
        proof {
            lemma_numeric_end(s, p + 1);
            lemma_first_ws(s, p);
            lemma_first_eq(s, p + 1, s[p]);
            if p + 2 < s.len() {
                lemma_first_eq(s, p + 3, s[p + 2]);
            }
        }
        let n = self.chars.len();
        let next = self.pos + 1;
        let token = if c == '_' && next < n && self.chars[next] == '(' {
            self.lex_translated()
        } else if c == '"' || c == '\'' {
            self.lex_text()
        } else if ('0' <= c && c <= '9') || c == '-' {
            Ok(self.lex_numeric())
        } else {
            Ok(self.lex_variable())
        };
        match token {
            Err(x) => Err(x),
            Ok(t) => {
                let ghost e = self.pos as int;
                let rem = self.lex_remainder();
                proof {
                    lemma_first_non_ws(s, e);
                    lemma_width_split(s, p, e, self.pos as int);
                }
                match rem {
                    Ok(()) => Ok(t),
                    Err(x) => Err(x),
                }
            },
        }
    }

    /// The next token, or the error that ends lexing, or `None` once the
    /// expression is used up or an error was given.
    pub fn next(&mut self) -> (r: Option<Result<IfConditionToken, LexerError>>)
        requires
            old(self).wf(),
        ensures
            final(self).wf(),
            final(self).expr() == old(self).expr(),
            old(self).position() >= old(self).expr().len() ==> {
                &&& r is None
                &&& final(self).position() == old(self).position()
                &&& final(self).cursor() == old(self).cursor()
            },
            old(self).position() < old(self).expr().len() ==> ({
                let (res, q) = lexed(old(self).cursor(), old(self).expr(), old(self).position());
                &&& r == Some(res)
                &&& final(self).position() == q
                &&& final(self).cursor() == old(self).cursor() + byte_len(
                    old(self).expr().subrange(old(self).position(), q),
                )
            }),
            r matches Some(Err(_)) ==> final(self).position() == final(self).expr().len(),
    {
        if self.pos >= self.chars.len() {
            return None;
        }
        let p = self.pos;
        let byte = self.byte;
        let i = find_ws(&self.chars, p);
        proof {
            lemma_first_ws(self.chars@, p as int);
            lemma_first_non_ws(self.chars@, i as int);
            lemma_first_ws(self.chars@, first_non_ws(self.chars@, i as int));
        }
        match keyword_of(&self.chars, p, i) {
            Some(kind) => {
                let (token_type, e) = match kind {
                    IfConditionTokenType::Not => {
                        let j = find_non_ws(&self.chars, i);
                        let f = find_ws(&self.chars, j);
                        match keyword_of(&self.chars, j, f) {
                            Some(IfConditionTokenType::In) => (IfConditionTokenType::NotIn, f),
                            _ => (IfConditionTokenType::Not, i),
                        }
                    },
                    IfConditionTokenType::Is => {
                        let j = find_non_ws(&self.chars, i);
                        let f = find_ws(&self.chars, j);
                        match keyword_of(&self.chars, j, f) {
                            Some(IfConditionTokenType::Not) => (IfConditionTokenType::IsNot, f),
                            _ => (IfConditionTokenType::Is, i),
                        }
                    },
                    k => (k, i),
                };
                let q = find_non_ws(&self.chars, e);
                proof {
                    lemma_first_non_ws(self.chars@, e as int);
                    lemma_width_split(self.chars@, p as int, e as int, self.chars@.len() as int);
                    lemma_width_split(self.chars@, p as int, q as int, self.chars@.len() as int);
                }
                let len = width_of(&self.chars, p, e);
                let skipped = width_of(&self.chars, p, q);
                self.advance(q, skipped);
                Some(Ok(IfConditionToken { at: (byte, len), token_type }))
            },
            None => Some(self.lex_condition()),
        }
    }

    /// Everything left to lex: the tokens in order, ending with the error
    /// that stopped lexing if there was one.
    pub fn tokens(&mut self) -> (r: Vec<Result<IfConditionToken, LexerError>>)
        requires
            old(self).wf(),
        ensures
            final(self).wf(),
            r@ == lexed_all(old(self).cursor(), old(self).expr(), old(self).position()),
            final(self).position() >= final(self).expr().len(),
    {
        let ghost s = self.chars@;
        let ghost all = lexed_all(self.byte as int, s, self.pos as int);
        let mut out: Vec<Result<IfConditionToken, LexerError>> = Vec::new();
        while self.pos < self.chars.len()
            invariant
                self.wf(),
                self.chars@ == s,
                out@ + lexed_all(self.byte as int, s, self.pos as int) == all,
            decreases s.len() - self.pos,
        {
            let ghost b = self.byte as int;
            let ghost p = self.pos as int;
            let ghost before = out@;
            proof {
                lemma_lexed_progress(b, s, p);
            }
            if let Some(item) = self.next() {
                out.push(item);
            }
            proof {
                let q = self.pos as int;
                let rest = lexed_all(self.byte as int, s, q);
                assert(lexed_all(b, s, p) == seq![lexed(b, s, p).0] + rest);
                assert(out@ + rest =~= before + (seq![lexed(b, s, p).0] + rest));
            }
        }
        proof {
            assert(out@ + Seq::<Result<IfConditionToken, LexerError>>::empty() =~= out@);
        }
        out
    }
}

/// Round trip: let the expression `s` stand at character `i` of the
/// template `src`, and lexing reach `s[p]` at the byte where that character
/// stands. A token of the step then has a span that lies on character
/// boundaries of `src` and resolves to exactly the characters it was lexed
/// from, and the step ends at the byte where its last character ends.
pub proof fn lemma_token_round_trip(src: Seq<char>, i: int, s: Seq<char>, p: int)
    requires
        0 <= i,
        i + s.len() <= src.len(),
        src.subrange(i, i + s.len()) == s,
        0 <= p < s.len(),
        byte_len(src) <= usize::MAX,
    ensures
        ({
            let b = byte_len(src.take(i + p)) as int;
            let q = lexed(b, s, p).1;
            b + byte_len(s.subrange(p, q)) == byte_len(src.take(i + q))
        }),
        ({
            let b = byte_len(src.take(i + p)) as int;
            let e = lexeme_end(b, s, p);
            lexed(b, s, p).0 matches Ok(t) ==> {
                &&& valid_span(src, t.at)
                &&& encode_utf8(src).subrange(t.at.0 as int, t.at.0 + t.at.1) == encode_utf8(
                    s.subrange(p, e),
                )
            }
        }),
{
    let b = byte_len(src.take(i + p)) as int;
    lemma_lexed_progress(b, s, p);
    let q = lexed(b, s, p).1;
    let e = lexeme_end(b, s, p);
    lemma_encode_split(src, i + p, i + q);
    lemma_encode_split(src, i + p, i + e);
    lemma_encode_split(src, i + e, i + e);
    assert(src.subrange(i + p, i + q) =~= s.subrange(p, q));
    assert(src.subrange(i + p, i + e) =~= s.subrange(p, e));
}

/// An error ends lexing: a value directly followed by other text yields one
/// `InvalidRemainder` error spanning that text, and nothing after it.
pub proof fn lemma_remainder_ends_lexing(byte: int, s: Seq<char>, p: int)
    requires
        0 <= p < s.len(),
        operator_lexed(s, p) is None,
        value_lexed(byte, s, p) is Ok,
        lexeme_end(byte, s, p) < s.len(),
        !is_ws(s[lexeme_end(byte, s, p)]),
    ensures
        ({
            let e = lexeme_end(byte, s, p);
            lexed_all(byte, s, p) == seq![
                Err::<IfConditionToken, _>(
                    LexerError::InvalidRemainder {
                        at: span_from(byte + byte_len(s.subrange(p, e)), s, e, first_ws(s, e)),
                    },
                ),
            ]
        }),
{
    let e = lexeme_end(byte, s, p);
    lemma_lexed_progress(byte, s, p);
    lemma_first_ws(s, e + 1);
    assert(first_ws(s, e) == first_ws(s, e + 1));
    let r = lexed(byte, s, p).0;
    assert(lexed(byte, s, p).1 == s.len());
    assert(lexed_all(byte, s, p) == seq![r] + lexed_all(
        byte + byte_len(s.subrange(p, s.len() as int)),
        s,
        s.len() as int,
    ));
    assert(seq![r] + Seq::<Result<IfConditionToken, LexerError>>::empty() =~= seq![r]);
}

/// The word that starts at `s[p]`.
pub open spec fn word_at(s: Seq<char>, p: int) -> Seq<char> {
    s.subrange(p, first_ws(s, p))
}

/// Where the word after the one at `s[p]` starts.
pub open spec fn next_word_start(s: Seq<char>, p: int) -> int {
    first_non_ws(s, first_ws(s, p))
}

proof fn lemma_keyword_words(w: Seq<char>)
    ensures
        (keyword(w) == Some(IfConditionTokenType::In)) == (w == seq!['i', 'n']),
        (keyword(w) == Some(IfConditionTokenType::Is)) == (w == seq!['i', 's']),
        (keyword(w) == Some(IfConditionTokenType::Not)) == (w == seq!['n', 'o', 't']),
{
    if w.len() == 2 && w[0] == 'i' && w[1] == 'n' {
        assert(w =~= seq!['i', 'n']);
    }
    if w.len() == 2 && w[0] == 'i' && w[1] == 's' {
        assert(w =~= seq!['i', 's']);
    }
    if w.len() == 3 && w[0] == 'n' && w[1] == 'o' && w[2] == 't' {
        assert(w =~= seq!['n', 'o', 't']);
    }
}

/// `not` followed by the word `in` is one `NotIn` token spanning both
/// words, and `not` followed by anything else is `Not` alone. Likewise
/// `is` followed by `not` is one `IsNot` token, and otherwise `Is`.
pub proof fn lemma_two_word_operators(byte: int, s: Seq<char>, p: int)
    requires
        0 <= p < s.len(),
    ensures
        ({
            let j = next_word_start(s, p);
            let pair = word_at(s, j) == seq!['i', 'n'];
            word_at(s, p) == seq!['n', 'o', 't'] ==> lexed(byte, s, p).0 == Ok::<_, LexerError>(
                IfConditionToken {
                    at: span_from(byte, s, p, if pair { first_ws(s, j) } else { first_ws(s, p) }),
                    token_type: if pair {
                        IfConditionTokenType::NotIn
                    } else {
                        IfConditionTokenType::Not
                    },
                },
            )
        }),
        ({
            let j = next_word_start(s, p);
            let pair = word_at(s, j) == seq!['n', 'o', 't'];
            word_at(s, p) == seq!['i', 's'] ==> lexed(byte, s, p).0 == Ok::<_, LexerError>(
                IfConditionToken {
                    at: span_from(byte, s, p, if pair { first_ws(s, j) } else { first_ws(s, p) }),
                    token_type: if pair {
                        IfConditionTokenType::IsNot
                    } else {
                        IfConditionTokenType::Is
                    },
                },
            )
        }),
{
    lemma_keyword_words(word_at(s, p));
    lemma_keyword_words(word_at(s, next_word_start(s, p)));
}

/// Lexing is repeatable: two lexers that `new` made from the same template
/// text and the same span yield the same tokens and errors.
pub proof fn lemma_lexing_repeatable(
    src: Seq<char>,
    at: (usize, usize),
    l1: IfConditionLexer,
    l2: IfConditionLexer,
)
    requires
        l1.position() == 0,
        l2.position() == 0,
        l1.cursor() == at.0,
        l2.cursor() == at.0,
        encode_utf8(l1.expr()) == encode_utf8(src).subrange(at.0 as int, at.0 + at.1),
        encode_utf8(l2.expr()) == encode_utf8(src).subrange(at.0 as int, at.0 + at.1),
    ensures
        lexed_all(l1.cursor(), l1.expr(), l1.position()) == lexed_all(
            l2.cursor(),
            l2.expr(),
            l2.position(),
        ),
{
    crate::text::lemma_encode_injective(l1.expr(), l2.expr());
}

} // verus!
