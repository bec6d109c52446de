//! The tag lexer: splits the body of a `{% ... %}` tag into its name and the
//! raw text of its arguments.

use vstd::prelude::*;
use vstd::utf8::encode_utf8;
use crate::text::{
    byte_len, lemma_encode_concat, chars_of, find_non_ws, find_ws, first_non_ws, first_ws, is_whitespace, is_ws,
    lemma_encode_split, lemma_first_non_ws, lemma_first_ws, span_text, sub_chars, valid_span,
    width_of,
};

verus! {

/// Whether `c` has the Unicode `XID_Continue` property.
pub uninterp spec fn xid_continue(c: char) -> bool;

/// Relies on `unicode_xid::UnicodeXID::is_xid_continue` for `char`: the
/// `XID_Continue` property, which no whitespace character has.
#[verifier::external_body]
fn is_xid_continue(c: char) -> (r: bool)
    ensures
        r == xid_continue(c),
        is_ws(c) ==> !r,
{
    unicode_xid::UnicodeXID::is_xid_continue(c)
}

/// Why a tag body could not be lexed.
#[derive(Debug, PartialEq, Eq)]
pub enum TagLexerError {
    /// The text before the first whitespace is not an identifier.
    InvalidTagName { at: (usize, usize) },
}

impl TagLexerError {
    /// A short description of the error.
    pub fn message(&self) -> (r: String)
        ensures
            r@ == "Invalid block tag name"@,
    {
        String::from_str("Invalid block tag name")
    }
}

/// The name of a tag.
#[derive(Debug, PartialEq, Eq)]
pub struct TagToken {
    pub at: (usize, usize),
}

impl TagToken {
    /// The name as it stands in `template`.
    pub fn content<'t>(&self, template: &'t str) -> (r: &'t str)
        requires
            valid_span(template@, self.at),
        ensures
            encode_utf8(r@) == encode_utf8(template@).subrange(
                self.at.0 as int,
                self.at.0 + self.at.1,
            ),
    {
        span_text(template, self.at)
    }
}

/// The raw argument text of a tag, after its name.
#[derive(Debug, PartialEq, Eq)]
pub struct TagParts {
    pub at: (usize, usize),
}

/// Index of the first character of `s` at or after `i` that is not an
/// identifier character, or `s.len()`.
pub open spec fn first_non_xid(s: Seq<char>, i: int) -> int
    decreases s.len() - i,
{
    if 0 <= i < s.len() {
        if !xid_continue(s[i]) {
            i
        } else {
            first_non_xid(s, i + 1)
        }
    } else {
        s.len() as int
    }
}

/// Index just past the last non-whitespace character of `s[..j]`, or 0.
pub open spec fn trimmed_end(s: Seq<char>, j: int) -> int
    decreases j,
{
    if 0 < j <= s.len() {
        if !is_ws(s[j - 1]) {
            j
        } else {
            trimmed_end(s, j - 1)
        }
    } else {
        0
    }
}

/// `s` without its leading and trailing whitespace.
pub open spec fn trim(s: Seq<char>) -> Seq<char> {
    s.subrange(first_non_ws(s, 0), trimmed_end(s, s.len() as int))
}

/// What lexing the tag body `t`, found at byte offset `start`, gives.
pub open spec fn tag_lexed(t: Seq<char>, start: int) -> Result<
    Option<(TagToken, Option<TagParts>)>,
    TagLexerError,
> {
    let a = first_non_ws(t, 0);
    if a == t.len() {
        Ok(None)
    } else {
        let body = trim(t);
        let s0 = start + byte_len(t.take(a));
        let n = first_non_xid(body, 0);
        if n == body.len() {
            Ok(Some((TagToken { at: (s0 as usize, byte_len(body) as usize) }, None)))
        } else {
            let index = first_ws(body, 0);
            if index > n {
                Err(TagLexerError::InvalidTagName { at: (s0 as usize, byte_len(body.take(index)) as usize) })
            } else {
                let p = first_non_ws(body, n);
                Ok(
                    Some(
                        (
                            TagToken { at: (s0 as usize, byte_len(body.take(n)) as usize) },
                            Some(
                                TagParts {
                                    at: (
                                        (s0 + byte_len(body.take(p))) as usize,
                                        byte_len(body.skip(p)) as usize,
                                    ),
                                },
                            ),
                        ),
                    ),
                )
            }
        }
    }
}

pub proof fn lemma_first_non_xid(s: Seq<char>, i: int)
    requires
        0 <= i <= s.len(),
    ensures
        i <= first_non_xid(s, i) <= s.len(),
        forall|k: int| i <= k < first_non_xid(s, i) ==> xid_continue(#[trigger] s[k]),
        first_non_xid(s, i) < s.len() ==> !xid_continue(s[first_non_xid(s, i)]),
    decreases s.len() - i,
{
    if i < s.len() && xid_continue(s[i]) {
        lemma_first_non_xid(s, i + 1);
    }
}

fn find_non_xid(s: &Vec<char>, from: usize) -> (r: usize)
    requires
        from <= s.len(),
    ensures
        r == first_non_xid(s@, from as int),
{
    let mut i: usize = from;
    while i < s.len() && is_xid_continue(s[i])
        invariant
            from <= i <= s.len(),
            first_non_xid(s@, i as int) == first_non_xid(s@, from as int),
        decreases s.len() - i,
    {
        i = i + 1;
    }
    i
}

fn find_trimmed_end(s: &Vec<char>) -> (r: usize)
    ensures
        r == trimmed_end(s@, s@.len() as int),
{
    let mut j: usize = s.len();
    while j > 0 && is_whitespace(s[j - 1])
        invariant
            j <= s.len(),
            trimmed_end(s@, j as int) == trimmed_end(s@, s@.len() as int),
        decreases j,
    {
        j = j - 1;
    }
    j
}

proof fn lemma_trimmed_end(s: Seq<char>, j: int)
    requires
        0 <= j <= s.len(),
        first_non_ws(s, 0) < j,
    ensures
        first_non_ws(s, 0) < trimmed_end(s, j) <= j,
        !is_ws(s[trimmed_end(s, j) - 1]),
    decreases j,
{
    lemma_first_non_ws(s, 0);
    if !is_ws(s[j - 1]) {
    } else {
        lemma_trimmed_end(s, j - 1);
    }
}

/// Splits the tag body `tag`, which starts at byte `start` of the template,
/// into the tag's name and the text of its arguments. A body of whitespace
/// alone gives `Ok(None)`.
pub fn lex_tag(tag: &str, start: usize) -> (r: Result<
    Option<(TagToken, Option<TagParts>)>,
    TagLexerError,
>)
    requires
        start + byte_len(tag@) <= usize::MAX,
    ensures
        r == tag_lexed(tag@, start as int),
{
    let t = chars_of(tag);
    let a = find_non_ws(&t, 0);
    if a == t.len() {
        return Ok(None);
    }
    let z = find_trimmed_end(&t);
    proof {
        lemma_first_non_ws(t@, 0);
        lemma_trimmed_end(t@, t@.len() as int);
        lemma_encode_split(t@, a as int, z as int);
        lemma_encode_split(t@, 0, a as int);
        assert(t@.subrange(0, a as int) =~= t@.take(a as int));
    }
    let body = sub_chars(&t, a, z);
    let ghost b = body@;
    let s0 = start + width_of(&t, 0, a);
    let n = find_non_xid(&body, 0);
    proof {
        lemma_first_non_xid(b, 0);
    }
    if n == body.len() {
        proof {
            assert(b.subrange(0, b.len() as int) =~= b);
        }
        let len = width_of(&body, 0, n);
        return Ok(Some((TagToken { at: (s0, len) }, None)));
    }
    let index = find_ws(&body, 0);
    proof {
        lemma_first_ws(b, 0);
        lemma_encode_split(b, 0, index as int);
        assert(b.subrange(0, index as int) =~= b.take(index as int));
    }
    if index > n {
        let len = width_of(&body, 0, index);
        return Err(TagLexerError::InvalidTagName { at: (s0, len) });
    }
    let p = find_non_ws(&body, n);
    proof {
        lemma_first_non_ws(b, n as int);
        lemma_encode_split(b, 0, n as int);
        lemma_encode_split(b, 0, p as int);
        lemma_encode_split(b, p as int, b.len() as int);
        assert(b.subrange(0, n as int) =~= b.take(n as int));
        assert(b.subrange(0, p as int) =~= b.take(p as int));
        assert(b.subrange(p as int, b.len() as int) =~= b.skip(p as int));
    }
    let name_len = width_of(&body, 0, n);
    let skipped = width_of(&body, 0, p);
    let parts_len = width_of(&body, p, body.len());
    Ok(Some((TagToken { at: (s0, name_len) }, Some(TagParts { at: (s0 + skipped, parts_len) }))))
}

proof fn lemma_take_none_is_empty(t: Seq<char>)
    ensures
        byte_len(t.take(0)) == 0,
{
    assert(t.take(0) =~= Seq::<char>::empty());
    assert(encode_utf8(Seq::<char>::empty()) =~= Seq::<u8>::empty());
}

proof fn lemma_first_non_ws_shift(x: Seq<char>, y: Seq<char>, k: int)
    requires
        0 <= k <= y.len(),
    ensures
        first_non_ws(x + y, x.len() + k) == x.len() + first_non_ws(y, k),
    decreases y.len() - k,
{
    if k < y.len() {
        assert((x + y)[x.len() + k] == y[k]);
        if is_ws(y[k]) {
            lemma_first_non_ws_shift(x, y, k + 1);
        }
    }
}

/// A body made only of identifier characters (none of which is whitespace)
/// is the tag's name, spanning the whole body, and has no arguments.
pub proof fn lemma_name_only(t: Seq<char>, start: int)
    requires
        0 <= start,
        start + byte_len(t) <= usize::MAX,
        t.len() > 0,
        forall|k: int| 0 <= k < t.len() ==> xid_continue(#[trigger] t[k]) && !is_ws(t[k]),
    ensures
        tag_lexed(t, start) == Ok::<_, TagLexerError>(
            Some((TagToken { at: (start as usize, byte_len(t) as usize) }, None::<TagParts>)),
        ),
{
    lemma_take_none_is_empty(t);
    assert(trimmed_end(t, t.len() as int) == t.len());
    assert(trim(t) =~= t);
    lemma_first_non_xid(t, 0);
}

/// A name, a whitespace character, then arguments that end in a
/// non-whitespace character: the name is the tag's token, and the arguments
/// without their leading whitespace are its parts.
pub proof fn lemma_name_and_arguments(
    name: Seq<char>,
    sep: char,
    rest: Seq<char>,
    start: int,
)
    requires
        0 <= start,
        start + byte_len(name + seq![sep] + rest) <= usize::MAX,
        name.len() > 0,
        forall|k: int| 0 <= k < name.len() ==> xid_continue(#[trigger] name[k]) && !is_ws(name[k]),
        is_ws(sep),
        !xid_continue(sep),
        first_non_ws(rest, 0) < rest.len(),
        !is_ws(rest.last()),
    ensures
        ({
            let a = first_non_ws(rest, 0);
            tag_lexed(name + seq![sep] + rest, start) == Ok::<_, TagLexerError>(
                Some(
                    (
                        TagToken { at: (start as usize, byte_len(name) as usize) },
                        Some(
                            TagParts {
                                at: (
                                    (start + byte_len(name) + byte_len(seq![sep]) + byte_len(
                                        rest.take(a),
                                    )) as usize,
                                    byte_len(rest.skip(a)) as usize,
                                ),
                            },
                        ),
                    ),
                ),
            )
        }),
{
    let x = name + seq![sep];
    let t = x + rest;
    let n = name.len() as int;
    let a = first_non_ws(rest, 0);
    lemma_first_non_ws(rest, 0);
    lemma_take_none_is_empty(t);
    assert(t[0] == name[0]);
    assert(t[t.len() - 1] == rest.last());
    assert(trimmed_end(t, t.len() as int) == t.len());
    assert(trim(t) =~= t);
    assert(t[n] == sep);
    lemma_first_non_xid(t, 0);
    assert forall|k: int| 0 <= k < n implies xid_continue(#[trigger] t[k]) && !is_ws(t[k]) by {
        assert(t[k] == name[k]);
    }
    if first_non_xid(t, 0) < n {
        assert(xid_continue(t[first_non_xid(t, 0)]));
    }
    assert(first_non_xid(t, 0) == n);
    lemma_first_ws(t, 0);
    if first_ws(t, 0) < n {
        assert(!is_ws(t[first_ws(t, 0)]));
    }
    assert(first_ws(t, 0) == n);
    lemma_first_non_ws_shift(x, rest, 0);
    assert(first_non_ws(t, n) == first_non_ws(t, n + 1));
    let p = n + 1 + a;
    assert(t.take(n) =~= name);
    assert(t.take(p) =~= name + seq![sep] + rest.take(a));
    assert(t.skip(p) =~= rest.skip(a));
    lemma_encode_concat(name, seq![sep]);
    lemma_encode_concat(name + seq![sep], rest.take(a));
}

/// A body with a character that is not an identifier character before its
/// first whitespace is an invalid tag name, spanning from the start of the
/// trimmed body to its first whitespace, or to its end.
pub proof fn lemma_invalid_name(t: Seq<char>, start: int, k: int)
    requires
        0 <= start,
        start + byte_len(t) <= usize::MAX,
        first_non_ws(t, 0) < t.len(),
        0 <= k < first_ws(trim(t), 0),
        !xid_continue(trim(t)[k]),
    ensures
        tag_lexed(t, start) == Err::<Option<(TagToken, Option<TagParts>)>, _>(
            TagLexerError::InvalidTagName {
                at: (
                    (start + byte_len(t.take(first_non_ws(t, 0)))) as usize,
                    byte_len(trim(t).take(first_ws(trim(t), 0))) as usize,
                ),
            },
        ),
{
    lemma_first_non_ws(t, 0);
    lemma_trimmed_end(t, t.len() as int);
    let body = trim(t);
    lemma_first_ws(body, 0);
    lemma_first_non_xid(body, 0);
}

} // verus!
