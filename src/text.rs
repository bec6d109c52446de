//! Characters, their UTF-8 byte lengths, and spans over a source text.

use vstd::prelude::*;
use vstd::utf8::*;

verus! {

broadcast use vstd::utf8::char_is_scalar;

/// The characters with the Unicode `White_Space` property.
pub open spec fn is_ws(c: char) -> bool {
    let u = c as u32;
    ||| 0x09 <= u <= 0x0d
    ||| u == 0x20
    ||| u == 0x85
    ||| u == 0xa0
    ||| u == 0x1680
    ||| 0x2000 <= u <= 0x200a
    ||| u == 0x2028
    ||| u == 0x2029
    ||| u == 0x202f
    ||| u == 0x205f
    ||| u == 0x3000
}

/// Relies on `char::is_whitespace`: true exactly for the `White_Space` property.
#[verifier::external_body]
pub(crate) fn is_whitespace(c: char) -> (r: bool)
    ensures
        r == is_ws(c),
{
    c.is_whitespace()
}

/// Number of bytes in the UTF-8 encoding of `s`.
pub open spec fn byte_len(s: Seq<char>) -> nat {
    encode_utf8(s).len()
}

/// A span lies within `src` and both of its ends fall between characters.
pub open spec fn valid_span(src: Seq<char>, at: (usize, usize)) -> bool {
    &&& at.0 + at.1 <= usize::MAX
    &&& exists|i: int, j: int|
        0 <= i <= j <= src.len() && byte_len(src.take(i)) == at.0 && byte_len(src.take(j)) == at.0
            + at.1
}

/// Index of the first whitespace character of `s` at or after `i`, or `s.len()`.
pub open spec fn first_ws(s: Seq<char>, i: int) -> int
    decreases s.len() - i,
{
    if 0 <= i < s.len() {
        if is_ws(s[i]) {
            i
        } else {
            first_ws(s, i + 1)
        }
    } else {
        s.len() as int
    }
}

/// Index of the first non-whitespace character of `s` at or after `i`, or `s.len()`.
pub open spec fn first_non_ws(s: Seq<char>, i: int) -> int
    decreases s.len() - i,
{
    if 0 <= i < s.len() {
        if !is_ws(s[i]) {
            i
        } else {
            first_non_ws(s, i + 1)
        }
    } else {
        s.len() as int
    }
}

pub proof fn lemma_first_ws(s: Seq<char>, i: int)
    requires
        0 <= i <= s.len(),
    ensures
        i <= first_ws(s, i) <= s.len(),
        forall|k: int| i <= k < first_ws(s, i) ==> !is_ws(#[trigger] s[k]),
        first_ws(s, i) < s.len() ==> is_ws(s[first_ws(s, i)]),
    decreases s.len() - i,
{
    if i < s.len() && !is_ws(s[i]) {
        lemma_first_ws(s, i + 1);
    }
}

pub proof fn lemma_first_non_ws(s: Seq<char>, i: int)
    requires
        0 <= i <= s.len(),
    ensures
        i <= first_non_ws(s, i) <= s.len(),
        forall|k: int| i <= k < first_non_ws(s, i) ==> is_ws(#[trigger] s[k]),
        first_non_ws(s, i) < s.len() ==> !is_ws(s[first_non_ws(s, i)]),
    decreases s.len() - i,
{
    if i < s.len() && is_ws(s[i]) {
        lemma_first_non_ws(s, i + 1);
    }
}

/// The encoding of a concatenation is the concatenation of the encodings.
pub proof fn lemma_encode_concat(a: Seq<char>, b: Seq<char>)
    ensures
        encode_utf8(a + b) == encode_utf8(a) + encode_utf8(b),
    decreases a.len(),
{
    if a.len() == 0 {
        assert(a + b =~= b);
        assert(encode_utf8(a) + encode_utf8(b) =~= encode_utf8(b));
    } else {
        assert((a + b).drop_first() =~= a.drop_first() + b);
        lemma_encode_concat(a.drop_first(), b);
        assert(encode_utf8(a + b) =~= encode_utf8(a) + encode_utf8(b));
    }
}

/// Splitting a sequence of characters at `i` splits its encoding at `byte_len(s.take(i))`.
pub proof fn lemma_encode_split(s: Seq<char>, i: int, j: int)
    requires
        0 <= i <= j <= s.len(),
    ensures
        byte_len(s.take(j)) == byte_len(s.take(i)) + byte_len(s.subrange(i, j)),
        byte_len(s) == byte_len(s.take(j)) + byte_len(s.skip(j)),
        encode_utf8(s).subrange(byte_len(s.take(i)) as int, byte_len(s.take(j)) as int)
            == encode_utf8(s.subrange(i, j)),
        encode_utf8(s).subrange(byte_len(s.take(j)) as int, byte_len(s) as int) == encode_utf8(
            s.skip(j),
        ),
{
    assert(s.take(j) =~= s.take(i) + s.subrange(i, j));
    assert(s =~= s.take(j) + s.skip(j));
    lemma_encode_concat(s.take(i), s.subrange(i, j));
    lemma_encode_concat(s.take(j), s.skip(j));
    let e = encode_utf8(s);
    let a = encode_utf8(s.take(i));
    let b = encode_utf8(s.subrange(i, j));
    let c = encode_utf8(s.skip(j));
    assert(e == a + b + c);
    assert(e.subrange(a.len() as int, (a.len() + b.len()) as int) =~= b);
    assert(e.subrange((a.len() + b.len()) as int, e.len() as int) =~= c);
}

/// The encoding determines the characters.
pub proof fn lemma_encode_injective(a: Seq<char>, b: Seq<char>)
    requires
        encode_utf8(a) == encode_utf8(b),
    ensures
        a == b,
{
    encode_utf8_decode_utf8(a);
    encode_utf8_decode_utf8(b);
}

/// Every prefix of a sequence of characters ends on a character boundary of its encoding.
pub proof fn lemma_prefix_is_boundary(s: Seq<char>, i: int)
    requires
        0 <= i <= s.len(),
    ensures
        is_char_boundary(encode_utf8(s), byte_len(s.take(i)) as int),
    decreases s.len(),
{
    broadcast use encode_utf8_valid_utf8;

    if i > 0 {
        let e = encode_utf8(s);
        encode_utf8_first_scalar(s);
        let rest = s.drop_first();
        assert(e == encode_scalar(s[0] as u32) + encode_utf8(rest));
        assert(pop_first_scalar(e) =~= encode_utf8(rest));
        assert(s.take(i) =~= seq![s[0]] + rest.take(i - 1));
        lemma_encode_concat(seq![s[0]], rest.take(i - 1));
        lemma_encode_single(s[0]);
        lemma_prefix_is_boundary(rest, i - 1);
    }
}

proof fn lemma_encode_single(c: char)
    ensures
        encode_utf8(seq![c]) == encode_scalar(c as u32),
{
    let e = seq![c];
    assert(e.drop_first() =~= Seq::<char>::empty());
    assert(encode_utf8(Seq::<char>::empty()) =~= Seq::<u8>::empty());
    assert(encode_utf8(e) == encode_scalar(e[0] as u32) + encode_utf8(e.drop_first()));
    assert(encode_scalar(c as u32) + Seq::<u8>::empty() =~= encode_scalar(c as u32));
}

/// Number of bytes in the UTF-8 encoding of `c`.
pub fn utf8_width(c: char) -> (w: usize)
    ensures
        w == byte_len(seq![c]),
        1 <= w <= 4,
{
    proof {
        lemma_encode_single(c);
    }
    let u = c as u32;
    if u <= 0x7f {
        1
    } else if u <= 0x7ff {
        2
    } else if u <= 0xffff {
        3
    } else {
        4
    }
}

/// Index of the first whitespace character of `s` at or after `from`.
pub fn find_ws(s: &Vec<char>, from: usize) -> (r: usize)
    requires
        from <= s.len(),
    ensures
        r == first_ws(s@, from as int),
{
    let mut i: usize = from;
    while i < s.len() && !is_whitespace(s[i])
        invariant
            from <= i <= s.len(),
            first_ws(s@, i as int) == first_ws(s@, from as int),
        decreases s.len() - i,
    {
        i = i + 1;
    }
    i
}

/// Index of the first non-whitespace character of `s` at or after `from`.
pub fn find_non_ws(s: &Vec<char>, from: usize) -> (r: usize)
    requires
        from <= s.len(),
    ensures
        r == first_non_ws(s@, from as int),
{
    let mut i: usize = from;
    while i < s.len() && is_whitespace(s[i])
        invariant
            from <= i <= s.len(),
            first_non_ws(s@, i as int) == first_non_ws(s@, from as int),
        decreases s.len() - i,
    {
        i = i + 1;
    }
    i
}

/// Number of bytes that the characters `s[from..to]` take in UTF-8.
pub fn width_of(s: &Vec<char>, from: usize, to: usize) -> (r: usize)
    requires
        from <= to <= s.len(),
        byte_len(s@.subrange(from as int, to as int)) <= usize::MAX,
    ensures
        r == byte_len(s@.subrange(from as int, to as int)),
{
    let mut i: usize = from;
    let mut w: usize = 0;
    while i < to
        invariant
            from <= i <= to <= s.len(),
            w == byte_len(s@.subrange(from as int, i as int)),
            byte_len(s@.subrange(from as int, to as int)) <= usize::MAX,
        decreases to - i,
    {
        let c = s[i];
        let cw = utf8_width(c);
        proof {
            let seg = s@.subrange(from as int, to as int);
            lemma_encode_split(seg, (i - from) as int, (i + 1 - from) as int);
            lemma_encode_split(seg, (i + 1 - from) as int, seg.len() as int);
            assert(seg.take((i - from) as int) =~= s@.subrange(from as int, i as int));
            assert(seg.take((i + 1 - from) as int) =~= s@.subrange(from as int, i + 1));
            assert(seg.subrange((i - from) as int, (i + 1 - from) as int) =~= seq![c]);
            assert(seg.take(seg.len() as int) =~= seg);
        }
        w = w + cw;
        i = i + 1;
    }
    w
}

/// A copy of the characters `s[from..to]`.
pub fn sub_chars(s: &Vec<char>, from: usize, to: usize) -> (r: Vec<char>)
    requires
        from <= to <= s.len(),
    ensures
        r@ == s@.subrange(from as int, to as int),
{
    let mut r: Vec<char> = Vec::new();
    let mut i: usize = from;
    while i < to
        invariant
            from <= i <= to <= s.len(),
            r@ == s@.subrange(from as int, i as int),
        decreases to - i,
    {
        r.push(s[i]);
        i = i + 1;
        proof {
            assert(r@ =~= s@.subrange(from as int, i as int));
        }
    }
    r
}

/// The characters of `s`, in order.
pub fn chars_of(s: &str) -> (r: Vec<char>)
    ensures
        r@ == s@,
{
    broadcast use vstd::string::axiom_spec_iter;

    let mut r: Vec<char> = Vec::new();
    for c in it: s.chars()
        invariant
            r@ == it.seq().take(it.index()),
            it.seq() == s@,
    {
        r.push(c);
    }
    proof {
        assert(r@ =~= s@);
    }
    r
}

/// The text at span `at` of `src`.
pub fn span_text<'t>(src: &'t str, at: (usize, usize)) -> (r: &'t str)
    requires
        valid_span(src@, at),
    ensures
        encode_utf8(r@) == encode_utf8(src@).subrange(at.0 as int, at.0 + at.1),
{
    let ghost s = src@;
    let ghost (i, j) = choose|i: int, j: int|
        0 <= i <= j <= s.len() && byte_len(s.take(i)) == at.0 && byte_len(s.take(j)) == at.0
            + at.1;
    proof {
        lemma_prefix_is_boundary(s, i);
        lemma_encode_split(s, i, j);
        lemma_encode_split(s, 0, i);
        assert(s.subrange(0, i) =~= s.take(i));
    }
    let (_, tail) = src.split_at(at.0);
    proof {
        let t = s.skip(i);
        lemma_encode_split(s, i, s.len() as int);
        assert(s.subrange(i, s.len() as int) =~= t);
        assert(s.take(s.len() as int) =~= s);
        lemma_encode_injective(tail@, t);
        lemma_prefix_is_boundary(t, j - i);
        lemma_encode_split(t, 0, j - i);
        assert(t.subrange(0, j - i) =~= t.take(j - i));
        assert(t.take(j - i) =~= s.subrange(i, j));
    }
    let (r, _) = tail.split_at(at.1);
    r
}

} // verus!
