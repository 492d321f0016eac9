//! Byte-level facts about UTF-8 text: where a byte offset may cut a string,
//! and how the encoding of a concatenation splits.
use vstd::prelude::*;
use vstd::utf8::*;
use vstd::string::StringSliceAdditionalSpecFns;

verus! {

broadcast use vstd::utf8::group_utf8_lib;

/// The half-open byte range `[start, end)` lies inside the UTF-8 encoding of
/// `text` and both of its ends fall on character boundaries.
pub open spec fn span_in(text: Seq<char>, start: int, end: int) -> bool {
    let b = encode_utf8(text);
    &&& 0 <= start <= end <= b.len()
    &&& is_char_boundary(b, start)
    &&& is_char_boundary(b, end)
}

/// The encoding of a concatenation is the concatenation of the encodings.
pub proof fn lemma_encode_concat(a: Seq<char>, b: Seq<char>)
    ensures
        encode_utf8(a + b) == encode_utf8(a) + encode_utf8(b),
    decreases a.len(),
{
    if a.len() == 0 {
        assert(a + b =~= b);
    } else {
        lemma_encode_concat(a.drop_first(), b);
        assert((a + b).drop_first() =~= a.drop_first() + b);
        assert((a + b)[0] == a[0]);
    }
}

/// In valid UTF-8, an offset is a character boundary exactly when it is the
/// end of the bytes or points at a byte that does not continue a character.
pub proof fn lemma_boundary_iff(b: Seq<u8>, i: int)
    requires
        valid_utf8(b),
        0 <= i <= b.len(),
    ensures
        is_char_boundary(b, i) <==> (i == b.len() || !is_continuation_byte(b[i])),
{
    if i == b.len() {
        is_char_boundary_start_end_of_seq(b);
    } else {
        is_char_boundary_iff_not_is_continuation_byte(b, i);
    }
}

/// The first byte of the encoding of a non-empty text starts a character.
pub proof fn lemma_first_byte_leads(chars: Seq<char>)
    requires
        chars.len() > 0,
    ensures
        encode_utf8(chars).len() > 0,
        !is_continuation_byte(encode_utf8(chars)[0]),
        encode_utf8(chars).len() >= encode_scalar(chars[0] as u32).len(),
{
    encode_utf8_first_scalar(chars);
}

/// The byte offset at which the `k`-th character of `text` starts is a
/// character boundary of its encoding.
pub proof fn lemma_prefix_boundary(text: Seq<char>, k: int)
    requires
        0 <= k <= text.len(),
    ensures
        encode_utf8(text) == encode_utf8(text.take(k)) + encode_utf8(text.skip(k)),
        is_char_boundary(encode_utf8(text), encode_utf8(text.take(k)).len() as int),
{
    assert(text =~= text.take(k) + text.skip(k));
    lemma_encode_concat(text.take(k), text.skip(k));
    let b = encode_utf8(text);
    let p = encode_utf8(text.take(k)).len() as int;
    lemma_boundary_iff(b, p);
    if k < text.len() {
        lemma_first_byte_leads(text.skip(k));
        assert(b[p] == encode_utf8(text.skip(k))[0]);
    }
}

/// Within the encoding of `text`, the boundaries of the tail that starts at a
/// boundary `from` are the boundaries of the whole, shifted by `from`.
pub proof fn lemma_tail_boundary(b: Seq<u8>, from: int, i: int)
    requires
        valid_utf8(b),
        0 <= from <= i <= b.len(),
        is_char_boundary(b, from),
    ensures
        valid_utf8(b.subrange(from, b.len() as int)),
        is_char_boundary(b.subrange(from, b.len() as int), i - from) <==> is_char_boundary(b, i),
{
    valid_utf8_split(b, from);
    let t = b.subrange(from, b.len() as int);
    lemma_boundary_iff(b, i);
    lemma_boundary_iff(t, i - from);
    if i < b.len() {
        assert(t[i - from] == b[i]);
    }
}

/// A text has at least as many bytes as characters.
pub proof fn lemma_encode_len(s: Seq<char>)
    ensures
        encode_utf8(s).len() >= s.len(),
    decreases s.len(),
{
    if s.len() > 0 {
        lemma_encode_len(s.drop_first());
        char_is_scalar(s[0]);
    }
}

/// Number of bytes in the UTF-8 encoding of `c`.
pub fn utf8_width(c: char) -> (w: usize)
    ensures
        w == encode_scalar(c as u32).len(),
        1 <= w <= 4,
{
    let v: u32 = c as u32;
    proof {
        char_is_scalar(c);
    }
    if v < 0x80 {
        1
    } else if v < 0x800 {
        2
    } else if v < 0x10000 {
        3
    } else {
        4
    }
}

/// The piece of `text` between two character boundaries, given as byte offsets.
pub fn byte_range<'a>(text: &'a str, from: usize, to: usize) -> (piece: &'a str)
    requires
        span_in(text@, from as int, to as int),
    ensures
        encode_utf8(piece@) == encode_utf8(text@).subrange(from as int, to as int),
{
    let ghost b = encode_utf8(text@);
    let (_, tail) = text.split_at(from);
    proof {
        lemma_tail_boundary(b, from as int, to as int);
        assert(tail.spec_bytes() =~= b.subrange(from as int, b.len() as int));
    }
    let (piece, _) = tail.split_at(to - from);
    proof {
        assert(piece.spec_bytes() =~= b.subrange(from as int, to as int));
    }
    piece
}

/// Calls `String::from_utf8` on `bytes`.
///
/// Trusted: as std documents, the call succeeds exactly on valid UTF-8, and
/// the string then holds the characters that the bytes encode.
#[verifier::external_body]
pub(crate) fn string_from_utf8(bytes: Vec<u8>) -> (r: Option<String>)
    ensures
        r is Some <==> valid_utf8(bytes@),
        r matches Some(s) ==> s@ == decode_utf8(bytes@),
{
    String::from_utf8(bytes).ok()
}

/// A copy of the bytes of `text`.
pub fn bytes_of(text: &str) -> (v: Vec<u8>)
    ensures
        v@ == encode_utf8(text@),
{
    let b = text.as_bytes();
    let mut v: Vec<u8> = Vec::new();
    let mut i: usize = 0;
    while i < b.len()
        invariant
            i <= b@.len(),
            b@ == encode_utf8(text@),
            v@ == b@.take(i as int),
        decreases b.len() - i,
    {
        v.push(b[i]);
        assert(b@.take(i + 1) =~= b@.take(i as int).push(b@[i as int]));
        i += 1;
    }
    assert(b@.take(i as int) =~= b@);
    v
}

} // verus!
