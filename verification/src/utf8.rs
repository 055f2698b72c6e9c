//! Facts about UTF-8 byte sequences that the string routines rest on.
//!
//! A string is modelled by its characters (`s@`) and by the bytes that encode
//! them (`s.spec_bytes()`, which is `encode_utf8(s@)`).  The lemmas here move
//! between the two models: prefixes and suffixes of characters correspond to
//! prefixes and suffixes of bytes, and a position between two encoded
//! characters is a character boundary.

use vstd::prelude::*;
use vstd::utf8::*;

verus! {

/// Encoding distributes over concatenation.
pub proof fn lemma_encode_concat(a: Seq<char>, b: Seq<char>)
    ensures
        encode_utf8(a + b) =~= encode_utf8(a) + encode_utf8(b),
    decreases a.len(),
{
    if a.len() > 0 {
        assert((a + b).drop_first() =~= a.drop_first() + b);
        lemma_encode_concat(a.drop_first(), b);
    }
}

/// Characters encode to the same bytes only if they are the same characters.
pub proof fn lemma_encode_injective(a: Seq<char>, b: Seq<char>)
    requires
        encode_utf8(a) == encode_utf8(b),
    ensures
        a == b,
{
    encode_utf8_decode_utf8(a);
    encode_utf8_decode_utf8(b);
}

/// The first byte of a non-empty encoding starts a character.
pub proof fn lemma_first_byte_leads(bytes: Seq<u8>)
    requires
        valid_utf8(bytes),
        bytes.len() > 0,
    ensures
        !is_continuation_byte(bytes[0]),
{
}

/// A valid prefix of a valid encoding ends on a character boundary.
pub proof fn lemma_prefix_boundary(bytes: Seq<u8>, pre: Seq<u8>)
    requires
        valid_utf8(bytes),
        valid_utf8(pre),
        pre.is_prefix_of(bytes),
    ensures
        is_char_boundary(bytes, pre.len() as int),
    decreases pre.len(),
{
    if pre.len() > 0 {
        let pre_rest = pop_first_scalar(pre);
        let rest = pop_first_scalar(bytes);
        assert(pre_rest.is_prefix_of(rest));
        lemma_prefix_boundary(rest, pre_rest);
    }
}

/// Among any four consecutive bytes of a valid encoding, one starts a character.
pub proof fn lemma_boundary_within_four(bytes: Seq<u8>, i: int)
    requires
        valid_utf8(bytes),
        0 <= i,
        i + 3 < bytes.len(),
    ensures
        !is_continuation_byte(bytes[i]) || !is_continuation_byte(bytes[i + 1])
            || !is_continuation_byte(bytes[i + 2]) || !is_continuation_byte(bytes[i + 3]),
    decreases bytes.len(),
{
    let n = length_of_first_scalar(bytes);
    let rest = pop_first_scalar(bytes);
    if i >= n {
        lemma_boundary_within_four(rest, i - n);
    } else if i > 0 {
        lemma_first_byte_leads(rest);
    }
}

/// A byte sequence that ends a valid encoding and is itself a non-empty valid
/// encoding begins on a character boundary.
pub proof fn lemma_suffix_boundary(bytes: Seq<u8>, suf: Seq<u8>)
    requires
        valid_utf8(bytes),
        valid_utf8(suf),
        suf.is_suffix_of(bytes),
    ensures
        is_char_boundary(bytes, bytes.len() - suf.len()),
{
    if suf.len() == 0 {
        is_char_boundary_start_end_of_seq(bytes);
    } else {
        let at = bytes.len() - suf.len();
        lemma_first_byte_leads(suf);
        is_char_boundary_iff_not_is_continuation_byte(bytes, at);
    }
}

/// Splitting an encoding at a character boundary splits the characters.
pub proof fn lemma_split_chars(chars: Seq<char>, at: int)
    requires
        is_char_boundary(encode_utf8(chars), at),
    ensures
        0 <= at <= encode_utf8(chars).len(),
        valid_utf8(encode_utf8(chars).subrange(0, at)),
        valid_utf8(encode_utf8(chars).subrange(at, encode_utf8(chars).len() as int)),
        chars =~= decode_utf8(encode_utf8(chars).subrange(0, at)) + decode_utf8(
            encode_utf8(chars).subrange(at, encode_utf8(chars).len() as int),
        ),
{
    let bytes = encode_utf8(chars);
    encode_utf8_valid_utf8(chars);
    encode_utf8_decode_utf8(chars);
    valid_utf8_split(bytes, at);
    decode_utf8_split(bytes, at);
    lemma_boundary_in_range(bytes, at);
}

/// A character boundary lies within the encoding.
pub proof fn lemma_boundary_in_range(bytes: Seq<u8>, at: int)
    requires
        valid_utf8(bytes),
        is_char_boundary(bytes, at),
    ensures
        0 <= at <= bytes.len(),
{
}

/// One sequence of characters ends another exactly when its bytes end the
/// other's bytes.
pub proof fn lemma_suffix_chars_bytes(text: Seq<char>, suf: Seq<char>)
    ensures
        suf.is_suffix_of(text) <==> encode_utf8(suf).is_suffix_of(encode_utf8(text)),
{
    let tb = encode_utf8(text);
    let sb = encode_utf8(suf);
    encode_utf8_valid_utf8(text);
    encode_utf8_valid_utf8(suf);
    if suf.is_suffix_of(text) {
        let head = text.subrange(0, text.len() - suf.len());
        assert(text =~= head + suf);
        lemma_encode_concat(head, suf);
    }
    if sb.is_suffix_of(tb) {
        let at = tb.len() - sb.len();
        lemma_suffix_boundary(tb, sb);
        lemma_split_chars(text, at);
        encode_utf8_decode_utf8(suf);
    }
}

/// One sequence of characters begins another exactly when its bytes begin the
/// other's bytes.
pub proof fn lemma_prefix_chars_bytes(text: Seq<char>, pre: Seq<char>)
    ensures
        pre.is_prefix_of(text) <==> encode_utf8(pre).is_prefix_of(encode_utf8(text)),
{
    let tb = encode_utf8(text);
    let pb = encode_utf8(pre);
    encode_utf8_valid_utf8(text);
    encode_utf8_valid_utf8(pre);
    if pre.is_prefix_of(text) {
        let tail = text.subrange(pre.len() as int, text.len() as int);
        assert(text =~= pre + tail);
        lemma_encode_concat(pre, tail);
    }
    if pb.is_prefix_of(tb) {
        let at = pb.len() as int;
        lemma_prefix_boundary(tb, pb);
        lemma_split_chars(text, at);
        encode_utf8_decode_utf8(pre);
    }
}

/// The bytes of the characters before position `n` end on a character boundary,
/// and the bytes after it encode the remaining characters.
pub proof fn lemma_skip_chars(chars: Seq<char>, n: int)
    requires
        0 <= n <= chars.len(),
    ensures
        encode_utf8(chars.take(n)).len() <= encode_utf8(chars).len(),
        is_char_boundary(encode_utf8(chars), encode_utf8(chars.take(n)).len() as int),
        encode_utf8(chars.skip(n)) =~= encode_utf8(chars).skip(
            encode_utf8(chars.take(n)).len() as int,
        ),
        encode_utf8(chars.take(n)) =~= encode_utf8(chars).take(
            encode_utf8(chars.take(n)).len() as int,
        ),
{
    let head = chars.take(n);
    let tail = chars.skip(n);
    assert(chars =~= head + tail);
    lemma_encode_concat(head, tail);
    encode_utf8_valid_utf8(chars);
    encode_utf8_valid_utf8(head);
    lemma_prefix_boundary(encode_utf8(chars), encode_utf8(head));
}

/// A byte below `0x80` is a character of its own: a boundary lies before it
/// and after it.
pub proof fn lemma_ascii_boundaries(bytes: Seq<u8>, i: int)
    requires
        valid_utf8(bytes),
        0 <= i < bytes.len(),
        bytes[i] < 0x80,
    ensures
        is_char_boundary(bytes, i),
        is_char_boundary(bytes, i + 1),
    decreases bytes.len(),
{
    is_char_boundary_iff_not_is_continuation_byte(bytes, i);
    reveal_with_fuel(is_char_boundary, 2);
    let n = length_of_first_scalar(bytes);
    let rest = pop_first_scalar(bytes);
    if i >= n {
        lemma_ascii_boundaries(rest, i - n);
    }
}

} // verus!
