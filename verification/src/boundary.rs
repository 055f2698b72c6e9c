//! Snapping a byte index to a character boundary.

use crate::utf8::{lemma_boundary_within_four, lemma_first_byte_leads};
use vstd::prelude::*;
use vstd::string::*;
use vstd::utf8::*;

verus! {

/// The largest character boundary of `bytes` that is not after `index`; the
/// length of `bytes` when `index` is at or past the end.
pub open spec fn floor_boundary(bytes: Seq<u8>, index: int) -> int
    decreases index,
{
    if index >= bytes.len() {
        bytes.len() as int
    } else if index <= 0 {
        0
    } else if is_char_boundary(bytes, index) {
        index
    } else {
        floor_boundary(bytes, index - 1)
    }
}

/// The smallest character boundary of `bytes` that is not before `index`; the
/// length of `bytes` when `index` is at or past the end.
pub open spec fn ceil_boundary(bytes: Seq<u8>, index: int) -> int
    decreases bytes.len() - index,
{
    if index >= bytes.len() {
        bytes.len() as int
    } else if is_char_boundary(bytes, index) {
        index
    } else {
        ceil_boundary(bytes, index + 1)
    }
}

/// `floor_boundary` is a boundary, is not after the index, and no boundary
/// lies between it and the index.
pub proof fn lemma_floor_boundary(bytes: Seq<u8>, index: int)
    requires
        valid_utf8(bytes),
        0 <= index,
    ensures
        is_char_boundary(bytes, floor_boundary(bytes, index)),
        0 <= floor_boundary(bytes, index) <= bytes.len(),
        index <= bytes.len() ==> floor_boundary(bytes, index) <= index,
        forall|j: int|
            floor_boundary(bytes, index) < j <= index ==> !is_char_boundary(bytes, j),
    decreases index,
{
    is_char_boundary_start_end_of_seq(bytes);
    if 0 < index < bytes.len() && !is_char_boundary(bytes, index) {
        lemma_floor_boundary(bytes, index - 1);
    }
}

/// `ceil_boundary` is a boundary, is not before the index, and no boundary
/// lies between the index and it.
pub proof fn lemma_ceil_boundary(bytes: Seq<u8>, index: int)
    requires
        valid_utf8(bytes),
        0 <= index,
    ensures
        is_char_boundary(bytes, ceil_boundary(bytes, index)),
        0 <= ceil_boundary(bytes, index) <= bytes.len(),
        index <= bytes.len() ==> index <= ceil_boundary(bytes, index),
        forall|j: int| index <= j < ceil_boundary(bytes, index) ==> !is_char_boundary(bytes, j),
    decreases bytes.len() - index,
{
    is_char_boundary_start_end_of_seq(bytes);
    if index < bytes.len() && !is_char_boundary(bytes, index) {
        lemma_ceil_boundary(bytes, index + 1);
    }
}

/// Whether a byte starts a character: it is not of the form `10xxxxxx`.
pub fn starts_char(byte: u8) -> (starts: bool)
    ensures
        starts == !is_continuation_byte(byte),
{
    byte < 0x80 || byte >= 0xC0
}

/// The largest character boundary of `text` at or before `index`, found by
/// looking back over at most three bytes.  An index at or past the end gives
/// the length of `text`.
pub fn floor_char_boundary(text: &str, index: usize) -> (at: usize)
    ensures
        at == floor_boundary(text.spec_bytes(), index as int),
{
    let bytes = text.as_bytes();
    if index >= bytes.len() {
        return bytes.len();
    }
    proof {
        encode_utf8_valid_utf8(text@);
    }
    let start = index.saturating_sub(3);
    let mut at = index;
    while at > start && !starts_char(bytes[at])
        invariant
            start <= at <= index < bytes@.len(),
            valid_utf8(bytes@),
            floor_boundary(bytes@, index as int) == floor_boundary(bytes@, at as int),
            forall|j: int| at < j <= index ==> is_continuation_byte(#[trigger] bytes@[j]),
        decreases at,
    {
        proof {
            is_char_boundary_iff_not_is_continuation_byte(bytes@, at as int);
        }
        at -= 1;
    }
    proof {
        if at == 0 {
            lemma_first_byte_leads(bytes@);
        } else if at == start {
            lemma_boundary_within_four(bytes@, at as int);
        }
        is_char_boundary_iff_not_is_continuation_byte(bytes@, at as int);
    }
    at
}

/// The smallest character boundary of `text` at or after `index`, found by
/// looking ahead over at most four bytes.  An index past the end gives the
/// length of `text`.
pub fn ceil_char_boundary(text: &str, index: usize) -> (at: usize)
    ensures
        at == ceil_boundary(text.spec_bytes(), index as int),
{
    let bytes = text.as_bytes();
    let len = bytes.len();
    if index > len {
        return len;
    }
    proof {
        encode_utf8_valid_utf8(text@);
    }
    let end = if len - index > 4 {
        index + 4
    } else {
        len
    };
    let mut at = index;
    while at < end && !starts_char(bytes[at])
        invariant
            index <= at <= end <= len,
            len == bytes@.len(),
            end == if len - index > 4 { index + 4 } else { len as int },
            valid_utf8(bytes@),
            ceil_boundary(bytes@, index as int) == ceil_boundary(bytes@, at as int),
            forall|j: int| index <= j < at ==> is_continuation_byte(#[trigger] bytes@[j]),
        decreases end - at,
    {
        proof {
            is_char_boundary_iff_not_is_continuation_byte(bytes@, at as int);
        }
        at += 1;
    }
    proof {
        if at < len {
            if at == end {
                lemma_boundary_within_four(bytes@, index as int);
            }
            is_char_boundary_iff_not_is_continuation_byte(bytes@, at as int);
        }
    }
    at
}

} // verus!
