//! Trimming white space off string slices.
//!
//! White space is what has the Unicode property `White_Space`.  The slices
//! are read byte by byte: each character is decoded from its UTF-8 encoding
//! and its scalar value is looked up.

use crate::utf8::{lemma_encode_concat, lemma_encode_injective, lemma_skip_chars};
use vstd::prelude::*;
use vstd::string::*;
use vstd::utf8::*;

verus! {

/// Whether the scalar value `u` has the Unicode property `White_Space`.
pub open spec fn is_white_space_code(u: u32) -> bool {
    ||| 0x09 <= u <= 0x0D
    ||| u == 0x20
    ||| u == 0x85
    ||| u == 0xA0
    ||| u == 0x1680
    ||| 0x2000 <= u <= 0x200A
    ||| u == 0x2028
    ||| u == 0x2029
    ||| u == 0x202F
    ||| u == 0x205F
    ||| u == 0x3000
}

/// Whether `c` has the Unicode property `White_Space`.
pub open spec fn is_white_space(c: char) -> bool {
    is_white_space_code(c as u32)
}

/// The number of white-space characters that `chars` begins with.
pub open spec fn leading_white_space(chars: Seq<char>) -> nat
    decreases chars.len(),
{
    if chars.len() > 0 && is_white_space(chars[0]) {
        1 + leading_white_space(chars.drop_first())
    } else {
        0
    }
}

/// `chars` without its leading white space.
pub open spec fn trimmed(chars: Seq<char>) -> Seq<char> {
    chars.skip(leading_white_space(chars) as int)
}

/// The leading white space of a line is part of the line.
pub proof fn lemma_leading_white_space_bound(chars: Seq<char>)
    ensures
        leading_white_space(chars) <= chars.len(),
    decreases chars.len(),
{
    if chars.len() > 0 {
        lemma_leading_white_space_bound(chars.drop_first());
    }
}

/// The number of white-space characters that `chars` ends with.
pub open spec fn trailing_white_space(chars: Seq<char>) -> nat
    decreases chars.len(),
{
    if chars.len() > 0 && is_white_space(chars.last()) {
        1 + trailing_white_space(chars.drop_last())
    } else {
        0
    }
}

/// `chars` without its leading and its trailing white space.
pub open spec fn trimmed_both(chars: Seq<char>) -> Seq<char> {
    let rest = trimmed(chars);
    rest.take(rest.len() - trailing_white_space(rest))
}

/// Whether a scalar value has the Unicode property `White_Space`.
fn white_space_code(code: u32) -> (white: bool)
    ensures
        white == is_white_space_code(code),
{
    (0x09 <= code && code <= 0x0D) || code == 0x20 || code == 0x85 || code == 0xA0 || code
        == 0x1680 || (0x2000 <= code && code <= 0x200A) || code == 0x2028 || code == 0x2029
        || code == 0x202F || code == 0x205F || code == 0x3000
}

/// Decodes the character that begins at byte `at`: its scalar value and the
/// number of bytes it takes.
fn scalar_at(bytes: &[u8], at: usize) -> (found: (u32, usize))
    requires
        at < bytes@.len(),
        valid_first_scalar(bytes@.skip(at as int)),
    ensures
        found.0 == decode_first_scalar(bytes@.skip(at as int)),
        found.1 == length_of_first_scalar(bytes@.skip(at as int)),
        1 <= found.1 <= 4,
        at + found.1 <= bytes@.len(),
{
    let b0 = bytes[at];
    if b0 <= 0x7f {
        ((b0 & 0x7F) as u32, 1)
    } else if 0xc0 <= b0 && b0 <= 0xdf {
        let b1 = bytes[at + 1];
        ((((b0 & 0x1F) as u32) << 6) | ((b1 & 0x3f) as u32), 2)
    } else if 0xe0 <= b0 && b0 <= 0xef {
        let b1 = bytes[at + 1];
        let b2 = bytes[at + 2];
        ((((b0 & 0x0F) as u32) << 12) | (((b1 & 0x3f) as u32) << 6) | ((b2 & 0x3f) as u32), 3)
    } else {
        let b1 = bytes[at + 1];
        let b2 = bytes[at + 2];
        let b3 = bytes[at + 3];
        (
            (((b0 & 0x07) as u32) << 18) | (((b1 & 0x3f) as u32) << 12) | (((b2 & 0x3f) as u32)
                << 6) | ((b3 & 0x3f) as u32),
            4,
        )
    }
}

/// What the bytes after the first `n` characters begin with: the encoding of
/// character `n`, whose scalar value they decode to.
proof fn lemma_next_char(chars: Seq<char>, n: int)
    requires
        0 <= n < chars.len(),
    ensures
        encode_utf8(chars.take(n)).len() + encode_scalar(chars[n] as u32).len() == encode_utf8(
            chars.take(n + 1),
        ).len(),
        encode_utf8(chars.take(n + 1)).len() <= encode_utf8(chars).len(),
        encode_utf8(chars).skip(encode_utf8(chars.take(n)).len() as int) == encode_utf8(
            chars.skip(n),
        ),
        valid_first_scalar(encode_utf8(chars.skip(n))),
        decode_first_scalar(encode_utf8(chars.skip(n))) == chars[n] as u32,
        length_of_first_scalar(encode_utf8(chars.skip(n))) == encode_scalar(chars[n] as u32).len(),
{
    let rest = chars.skip(n);
    encode_utf8_first_scalar(rest);
    lemma_skip_chars(chars, n);
    lemma_skip_chars(chars, n + 1);
    assert(chars.take(n + 1) =~= chars.take(n) + seq![chars[n]]);
    let one = seq![chars[n]];
    assert(encode_utf8(one.drop_first()) =~= Seq::<u8>::empty());
    lemma_encode_concat(chars.take(n), one);
}

/// Only the empty text has no bytes.
proof fn lemma_encode_empty(chars: Seq<char>)
    ensures
        encode_utf8(chars).len() == 0 <==> chars.len() == 0,
{
}

/// The number of white-space characters at the front of `text`, and the
/// number of bytes that they take.
fn leading_pad(text: &str) -> (pad: (usize, Ghost<int>))
    ensures
        pad.1@ == leading_white_space(text@),
        pad.0 == encode_utf8(text@.take(pad.1@)).len(),
        pad.0 <= text.spec_bytes().len(),
{
    let bytes = text.as_bytes();
    let ghost chars = text@;
    let mut at: usize = 0;
    let ghost mut n: int = 0;
    let mut white = true;
    proof {
        assert(chars.skip(0) =~= chars);
        lemma_encode_empty(chars);
    }
    while white && at < bytes.len()
        invariant
            bytes@ == encode_utf8(chars),
            0 <= n <= chars.len(),
            at == encode_utf8(chars.take(n)).len(),
            at <= bytes@.len(),
            at == bytes@.len() <==> n == chars.len(),
            leading_white_space(chars) == n + if white {
                leading_white_space(chars.skip(n))
            } else {
                0
            },
        decreases bytes@.len() - at + if white { 1int } else { 0 },
    {
        proof {
            lemma_next_char(chars, n);
            assert(chars.skip(n).drop_first() =~= chars.skip(n + 1));
        }
        let (code, width) = scalar_at(bytes, at);
        if white_space_code(code) {
            at += width;
            proof {
                n = n + 1;
                lemma_skip_chars(chars, n);
                lemma_encode_empty(chars.skip(n));
            }
        } else {
            white = false;
        }
    }
    (at, Ghost(n))
}

/// The slice that is left of `text` when the characters with the Unicode
/// property `White_Space` at its front are removed.
pub fn trim_start(text: &str) -> (rest: &str)
    ensures
        rest@ == trimmed(text@),
{
    let (pad, Ghost(n)) = leading_pad(text);
    proof {
        lemma_leading_white_space_bound(text@);
        lemma_skip_chars(text@, n);
    }
    let (_, rest) = text.split_at(pad);
    proof {
        lemma_encode_injective(rest@, text@.skip(n));
    }
    rest
}

/// What one more character does to the white space at the end.
proof fn lemma_trailing_step(chars: Seq<char>, m: int)
    requires
        0 <= m < chars.len(),
    ensures
        trailing_white_space(chars.take(m + 1)) == if is_white_space(chars[m]) {
            1 + trailing_white_space(chars.take(m))
        } else {
            0
        },
        trailing_white_space(chars.take(m)) <= m,
    decreases m,
{
    let now = chars.take(m + 1);
    assert(now.drop_last() =~= chars.take(m));
    if m > 0 {
        lemma_trailing_step(chars, m - 1);
    }
}

/// The slice that is left of `text` when the characters with the Unicode
/// property `White_Space` at its front and at its end are removed.
pub fn trim(text: &str) -> (rest: &str)
    ensures
        rest@ == trimmed_both(text@),
{
    let front = trim_start(text);
    let bytes = front.as_bytes();
    let ghost chars = front@;
    let mut at: usize = 0;
    let mut end: usize = 0;
    let ghost mut m: int = 0;
    let ghost mut keep: int = 0;
    proof {
        lemma_encode_empty(chars);
    }
    while at < bytes.len()
        invariant
            bytes@ == encode_utf8(chars),
            0 <= m <= chars.len(),
            at == encode_utf8(chars.take(m)).len(),
            at <= bytes@.len(),
            at == bytes@.len() <==> m == chars.len(),
            0 <= keep <= m,
            keep == m - trailing_white_space(chars.take(m)),
            end == encode_utf8(chars.take(keep)).len(),
            end <= at,
        decreases bytes@.len() - at,
    {
        proof {
            lemma_next_char(chars, m);
            lemma_trailing_step(chars, m);
        }
        let (code, width) = scalar_at(bytes, at);
        at += width;
        proof {
            m = m + 1;
            lemma_skip_chars(chars, m);
            lemma_encode_empty(chars.skip(m));
        }
        if !white_space_code(code) {
            end = at;
            proof {
                keep = m;
            }
        }
    }
    proof {
        assert(chars.take(m) =~= chars);
        lemma_skip_chars(chars, keep);
    }
    let (rest, _) = front.split_at(end);
    proof {
        lemma_encode_injective(rest@, chars.take(keep));
    }
    rest
}

} // verus!
