//! Reading unsigned numbers from ASCII digits.

use vstd::prelude::*;

verus! {

/// The value of a digit: `0` to `9`, then `a` to `z` or `A` to `Z` for ten
/// to thirty-five.
pub open spec fn digit_value(byte: u8) -> Option<nat> {
    if 0x30 <= byte <= 0x39 {
        Some((byte - 0x30) as nat)
    } else if 0x61 <= byte <= 0x7A {
        Some((byte - 0x61 + 10) as nat)
    } else if 0x41 <= byte <= 0x5A {
        Some((byte - 0x41 + 10) as nat)
    } else {
        None
    }
}

/// The number that a sequence of digits in base `radix` stands for, if each
/// of them is a digit of that base.
pub open spec fn digits_value(bytes: Seq<u8>, radix: nat) -> Option<nat>
    decreases bytes.len(),
{
    if bytes.len() == 0 {
        Some(0)
    } else {
        match digits_value(bytes.drop_last(), radix) {
            None => None,
            Some(high) => match digit_value(bytes.last()) {
                None => None,
                Some(low) => if low < radix {
                    Some(high * radix + low)
                } else {
                    None
                },
            },
        }
    }
}

/// The number that `bytes` stand for in base `radix`: an optional plus sign
/// and then at least one digit, nothing before, between or after.
pub open spec fn number(bytes: Seq<u8>, radix: nat) -> Option<nat> {
    let body = if bytes.len() > 0 && bytes[0] == 0x2B {
        bytes.skip(1)
    } else {
        bytes
    };
    if body.len() == 0 {
        None
    } else {
        digits_value(body, radix)
    }
}

/// The number that `bytes` stand for, if it is at most `max`.
pub open spec fn number_upto(bytes: Seq<u8>, radix: nat, max: nat) -> Option<nat> {
    match number(bytes, radix) {
        Some(value) => if value <= max {
            Some(value)
        } else {
            None
        },
        None => None,
    }
}

/// Where the beginning of a sequence is no number, the sequence is none.
proof fn lemma_digits_fail(bytes: Seq<u8>, radix: nat, n: int)
    requires
        0 <= n <= bytes.len(),
        digits_value(bytes.take(n), radix) is None,
    ensures
        digits_value(bytes, radix) is None,
    decreases bytes.len() - n,
{
    if n == bytes.len() {
        assert(bytes.take(n) =~= bytes);
    } else {
        assert(bytes.drop_last().take(n) =~= bytes.take(n));
        lemma_digits_fail(bytes.drop_last(), radix, n);
    }
}

/// The beginning of a number is no greater than the number.
proof fn lemma_digits_grow(bytes: Seq<u8>, radix: nat, n: int)
    requires
        0 <= n <= bytes.len(),
        radix >= 1,
        digits_value(bytes, radix) is Some,
    ensures
        digits_value(bytes.take(n), radix) is Some,
        digits_value(bytes.take(n), radix)->0 <= digits_value(bytes, radix)->0,
    decreases bytes.len() - n,
{
    if n == bytes.len() {
        assert(bytes.take(n) =~= bytes);
    } else {
        assert(bytes.drop_last().take(n) =~= bytes.take(n));
        lemma_digits_grow(bytes.drop_last(), radix, n);
        let high = digits_value(bytes.drop_last(), radix)->0;
        assert(high * radix >= high) by (nonlinear_arith)
            requires
                radix >= 1,
        ;
    }
}

/// The value of one digit.
fn digit_of(byte: u8) -> (value: Option<u64>)
    ensures
        match value {
            Some(v) => digit_value(byte) == Some(v as nat),
            None => digit_value(byte) is None,
        },
{
    if 0x30 <= byte && byte <= 0x39 {
        Some((byte - 0x30) as u64)
    } else if 0x61 <= byte && byte <= 0x7A {
        Some((byte - 0x61 + 10) as u64)
    } else if 0x41 <= byte && byte <= 0x5A {
        Some((byte - 0x41 + 10) as u64)
    } else {
        None
    }
}

/// Reads a number in base `radix` that is at most `max`.
fn parse_upto(bytes: &[u8], radix: u64, max: u64) -> (value: Option<u64>)
    requires
        2 <= radix <= 36,
        max <= u32::MAX,
    ensures
        match value {
            Some(v) => number_upto(bytes@, radix as nat, max as nat) == Some(v as nat),
            None => number_upto(bytes@, radix as nat, max as nat) is None,
        },
{
    let from: usize = if bytes.len() > 0 && bytes[0] == 0x2B {
        1
    } else {
        0
    };
    if from == bytes.len() {
        return None;
    }
    let ghost body = bytes@.skip(from as int);
    assert(bytes@.skip(0) =~= bytes@);
    let mut acc: u64 = 0;
    let mut i: usize = from;
    while i < bytes.len()
        invariant
            from <= i <= bytes@.len(),
            body == bytes@.skip(from as int),
            number(bytes@, radix as nat) == digits_value(body, radix as nat),
            2 <= radix <= 36,
            max <= u32::MAX,
            acc <= max,
            digits_value(body.take(i - from), radix as nat) == Some(acc as nat),
        decreases bytes@.len() - i,
    {
        let ghost before = body.take(i - from);
        let ghost now = body.take(i - from + 1);
        proof {
            assert(now.drop_last() =~= before);
        }
        let low = match digit_of(bytes[i]) {
            Some(low) => low,
            None => {
                proof {
                    lemma_digits_fail(body, radix as nat, i - from + 1);
                }
                return None;
            },
        };
        if low >= radix {
            proof {
                lemma_digits_fail(body, radix as nat, i - from + 1);
            }
            return None;
        }
        assert(acc * radix <= 0xFFFF_FFFF * 36) by (nonlinear_arith)
            requires
                acc <= 0xFFFF_FFFF,
                radix <= 36,
        ;
        acc = acc * radix + low;
        if acc > max {
            proof {
                if digits_value(body, radix as nat) is Some {
                    lemma_digits_grow(body, radix as nat, i - from + 1);
                }
            }
            return None;
        }
        i += 1;
    }
    proof {
        assert(body.take(i - from) =~= body);
    }
    Some(acc)
}

/// Reads a number of at most eight hexadecimal digits, with an optional plus
/// sign before them.  Nothing is returned if `bytes` hold anything else or
/// the number does not fit.
pub fn parse_hex(bytes: &[u8]) -> (value: Option<u32>)
    ensures
        match value {
            Some(v) => number_upto(bytes@, 16, u32::MAX as nat) == Some(v as nat),
            None => number_upto(bytes@, 16, u32::MAX as nat) is None,
        },
{
    match parse_upto(bytes, 16, 0xFFFF_FFFF) {
        Some(v) => Some(v as u32),
        None => None,
    }
}

/// Reads a decimal number of at most 255, with an optional plus sign before
/// it.  Nothing is returned if `bytes` hold anything else or the number is
/// greater.
pub fn parse_byte(bytes: &[u8]) -> (value: Option<u8>)
    ensures
        match value {
            Some(v) => number_upto(bytes@, 10, 255) == Some(v as nat),
            None => number_upto(bytes@, 10, 255) is None,
        },
{
    match parse_upto(bytes, 10, 255) {
        Some(v) => Some(v as u8),
        None => None,
    }
}

/// Sixteen to the power of `n`.
pub open spec fn pow16(n: nat) -> nat
    decreases n,
{
    if n == 0 {
        1
    } else {
        16 * pow16((n - 1) as nat)
    }
}

/// A number of `n` hexadecimal digits is below sixteen to the power of `n`.
pub proof fn lemma_hex_digits_bound(bytes: Seq<u8>)
    requires
        digits_value(bytes, 16) is Some,
    ensures
        digits_value(bytes, 16)->0 < pow16(bytes.len()),
    decreases bytes.len(),
{
    if bytes.len() > 0 {
        lemma_hex_digits_bound(bytes.drop_last());
    }
}

/// A hexadecimal number written in at most four bytes fits in sixteen bits,
/// and one written in at most eight bytes in thirty-two.
pub proof fn lemma_hex_fits(bytes: Seq<u8>)
    requires
        number(bytes, 16) is Some,
    ensures
        bytes.len() <= 4 ==> number(bytes, 16)->0 <= 0xFFFF,
        bytes.len() <= 8 ==> number(bytes, 16)->0 <= 0xFFFF_FFFF,
{
    let body = if bytes.len() > 0 && bytes[0] == 0x2B {
        bytes.skip(1)
    } else {
        bytes
    };
    lemma_hex_digits_bound(body);
    reveal_with_fuel(pow16, 9);
    lemma_pow16_grows(body.len(), 4);
    lemma_pow16_grows(body.len(), 8);
}

/// Powers of sixteen grow with the exponent.
proof fn lemma_pow16_grows(a: nat, b: nat)
    ensures
        a <= b ==> pow16(a) <= pow16(b),
    decreases b,
{
    if a < b {
        lemma_pow16_grows(a, (b - 1) as nat);
    }
}

} // verus!
