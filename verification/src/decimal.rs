//! Unsigned decimal numbers as text: an optional `+`, then one or more of the
//! digits `0` to `9`, and nothing else.

use vstd::prelude::*;
use vstd::utf8::{encode_utf8, is_ascii_chars, is_ascii_chars_encode_utf8};

verus! {

/// Whether `b` is one of the ASCII digits `0` to `9`.
pub open spec fn is_digit(b: u8) -> bool {
    0x30 <= b <= 0x39
}

/// Whether every byte of `digits` is a digit.
pub open spec fn all_digits(digits: Seq<u8>) -> bool {
    forall|i: int| 0 <= i < digits.len() ==> is_digit(#[trigger] digits[i])
}

/// The number that a string of digits stands for, the first digit weighing
/// most. The empty string stands for 0.
pub open spec fn digits_value(digits: Seq<u8>) -> nat
    decreases digits.len(),
{
    if digits.len() == 0 {
        0
    } else {
        (digits_value(digits.drop_last()) * 10 + (digits.last() - 0x30)) as nat
    }
}

/// The text without the `+` that may stand in front of it.
pub open spec fn unsigned_part(text: Seq<u8>) -> Seq<u8> {
    if text.len() > 0 && text[0] == 0x2b {
        text.subrange(1, text.len() as int)
    } else {
        text
    }
}

/// The 64-bit number that `text` stands for: `None` where the text is empty
/// or a lone sign, holds anything but digits after the optional `+`, or
/// stands for a number above `u64::MAX`.
pub open spec fn decimal_u64(text: Seq<u8>) -> Option<u64> {
    let digits = unsigned_part(text);
    if digits.len() > 0 && all_digits(digits) && digits_value(digits) <= u64::MAX {
        Some(digits_value(digits) as u64)
    } else {
        None
    }
}

/// The digits of `n` in decimal, without a sign and without leading zeros.
pub open spec fn decimal_digits(n: nat) -> Seq<u8>
    decreases n,
{
    if n < 10 {
        seq![(0x30 + n) as u8]
    } else {
        decimal_digits(n / 10).push((0x30 + n % 10) as u8)
    }
}

/// The decimal digits of `n` as a text.
pub open spec fn decimal_text(n: nat) -> Seq<char> {
    Seq::new(decimal_digits(n).len(), |i: int| decimal_digits(n)[i] as char)
}

/// The digits of a number stand for that number.
pub proof fn lemma_decimal_digits_value(n: nat)
    ensures
        decimal_digits(n).len() > 0,
        all_digits(decimal_digits(n)),
        digits_value(decimal_digits(n)) == n,
    decreases n,
{
    let digits = decimal_digits(n);
    if n < 10 {
        assert(digits.drop_last() =~= Seq::<u8>::empty());
        assert(digits_value(digits.drop_last()) == 0);
        assert(digits.last() == 0x30 + n);
    } else {
        let front = decimal_digits(n / 10);
        lemma_decimal_digits_value(n / 10);
        assert(digits.drop_last() =~= front);
        assert(digits.last() == 0x30 + n % 10);
        assert forall|i: int| 0 <= i < digits.len() implies is_digit(#[trigger] digits[i]) by {
            if i < front.len() {
                assert(digits[i] == front[i]);
            }
        }
    }
}

/// Every 64-bit number is read back from its digits, with or without a `+`
/// in front of them.
pub proof fn lemma_decimal_round_trip(n: u64)
    ensures
        decimal_u64(decimal_digits(n as nat)) == Some(n),
        decimal_u64(seq![0x2bu8] + decimal_digits(n as nat)) == Some(n),
{
    let digits = decimal_digits(n as nat);
    lemma_decimal_digits_value(n as nat);
    assert(is_digit(digits[0]));
    assert(unsigned_part(digits) == digits);
    let signed = seq![0x2bu8] + digits;
    assert(unsigned_part(signed) =~= digits);
}

/// The bytes of a number's text are its digits.
pub proof fn lemma_decimal_text_bytes(n: nat)
    ensures
        encode_utf8(decimal_text(n)) == decimal_digits(n),
{
    let digits = decimal_digits(n);
    let text = decimal_text(n);
    lemma_decimal_digits_value(n);
    assert forall|i: int| 0 <= i < text.len() implies '\0' <= #[trigger] text[i] <= '\u{7f}' by {
        assert(is_digit(digits[i]));
    }
    assert(is_ascii_chars(text));
    is_ascii_chars_encode_utf8(text);
    assert forall|i: int| 0 <= i < digits.len() implies encode_utf8(text)[i] == digits[i] by {
        assert(is_digit(digits[i]));
        assert(text[i] as u8 == digits[i]);
    }
    assert(encode_utf8(text) =~= digits);
}

/// A string of digits stands for at least as much as any string that it
/// starts with.
pub proof fn lemma_prefix_value_le(digits: Seq<u8>, n: int)
    requires
        0 <= n <= digits.len(),
        all_digits(digits),
    ensures
        digits_value(digits.subrange(0, n)) <= digits_value(digits),
    decreases digits.len(),
{
    if n == digits.len() {
        assert(digits.subrange(0, n) =~= digits);
    } else {
        let shorter = digits.drop_last();
        assert(shorter.subrange(0, n) =~= digits.subrange(0, n));
        lemma_prefix_value_le(shorter, n);
    }
}

/// Reads `text` as an unsigned decimal number of 64 bits.
pub fn parse_u64(text: &[u8]) -> (r: Option<u64>)
    ensures
        r == decimal_u64(text@),
{
    let n: usize = text.len();
    let start: usize = if n > 0 && text[0] == 0x2b { 1 } else { 0 };
    let ghost digits = unsigned_part(text@);
    assert(digits =~= text@.subrange(start as int, n as int));
    if start == n {
        return None;
    }
    let mut acc: u64 = 0;
    let mut i: usize = start;
    while i < n
        invariant
            start <= i <= n,
            n == text@.len(),
            digits == unsigned_part(text@),
            digits == text@.subrange(start as int, n as int),
            all_digits(digits.subrange(0, i - start)),
            acc == digits_value(digits.subrange(0, i - start)),
        decreases n - i,
    {
        let b: u8 = text[i];
        let ghost before = digits.subrange(0, i - start);
        let ghost upto = digits.subrange(0, i - start + 1);
        assert(upto.drop_last() =~= before);
        assert(upto.last() == b);
        if b < 0x30 || b > 0x39 {
            assert(!is_digit(digits[i - start]));
            return None;
        }
        let d: u64 = (b - 0x30) as u64;
        if acc > (u64::MAX - d) / 10 {
            proof {
                assert(digits_value(upto) > u64::MAX);
                if all_digits(digits) {
                    lemma_prefix_value_le(digits, i - start + 1);
                }
            }
            return None;
        }
        acc = acc * 10 + d;
        i = i + 1;
        assert(digits_value(upto) == acc);
        assert forall|k: int| 0 <= k < upto.len() implies is_digit(#[trigger] upto[k]) by {
            if k < before.len() {
                assert(upto[k] == before[k]);
            }
        }
    }
    assert(digits.subrange(0, n - start) =~= digits);
    Some(acc)
}

} // verus!
