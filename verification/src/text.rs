//! Numbers as text.

use vstd::prelude::*;
#[allow(unused_imports)]
use vstd::utf8::{decode_utf8, valid_utf8};

verus! {

/// Decimal digits.
pub open spec fn decimal(value: nat) -> Seq<u8>
    decreases value,
{
    if value < 10 {
        seq![(48 + value) as u8]
    } else {
        decimal(value / 10).push((48 + value % 10) as u8)
    }
}

pub open spec fn hex_digit(value: nat) -> u8 {
    if value < 10 {
        (48 + value) as u8
    } else {
        (87 + value) as u8
    }
}

/// The low `count` hexadecimal digits.
pub open spec fn hex(value: nat, count: nat) -> Seq<u8>
    decreases count,
{
    if count == 0 {
        Seq::empty()
    } else {
        hex(value / 16, (count - 1) as nat).push(hex_digit(value % 16))
    }
}

/// Appends decimal digits.
pub fn push_decimal(out: &mut Vec<u8>, value: u64)
    ensures
        final(out)@ == old(out)@ + decimal(value as nat),
    decreases value,
{
    if value >= 10 {
        push_decimal(out, value / 10);
    }
    let ghost before = out@;
    out.push((48 + value % 10) as u8);
    assert(out@ =~= old(out)@ + decimal(value as nat));
}

/// Appends hexadecimal digits.
pub fn push_hex(out: &mut Vec<u8>, value: u64, count: u64)
    ensures
        final(out)@ == old(out)@ + hex(value as nat, count as nat),
    decreases count,
{
    if count > 0 {
        push_hex(out, value / 16, count - 1);
        let digit: u8 = (value % 16) as u8;
        let text: u8 = if digit < 10 {
            48 + digit
        } else {
            87 + digit
        };
        out.push(text);
    }
    assert(out@ =~= old(out)@ + hex(value as nat, count as nat));
}

pub proof fn lemma_hex_len(value: nat, count: nat)
    ensures
        hex(value, count).len() == count,
    decreases count,
{
    if count > 0 {
        lemma_hex_len(value / 16, (count - 1) as nat);
    }
}

/// The number of values that `count` hexadecimal digits tell apart.
spec fn hex_range(count: nat) -> nat
    decreases count,
{
    if count == 0 {
        1
    } else {
        16 * hex_range((count - 1) as nat)
    }
}

proof fn lemma_hex_digits_distinct(a: nat, b: nat, count: nat)
    requires
        a < hex_range(count),
        b < hex_range(count),
        hex(a, count) == hex(b, count),
    ensures
        a == b,
    decreases count,
{
    if count > 0 {
        lemma_hex_len(a / 16, (count - 1) as nat);
        lemma_hex_len(b / 16, (count - 1) as nat);
        assert(hex(a, count).last() == hex_digit(a % 16));
        assert(hex(b, count).last() == hex_digit(b % 16));
        assert(hex(a, count).drop_last() =~= hex(a / 16, (count - 1) as nat));
        assert(hex(b, count).drop_last() =~= hex(b / 16, (count - 1) as nat));
        lemma_hex_digits_distinct(a / 16, b / 16, (count - 1) as nat);
    }
}

/// Sixteen hexadecimal digits tell all 64-bit numbers apart.
pub proof fn law_hex_digits_are_distinct(a: u64, b: u64)
    requires
        hex(a as nat, 16) == hex(b as nat, 16),
    ensures
        a == b,
{
    reveal_with_fuel(hex_range, 17);
    assert(hex_range(16) == 0x1_0000_0000_0000_0000);
    lemma_hex_digits_distinct(a as nat, b as nat, 16);
}

/// Decimal digits, with zeros before them up to `width`.
pub open spec fn padded_decimal(value: nat, width: nat) -> Seq<u8> {
    zeros(
        if decimal(value).len() < width {
            (width - decimal(value).len()) as nat
        } else {
            0
        },
    ) + decimal(value)
}

/// Zero digits.
pub open spec fn zeros(count: nat) -> Seq<u8> {
    Seq::new(count, |i: int| 48u8)
}

/// Appends decimal digits, with zeros before them up to `width`.
pub fn push_padded_decimal(out: &mut Vec<u8>, value: u64, width: usize)
    ensures
        final(out)@ == old(out)@ + padded_decimal(value as nat, width as nat),
{
    let mut digits: Vec<u8> = Vec::new();
    push_decimal(&mut digits, value);
    assert(digits@ =~= decimal(value as nat));
    let mut missing: usize = if digits.len() < width {
        width - digits.len()
    } else {
        0
    };
    let ghost padding = missing as nat;
    while missing > 0
        invariant
            missing <= padding,
            out@ == old(out)@ + zeros((padding - missing) as nat),
        decreases missing,
    {
        out.push(48);
        missing = missing - 1;
        assert(out@ =~= old(out)@ + zeros((padding - missing) as nat));
    }
    crate::bytes::push_all(out, &digits);
    assert(out@ =~= old(out)@ + padded_decimal(value as nat, width as nat));
}

pub open spec fn is_ascii(bytes: Seq<u8>) -> bool {
    forall|i: int| 0 <= i < bytes.len() ==> #[trigger] bytes[i] < 128
}

/// ASCII bytes as characters.
pub open spec fn ascii_chars(bytes: Seq<u8>) -> Seq<char> {
    bytes.map_values(|byte: u8| byte as char)
}

/// Calls [`std::str::from_utf8`], which accepts a slice if and only if it is
/// valid UTF-8, and gives the text that the slice encodes.
#[verifier::external_body]
pub(crate) fn utf8_text(bytes: &[u8]) -> (text: Option<&str>)
    ensures
        match text {
            Some(text) => valid_utf8(bytes@) && text@ == decode_utf8(bytes@),
            None => !valid_utf8(bytes@),
        },
{
    std::str::from_utf8(bytes).ok()
}

/// Calls [`String::from_utf8`], which makes a string of valid UTF-8. ASCII is
/// valid UTF-8, one byte to a character.
#[verifier::external_body]
pub(crate) fn ascii_string(bytes: Vec<u8>) -> (text: String)
    requires
        is_ascii(bytes@),
    ensures
        text@ == ascii_chars(bytes@),
{
    String::from_utf8(bytes).unwrap_or_default()
}

pub proof fn lemma_decimal_is_ascii(value: nat)
    ensures
        is_ascii(decimal(value)),
    decreases value,
{
    if value >= 10 {
        lemma_decimal_is_ascii(value / 10);
    }
}

pub proof fn lemma_hex_is_ascii(value: nat, count: nat)
    ensures
        is_ascii(hex(value, count)),
    decreases count,
{
    if count > 0 {
        lemma_hex_is_ascii(value / 16, (count - 1) as nat);
    }
}

/// What [`String::from_utf8_lossy`] makes of bytes.
pub uninterp spec fn lossy_chars(bytes: Seq<u8>) -> Seq<char>;

/// Calls [`String::from_utf8_lossy`]: valid UTF-8 becomes the text it encodes,
/// and in other bytes replacement characters stand for what is not valid.
#[verifier::external_body]
pub(crate) fn lossy_text(bytes: &[u8]) -> (text: String)
    ensures
        text@ == lossy_chars(bytes@),
        valid_utf8(bytes@) ==> text@ == decode_utf8(bytes@),
{
    String::from_utf8_lossy(bytes).into_owned()
}

/// What the `Debug` format of a text reads: the text in quotes, with escapes.
pub uninterp spec fn quoted_chars(text: Seq<char>) -> Seq<char>;

/// Formats a text with [`std::fmt::Debug`], which puts it in quotes and escapes
/// what a string literal would have to.
#[verifier::external_body]
pub(crate) fn quoted_text(text: &str) -> (quoted: String)
    ensures
        quoted@ == quoted_chars(text@),
{
    format!("{text:?}")
}

/// A number in decimal, as text.
pub open spec fn decimal_chars(value: nat) -> Seq<char> {
    ascii_chars(decimal(value))
}

pub fn decimal_text(value: u64) -> (text: String)
    ensures
        text@ == decimal_chars(value as nat),
{
    let mut digits: Vec<u8> = Vec::new();
    push_decimal(&mut digits, value);
    proof {
        lemma_decimal_is_ascii(value as nat);
        assert(digits@ =~= decimal(value as nat));
    }
    ascii_string(digits)
}

} // verus!
