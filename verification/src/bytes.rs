//! Byte sequences: little-endian numbers, copies and zero filling.
use vstd::prelude::*;

verus! {

/// The number whose little-endian digits in base 256 are `s`.
pub open spec fn le_value(s: Seq<u8>) -> nat
    decreases s.len(),
{
    if s.len() == 0 {
        0
    } else {
        s[0] as nat + 256 * le_value(s.skip(1))
    }
}

/// The `n` low little-endian digits of `v` in base 256.
pub open spec fn le_bytes(v: nat, n: nat) -> Seq<u8>
    decreases n,
{
    if n == 0 {
        Seq::empty()
    } else {
        seq![(v % 256) as u8] + le_bytes(v / 256, (n - 1) as nat)
    }
}

/// The number of values that fit in `n` bytes.
pub open spec fn byte_range(n: nat) -> nat
    decreases n,
{
    if n == 0 {
        1
    } else {
        256 * byte_range((n - 1) as nat)
    }
}

pub proof fn lemma_byte_ranges()
    ensures
        byte_range(1) == 0x100,
        byte_range(2) == 0x1_0000,
        byte_range(4) == 0x1_0000_0000,
        byte_range(8) == 0x1_0000_0000_0000_0000,
{
    reveal_with_fuel(byte_range, 9);
}

/// Digits have their full number, and reading them gives the number back.
pub proof fn lemma_le_round_trip(v: nat, n: nat)
    ensures
        le_bytes(v, n).len() == n,
        v < byte_range(n) ==> le_value(le_bytes(v, n)) == v,
    decreases n,
{
    if n > 0 {
        lemma_le_round_trip(v / 256, (n - 1) as nat);
        let tail = le_bytes(v / 256, (n - 1) as nat);
        assert(le_bytes(v, n).skip(1) =~= tail);
    }
}

pub proof fn lemma_le_value_bound(s: Seq<u8>)
    ensures
        le_value(s) < byte_range(s.len()),
    decreases s.len(),
{
    if s.len() > 0 {
        lemma_le_value_bound(s.skip(1));
    }
}

/// The 16-bit word stored in two bytes.
pub open spec fn word_of(low: u8, high: u8) -> u16 {
    (low + 256 * high) as u16
}

/// Reads a 16-bit word.
pub fn word_from_bytes(low: u8, high: u8) -> (word: u16)
    ensures
        word == word_of(low, high),
        word % 256 == low,
        word / 256 == high,
{
    low as u16 + 256 * high as u16
}

/// The low and the high byte of a word.
pub fn word_to_bytes(word: u16) -> (bytes: (u8, u8))
    ensures
        bytes.0 == word % 256,
        bytes.1 == word / 256,
        word_of(bytes.0, bytes.1) == word,
{
    ((word % 256) as u8, (word / 256) as u8)
}

/// Appends the `count` low little-endian bytes of `value`.
pub fn push_le(out: &mut Vec<u8>, value: u64, count: usize)
    requires
        count <= 8,
    ensures
        final(out)@ == old(out)@ + le_bytes(value as nat, count as nat),
{
    let mut rest: u64 = value;
    let mut left: usize = count;
    let ghost before = out@;
    proof {
        assert(before + le_bytes(value as nat, count as nat) == out@ + le_bytes(
            rest as nat,
            left as nat,
        ));
    }
    while left > 0
        invariant
            before + le_bytes(value as nat, count as nat) == out@ + le_bytes(
                rest as nat,
                left as nat,
            ),
        decreases left,
    {
        let digit: u8 = (rest % 256) as u8;
        out.push(digit);
        proof {
            let tail = le_bytes((rest / 256) as nat, (left - 1) as nat);
            assert(out@ + tail =~= out@.drop_last() + (seq![digit] + tail));
            assert(le_bytes(rest as nat, left as nat) == seq![digit] + tail);
        }
        rest = rest / 256;
        left -= 1;
    }
    assert(le_bytes(rest as nat, 0) =~= Seq::empty());
    assert(out@ + Seq::<u8>::empty() =~= out@);
}

/// Reads the little-endian number in `count` bytes from `at`.
pub fn read_le(input: &[u8], at: usize, count: usize) -> (value: u64)
    requires
        count <= 8,
        at + count <= input@.len(),
    ensures
        value == le_value(input@.subrange(at as int, at + count)),
        value < byte_range(count as nat),
{
    let total: usize = input.len();
    let mut value: u64 = 0;
    let mut left: usize = count;
    let ghost whole = input@.subrange(at as int, at + count);
    proof {
        reveal_with_fuel(byte_range, 9);
        lemma_le_value_bound(whole);
        assert(whole.skip(count as int) =~= Seq::empty());
    }
    while left > 0
        invariant
            count <= 8,
            left <= count,
            at + count <= total,
            total == input@.len(),
            whole == input@.subrange(at as int, at + count),
            value == le_value(whole.skip(left as int)),
            value < byte_range((count - left) as nat),
        decreases left,
    {
        left -= 1;
        let digit: u8 = input[at + left];
        proof {
            reveal_with_fuel(byte_range, 9);
            let tail = whole.skip(left as int);
            assert(tail[0] == digit);
            assert(tail.skip(1) =~= whole.skip(left + 1));
            lemma_le_value_bound(tail);
        }
        value = digit as u64 + 256 * value;
    }
    assert(whole.skip(0) =~= whole);
    value
}

/// A copy of `bytes` filled up with zeros to `len`.
pub open spec fn zero_padded(bytes: Seq<u8>, len: nat) -> Seq<u8> {
    Seq::new(
        len,
        |i: int|
            if i < bytes.len() {
                bytes[i]
            } else {
                0u8
            },
    )
}

/// Appends all of `bytes`.
pub fn push_all(out: &mut Vec<u8>, bytes: &[u8])
    ensures
        final(out)@ == old(out)@ + bytes@,
{
    out.extend_from_slice(bytes);
    assert(out@ =~= old(out)@ + bytes@);
}

/// An owned copy.
pub fn copy_bytes(bytes: &[u8]) -> (copy: Vec<u8>)
    ensures
        copy@ == bytes@,
{
    let mut copy: Vec<u8> = Vec::with_capacity(bytes.len());
    push_all(&mut copy, bytes);
    assert(copy@ =~= bytes@);
    copy
}

/// An owned copy filled up with zeros to `len`.
pub fn copy_zero_padded(bytes: &[u8], len: usize) -> (copy: Vec<u8>)
    requires
        bytes@.len() <= len,
    ensures
        copy@ == zero_padded(bytes@, len as nat),
{
    let mut copy = copy_bytes(bytes);
    copy.resize(len, 0);
    assert(copy@ =~= zero_padded(bytes@, len as nat));
    copy
}

/// Compares two byte sequences.
pub fn same_bytes(a: &[u8], b: &[u8]) -> (same: bool)
    ensures
        same == (a@ == b@),
{
    if a.len() != b.len() {
        return false;
    }
    let mut i: usize = 0;
    while i < a.len()
        invariant
            i <= a@.len(),
            a@.len() == b@.len(),
            forall|k: int| 0 <= k < i ==> a@[k] == b@[k],
        decreases a@.len() - i,
    {
        if a[i] != b[i] {
            return false;
        }
        i += 1;
    }
    assert(a@ =~= b@);
    true
}

} // verus!
