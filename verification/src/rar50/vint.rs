//! Variable-length integers: seven bits to a byte, lowest first, with the top
//! bit set on every byte but the last.

use vstd::prelude::*;

verus! {

/// The encoding of `value`.
pub open spec fn vint(value: nat) -> Seq<u8>
    decreases value,
{
    if value < 128 {
        seq![value as u8]
    } else {
        seq![(128 + value % 128) as u8] + vint(value / 128)
    }
}

/// How many bytes the encoding of `value` takes.
pub open spec fn vint_len(value: nat) -> nat
    decreases value,
{
    if value < 128 {
        1
    } else {
        1 + vint_len(value / 128)
    }
}

/// The integer at the start of `bytes` and how many bytes it took, where there
/// is one.
pub open spec fn vint_at_start(bytes: Seq<u8>) -> Option<(nat, nat)>
    decreases bytes.len(),
{
    if bytes.len() == 0 {
        None
    } else if bytes[0] < 128 {
        Some((bytes[0] as nat, 1))
    } else {
        match vint_at_start(bytes.drop_first()) {
            Some((rest, taken)) => Some(((bytes[0] - 128) as nat + 128 * rest, taken + 1)),
            None => None,
        }
    }
}

pub proof fn lemma_vint_len(value: nat)
    ensures
        vint(value).len() == vint_len(value),
        vint_len(value) >= 1,
    decreases value,
{
    if value >= 128 {
        lemma_vint_len(value / 128);
    }
}

/// Larger integers take at least as many bytes.
pub proof fn lemma_vint_len_grows(small: nat, large: nat)
    requires
        small <= large,
    ensures
        vint_len(small) <= vint_len(large),
    decreases large,
{
    if small >= 128 {
        lemma_vint_len_grows(small / 128, large / 128);
    } else {
        lemma_vint_len(large);
    }
}

/// A step of up to 127 lengthens the encoding by one byte at most.
pub proof fn lemma_vint_len_step(value: nat, step: nat)
    requires
        step < 128,
    ensures
        vint_len(value) <= vint_len(value + step) <= vint_len(value) + 1,
    decreases value,
{
    lemma_vint_len_grows(value, value + step);
    if value < 128 {
        assert(value + step < 256);
        assert((value + step) / 128 < 128);
        assert(value + step >= 128 ==> vint_len(((value + step) / 128) as nat) == 1);
    } else {
        let carry = ((value + step) / 128 - value / 128) as nat;
        assert(carry <= 1);
        lemma_vint_len_step(value / 128, carry);
    }
}

/// The encoding of a 64-bit integer takes ten bytes at most.
pub proof fn lemma_vint_len_bound(value: nat)
    requires
        value <= u64::MAX,
    ensures
        1 <= vint_len(value) <= 10,
{
    lemma_vint_len_grows(value, u64::MAX as nat);
    lemma_vint_len(value);
    reveal_with_fuel(vint_len, 11);
    assert(vint_len(u64::MAX as nat) == 10);
}

/// Reading an encoding gives back the integer, whatever follows it.
pub proof fn law_vint_round_trip(value: nat, rest: Seq<u8>)
    ensures
        vint_at_start(vint(value) + rest) == Some((value, vint_len(value))),
    decreases value,
{
    let bytes = vint(value) + rest;
    if value < 128 {
        assert(bytes[0] == value as u8);
    } else {
        assert(bytes[0] == (128 + value % 128) as u8);
        assert(bytes.drop_first() == vint(value / 128) + rest);
        law_vint_round_trip(value / 128, rest);
    }
}

/// Appends the encoding of `value`.
pub fn write_vint(out: &mut Vec<u8>, value: u64)
    ensures
        final(out)@ == old(out)@ + vint(value as nat),
{
    write_wide_vint(out, value as u128);
}

/// Appends the encoding of a sum of sizes, which may exceed 64 bits.
pub fn write_wide_vint(out: &mut Vec<u8>, value: u128)
    ensures
        final(out)@ == old(out)@ + vint(value as nat),
{
    let mut left: u128 = value;
    while left >= 0x80
        invariant
            out@ + vint(left as nat) == old(out)@ + vint(value as nat),
        decreases left,
    {
        let low: u8 = (128 + left % 128) as u8;
        let ghost before = out@;
        out.push(low);
        proof {
            assert(vint(left as nat) == seq![low] + vint((left / 128) as nat));
            assert(before + vint(left as nat) == before.push(low) + vint((left / 128) as nat));
        }
        left = left / 128;
    }
    let ghost before = out@;
    out.push(left as u8);
    assert(before + vint(left as nat) == before.push(left as u8));
}

/// How many bytes [`write_vint`] appends.
pub fn vint_width(value: u64) -> (width: u64)
    ensures
        width == vint_len(value as nat),
        1 <= width <= 10,
{
    proof {
        lemma_vint_len_bound(value as nat);
    }
    let mut left: u64 = value;
    let mut width: u64 = 1;
    while left >= 0x80
        invariant
            width + vint_len(left as nat) == vint_len(value as nat) + 1,
            vint_len(value as nat) <= 10,
        decreases left,
    {
        proof {
            lemma_vint_len((left / 128) as nat);
        }
        left = left / 128;
        width = width + 1;
    }
    width
}

} // verus!
