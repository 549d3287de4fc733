//! The 64-bit checksums of recovery records.
use vstd::prelude::*;

verus! {

const CRC64_XZ_POLY: u64 = 0xc96c_5795_d787_0f42;

pub const CRC64_XZ_INIT: u64 = 0xffff_ffff_ffff_ffff;

/// `bits` steps of division by the generator polynomial.
pub open spec fn crc64_shift(state: u64, bits: nat) -> u64
    decreases bits,
{
    if bits == 0 {
        state
    } else {
        let before = crc64_shift(state, (bits - 1) as nat);
        if before & 1 == 1 {
            (before >> 1) ^ 0xc96c_5795_d787_0f42
        } else {
            before >> 1
        }
    }
}

/// The state after the bytes of `data`.
pub open spec fn crc64_state(data: Seq<u8>, initial: u64) -> u64
    decreases data.len(),
{
    if data.len() == 0 {
        initial
    } else {
        crc64_shift(crc64_state(data.drop_last(), initial) ^ (data.last() as u64), 8)
    }
}

/// The checksum CRC-64/XZ of `data`.
pub open spec fn crc64_xz_of(data: Seq<u8>) -> u64 {
    crc64_state(data, CRC64_XZ_INIT) ^ CRC64_XZ_INIT
}

/// The raw state that a recovery record keeps of a shard.
pub open spec fn crc64_rar_of(data: Seq<u8>) -> u64 {
    crc64_state(data, 0)
}

/// Checksumming can be done piece by piece.
pub proof fn lemma_crc64_concat(a: Seq<u8>, b: Seq<u8>, initial: u64)
    ensures
        crc64_state(a + b, initial) == crc64_state(b, crc64_state(a, initial)),
    decreases b.len(),
{
    if b.len() == 0 {
        assert(a + b =~= a);
    } else {
        lemma_crc64_concat(a, b.drop_last(), initial);
        assert((a + b).drop_last() =~= a + b.drop_last());
    }
}

/// Carries a state over more bytes.
pub fn crc64_update(data: &[u8], initial: u64) -> (state: u64)
    ensures
        state == crc64_state(data@, initial),
{
    let mut state: u64 = initial;
    let mut i: usize = 0;
    assert(data@.take(0) =~= Seq::empty());
    while i < data.len()
        invariant
            i <= data@.len(),
            state == crc64_state(data@.take(i as int), initial),
        decreases data@.len() - i,
    {
        let ghost mixed = state ^ (data@[i as int] as u64);
        state = state ^ (data[i] as u64);
        let mut bit: usize = 0;
        while bit < 8
            invariant
                bit <= 8,
                state == crc64_shift(mixed, bit as nat),
            decreases 8 - bit,
        {
            if state & 1 == 1 {
                state = (state >> 1) ^ CRC64_XZ_POLY;
            } else {
                state = state >> 1;
            }
            bit += 1;
        }
        proof {
            let next = data@.take(i + 1);
            assert(next.drop_last() =~= data@.take(i as int));
        }
        i += 1;
    }
    assert(data@.take(data@.len() as int) =~= data@);
    state
}

/// The checksum CRC-64/XZ.
pub fn crc64_xz(data: &[u8]) -> (checksum: u64)
    ensures
        checksum == crc64_xz_of(data@),
{
    crc64_update(data, CRC64_XZ_INIT) ^ CRC64_XZ_INIT
}

/// The raw state that a recovery record keeps of a shard.
pub fn crc64_rar_state(data: &[u8]) -> (state: u64)
    ensures
        state == crc64_rar_of(data@),
{
    crc64_update(data, 0)
}

/// Zeros that are divided stay zeros.
proof fn lemma_zeros(count: nat)
    ensures
        crc64_state(Seq::new(count, |i: int| 0u8), 0) == 0,
    decreases count,
{
    let zeros = Seq::new(count, |i: int| 0u8);
    if count > 0 {
        lemma_zeros((count - 1) as nat);
        assert(zeros.drop_last() =~= Seq::new((count - 1) as nat, |i: int| 0u8));
        reveal_with_fuel(crc64_shift, 9);
        assert(0u64 ^ 0 == 0 && 0u64 & 1 == 0 && 0u64 >> 1 == 0) by (bit_vector);
    }
}

/// The sum that is kept of a shard starts from nothing and is not complemented: zeros have
/// none, and zeros before data do not count.
pub proof fn law_shard_sums_start_from_nothing(data: Seq<u8>, count: nat)
    ensures
        ({
            let zeros = Seq::new(count, |i: int| 0u8);
            &&& crc64_rar_of(zeros) == 0
            &&& crc64_rar_of(zeros + data) == crc64_rar_of(data)
        }),
{
    lemma_zeros(count);
    lemma_crc64_concat(Seq::new(count, |i: int| 0u8), data, 0);
}

} // verus!
