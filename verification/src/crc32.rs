//! The checksum CRC-32 (ISO 3309).
use vstd::prelude::*;

verus! {

const CRC32_POLY: u32 = 0xedb8_8320;

const CRC32_INIT: u32 = 0xffff_ffff;

/// One bit of division by the generator polynomial.
pub open spec fn crc32_shift(state: u32, bits: nat) -> u32
    decreases bits,
{
    if bits == 0 {
        state
    } else {
        let before = crc32_shift(state, (bits - 1) as nat);
        if before & 1 == 1 {
            (before >> 1) ^ 0xedb8_8320
        } else {
            before >> 1
        }
    }
}

/// The state after the bytes of `data`.
pub open spec fn crc32_state(data: Seq<u8>, initial: u32) -> u32
    decreases data.len(),
{
    if data.len() == 0 {
        initial
    } else {
        crc32_shift(crc32_state(data.drop_last(), initial) ^ (data.last() as u32), 8)
    }
}

/// The checksum of `data`.
pub open spec fn crc32_of(data: Seq<u8>) -> u32 {
    crc32_state(data, 0xffff_ffff) ^ 0xffff_ffff
}

/// Checksumming can be done piece by piece.
pub proof fn lemma_crc32_concat(a: Seq<u8>, b: Seq<u8>, initial: u32)
    ensures
        crc32_state(a + b, initial) == crc32_state(b, crc32_state(a, initial)),
    decreases b.len(),
{
    if b.len() == 0 {
        assert(a + b =~= a);
    } else {
        lemma_crc32_concat(a, b.drop_last(), initial);
        assert((a + b).drop_last() =~= a + b.drop_last());
    }
}

fn update(initial: u32, data: &[u8]) -> (state: u32)
    ensures
        state == crc32_state(data@, initial),
{
    let mut state: u32 = initial;
    let mut i: usize = 0;
    assert(data@.take(0) =~= Seq::empty());
    while i < data.len()
        invariant
            i <= data@.len(),
            state == crc32_state(data@.take(i as int), initial),
        decreases data@.len() - i,
    {
        let ghost mixed = state ^ (data@[i as int] as u32);
        state = state ^ (data[i] as u32);
        let mut bit: usize = 0;
        while bit < 8
            invariant
                bit <= 8,
                state == crc32_shift(mixed, bit as nat),
            decreases 8 - bit,
        {
            if state & 1 == 1 {
                state = (state >> 1) ^ CRC32_POLY;
            } else {
                state = state >> 1;
            }
            bit += 1;
        }
        proof {
            let next = data@.take(i + 1);
            assert(next.drop_last() =~= data@.take(i as int));
        }
        i += 1;
    }
    assert(data@.take(data@.len() as int) =~= data@);
    state
}

/// The checksum of a whole byte sequence.
pub fn crc32(data: &[u8]) -> (checksum: u32)
    ensures
        checksum == crc32_of(data@),
{
    update(CRC32_INIT, data) ^ CRC32_INIT
}

/// A checksum in the making.
#[derive(Debug, Clone, Copy)]
pub struct Crc32 {
    state: u32,
}

impl Crc32 {
    /// The bytes seen so far are `data`.
    pub closed spec fn covers(&self, data: Seq<u8>) -> bool {
        self.state == crc32_state(data, 0xffff_ffff)
    }

    pub fn new() -> (crc: Self)
        ensures
            crc.covers(Seq::empty()),
    {
        Crc32 { state: CRC32_INIT }
    }

    pub fn update(&mut self, data: &[u8])
        ensures
            forall|before: Seq<u8>| #[trigger]
                old(self).covers(before) ==> final(self).covers(before + data@),
    {
        proof {
            assert forall|before: Seq<u8>| #[trigger] self.covers(before) implies crc32_state(
                before + data@,
                0xffff_ffff,
            ) == crc32_state(data@, self.state) by {
                lemma_crc32_concat(before, data@, 0xffff_ffff);
            }
        }
        self.state = update(self.state, data);
    }

    pub fn finish(&self) -> (checksum: u32)
        ensures
            forall|data: Seq<u8>| #[trigger] self.covers(data) ==> checksum == crc32_of(data),
    {
        self.state ^ CRC32_INIT
    }
}

impl Default for Crc32 {
    fn default() -> (crc: Self)
        ensures
            crc.covers(Seq::empty()),
    {
        Crc32::new()
    }
}

spec fn step(state: u32) -> u32 {
    if state & 1 == 1 {
        (state >> 1) ^ 0xedb8_8320
    } else {
        state >> 1
    }
}

spec fn four_steps(state: u32) -> u32 {
    step(step(step(step(state))))
}

/// Bits that a division has not come to yet only move along.
proof fn lemma_later_bits_move(state: u32, rest: u32)
    requires
        rest < 0x100_0000,
    ensures
        crc32_shift(state ^ (rest << 8), 8) == crc32_shift(state, 8) ^ rest,
{
    reveal_with_fuel(crc32_shift, 9);
    let (a, b) = (state ^ (rest << 8), rest << 4);
    assert(four_steps(state ^ (rest << 8)) == four_steps(state) ^ (rest << 4)) by (bit_vector)
        requires
            rest < 0x100_0000,
    ;
    let half = four_steps(state);
    assert(four_steps(half ^ (rest << 4)) == four_steps(half) ^ rest) by (bit_vector)
        requires
            rest < 0x100_0000,
    ;
    assert(crc32_shift(a, 4) == four_steps(a));
    assert(crc32_shift(state, 4) == half);
    assert(crc32_shift(a, 8) == four_steps(half ^ b));
    assert(crc32_shift(state, 8) == four_steps(half));
}

proof fn lemma_eight_steps(state: u32)
    ensures
        crc32_shift(state, 8) == four_steps(four_steps(state)),
{
    reveal_with_fuel(crc32_shift, 9);
}

/// Dividing what is left after all bits have met their own checksum.
proof fn lemma_ones_divided()
    ensures
        crc32_shift(crc32_shift(crc32_shift(crc32_shift(0xffff_ffff, 8), 8), 8), 8) == 0xdebb_20e3,
{
    assert(crc32_shift(0xffff_ffff, 8) == 0x2dfd_1072) by {
        lemma_eight_steps(0xffff_ffff);
        assert(four_steps(four_steps(0xffff_ffffu32)) == 0x2dfd_1072u32) by (bit_vector);
    }
    assert(crc32_shift(0x2dfd_1072, 8) == 0xbe26_ed00) by {
        lemma_eight_steps(0x2dfd_1072);
        assert(four_steps(four_steps(0x2dfd_1072u32)) == 0xbe26_ed00u32) by (bit_vector);
    }
    assert(crc32_shift(0xbe26_ed00, 8) == 0x00be_26ed) by {
        lemma_eight_steps(0xbe26_ed00);
        assert(four_steps(four_steps(0xbe26_ed00u32)) == 0x00be_26edu32) by (bit_vector);
    }
    assert(crc32_shift(0x00be_26ed, 8) == 0xdebb_20e3) by {
        lemma_eight_steps(0x00be_26ed);
        assert(four_steps(four_steps(0x00be_26edu32)) == 0xdebb_20e3u32) by (bit_vector);
    }
}

/// A checksum closes what it stands behind: data that is followed by the four bytes of its
/// own checksum, the lowest first, has the same checksum whatever the data is.
pub proof fn law_checksums_close_their_data(data: Seq<u8>)
    ensures
        ({
            let sum = crc32_of(data);
            crc32_of(
                data + seq![
                    (sum % 256) as u8,
                    (sum / 256 % 256) as u8,
                    (sum / 65_536 % 256) as u8,
                    (sum / 16_777_216) as u8,
                ],
            ) == 0x2144_df1c
        }),
{
    let sum = crc32_of(data);
    let state = crc32_state(data, 0xffff_ffff);
    let (a, b, c, d) = (
        (sum % 256) as u8,
        (sum / 256 % 256) as u8,
        (sum / 65_536 % 256) as u8,
        (sum / 16_777_216) as u8,
    );
    let tail = seq![a, b, c, d];
    lemma_crc32_concat(data, tail, 0xffff_ffff);
    let first = crc32_shift(state ^ (a as u32), 8);
    let second = crc32_shift(first ^ (b as u32), 8);
    let third = crc32_shift(second ^ (c as u32), 8);
    let fourth = crc32_shift(third ^ (d as u32), 8);
    lemma_four_bytes(a, b, c, d, state);
    let ones = 0xffff_ffffu32;
    let (one, two, three) = (
        crc32_shift(ones, 8),
        crc32_shift(crc32_shift(ones, 8), 8),
        crc32_shift(crc32_shift(crc32_shift(ones, 8), 8), 8),
    );
    let (r1, r2, r3) = (sum >> 8, sum >> 16, sum >> 24);
    assert({
        &&& r1 < 0x100_0000 && r2 < 0x100_0000 && r3 < 0x100_0000
        &&& (state ^ (a as u32)) ^ (r1 << 8) == 0xffff_ffff
    }) by (bit_vector)
        requires
            sum == state ^ 0xffff_ffff,
            a == (sum % 256) as u8,
            r1 == sum >> 8,
            r2 == sum >> 16,
            r3 == sum >> 24,
    ;
    lemma_later_bits_move(state ^ (a as u32), r1);
    assert((first ^ (b as u32)) ^ (r2 << 8) == one) by (bit_vector)
        requires
            one == first ^ r1,
            r1 == sum >> 8,
            r2 == sum >> 16,
            b == (sum / 256 % 256) as u8,
    ;
    lemma_later_bits_move(first ^ (b as u32), r2);
    assert((second ^ (c as u32)) ^ (r3 << 8) == two) by (bit_vector)
        requires
            two == second ^ r2,
            r2 == sum >> 16,
            r3 == sum >> 24,
            c == (sum / 65_536 % 256) as u8,
    ;
    lemma_later_bits_move(second ^ (c as u32), r3);
    assert(third ^ (d as u32) == three) by (bit_vector)
        requires
            three == third ^ r3,
            r3 == sum >> 24,
            d == (sum / 16_777_216) as u8,
    ;
    lemma_ones_divided();
    assert(0xdebb_20e3u32 ^ 0xffff_ffff == 0x2144_df1cu32) by (bit_vector);
}

proof fn lemma_four_bytes(a: u8, b: u8, c: u8, d: u8, state: u32)
    ensures
        crc32_state(seq![a, b, c, d], state) == crc32_shift(
            crc32_shift(
                crc32_shift(crc32_shift(state ^ (a as u32), 8) ^ (b as u32), 8) ^ (c as u32),
                8,
            ) ^ (d as u32),
            8,
        ),
{
    reveal_with_fuel(crc32_state, 5);
    let tail = seq![a, b, c, d];
    assert(tail.drop_last() =~= seq![a, b, c]);
    assert(seq![a, b, c].drop_last() =~= seq![a, b]);
    assert(seq![a, b].drop_last() =~= seq![a]);
    assert(seq![a].drop_last() =~= Seq::empty());
}

/// Zeros that are divided stay zeros.
proof fn lemma_zeros(count: nat)
    ensures
        crc32_state(Seq::new(count, |i: int| 0u8), 0) == 0,
    decreases count,
{
    let zeros = Seq::new(count, |i: int| 0u8);
    if count > 0 {
        lemma_zeros((count - 1) as nat);
        assert(zeros.drop_last() =~= Seq::new((count - 1) as nat, |i: int| 0u8));
        lemma_zero_byte();
        assert(0u32 ^ 0 == 0) by (bit_vector);
    }
}

proof fn lemma_zero_byte()
    ensures
        crc32_shift(0, 8) == 0,
{
    lemma_eight_steps(0);
    assert(four_steps(four_steps(0u32)) == 0) by (bit_vector);
}

/// Zeros before data count, unless they stand right behind four bytes that are all ones:
/// these undo what a checksum starts from.
pub proof fn law_four_ones_undo_the_start(data: Seq<u8>, count: nat)
    ensures
        ({
            let ones = seq![0xffu8, 0xff, 0xff, 0xff];
            let zeros = Seq::new(count, |i: int| 0u8);
            crc32_of(ones + (zeros + data)) == crc32_of(ones + data)
        }),
{
    let ones = seq![0xffu8, 0xff, 0xff, 0xff];
    let zeros = Seq::new(count, |i: int| 0u8);
    lemma_four_bytes(0xff, 0xff, 0xff, 0xff, 0xffff_ffff);
    lemma_zero_byte();
    lemma_later_bits_move(0, 0xff_ffff);
    lemma_later_bits_move(0, 0xffff);
    lemma_later_bits_move(0, 0xff);
    assert({
        &&& 0xffff_ffffu32 ^ 0xff == 0u32 ^ (0xff_ffffu32 << 8)
        &&& (0u32 ^ 0xff_ffff) ^ 0xff == 0u32 ^ (0xffffu32 << 8)
        &&& (0u32 ^ 0xffff) ^ 0xff == 0u32 ^ (0xffu32 << 8)
        &&& (0u32 ^ 0xff) ^ 0xff == 0
    }) by (bit_vector);
    assert(crc32_state(ones, 0xffff_ffff) == 0);
    lemma_crc32_concat(ones, zeros + data, 0xffff_ffff);
    lemma_crc32_concat(ones, data, 0xffff_ffff);
    lemma_crc32_concat(zeros, data, 0);
    lemma_zeros(count);
}

} // verus!
