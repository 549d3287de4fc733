//! Dictionary sizes: which can be written, how, and how large one to pick.

use vstd::arithmetic::power2::pow2;
#[allow(unused_imports)]
use vstd::arithmetic::power2::{lemma_pow2_adds, lemma_pow2_pos, lemma_pow2_unfold, lemma2_to64, lemma2_to64_rest};
use vstd::prelude::*;

use crate::error::{Error, Result};
use crate::power::next_power_of_two;
#[allow(unused_imports)]
use crate::power::{
    lemma_power_reaching, lemma_power_reaching_grows, power_reaching, saturated,
};
use crate::version::ArchiveVersion;

verus! {

/// The smallest dictionary, and the one a writer starts from.
pub const DEFAULT_RAR50_DICTIONARY_SIZE: u64 = 0x2_0000;

/// The unit of the finer encoding.
pub const DICTIONARY_UNIT: u64 = 4096;

/// The size that the first encoding gives for a power.
pub open spec fn size_by_power(power: nat) -> nat {
    DEFAULT_RAR50_DICTIONARY_SIZE as nat * pow2(power)
}

/// The size that the finer encoding gives for a power and a fraction.
pub open spec fn size_by_fraction(power: nat, fraction: nat) -> nat {
    (32 + fraction) * DICTIONARY_UNIT as nat * pow2(power)
}

/// Whether these are the fields of `size` in the finer encoding.
pub open spec fn are_fine_fields(size: u64, power: nat, fraction: nat) -> bool {
    power <= 31 && fraction < 32 && size == size_by_fraction(power, fraction)
}

/// Whether `size` is a power-of-two multiple of 128 KiB.
pub open spec fn is_power_size(size: u64) -> bool {
    exists|power: nat| size == #[trigger] size_by_power(power)
}

/// What the sizes that the first encoding cannot hold are refused with.
pub open spec fn first_refusal(size: u64) -> Error {
    if size < DEFAULT_RAR50_DICTIONARY_SIZE {
        Error::InvalidHeader("RAR 5 v0 dictionary size must be at least 128 KiB")
    } else if !is_power_size(size) {
        Error::InvalidHeader("RAR 5 v0 dictionary size must be a power-of-two multiple of 128 KiB")
    } else {
        Error::InvalidHeader("RAR 5 v0 dictionary size exceeds 4 GiB")
    }
}

/// What the sizes that the finer encoding cannot hold are refused with.
pub open spec fn fine_refusal(size: u64) -> Error {
    if size % DICTIONARY_UNIT != 0 {
        Error::InvalidHeader("RAR 7 dictionary size must be a multiple of 4 KiB")
    } else if size < DEFAULT_RAR50_DICTIONARY_SIZE {
        Error::InvalidHeader("RAR 7 dictionary size must be at least 128 KiB")
    } else {
        Error::InvalidHeader("RAR 7 dictionary size is not encodable")
    }
}

/// Whether the first encoding holds `size`.
pub open spec fn fits_first(size: u64) -> bool {
    exists|power: nat| power <= 15 && size == #[trigger] size_by_power(power)
}

/// Whether the finer encoding holds `size`.
pub open spec fn fits_fine(size: u64) -> bool {
    exists|power: nat, fraction: nat| are_fine_fields(size, power, fraction)
}

/// Different powers give different sizes.
proof fn lemma_powers_differ(a: nat, b: nat)
    requires
        a < b,
    ensures
        2 * pow2(a) <= pow2(b),
    decreases b - a,
{
    lemma_pow2_unfold(b);
    if b > a + 1 {
        lemma_powers_differ(a, (b - 1) as nat);
        lemma_pow2_pos((b - 1) as nat);
    }
}

pub proof fn lemma_power_size_unique(a: nat, b: nat)
    requires
        size_by_power(a) == size_by_power(b),
    ensures
        a == b,
{
    lemma_pow2_pos(a);
    lemma_pow2_pos(b);
    if a < b {
        lemma_powers_differ(a, b);
    } else if b < a {
        lemma_powers_differ(b, a);
    }
}

/// An odd cofactor settles the power of two.
proof fn lemma_odd_part_unique(odd: nat, power: nat, other: nat)
    requires
        odd % 2 == 1,
        odd * pow2(power) == pow2(other),
    ensures
        odd == 1,
        power == other,
    decreases power,
{
    lemma_pow2_pos(power);
    lemma_pow2_pos(other);
    lemma2_to64();
    if power == 0 {
        assert(odd * pow2(0) == odd) by (nonlinear_arith)
            requires
                pow2(0) == 1,
        ;
        if other > 0 {
            lemma_pow2_unfold(other);
        }
    } else {
        lemma_pow2_unfold(power);
        assert(odd * pow2(power) == 2 * (odd * pow2((power - 1) as nat))) by (nonlinear_arith)
            requires
                pow2(power) == 2 * pow2((power - 1) as nat),
        ;
        if other == 0 {
            assert(pow2(0) == 1);
        } else {
            lemma_pow2_unfold(other);
            lemma_odd_part_unique(odd, (power - 1) as nat, (other - 1) as nat);
        }
    }
}

/// The fields of a dictionary size in the first encoding.
fn power_field(size: u64) -> (r: Result<(u8, u8)>)
    requires
        size > 0,
    ensures
        match r {
            Ok((power, fraction)) => power <= 15 && fraction == 0 && size == size_by_power(
                power as nat,
            ),
            Err(error) => !fits_first(size) && error == first_refusal(size),
        },
{
    if size < DEFAULT_RAR50_DICTIONARY_SIZE {
        proof {
            assert forall|power: nat| size != #[trigger] size_by_power(power) by {
                lemma_pow2_pos(power);
            }
        }
        return Err(Error::InvalidHeader("RAR 5 v0 dictionary size must be at least 128 KiB"));
    }
    if size % DEFAULT_RAR50_DICTIONARY_SIZE != 0 {
        proof {
            assert forall|power: nat| size != #[trigger] size_by_power(power) by {
                let p = pow2(power) as int;
                assert((0x2_0000 * p) % 0x2_0000 == 0);
            }
        }
        return Err(
            Error::InvalidHeader(
                "RAR 5 v0 dictionary size must be a power-of-two multiple of 128 KiB",
            ),
        );
    }
    let multiple: u64 = size / DEFAULT_RAR50_DICTIONARY_SIZE;
    let mut left: u64 = multiple;
    let mut power: u8 = 0;
    proof {
        lemma2_to64();
        assert(multiple == left * pow2(0)) by (nonlinear_arith)
            requires
                multiple == left,
                pow2(0) == 1,
        ;
    }
    while left % 2 == 0
        invariant
            left > 0,
            multiple == left * pow2(power as nat),
            multiple < 0x1_0000_0000_0000,
            power < 64,
        decreases left,
    {
        proof {
            lemma_pow2_unfold((power + 1) as nat);
            let half = (left / 2) as nat;
            assert(half * pow2((power + 1) as nat) == left * pow2(power as nat)) by (
                nonlinear_arith)
                requires
                    pow2((power + 1) as nat) == 2 * pow2(power as nat),
                    left == 2 * half,
            ;
            if power >= 62 {
                lemma2_to64_rest();
                lemma_pow2_pos(power as nat);
                if power > 62 {
                    lemma_powers_differ(62, power as nat);
                }
                assert(pow2(62) == 0x4000_0000_0000_0000);
                assert(left * pow2(power as nat) >= pow2(power as nat)) by (nonlinear_arith)
                    requires
                        left >= 1,
                ;
            }
        }
        left = left / 2;
        power = power + 1;
    }
    proof {
        assert(size == 0x2_0000 * multiple);
        if left != 1 {
            assert forall|other: nat| size != #[trigger] size_by_power(other) by {
                if size == size_by_power(other) {
                    assert(left * pow2(power as nat) == pow2(other));
                    lemma_odd_part_unique(left as nat, power as nat, other);
                }
            }
        } else {
            assert(left * pow2(power as nat) == pow2(power as nat)) by (nonlinear_arith)
                requires
                    left == 1,
            ;
            assert(size == size_by_power(power as nat));
        }
    }
    if left != 1 {
        return Err(
            Error::InvalidHeader(
                "RAR 5 v0 dictionary size must be a power-of-two multiple of 128 KiB",
            ),
        );
    }
    if power > 15 {
        proof {
            assert forall|other: nat| other <= 15 implies size != #[trigger] size_by_power(other) by {
                if size == size_by_power(other) {
                    lemma_power_size_unique(other, power as nat);
                }
            }
        }
        return Err(Error::InvalidHeader("RAR 5 v0 dictionary size exceeds 4 GiB"));
    }
    Ok((power, 0))
}

/// Halving units down keeps track of the fields.
proof fn lemma_no_fine_fields(size: u64, units: nat, power: nat)
    requires
        size == units * DICTIONARY_UNIT as nat * pow2(power),
        units > 63,
        units % 2 == 1 || power == 31,
    ensures
        !fits_fine(size),
{
    assert forall|p: nat, f: nat| !are_fine_fields(size, p, f) by {
        if are_fine_fields(size, p, f) {
            let cofactor: nat = 32 + f;
            lemma_pow2_pos(power);
            lemma_pow2_pos(p);
            assert(cofactor * pow2(p) == units * pow2(power)) by (nonlinear_arith)
                requires
                    cofactor * 4096 * pow2(p) == units * 4096 * pow2(power),
            ;
            if p <= power {
                if p < power {
                    lemma_powers_differ(p, power);
                }
                assert(cofactor * pow2(p) < units * pow2(power)) by (nonlinear_arith)
                    requires
                        cofactor < units,
                        0 < pow2(p) <= pow2(power),
                ;
            } else {
                let gap: nat = (p - power) as nat;
                lemma_pow2_adds(power, gap);
                lemma_pow2_unfold(gap);
                let half = pow2((gap - 1) as nat);
                assert(units == 2 * (cofactor * half)) by (nonlinear_arith)
                    requires
                        cofactor * pow2(p) == units * pow2(power),
                        pow2(p) == pow2(power) * pow2(gap),
                        pow2(gap) == 2 * half,
                        pow2(power) > 0,
                ;
            }
        }
    }
}

/// The fields of a dictionary size in the finer encoding.
fn fraction_fields(size: u64) -> (r: Result<(u8, u8)>)
    requires
        size > 0,
    ensures
        match r {
            Ok((power, fraction)) => are_fine_fields(size, power as nat, fraction as nat),
            Err(error) => !fits_fine(size) && error == fine_refusal(size),
        },
{
    if size % DICTIONARY_UNIT != 0 {
        proof {
            assert forall|p: nat, f: nat| !are_fine_fields(size, p, f) by {
                if are_fine_fields(size, p, f) {
                    let whole = ((32 + f) * pow2(p)) as int;
                    assert(size == 4096 * whole) by (nonlinear_arith)
                        requires
                            size == (32 + f) * 4096 * pow2(p),
                            whole == (32 + f) * pow2(p),
                    ;
                }
            }
        }
        return Err(Error::InvalidHeader("RAR 7 dictionary size must be a multiple of 4 KiB"));
    }
    let mut units: u64 = size / DICTIONARY_UNIT;
    let mut power: u8 = 0;
    proof {
        lemma2_to64();
        assert(size == units * 4096 * pow2(0)) by (nonlinear_arith)
            requires
                size == units * 4096,
                pow2(0) == 1,
        ;
    }
    while units > 63
        invariant
            size == units * DICTIONARY_UNIT as nat * pow2(power as nat),
            size % DICTIONARY_UNIT == 0,
            power <= 31,
            power > 0 ==> units >= 32,
            power == 0 ==> units == size / DICTIONARY_UNIT,
            size >= units * 4096,
        decreases units,
    {
        if units % 2 != 0 || power == 31 {
            proof {
                lemma_no_fine_fields(size, units as nat, power as nat);
            }
            return Err(Error::InvalidHeader("RAR 7 dictionary size is not encodable"));
        }
        proof {
            lemma_pow2_unfold((power + 1) as nat);
            let half = (units / 2) as nat;
            assert(half * 4096 * pow2((power + 1) as nat) == units * 4096 * pow2(power as nat)) by (
                nonlinear_arith)
                requires
                    pow2((power + 1) as nat) == 2 * pow2(power as nat),
                    units == 2 * half,
            ;
        }
        units = units / 2;
        power = power + 1;
    }
    if units < 32 {
        proof {
            assert(size < DEFAULT_RAR50_DICTIONARY_SIZE);
            assert forall|p: nat, f: nat| !are_fine_fields(size, p, f) by {
                lemma_pow2_pos(p);
                assert((32 + f) * 4096 * pow2(p) >= 0x2_0000) by (nonlinear_arith)
                    requires
                        pow2(p) >= 1,
                ;
            }
        }
        return Err(Error::InvalidHeader("RAR 7 dictionary size must be at least 128 KiB"));
    }
    assert(are_fine_fields(size, power as nat, (units - 32) as nat));
    Ok((power, (units - 32) as u8))
}

/// The fields of a dictionary size, for each algorithm version.
pub fn dictionary_size_fields(algorithm_version: u8, size: u64) -> (r: Result<(u8, u8)>)
    ensures
        match r {
            Ok((power, fraction)) => match algorithm_version {
                0 => power <= 15 && fraction == 0 && size == size_by_power(power as nat),
                1 => are_fine_fields(size, power as nat, fraction as nat),
                _ => false,
            },
            Err(error) => if size == 0 {
                error == Error::InvalidHeader("RAR 5 dictionary size must be non-zero")
            } else if algorithm_version == 0 {
                !fits_first(size) && error == first_refusal(size)
            } else if algorithm_version == 1 {
                !fits_fine(size) && error == fine_refusal(size)
            } else {
                error == Error::InvalidHeader("RAR 5 unknown compression algorithm version")
            },
        },
        r is Ok <==> can_encode(algorithm_version, size),
{
    if size == 0 {
        proof {
            assert forall|power: nat| size != #[trigger] size_by_power(power) by {
                lemma_pow2_pos(power);
            }
            assert forall|p: nat, f: nat| !are_fine_fields(size, p, f) by {
                lemma_pow2_pos(p);
                assert((32 + f) * 4096 * pow2(p) >= 0x2_0000) by (nonlinear_arith)
                    requires
                        pow2(p) >= 1,
                ;
            }
        }
        return Err(Error::InvalidHeader("RAR 5 dictionary size must be non-zero"));
    }
    match algorithm_version {
        0 => power_field(size),
        1 => fraction_fields(size),
        _ => Err(Error::InvalidHeader("RAR 5 unknown compression algorithm version")),
    }
}

/// Whether an algorithm version can hold `size`.
pub open spec fn can_encode(algorithm_version: u8, size: u64) -> bool {
    match algorithm_version {
        0 => fits_first(size),
        1 => fits_fine(size),
        _ => false,
    }
}

/// What the first encoding holds, the finer one holds too.
pub proof fn law_finer_encoding_holds_more(size: u64)
    requires
        fits_first(size),
    ensures
        fits_fine(size),
{
    let power = choose|power: nat| power <= 15 && size == #[trigger] size_by_power(power);
    assert((32 + 0) * 4096 * pow2(power) == 0x2_0000 * pow2(power)) by (nonlinear_arith);
    assert(are_fine_fields(size, power, 0));
}

/// A size has one pair of fields in the finer encoding.
pub proof fn law_fine_fields_are_unique(size: u64, p: nat, f: nat, q: nat, g: nat)
    requires
        are_fine_fields(size, p, f),
        are_fine_fields(size, q, g),
    ensures
        p == q && f == g,
    decreases (if p > q { 1int } else { 0 }),
{
    lemma_pow2_pos(p);
    lemma_pow2_pos(q);
    if p > q {
        law_fine_fields_are_unique(size, q, g, p, f);
    } else if p < q {
        lemma_powers_differ(p, q);
        assert((32 + f) * 4096 * pow2(p) < (32 + g) * 4096 * pow2(q)) by (nonlinear_arith)
            requires
                f < 32,
                0 < pow2(p),
                2 * pow2(p) <= pow2(q),
        ;
    } else {
        assert(f == g) by (nonlinear_arith)
            requires
                (32 + f) * 4096 * pow2(p) == (32 + g) * 4096 * pow2(p),
                pow2(p) > 0,
        ;
    }
}

/// Whether the format of `target` can hold a dictionary of `size`.
pub open spec fn is_legal_size(target: ArchiveVersion, size: u64) -> bool {
    match target {
        ArchiveVersion::Rar50 => fits_first(size),
        ArchiveVersion::Rar70 => fits_fine(size),
        _ => false,
    }
}

/// What a dictionary of `size` is refused with.
pub open spec fn size_refusal(target: ArchiveVersion, size: u64) -> Error {
    match target {
        ArchiveVersion::Rar50 | ArchiveVersion::Rar70 => if size == 0 {
            Error::InvalidHeader("RAR 5 dictionary size must be non-zero")
        } else if target == ArchiveVersion::Rar50 {
            first_refusal(size)
        } else {
            fine_refusal(size)
        },
        _ => Error::UnsupportedVersion(target),
    }
}

/// Refuses a dictionary that the format cannot hold.
pub fn validate_dictionary_size(target: ArchiveVersion, size: u64) -> (r: Result<()>)
    ensures
        r == (if is_legal_size(target, size) {
            Ok::<(), Error>(())
        } else {
            Err(size_refusal(target, size))
        }),
{
    match target {
        ArchiveVersion::Rar50 => match dictionary_size_fields(0, size) {
            Ok(_) => Ok(()),
            Err(error) => Err(error),
        },
        ArchiveVersion::Rar70 => match dictionary_size_fields(0, size) {
            Ok(_) => {
                proof {
                    law_finer_encoding_holds_more(size);
                }
                Ok(())
            },
            Err(_) => match dictionary_size_fields(1, size) {
                Ok(_) => Ok(()),
                Err(error) => Err(error),
            },
        },
        _ => Err(Error::UnsupportedVersion(target)),
    }
}

/// The window that a finder allots for a dictionary: the least power of two
/// that holds it, or the dictionary itself where that does not fit 64 bits.
pub open spec fn finder_window(dictionary_size: u64) -> nat {
    let power = power_reaching(1, dictionary_size as nat);
    if power > u64::MAX {
        dictionary_size as nat
    } else {
        power
    }
}

fn window_of(dictionary_size: u64) -> (window: u64)
    ensures
        window == finder_window(dictionary_size),
{
    match next_power_of_two(dictionary_size) {
        Some(power) => power,
        None => dictionary_size,
    }
}

/// Bytes charged for each byte of window: the links of a chain or, for the
/// optimal parse, of a tree, and the buffers beside them.
pub open spec fn bytes_per_window_byte(optimal_parse: bool) -> nat {
    if optimal_parse {
        17
    } else {
        13
    }
}

/// What one compression job holds.
pub open spec fn workspace_of(
    dictionary_size: u64,
    block_size: usize,
    optimal_parse: bool,
) -> u64 {
    saturated(
        finder_window(dictionary_size) * bytes_per_window_byte(optimal_parse) + block_size as nat
            * 64 + 3 * 1024 * 1024,
    )
}

/// What one compression job holds, for admitting jobs against the memory limit
/// and for shrinking a fitted dictionary until it fits.
///
/// Nearly all of it is the match finder's links, and the window is a power of
/// two, so a dictionary just over one costs almost double the one just under.
/// `block_size` is the largest block the parse can be holding.
pub fn streaming_lz_workspace(
    dictionary_size: u64,
    block_size: usize,
    optimal_parse: bool,
) -> (bytes: u64)
    ensures
        bytes == workspace_of(dictionary_size, block_size, optimal_parse),
{
    let per_window_byte: u128 = if optimal_parse {
        17
    } else {
        13
    };
    let window: u64 = window_of(dictionary_size);
    let links: u128 = window as u128 * per_window_byte;
    let total: u128 = links + block_size as u128 * 64 + 3 * 1024 * 1024;
    if total > u64::MAX as u128 {
        u64::MAX
    } else {
        total as u64
    }
}

/// The charge never falls as the dictionary grows, nor as blocks grow, nor for
/// a tree in place of a chain.
pub proof fn law_workspace_grows(
    small: u64,
    large: u64,
    short_block: usize,
    long_block: usize,
    tree: bool,
)
    requires
        small <= large,
        short_block <= long_block,
    ensures
        workspace_of(small, short_block, false) <= workspace_of(large, long_block, tree),
        workspace_of(small, short_block, tree) <= workspace_of(large, long_block, tree),
{
    lemma_power_reaching_grows(1, small as nat, large as nat);
    lemma_power_reaching(1, small as nat);
    lemma_power_reaching(1, large as nat);
    if power_reaching(1, large as nat) > u64::MAX && power_reaching(1, small as nat) <= u64::MAX {
        lemma_windows_below(small as nat, large as nat, 1);
    }
    assert(finder_window(small) <= finder_window(large));
    let a = finder_window(small);
    let b = finder_window(large);
    assert(a * 13 <= b * 13);
    assert(a * 17 <= b * 17);
}

/// A power that still fits lies below any size whose power does not.
proof fn lemma_windows_below(small: nat, large: nat, power: nat)
    requires
        0 < power,
        small <= large <= u64::MAX,
        power <= u64::MAX,
        power_reaching(power, large) > u64::MAX,
        power_reaching(power, small) <= u64::MAX,
    ensures
        power_reaching(power, small) <= large,
    decreases 2 * large - power,
{
    if power < small {
        lemma_power_reaching(2 * power, small);
        lemma_windows_below(small, large, 2 * power);
    }
}

} // verus!
