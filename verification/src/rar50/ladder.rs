//! The compression levels: what the encoder is told at each, and how large a
//! dictionary it gets.

use vstd::arithmetic::power2::pow2;
#[allow(unused_imports)]
use vstd::arithmetic::power2::{
    lemma2_to64, lemma_pow2_pos, lemma_pow2_strictly_increases, lemma_pow2_unfold,
};
use vstd::prelude::*;

use crate::error::{Error, Result};
use crate::rar50::dictionary::{
    dictionary_size_fields, streaming_lz_workspace, validate_dictionary_size,
    DEFAULT_RAR50_DICTIONARY_SIZE,
};
#[allow(unused_imports)]
use crate::rar50::dictionary::{
    fits_first, is_legal_size, law_workspace_grows, size_by_power, size_refusal, workspace_of,
};
use crate::rar50::options::WriterOptions;
use crate::version::ArchiveVersion;

verus! {

/// The block that a reader asks for.
pub const LZ_BLOCK_SIZE: usize = 0x4_0000;

/// The largest block that a parse can be holding.
pub const MAX_LZ_BLOCK_SIZE: usize = 0x10_0000;

/// How many matches the encoder tries where no level was asked for.
pub const MAX_MATCH_CANDIDATES_DEFAULT: usize = 64;

/// What the encoder is told.
#[derive(Debug, Clone, Copy, PartialEq, Eq, Structural)]
pub struct EncodeOptions {
    pub max_match_candidates: usize,
    pub max_match_distance: usize,
    pub lazy_matching: bool,
    pub lazy_lookahead: usize,
    /// Price every path through a block, and take the cheapest.
    pub optimal_parse: bool,
}

impl EncodeOptions {
    pub fn new(max_match_candidates: usize) -> (options: EncodeOptions)
        ensures
            options == (EncodeOptions {
                max_match_candidates,
                max_match_distance: usize::MAX,
                lazy_matching: false,
                lazy_lookahead: 1,
                optimal_parse: false,
            }),
    {
        EncodeOptions {
            max_match_candidates,
            max_match_distance: usize::MAX,
            lazy_matching: false,
            lazy_lookahead: 1,
            optimal_parse: false,
        }
    }

    pub fn with_max_match_distance(self, max_match_distance: usize) -> (options: EncodeOptions)
        ensures
            options == (EncodeOptions { max_match_distance, ..self }),
    {
        EncodeOptions { max_match_distance, ..self }
    }

    pub fn with_lazy_matching(self, lazy_matching: bool) -> (options: EncodeOptions)
        ensures
            options == (EncodeOptions { lazy_matching, ..self }),
    {
        EncodeOptions { lazy_matching, ..self }
    }

    pub fn with_lazy_lookahead(self, lazy_lookahead: usize) -> (options: EncodeOptions)
        ensures
            options == (EncodeOptions { lazy_lookahead, ..self }),
    {
        EncodeOptions { lazy_lookahead, ..self }
    }

    pub fn with_optimal_parse(self, optimal_parse: bool) -> (options: EncodeOptions)
        ensures
            options == (EncodeOptions { optimal_parse, ..self }),
    {
        EncodeOptions { optimal_parse, ..self }
    }
}

/// Whether there is such a level; none asked for is the default one.
pub open spec fn is_level(level: Option<u8>) -> bool {
    level matches Some(n) ==> n <= 5
}

/// What a level that does not exist is refused with.
pub open spec fn level_error() -> Error {
    Error::InvalidHeader("RAR 5 compression level must be in the range 0..5")
}

/// How many matches the encoder tries at a level.
pub open spec fn candidates_at(level: Option<u8>) -> usize {
    match level {
        None => MAX_MATCH_CANDIDATES_DEFAULT,
        Some(0) => 0,
        Some(1) => 8,
        Some(2) => 32,
        Some(3) => 64,
        Some(4) => 48,
        _ => 64,
    }
}

/// Whether a level prices every path: all do but the two quick ones.
pub open spec fn parses_optimally(level: Option<u8>) -> bool {
    !(level == Some(0u8) || level == Some(1u8))
}

/// What the encoder is told at a level, with a dictionary of this size.
pub open spec fn options_at(level: Option<u8>, dictionary_size: u64) -> EncodeOptions {
    EncodeOptions {
        max_match_candidates: candidates_at(level),
        max_match_distance: dictionary_size as usize,
        lazy_matching: level is None || level == Some(4u8) || level == Some(5u8),
        lazy_lookahead: 1,
        optimal_parse: parses_optimally(level),
    }
}

pub open spec fn encode_options_of(
    level: Option<u8>,
    dictionary_size: u64,
) -> std::result::Result<EncodeOptions, Error> {
    if !is_level(level) {
        Err(level_error())
    } else if dictionary_size > usize::MAX {
        Err(
            Error::InvalidHeader("RAR 5 dictionary size exceeds this platform's address space"),
        )
    } else {
        Ok(options_at(level, dictionary_size))
    }
}

pub fn encode_options_for_level(level: Option<u8>, dictionary_size: u64) -> (r: Result<
    EncodeOptions,
>)
    ensures
        r == encode_options_of(level, dictionary_size),
{
    let candidates: usize = match level {
        None => MAX_MATCH_CANDIDATES_DEFAULT,
        Some(0) => 0,
        Some(1) => 8,
        Some(2) => 32,
        Some(3) => 64,
        Some(4) => 48,
        Some(5) => 64,
        Some(_) => {
            return Err(Error::InvalidHeader("RAR 5 compression level must be in the range 0..5"));
        },
    };
    if dictionary_size > usize::MAX as u64 {
        return Err(
            Error::InvalidHeader("RAR 5 dictionary size exceeds this platform's address space"),
        );
    }
    Ok(
        EncodeOptions::new(candidates).with_lazy_matching(
            matches!(level, None | Some(4) | Some(5)),
        ).with_lazy_lookahead(1).with_max_match_distance(dictionary_size as usize)
            .with_optimal_parse(!matches!(level, Some(0) | Some(1))),
    )
}

/// The settings that a member is encoded under and compared at: one per level.
pub fn encode_option_candidates_for_level(
    level: Option<u8>,
    dictionary_size: u64,
) -> (r: Result<Vec<EncodeOptions>>)
    ensures
        match encode_options_of(level, dictionary_size) {
            Ok(options) => r is Ok && r->Ok_0@ == seq![options],
            Err(error) => r == Err::<Vec<EncodeOptions>, Error>(error),
        },
{
    match encode_options_for_level(level, dictionary_size) {
        Ok(options) => {
            let candidates = vec![options];
            assert(candidates@ == seq![options]);
            Ok(candidates)
        },
        Err(error) => Err(error),
    }
}

/// The method that a level is written as.
pub fn compression_method_for_level(level: Option<u8>) -> (r: Result<u8>)
    ensures
        r == (match level {
            None => Ok::<u8, Error>(1),
            Some(n) => if n <= 5 {
                Ok(n)
            } else {
                Err(level_error())
            },
        }),
{
    match level {
        None => Ok(1),
        Some(n) => if n <= 5 {
            Ok(n)
        } else {
            Err(Error::InvalidHeader("RAR 5 compression level must be in the range 0..5"))
        },
    }
}

/// The algorithm version that a dictionary of this size is written with: the
/// older one wherever it can hold the size.
pub fn rar50_algorithm_version(options: WriterOptions, dictionary_size: u64) -> (r: Result<u8>)
    ensures
        r == (match options.target {
            ArchiveVersion::Rar50 => Ok::<u8, Error>(0),
            ArchiveVersion::Rar70 => Ok(
                if fits_first(dictionary_size) {
                    0
                } else {
                    1
                },
            ),
            _ => Err(Error::UnsupportedVersion(options.target)),
        }),
{
    match options.target {
        ArchiveVersion::Rar50 => Ok(0),
        ArchiveVersion::Rar70 => if dictionary_size_fields(0, dictionary_size).is_ok() {
            Ok(0)
        } else {
            Ok(1)
        },
        _ => Err(Error::UnsupportedVersion(options.target)),
    }
}

/// The largest dictionary that a writer picks on its own at a level. The format
/// goes far higher, but the match finder walks longer chains as the window
/// grows and stops paying for it.
pub open spec fn dictionary_cap_at(level: Option<u8>) -> u64 {
    match level {
        Some(0) | Some(1) => 0x10_0000,
        None | Some(2) | Some(3) => 0x40_0000,
        Some(4) => 0x80_0000,
        _ => 0x100_0000,
    }
}

fn dictionary_cap(level: Option<u8>) -> (cap: u64)
    ensures
        cap == dictionary_cap_at(level),
{
    match level {
        Some(0) | Some(1) => 0x10_0000,
        None | Some(2) | Some(3) => 0x40_0000,
        Some(4) => 0x80_0000,
        _ => 0x100_0000,
    }
}

/// Whether `size` is the least of the format's own sizes, 128 KiB doubled,
/// that reaches past `content` or is the cap.
pub open spec fn is_fitted(size: u64, content: u64, cap: u64) -> bool {
    &&& exists|power: nat| size == #[trigger] size_by_power(power)
    &&& size <= cap
    &&& size > content || size == cap
    &&& size == DEFAULT_RAR50_DICTIONARY_SIZE || size / 2 <= content
}

/// The smallest dictionary that still reaches past `content`. A window larger
/// than the data cannot match anything extra.
pub fn fitted_dictionary_size(content: u64, cap: u64) -> (size: u64)
    requires
        exists|power: nat| power <= 15 && cap == #[trigger] size_by_power(power),
    ensures
        is_fitted(size, content, cap),
{
    let ghost top = choose|power: nat| power <= 15 && cap == #[trigger] size_by_power(power);
    let mut size: u64 = DEFAULT_RAR50_DICTIONARY_SIZE;
    let ghost mut power: nat = 0;
    proof {
        lemma2_to64();
        lemma_powers_in_order(0, top);
        lemma_powers_in_order(top, 15);
        assert(size_by_power(15) == 0x1_0000_0000);
        assert(size == size_by_power(0));
    }
    while size < cap && size <= content
        invariant
            top <= 15,
            cap == size_by_power(top),
            size == size_by_power(power),
            power <= top,
            DEFAULT_RAR50_DICTIONARY_SIZE <= size <= cap,
            cap <= 0x1_0000_0000,
            size == DEFAULT_RAR50_DICTIONARY_SIZE || size / 2 <= content,
        decreases cap - size,
    {
        proof {
            if power == top {
                assert(size == cap);
            }
            lemma_pow2_unfold(power + 1);
            lemma_powers_in_order(power + 1, top);
            power = power + 1;
        }
        size = size * 2;
    }
    size
}

/// Sizes grow with the power.
proof fn lemma_powers_in_order(low: nat, high: nat)
    requires
        low <= high,
    ensures
        size_by_power(low) <= size_by_power(high),
{
    if low < high {
        lemma_pow2_strictly_increases(low, high);
    }
}

/// The dictionary that a writer picks on its own: the fitted one, or the
/// largest below it whose workspace stays within the limit, or the smallest.
pub open spec fn is_picked(
    size: u64,
    level: Option<u8>,
    content: u64,
    memory_limit: u64,
) -> bool {
    let optimal = parses_optimally(level);
    exists|fitted: u64|
        {
            &&& #[trigger] is_fitted(fitted, content, dictionary_cap_at(level))
            &&& exists|power: nat| size == #[trigger] size_by_power(power)
            &&& size <= fitted
            &&& size == DEFAULT_RAR50_DICTIONARY_SIZE || workspace_of(
                size,
                MAX_LZ_BLOCK_SIZE,
                optimal,
            ) <= memory_limit
            &&& size == fitted || workspace_of((2 * size) as u64, MAX_LZ_BLOCK_SIZE, optimal)
                > memory_limit
        }
}

/// Two sizes of the format are the same or one is at least twice the other.
proof fn lemma_sizes_apart(a: u64, b: u64)
    requires
        a < b,
        exists|power: nat| a == #[trigger] size_by_power(power),
        exists|power: nat| b == #[trigger] size_by_power(power),
    ensures
        2 * a <= b,
        DEFAULT_RAR50_DICTIONARY_SIZE <= a,
{
    let p = choose|power: nat| a == #[trigger] size_by_power(power);
    let q = choose|power: nat| b == #[trigger] size_by_power(power);
    lemma_pow2_pos(p);
    if q <= p {
        lemma_powers_in_order(q, p);
    }
    lemma_powers_in_order(p + 1, q);
    lemma_pow2_unfold(p + 1);
}

/// A writer picks one dictionary for one reach.
pub proof fn law_one_dictionary_is_picked(
    level: Option<u8>,
    content: u64,
    memory_limit: u64,
    a: u64,
    b: u64,
)
    requires
        is_picked(a, level, content, memory_limit),
        is_picked(b, level, content, memory_limit),
    ensures
        a == b,
{
    lemma_none_larger_is_picked(level, content, memory_limit, a, b);
    lemma_none_larger_is_picked(level, content, memory_limit, b, a);
}

proof fn lemma_one_is_fitted(content: u64, cap: u64, a: u64, b: u64)
    requires
        is_fitted(a, content, cap),
        is_fitted(b, content, cap),
    ensures
        a == b,
{
    if a < b {
        lemma_sizes_apart(a, b);
    } else if b < a {
        lemma_sizes_apart(b, a);
    }
}

proof fn lemma_none_larger_is_picked(
    level: Option<u8>,
    content: u64,
    memory_limit: u64,
    a: u64,
    b: u64,
)
    requires
        is_picked(a, level, content, memory_limit),
        is_picked(b, level, content, memory_limit),
    ensures
        b <= a,
{
    let optimal = parses_optimally(level);
    let cap = dictionary_cap_at(level);
    let f = choose|fitted: u64|
        {
            &&& #[trigger] is_fitted(fitted, content, cap)
            &&& exists|power: nat| a == #[trigger] size_by_power(power)
            &&& a <= fitted
            &&& a == DEFAULT_RAR50_DICTIONARY_SIZE || workspace_of(a, MAX_LZ_BLOCK_SIZE, optimal)
                <= memory_limit
            &&& a == fitted || workspace_of((2 * a) as u64, MAX_LZ_BLOCK_SIZE, optimal)
                > memory_limit
        };
    let g = choose|fitted: u64|
        {
            &&& #[trigger] is_fitted(fitted, content, cap)
            &&& exists|power: nat| b == #[trigger] size_by_power(power)
            &&& b <= fitted
            &&& b == DEFAULT_RAR50_DICTIONARY_SIZE || workspace_of(b, MAX_LZ_BLOCK_SIZE, optimal)
                <= memory_limit
            &&& b == fitted || workspace_of((2 * b) as u64, MAX_LZ_BLOCK_SIZE, optimal)
                > memory_limit
        };
    lemma_one_is_fitted(content, cap, f, g);
    if a < b {
        lemma_sizes_apart(a, b);
        law_workspace_grows((2 * a) as u64, b, MAX_LZ_BLOCK_SIZE, MAX_LZ_BLOCK_SIZE, optimal);
    }
}

fn picked_dictionary_size(level: Option<u8>, content: u64, memory_limit: u64) -> (size: u64)
    ensures
        is_picked(size, level, content, memory_limit),
        fits_first(size),
{
    let optimal: bool = !matches!(level, Some(0) | Some(1));
    let cap: u64 = dictionary_cap(level);
    proof {
        lemma2_to64();
        assert(0x10_0000 == size_by_power(3));
        assert(0x40_0000 == size_by_power(5));
        assert(0x80_0000 == size_by_power(6));
        assert(0x100_0000 == size_by_power(7));
    }
    let fitted: u64 = fitted_dictionary_size(content, cap);
    let mut size: u64 = fitted;
    let ghost mut power: nat = choose|power: nat| size == #[trigger] size_by_power(power);
    while size > DEFAULT_RAR50_DICTIONARY_SIZE && streaming_lz_workspace(
        size,
        MAX_LZ_BLOCK_SIZE,
        optimal,
    ) > memory_limit
        invariant
            optimal == parses_optimally(level),
            is_fitted(fitted, content, dictionary_cap_at(level)),
            size == size_by_power(power),
            size <= fitted <= 0x100_0000,
            size == fitted || workspace_of((2 * size) as u64, MAX_LZ_BLOCK_SIZE, optimal)
                > memory_limit,
        decreases size,
    {
        proof {
            lemma2_to64();
            if power == 0 {
                assert(pow2(0) == 1);
            }
            lemma_pow2_unfold(power);
            lemma_pow2_pos((power - 1) as nat);
            power = (power - 1) as nat;
        }
        size = size / 2;
    }
    proof {
        if power > 15 {
            lemma2_to64();
            lemma_powers_in_order(16, power);
        }
        assert(size == size_by_power(power));
    }
    size
}

/// What comes of asking for a dictionary: the caller's own, or one picked.
pub open spec fn is_dictionary_for(
    options: WriterOptions,
    content: u64,
    memory_limit: u64,
    r: Result<u64>,
) -> bool {
    match options.dictionary_size {
        Some(size) => r == (if is_legal_size(options.target, size) {
            Ok::<u64, Error>(size)
        } else {
            Err(size_refusal(options.target, size))
        }),
        None => match options.target {
            ArchiveVersion::Rar50 | ArchiveVersion::Rar70 => r matches Ok(size) && is_picked(
                size,
                options.compression_level,
                content,
                memory_limit,
            ),
            _ => r == Err::<u64, Error>(Error::UnsupportedVersion(options.target)),
        },
    }
}

/// The dictionary to write with, either the caller's or one fitted to the data.
///
/// `content` is what one window has to reach across: the whole archive where
/// the members share a dictionary, otherwise the largest member. A dictionary
/// the caller named is used as given. A fitted one is shrunk to the workspace
/// budget, because it has no business failing a write that a smaller one would
/// have finished.
pub fn dictionary_size_for_options(
    options: WriterOptions,
    content: u64,
    memory_limit: u64,
) -> (r: Result<u64>)
    ensures
        is_dictionary_for(options, content, memory_limit, r),
        r matches Ok(size) ==> is_legal_size(options.target, size),
{
    let size: u64 = match options.dictionary_size {
        Some(size) => size,
        None => picked_dictionary_size(options.compression_level, content, memory_limit),
    };
    proof {
        if fits_first(size) {
            crate::rar50::dictionary::law_finer_encoding_holds_more(size);
        }
    }
    match validate_dictionary_size(options.target, size) {
        Ok(()) => Ok(size),
        Err(error) => Err(error),
    }
}

/// One dictionary is picked for each request: the rule settles the size.
pub proof fn law_picked_dictionary_is_settled(
    a: u64,
    b: u64,
    level: Option<u8>,
    content: u64,
    memory_limit: u64,
)
    requires
        is_picked(a, level, content, memory_limit),
        is_picked(b, level, content, memory_limit),
    ensures
        a == b,
{
    let cap = dictionary_cap_at(level);
    let optimal = parses_optimally(level);
    let (fa, fb) = choose|fa: u64, fb: u64|
        {
            &&& #[trigger] is_fitted(fa, content, cap)
            &&& #[trigger] is_fitted(fb, content, cap)
            &&& a <= fa && (a == fa || workspace_of((2 * a) as u64, MAX_LZ_BLOCK_SIZE, optimal)
                > memory_limit)
            &&& b <= fb && (b == fb || workspace_of((2 * b) as u64, MAX_LZ_BLOCK_SIZE, optimal)
                > memory_limit)
        };
    lemma_fitted_is_settled(fa, fb, content, cap);
    let pa = choose|power: nat| a == #[trigger] size_by_power(power);
    let pb = choose|power: nat| b == #[trigger] size_by_power(power);
    if pa < pb {
        lemma_shrinks_no_further(a, b, pa, pb, fa, optimal, memory_limit);
    } else if pb < pa {
        lemma_shrinks_no_further(b, a, pb, pa, fa, optimal, memory_limit);
    }
}

proof fn lemma_shrinks_no_further(
    small: u64,
    large: u64,
    low: nat,
    high: nat,
    fitted: u64,
    optimal: bool,
    memory_limit: u64,
)
    requires
        small == size_by_power(low),
        large == size_by_power(high),
        low < high,
        large <= fitted <= 0x100_0000,
        large == DEFAULT_RAR50_DICTIONARY_SIZE || workspace_of(large, MAX_LZ_BLOCK_SIZE, optimal)
            <= memory_limit,
        small == fitted || workspace_of((2 * small) as u64, MAX_LZ_BLOCK_SIZE, optimal)
            > memory_limit,
    ensures
        small == large,
{
    lemma_pow2_unfold(low + 1);
    lemma_pow2_pos(low);
    lemma_powers_in_order(low + 1, high);
    crate::rar50::dictionary::law_workspace_grows(
        (2 * small) as u64,
        large,
        MAX_LZ_BLOCK_SIZE,
        MAX_LZ_BLOCK_SIZE,
        optimal,
    );
}

proof fn lemma_fitted_is_settled(a: u64, b: u64, content: u64, cap: u64)
    requires
        is_fitted(a, content, cap),
        is_fitted(b, content, cap),
    ensures
        a == b,
{
    let pa = choose|power: nat| a == #[trigger] size_by_power(power);
    let pb = choose|power: nat| b == #[trigger] size_by_power(power);
    if pa < pb {
        lemma_pow2_unfold(pa + 1);
        lemma_powers_in_order(pa + 1, pb);
        lemma_pow2_pos(pa);
    } else if pb < pa {
        lemma_pow2_unfold(pb + 1);
        lemma_powers_in_order(pb + 1, pa);
        lemma_pow2_pos(pb);
    }
}

/// A dictionary never falls short at a higher level: the cap climbs with it.
pub proof fn law_cap_climbs_with_the_level(low: u8, high: u8)
    requires
        low <= high <= 5,
    ensures
        dictionary_cap_at(Some(low)) <= dictionary_cap_at(Some(high)),
        dictionary_cap_at(None) == dictionary_cap_at(Some(3)),
{
}

} // verus!
