//! Powers of two, and numbers that stop at a limit.

use vstd::prelude::*;

verus! {

/// A number as far as 64 bits hold it.
pub open spec fn saturated(value: nat) -> u64 {
    if value > u64::MAX {
        u64::MAX
    } else {
        value as u64
    }
}

/// The least power of two from `power` on that reaches `size`.
pub open spec fn power_reaching(power: nat, size: nat) -> nat
    decreases 2 * size - power,
{
    if power == 0 || power >= size {
        power
    } else {
        power_reaching(2 * power, size)
    }
}

pub proof fn lemma_power_reaching(power: nat, size: nat)
    requires
        power > 0,
    ensures
        power_reaching(power, size) >= size,
        power_reaching(power, size) >= power,
        power >= size || power_reaching(power, size) < 2 * size,
    decreases 2 * size - power,
{
    if power < size {
        lemma_power_reaching(2 * power, size);
    }
}

pub proof fn lemma_power_reaching_grows(power: nat, small: nat, large: nat)
    requires
        power > 0,
        small <= large,
    ensures
        power_reaching(power, small) <= power_reaching(power, large),
    decreases 2 * large - power,
{
    if power < small {
        lemma_power_reaching_grows(2 * power, small, large);
    } else {
        lemma_power_reaching(power, large);
    }
}

/// The least power of two that reaches `value`, where it fits 64 bits.
pub fn next_power_of_two(value: u64) -> (power: Option<u64>)
    ensures
        match power {
            Some(power) => power == power_reaching(1, value as nat),
            None => power_reaching(1, value as nat) > u64::MAX,
        },
{
    let mut power: u64 = 1;
    while power < value
        invariant
            power >= 1,
            power_reaching(power as nat, value as nat) == power_reaching(1, value as nat),
        decreases 2 * value - power,
    {
        if power > u64::MAX / 2 {
            proof {
                lemma_power_reaching((2 * power) as nat, value as nat);
            }
            return None;
        }
        power = power * 2;
    }
    Some(power)
}

} // verus!
