//! Arithmetic that stops at the largest value.

use vstd::prelude::*;

verus! {

/// The smaller of a number and the largest 64-bit value.
pub open spec fn capped(value: int) -> u64 {
    if value > u64::MAX {
        u64::MAX
    } else {
        value as u64
    }
}

/// A product that stops at the largest 64-bit value.
pub fn saturating_mul(a: u64, b: u64) -> (product: u64)
    ensures
        product == capped(a * b),
{
    match a.checked_mul(b) {
        Some(product) => product,
        None => {
            assert(a * b > u64::MAX);
            u64::MAX
        },
    }
}

/// Whether a number is the least power of two that is no less than another.
pub open spec fn is_next_power_of_two(n: int, power: int) -> bool {
    exists|k: nat| #[trigger]
        vstd::arithmetic::power2::pow2(k) == power && power >= n && (k > 0
            ==> vstd::arithmetic::power2::pow2((k - 1) as nat) < n)
}

/// The least power of two that is no less than a number, if it can be held.
pub fn next_power_of_two(n: usize) -> (power: Option<usize>)
    ensures
        match power {
            Some(power) => is_next_power_of_two(n as int, power as int) && power > 0,
            None => n > usize::MAX / 2 + 1,
        },
{
    let mut power: usize = 1;
    let ghost mut k: nat = 0;
    proof {
        vstd::arithmetic::power2::lemma2_to64();
    }
    while power < n
        invariant
            power > 0,
            vstd::arithmetic::power2::pow2(k) == power,
            k > 0 ==> vstd::arithmetic::power2::pow2((k - 1) as nat) < n,
        decreases 2 * n - power,
    {
        if power > usize::MAX / 2 {
            return None;
        }
        proof {
            vstd::arithmetic::power2::lemma_pow2_unfold(k + 1);
            k = k + 1;
        }
        power = power * 2;
    }
    Some(power)
}

} // verus!
