//! The simulation speed control: how many generations each frame advances.

use vstd::prelude::*;
use vstd::arithmetic::power2::*;
use crate::lattice::lemma_pow2_monotone;

verus! {

/// The exponent `k` with `2^(k-1) <= n < 2^k`: the number of binary digits of
/// `n`, and zero for zero.
pub open spec fn bit_length(n: nat) -> nat
    decreases n,
{
    if n == 0 {
        0
    } else {
        1 + bit_length(n / 2)
    }
}

/// A positive number lies between the two powers of two that its bit length
/// names.
pub proof fn lemma_bit_length_bounds(n: nat)
    requires
        n > 0,
    ensures
        bit_length(n) >= 1,
        pow2((bit_length(n) - 1) as nat) <= n < pow2(bit_length(n)),
    decreases n,
{
    if n == 1 {
        assert(bit_length(1) == 1 + bit_length(0));
        lemma2_to64();
    } else {
        lemma_bit_length_bounds(n / 2);
        lemma_pow2_unfold(bit_length(n));
        lemma_pow2_unfold(bit_length(n / 2));
    }
}

/// The step count after one press of the button that speeds the simulation
/// up: the least power of two above `step`.
pub open spec fn spec_faster(step: nat) -> nat {
    pow2(bit_length(step))
}

/// The step count after one press of the button that slows the simulation
/// down: from one to zero, which pauses it; from zero to one; and from any
/// other count to the greatest power of two that is at most half of it.
pub open spec fn spec_slower(step: nat) -> nat {
    if step == 1 {
        0
    } else if step == 0 {
        1
    } else {
        pow2((bit_length(step) - 2) as nat)
    }
}

/// What the two buttons do, without reference to bit lengths: speeding up
/// gives a count above the old one and at most twice it; slowing down from
/// two or more gives a count of at most half the old one and more than a
/// quarter of it.
pub proof fn lemma_speed_bounds(step: nat)
    requires
        step >= 1,
    ensures
        step < spec_faster(step) <= 2 * step,
        step >= 2 ==> 2 * spec_slower(step) <= step < 4 * spec_slower(step),
{
    lemma_bit_length_bounds(step);
    lemma_pow2_unfold(bit_length(step));
    if step >= 2 {
        lemma2_to64();
        if bit_length(step) < 2 {
            assert(bit_length(step) == 1);
        }
        lemma_pow2_unfold((bit_length(step) - 1) as nat);
    }
}

/// The number of binary digits of `n`.
fn count_bits(n: usize) -> (length: u32)
    ensures
        length == bit_length(n as nat),
        length <= usize::BITS,
{
    let mut rest: usize = n;
    let mut length: u32 = 0;
    proof {
        if n > 0 {
            lemma_bit_length_bounds(n as nat);
        }
        lemma_bit_length_limit(n as nat);
    }
    while rest > 0
        invariant
            bit_length(n as nat) == length + bit_length(rest as nat),
            bit_length(n as nat) <= usize::BITS,
        decreases rest,
    {
        rest = rest / 2;
        length = length + 1;
    }
    length
}

/// A number that fits the machine word has no more digits than the word.
proof fn lemma_bit_length_limit(n: nat)
    requires
        n <= usize::MAX,
    ensures
        bit_length(n) <= usize::BITS,
{
    if n > 0 {
        lemma_bit_length_bounds(n);
        let k = bit_length(n);
        if k > usize::BITS {
            lemma_pow2_monotone(usize::BITS as nat, (k - 1) as nat);
            lemma2_to64();
            lemma2_to64_rest();
        }
    }
}

/// Two to the power `exponent`, if it fits the machine word.
fn checked_power_of_two(exponent: u32) -> (power: Option<usize>)
    ensures
        match power {
            Some(p) => p == pow2(exponent as nat),
            None => pow2(exponent as nat) > usize::MAX,
        },
{
    let mut power: usize = 1;
    let mut i: u32 = 0;
    proof {
        lemma2_to64();
    }
    while i < exponent
        invariant
            i <= exponent,
            power == pow2(i as nat),
        decreases exponent - i,
    {
        proof {
            lemma_pow2_unfold((i + 1) as nat);
        }
        if power > usize::MAX / 2 {
            proof {
                lemma_pow2_monotone((i + 1) as nat, exponent as nat);
            }
            return None;
        }
        power = power * 2;
        i = i + 1;
    }
    Some(power)
}

/// The step count after one press of the button that speeds the simulation
/// up, or `None` when that count does not fit the machine word.
pub fn faster(step: usize) -> (next: Option<usize>)
    ensures
        match next {
            Some(count) => count == spec_faster(step as nat),
            None => spec_faster(step as nat) > usize::MAX,
        },
{
    checked_power_of_two(count_bits(step))
}

/// The step count after one press of the button that slows the simulation
/// down.
pub fn slower(step: usize) -> (next: usize)
    ensures
        next == spec_slower(step as nat),
{
    if step == 1 {
        0
    } else if step == 0 {
        1
    } else {
        let length: u32 = count_bits(step);
        proof {
            lemma_bit_length_bounds(step as nat);
            lemma2_to64();
            if length < 2 {
                assert(length == 1);
            }
            lemma_pow2_monotone((length - 2) as nat, (length - 1) as nat);
        }
        match checked_power_of_two(length - 2) {
            Some(power) => power,
            None => unreached(),
        }
    }
}

} // verus!
