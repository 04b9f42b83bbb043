use vstd::prelude::*;

use vstd::arithmetic::div_mod::{
    lemma_div_is_ordered, lemma_div_multiples_vanish, lemma_div_nonincreasing,
    lemma_div_pos_is_pos,
};
use vstd::arithmetic::mul::{lemma_mul_inequality, lemma_mul_upper_bound};

verus! {

/// The gas target of a block: half its gas limit, floored, clamped to at least 1.
pub open spec fn spec_gas_target(gas_limit: u128) -> int {
    if gas_limit / 2 == 0 {
        1
    } else {
        (gas_limit / 2) as int
    }
}

/// The EIP-1559 base-fee update: the base fee moves toward usage by an eighth
/// of its proportional distance from the gas target; an upward move is at
/// least one wei, so a fuller-than-target block always raises the fee.
pub open spec fn spec_next_base_fee(gas_used: u128, gas_limit: u128, base_fee_per_gas: u128) -> int {
    let target = spec_gas_target(gas_limit);
    if gas_used > target {
        let increment = (base_fee_per_gas * (gas_used - target) / target) / 8;
        base_fee_per_gas + (if increment < 1 {
            1int
        } else {
            increment
        })
    } else {
        base_fee_per_gas - (base_fee_per_gas * (target - gas_used) / target) / 8
    }
}

/// Relies on rand::rngs::ThreadRng and rand::Rng::gen_range: a value drawn
/// uniformly from the half-open range 0..9.
#[verifier::external_body]
fn random_jitter() -> (r: u128)
    ensures
        r < 9,
{
    rand::Rng::gen_range(&mut rand::thread_rng(), 0u128..9u128)
}

/// The base-fee projection with an explicit tie-breaking jitter summand.
pub fn next_base_fee_with_seed(
    gas_used: u128,
    gas_limit: u128,
    base_fee_per_gas: u128,
    seed: u128,
) -> (r: u128)
    requires
        gas_used <= u64::MAX,
        gas_limit <= u64::MAX,
        base_fee_per_gas <= u64::MAX,
        seed < 9,
    ensures
        r == spec_next_base_fee(gas_used, gas_limit, base_fee_per_gas) + seed,
{
    let half: u128 = gas_limit / 2;
    let target: u128 = if half == 0 {
        1
    } else {
        half
    };
    if gas_used > target {
        proof {
            lemma_mul_upper_bound(
                base_fee_per_gas as int,
                u64::MAX as int,
                (gas_used - target) as int,
                u64::MAX as int,
            );
        }
        let scaled: u128 = base_fee_per_gas * (gas_used - target);
        proof {
            lemma_div_pos_is_pos(scaled as int, target as int);
            lemma_div_nonincreasing(scaled as int, target as int);
            lemma_div_pos_is_pos((scaled / target) as int, 8);
            lemma_div_nonincreasing((scaled / target) as int, 8);
        }
        let floored: u128 = (scaled / target) / 8;
        let increment: u128 = if floored < 1 {
            1
        } else {
            floored
        };
        base_fee_per_gas + increment + seed
    } else {
        proof {
            lemma_mul_upper_bound(
                base_fee_per_gas as int,
                u64::MAX as int,
                (target - gas_used) as int,
                u64::MAX as int,
            );
        }
        let scaled: u128 = base_fee_per_gas * (target - gas_used);
        proof {
            // The decrement is at most the base fee itself.
            lemma_mul_inequality(
                (target - gas_used) as int,
                target as int,
                base_fee_per_gas as int,
            );
            assert(base_fee_per_gas * (target - gas_used) == (target - gas_used)
                * base_fee_per_gas) by (nonlinear_arith);
            assert(base_fee_per_gas * target == target * base_fee_per_gas) by (nonlinear_arith);
            lemma_div_is_ordered(
                scaled as int,
                (base_fee_per_gas * target) as int,
                target as int,
            );
            lemma_div_multiples_vanish(base_fee_per_gas as int, target as int);
            lemma_div_pos_is_pos(scaled as int, target as int);
            lemma_div_pos_is_pos((scaled / target) as int, 8);
            lemma_div_nonincreasing((scaled / target) as int, 8);
        }
        let decrement: u128 = (scaled / target) / 8;
        base_fee_per_gas - decrement + seed
    }
}

/// The next-block base fee under the EIP-1559 rule, with an integer jitter in
/// [0, 8] added after the division to break ties among competing bots.
pub fn calculate_next_block_base_fee(
    gas_used: u128,
    gas_limit: u128,
    base_fee_per_gas: u128,
) -> (r: u128)
    requires
        gas_used <= u64::MAX,
        gas_limit <= u64::MAX,
        base_fee_per_gas <= u64::MAX,
    ensures
        spec_next_base_fee(gas_used, gas_limit, base_fee_per_gas) <= r
            <= spec_next_base_fee(gas_used, gas_limit, base_fee_per_gas) + 8,
{
    let seed = random_jitter();
    next_base_fee_with_seed(gas_used, gas_limit, base_fee_per_gas, seed)
}

/// When a block used more than its gas target, the projected base fee (before
/// the jitter) strictly rises.
pub proof fn lemma_next_base_fee_monotonic(gas_used: u128, gas_limit: u128, base_fee_per_gas: u128)
    requires
        gas_used > spec_gas_target(gas_limit),
    ensures
        spec_next_base_fee(gas_used, gas_limit, base_fee_per_gas) > base_fee_per_gas,
{
    let target = spec_gas_target(gas_limit);
    let scaled = base_fee_per_gas * (gas_used - target);
    assert(scaled >= 0) by (nonlinear_arith)
        requires
            base_fee_per_gas >= 0,
            gas_used - target >= 0,
            scaled == base_fee_per_gas * (gas_used - target),
    ;
    lemma_div_pos_is_pos(scaled, target);
    lemma_div_pos_is_pos(scaled / target, 8);
}

} // verus!
