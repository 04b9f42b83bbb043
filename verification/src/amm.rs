use vstd::prelude::*;

use vstd::arithmetic::div_mod::{
    lemma_div_is_ordered, lemma_div_multiples_vanish, lemma_div_nonincreasing,
    lemma_div_pos_is_pos, lemma_fundamental_div_mod, lemma_fundamental_div_mod_converse,
    lemma_div_denominator,
};
use vstd::arithmetic::mul::lemma_mul_inequality;
use vstd::arithmetic::power2::{lemma2_to64, lemma_pow2_adds, lemma_pow2_pos, pow2};
use vstd::bits::lemma_u128_shr_is_div;

use crate::types::{usdc_conversion_pair, usdt_conversion_pair, Addr};

verus! {

/// Amounts and reserves handled by the pricing code fit in 112 bits, the width
/// of a V2 pair's reserve slots.
pub open spec fn fits_u112(x: u128) -> bool {
    x < 0x10000000000000000000000000000
}

/// The top bits of `x` above bit `128 - i`, as an integer.
spec fn msb_prefix(x: u128, i: int) -> int {
    (x as int) / (pow2((128 - i) as nat) as int)
}

/// floor((t * r) / d) without intermediate overflow, by restoring division
/// over the bits of `r`.
fn mul_div(t: u128, r: u128, d: u128) -> (q: u128)
    requires
        0 < d,
        t <= d,
        d < 0x40000000000000000000000000000000,
    ensures
        q == (t * r) as int / (d as int),
{
    let mut q: u128 = 0;
    let mut rem: u128 = 0;
    let mut i: usize = 0;
    proof {
        lemma_pow2_pos(128);
        assert((r as int) < pow2(128)) by {
            lemma_pow2_adds(64, 64);
            lemma2_to64();
        }
        assert(msb_prefix(r, 0) == 0) by {
            vstd::arithmetic::div_mod::lemma_basic_div(r as int, pow2(128) as int);
        }
    }
    while i < 128
        invariant
            0 < d,
            t <= d,
            d < 0x40000000000000000000000000000000,
            i <= 128,
            rem < d,
            q * d + rem == t * msb_prefix(r, i as int),
        decreases 128 - i,
    {
        let shift: u128 = (127 - i) as u128;
        let bit: u128 = (r >> shift) & 1;
        let ghost p_old = msb_prefix(r, i as int);
        let ghost p_new = msb_prefix(r, i as int + 1);
        proof {
            lemma_u128_shr_is_div(r, shift);
            lemma_pow2_pos((127 - i) as nat);
            lemma_pow2_pos((128 - i) as nat);
            assert((r >> shift) == p_new);
            assert(((r >> shift) & 1) == ((r >> shift) % 2)) by (bit_vector);
            assert(bit == p_new % 2);
            assert(bit <= 1);
            // p_old is p_new shifted right once more.
            assert(pow2((128 - i) as nat) == pow2((127 - i) as nat) * 2) by {
                lemma_pow2_adds((127 - i) as nat, 1);
                lemma2_to64();
            }
            lemma_div_denominator(r as int, pow2((127 - i) as nat) as int, 2);
            assert(p_new / 2 == p_old);
            lemma_fundamental_div_mod(p_new, 2);
            assert(p_new == 2 * p_old + bit);
            // p_new is at most r.
            lemma_div_pos_is_pos(r as int, pow2((127 - i) as nat) as int);
            lemma_div_nonincreasing(r as int, pow2((127 - i) as nat) as int);
            assert(0 <= p_new <= r);
        }
        proof {
            assert(bit * t <= t) by (nonlinear_arith)
                requires
                    bit <= 1,
                    0 <= bit,
                    0 <= t,
            ;
        }
        let mut rem2: u128 = 2 * rem + bit * t;
        let mut add: u128 = 0;
        if rem2 >= d {
            rem2 = rem2 - d;
            add = 1;
        }
        if rem2 >= d {
            rem2 = rem2 - d;
            add = add + 1;
        }
        proof {
            assert(rem2 < d);
            assert((2 * q + add) * d + rem2 == t * p_new) by {
                assert(t * p_new == t * (2 * p_old + bit)) by {
                    assert(p_new == 2 * p_old + bit);
                }
                assert(t * (2 * p_old + bit) == 2 * (t * p_old) + bit * t) by (nonlinear_arith);
                assert(2 * (q * d + rem) == 2 * (t * p_old));
                assert((2 * q + add) * d == 2 * (q * d) + add * d) by (nonlinear_arith);
            }
            assert(2 * q + add <= p_new) by (nonlinear_arith)
                requires
                    (2 * q + add) * d + rem2 == t * p_new,
                    0 <= rem2,
                    0 < d,
                    t <= d,
                    0 <= p_new,
                    0 <= q,
                    0 <= add,
            ;
        }
        q = 2 * q + add;
        rem = rem2;
        i = i + 1;
    }
    proof {
        lemma2_to64();
        assert(msb_prefix(r, 128) == r as int) by {
            vstd::arithmetic::div_mod::lemma_div_basics(r as int);
        }
        lemma_fundamental_div_mod_converse((t * r) as int, d as int, q as int, rem as int);
    }
    q
}

/// Output amount of a V2 constant-product swap with a 0.3% fee:
/// floor(997·in·Rout / (1000·Rin + 997·in)), and 0 when that denominator is 0.
pub open spec fn spec_v2_amount_out(amount_in: u128, reserve_in: u128, reserve_out: u128) -> int {
    let fee_adjusted = amount_in * 997;
    let denominator = reserve_in * 1000 + fee_adjusted;
    if denominator == 0 {
        0
    } else {
        (fee_adjusted * reserve_out) as int / (denominator as int)
    }
}

pub fn get_v2_amount_out(amount_in: u128, reserve_in: u128, reserve_out: u128) -> (out: u128)
    requires
        fits_u112(amount_in),
        fits_u112(reserve_in),
        fits_u112(reserve_out),
    ensures
        out == spec_v2_amount_out(amount_in, reserve_in, reserve_out),
        out <= reserve_out,
{
    let fee_adjusted: u128 = amount_in * 997;
    let denominator: u128 = reserve_in * 1000 + fee_adjusted;
    if denominator == 0 {
        0
    } else {
        let out = mul_div(fee_adjusted, reserve_out, denominator);
        proof {
            lemma_mul_inequality(fee_adjusted as int, denominator as int, reserve_out as int);
            lemma_div_is_ordered(
                (fee_adjusted * reserve_out) as int,
                (denominator * reserve_out) as int,
                denominator as int,
            );
            lemma_div_multiples_vanish(reserve_out as int, denominator as int);
        }
        out
    }
}

/// Constant-product invariance under the fee and the rounding rules: what the
/// pool keeps after paying out a swap never shrinks the product of reserves.
pub proof fn lemma_v2_constant_product(amount_in: u128, reserve_in: u128, reserve_out: u128)
    ensures
        (reserve_in + amount_in) * (reserve_out - spec_v2_amount_out(
            amount_in,
            reserve_in,
            reserve_out,
        )) >= reserve_in * reserve_out,
{
    let a = amount_in as int;
    let ri = reserve_in as int;
    let ro = reserve_out as int;
    let t = a * 997;
    let d = ri * 1000 + t;
    if d == 0 {
        assert(a == 0 && ri == 0) by (nonlinear_arith)
            requires
                a >= 0,
                ri >= 0,
                ri * 1000 + a * 997 == 0,
        ;
        assert((ri + a) * (ro - 0) == 0) by (nonlinear_arith)
            requires
                ri + a == 0,
        ;
        assert(ri * ro == 0) by (nonlinear_arith)
            requires
                ri == 0,
        ;
    } else {
        let out = (t * ro) / d;
        assert(d > 0 && t >= 0) by (nonlinear_arith)
            requires
                a >= 0,
                ri >= 0,
                t == a * 997,
                d == ri * 1000 + t,
                d != 0,
        ;
        assert(t * ro >= 0) by (nonlinear_arith)
            requires
                t >= 0,
                ro >= 0,
        ;
        lemma_fundamental_div_mod(t * ro, d);
        lemma_div_pos_is_pos(t * ro, d);
        assert(out * d <= t * ro) by (nonlinear_arith)
            requires
                t * ro == d * out + (t * ro) % d,
                (t * ro) % d >= 0,
                d > 0,
        ;
        assert((ri + a) * t <= a * d) by (nonlinear_arith)
            requires
                t == a * 997,
                d == ri * 1000 + t,
                ri >= 0,
                a >= 0,
        ;
        // Chain the two bounds: (ri + a) * out * d <= a * ro * d, then cancel d.
        lemma_mul_inequality(out * d, t * ro, ri + a);
        assert((out * d) * (ri + a) == ((ri + a) * out) * d) by (nonlinear_arith);
        assert((t * ro) * (ri + a) == ((ri + a) * t) * ro) by (nonlinear_arith);
        lemma_mul_inequality((ri + a) * t, a * d, ro);
        assert((a * d) * ro == (a * ro) * d) by (nonlinear_arith);
        assert((ri + a) * out <= a * ro) by (nonlinear_arith)
            requires
                ((ri + a) * out) * d <= (a * ro) * d,
                d > 0,
        ;
        assert((ri + a) * (ro - out) >= ri * ro) by (nonlinear_arith)
            requires
                (ri + a) * out <= a * ro,
                ri >= 0,
                a >= 0,
                ro >= 0,
        ;
    }
}

/// Prices a USDT amount in WETH through the fixed USDT/WETH conversion pair,
/// whose token0 is WETH and token1 is USDT; `reserves` are that pair's (R0, R1).
pub fn convert_usdt_to_weth(amount: u128, reserves: (u128, u128)) -> (r: u128)
    requires
        fits_u112(amount),
        fits_u112(reserves.0),
        fits_u112(reserves.1),
    ensures
        r == spec_v2_amount_out(amount, reserves.1, reserves.0),
        r <= reserves.0,
{
    let (reserve_in, reserve_out) = (reserves.1, reserves.0);
    get_v2_amount_out(amount, reserve_in, reserve_out)
}

/// Prices a USDC amount in WETH through the fixed USDC/WETH conversion pair,
/// whose token0 is USDC and token1 is WETH; `reserves` are that pair's (R0, R1).
pub fn convert_usdc_to_weth(amount: u128, reserves: (u128, u128)) -> (r: u128)
    requires
        fits_u112(amount),
        fits_u112(reserves.0),
        fits_u112(reserves.1),
    ensures
        r == spec_v2_amount_out(amount, reserves.0, reserves.1),
        r <= reserves.1,
{
    let (reserve_in, reserve_out) = (reserves.0, reserves.1);
    get_v2_amount_out(amount, reserve_in, reserve_out)
}

/// The pair consulted to price the given main currency in WETH, where one is
/// needed (WETH itself converts at par).
pub fn conversion_pair_for(main_currency: Addr) -> (r: Option<Addr>)
    ensures
        r == (if main_currency == crate::types::usdt_addr() {
            Some(usdt_conversion_pair())
        } else if main_currency == crate::types::usdc_addr() {
            Some(usdc_conversion_pair())
        } else {
            None::<Addr>
        }),
{
    if main_currency == crate::types::usdt() {
        Some(crate::types::usdt_weth_pair())
    } else if main_currency == crate::types::usdc() {
        Some(crate::types::usdc_weth_pair())
    } else {
        None
    }
}

} // verus!
