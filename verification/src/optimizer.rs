use vstd::prelude::*;

use vstd::arithmetic::div_mod::{lemma_fundamental_div_mod, lemma_remainder_lower};

use crate::sandwich::{AccessListItem, OptimizedSandwich, SwapDirection};
use crate::types::{spec_is_weth, Addr, MainCurrency};

verus! {

pub open spec fn pow10(n: nat) -> nat
    decreases n,
{
    if n == 0 {
        1
    } else {
        10 * pow10((n - 1) as nat)
    }
}

proof fn lemma_pow10_values()
    ensures
        pow10(3) == 1000,
        pow10(6) == 1000000,
        pow10(14) == 100000000000000,
        pow10(16) == 10000000000000000,
        pow10(18) == 1000000000000000000,
{
    reveal_with_fuel(pow10, 19);
}

/// The tiny probe input used to test a candidate before optimizing:
/// 0.01 WETH, or 10 units of a stable currency.
pub open spec fn spec_probe_amount(main_currency: Addr) -> int {
    if spec_is_weth(main_currency) {
        pow10((crate::types::spec_main_currency(main_currency).spec_decimals() - 2) as nat) as int
    } else {
        10 * pow10(crate::types::spec_main_currency(main_currency).spec_decimals() as nat) as int
    }
}

pub fn probe_amount_in(main_currency: Addr) -> (r: u128)
    ensures
        r == spec_probe_amount(main_currency),
{
    proof {
        lemma_pow10_values();
        reveal_with_fuel(pow10, 19);
    }
    let mc = MainCurrency::new(main_currency);
    let decimals = mc.decimals();
    if crate::types::is_weth(main_currency) {
        pow10_exec((decimals - 2) as u32)
    } else {
        10 * pow10_exec(decimals as u32)
    }
}

fn pow10_exec(n: u32) -> (r: u128)
    requires
        n <= 36,
    ensures
        r == pow10(n as nat),
{
    proof {
        lemma_pow10_38_bound(36);
    }
    let mut r: u128 = 1;
    let mut i: u32 = 0;
    while i < n
        invariant
            i <= n,
            n <= 36,
            r == pow10(i as nat),
        decreases n - i,
    {
        proof {
            lemma_pow10_38_bound(36);
            lemma_pow10_le(i as nat + 1, 36);
        }
        r = r * 10;
        i = i + 1;
    }
    r
}

proof fn lemma_pow10_le(a: nat, b: nat)
    requires
        a <= b,
    ensures
        pow10(a) <= pow10(b),
    decreases b,
{
    if a < b && b > 0 {
        lemma_pow10_le(a, (b - 1) as nat);
        assert(pow10((b - 1) as nat) <= 10 * pow10((b - 1) as nat)) by (nonlinear_arith)
            requires
                pow10((b - 1) as nat) >= 0,
        ;
    }
}

proof fn lemma_pow10_38_bound(n: nat)
    requires
        n <= 36,
    ensures
        pow10(n) < u128::MAX,
{
    lemma_pow10_le(n, 36);
    reveal_with_fuel(pow10, 37);
}

/// The largest input the optimizer will consider: 100 WETH, or 300000 units
/// of a stable currency.
pub open spec fn spec_ceiling_amount(main_currency: Addr) -> int {
    if spec_is_weth(main_currency) {
        100 * pow10(18) as int
    } else {
        300000 * pow10(crate::types::spec_main_currency(main_currency).spec_decimals() as nat) as int
    }
}

pub fn ceiling_amount_in(main_currency: Addr) -> (r: u128)
    ensures
        r == spec_ceiling_amount(main_currency),
{
    proof {
        reveal_with_fuel(pow10, 19);
    }
    if crate::types::is_weth(main_currency) {
        100 * pow10_exec(18)
    } else {
        let decimals = MainCurrency::new(main_currency).decimals();
        300000 * pow10_exec(decimals as u32)
    }
}

/// The interval width below which the grid search stops: 10^14 wei for WETH,
/// 10^3 base units for stables.
pub open spec fn spec_tolerance(main_currency: Addr) -> int {
    if spec_is_weth(main_currency) {
        pow10(14) as int
    } else {
        pow10(3) as int
    }
}

pub fn optimize_tolerance(main_currency: Addr) -> (r: u128)
    ensures
        r == spec_tolerance(main_currency),
{
    proof {
        reveal_with_fuel(pow10, 19);
    }
    if crate::types::is_weth(main_currency) {
        pow10_exec(14)
    } else {
        pow10_exec(3)
    }
}

/// A candidate advances from the probe to optimization only on positive profit.
pub fn probe_passes(profit: i128) -> (r: bool)
    ensures
        r == (profit > 0),
{
    profit > 0
}

/// Only buys proceed to prospecting; sells are ignored.
pub fn should_prospect(direction: SwapDirection) -> (r: bool)
    ensures
        r == (direction == SwapDirection::Buy),
{
    direction == SwapDirection::Buy
}

/// The outcome of simulating one grid point.
#[derive(Clone, Debug)]
pub struct SimulationOutcome {
    pub amount_in: u128,
    pub revenue: i128,
    pub front_gas_used: u64,
    pub back_gas_used: u64,
    pub front_calldata: Vec<u8>,
    pub back_calldata: Vec<u8>,
}

/// The grid-refinement search over frontrun input sizes. Each round evaluates
/// eleven equally spaced inputs in [min, max], keeps the best revenue seen so
/// far, and narrows the interval around the best index.
#[derive(Debug)]
pub struct OptimizerState {
    pub min_amount_in: u128,
    pub max_amount_in: u128,
    pub tolerance: u128,
    pub optimized_in: u128,
    pub max_revenue: u128,
    pub max_front_gas_used: u64,
    pub max_back_gas_used: u64,
    pub max_front_calldata: Vec<u8>,
    pub max_back_calldata: Vec<u8>,
}

/// Running best revenue after scanning the first `n` outcomes.
pub open spec fn spec_running_rev(results: Seq<SimulationOutcome>, n: int, init: int) -> int
    decreases n,
{
    if n <= 0 {
        init
    } else {
        let p = spec_running_rev(results, n - 1, init);
        if results[n - 1].revenue > p {
            results[n - 1].revenue as int
        } else {
            p
        }
    }
}

/// Index of the last outcome that improved the running best (0 when none did).
pub open spec fn spec_best_idx(results: Seq<SimulationOutcome>, n: int, init: int) -> int
    decreases n,
{
    if n <= 0 {
        0
    } else {
        let p = spec_running_rev(results, n - 1, init);
        if results[n - 1].revenue > p {
            n - 1
        } else {
            spec_best_idx(results, n - 1, init)
        }
    }
}

impl OptimizerState {
    pub open spec fn wf(&self) -> bool {
        self.min_amount_in <= self.max_amount_in
    }

    pub open spec fn spec_step(&self) -> int {
        ((self.max_amount_in - self.min_amount_in) as u128 / 10) as int
    }

    pub fn new(ceiling_amount_in: u128, tolerance: u128) -> (r: Self)
        ensures
            r.wf(),
            r.min_amount_in == 0,
            r.max_amount_in == ceiling_amount_in,
            r.tolerance == tolerance,
            r.optimized_in == 0,
            r.max_revenue == 0,
            r.max_front_gas_used == 0,
            r.max_back_gas_used == 0,
            r.max_front_calldata@ == Seq::<u8>::empty(),
            r.max_back_calldata@ == Seq::<u8>::empty(),
    {
        OptimizerState {
            min_amount_in: 0,
            max_amount_in: ceiling_amount_in,
            tolerance,
            optimized_in: 0,
            max_revenue: 0,
            max_front_gas_used: 0,
            max_back_gas_used: 0,
            max_front_calldata: Vec::new(),
            max_back_calldata: Vec::new(),
        }
    }

    /// The search stops once the step between grid points is within tolerance.
    pub fn done(&self) -> (r: bool)
        requires
            self.wf(),
        ensures
            r == (self.spec_step() <= self.tolerance),
    {
        let step = (self.max_amount_in - self.min_amount_in) / 10;
        step <= self.tolerance
    }

    /// The eleven equally spaced inputs of the current interval.
    pub fn grid_inputs(&self) -> (r: Vec<u128>)
        requires
            self.wf(),
        ensures
            r@.len() == 11,
            forall|j: int| 0 <= j < 11 ==> r@[j] == self.min_amount_in + j * self.spec_step(),
    {
        let step = (self.max_amount_in - self.min_amount_in) / 10;
        proof {
            lemma_fundamental_div_mod((self.max_amount_in - self.min_amount_in) as int, 10);
            lemma_remainder_lower((self.max_amount_in - self.min_amount_in) as int, 10);
        }
        let mut inputs: Vec<u128> = Vec::new();
        let mut j: usize = 0;
        while j < 11
            invariant
                j <= 11,
                step == self.spec_step(),
                self.min_amount_in + 10 * step <= self.max_amount_in,
                inputs@.len() == j,
                forall|k: int| 0 <= k < j ==> inputs@[k] == self.min_amount_in + k * step,
            decreases 11 - j,
        {
            proof {
                assert((j as int) * step <= 10 * step) by (nonlinear_arith)
                    requires
                        0 <= j <= 10,
                        step >= 0,
                ;
            }
            inputs.push(self.min_amount_in + (j as u128) * step);
            j = j + 1;
        }
        inputs
    }

    /// Folds one round of grid outcomes into the state: adopt any outcome
    /// beating the best revenue so far, then narrow the interval to the
    /// neighbors of the last improving index (or of 0 when none improved).
    pub fn update(&mut self, results: &Vec<SimulationOutcome>)
        requires
            old(self).wf(),
            results@.len() == 11,
            forall|j: int|
                0 <= j < 11 ==> (#[trigger] results@[j]).amount_in == old(self).min_amount_in + j
                    * old(self).spec_step(),
        ensures
            final(self).wf(),
            final(self).tolerance == old(self).tolerance,
            ({
                let k = spec_best_idx(results@, 11, old(self).max_revenue as int);
                let best = spec_running_rev(results@, 11, old(self).max_revenue as int);
                &&& final(self).max_revenue == best
                &&& final(self).min_amount_in == (if k == 0 {
                    0
                } else {
                    results@[k - 1].amount_in as int
                })
                &&& final(self).max_amount_in == (if k == 10 {
                    results@[10].amount_in as int
                } else {
                    results@[k + 1].amount_in as int
                })
                &&& (best > old(self).max_revenue ==> {
                    &&& final(self).optimized_in == results@[k].amount_in
                    &&& final(self).max_front_gas_used == results@[k].front_gas_used
                    &&& final(self).max_back_gas_used == results@[k].back_gas_used
                    &&& final(self).max_front_calldata@ == results@[k].front_calldata@
                    &&& final(self).max_back_calldata@ == results@[k].back_calldata@
                })
                &&& (best == old(self).max_revenue ==> {
                    &&& final(self).optimized_in == old(self).optimized_in
                    &&& final(self).max_front_gas_used == old(self).max_front_gas_used
                    &&& final(self).max_back_gas_used == old(self).max_back_gas_used
                    &&& final(self).max_front_calldata@ == old(self).max_front_calldata@
                    &&& final(self).max_back_calldata@ == old(self).max_back_calldata@
                })
            }),
    {
        let ghost init = old(self).max_revenue as int;
        let mut max_idx: usize = 0;
        let mut j: usize = 0;
        while j < 11
            invariant
                old(self).wf(),
                results@.len() == 11,
                forall|m: int|
                    0 <= m < 11 ==> (#[trigger] results@[m]).amount_in == old(self).min_amount_in
                        + m * old(self).spec_step(),
                j <= 11,
                init == old(self).max_revenue as int,
                self.max_revenue as int == spec_running_rev(results@, j as int, init),
                max_idx as int == spec_best_idx(results@, j as int, init),
                max_idx < 11,
                self.min_amount_in == old(self).min_amount_in,
                self.max_amount_in == old(self).max_amount_in,
                self.tolerance == old(self).tolerance,
                spec_running_rev(results@, j as int, init) > init ==> {
                    &&& self.optimized_in == results@[spec_best_idx(
                        results@,
                        j as int,
                        init,
                    )].amount_in
                    &&& self.max_front_gas_used == results@[spec_best_idx(
                        results@,
                        j as int,
                        init,
                    )].front_gas_used
                    &&& self.max_back_gas_used == results@[spec_best_idx(
                        results@,
                        j as int,
                        init,
                    )].back_gas_used
                    &&& self.max_front_calldata@ == results@[spec_best_idx(
                        results@,
                        j as int,
                        init,
                    )].front_calldata@
                    &&& self.max_back_calldata@ == results@[spec_best_idx(
                        results@,
                        j as int,
                        init,
                    )].back_calldata@
                },
                spec_running_rev(results@, j as int, init) == init ==> {
                    &&& self.optimized_in == old(self).optimized_in
                    &&& self.max_front_gas_used == old(self).max_front_gas_used
                    &&& self.max_back_gas_used == old(self).max_back_gas_used
                    &&& self.max_front_calldata@ == old(self).max_front_calldata@
                    &&& self.max_back_calldata@ == old(self).max_back_calldata@
                },
                spec_running_rev(results@, j as int, init) >= init,
            decreases 11 - j,
        {
            let outcome = &results[j];
            if outcome.revenue > 0 && (outcome.revenue as u128) > self.max_revenue {
                self.optimized_in = outcome.amount_in;
                self.max_revenue = outcome.revenue as u128;
                self.max_front_gas_used = outcome.front_gas_used;
                self.max_back_gas_used = outcome.back_gas_used;
                self.max_front_calldata = crate::encode::copy_bytes(&outcome.front_calldata);
                self.max_back_calldata = crate::encode::copy_bytes(&outcome.back_calldata);
                max_idx = j;
            } else {
                proof {
                    assert(!(results@[j as int].revenue as int > spec_running_rev(
                        results@,
                        j as int,
                        init,
                    )));
                }
            }
            j = j + 1;
        }
        if max_idx == 0 {
            self.min_amount_in = 0;
        } else {
            self.min_amount_in = results[max_idx - 1].amount_in;
        }
        if max_idx == 10 {
            self.max_amount_in = results[10].amount_in;
        } else {
            self.max_amount_in = results[max_idx + 1].amount_in;
        }
        proof {
            let k = spec_best_idx(results@, 11, init);
            let new_min = self.min_amount_in as int;
            let new_max = self.max_amount_in as int;
            let min0 = old(self).min_amount_in as int;
            let step0 = old(self).spec_step();
            assert(new_min <= new_max) by (nonlinear_arith)
                requires
                    new_min == (if k == 0 {
                        0int
                    } else {
                        min0 + (k - 1) * step0
                    }),
                    new_max == (if k == 10 {
                        min0 + 10 * step0
                    } else {
                        min0 + (k + 1) * step0
                    }),
                    0 <= k < 11,
                    step0 >= 0,
                    min0 >= 0,
            ;
        }
    }

    /// Packages the best point found, together with the access lists the
    /// search ran under.
    pub fn into_optimized(
        self,
        front_access_list: Vec<AccessListItem>,
        back_access_list: Vec<AccessListItem>,
    ) -> (r: OptimizedSandwich)
        ensures
            r.amount_in == self.optimized_in,
            r.max_revenue == self.max_revenue,
            r.front_gas_used == self.max_front_gas_used,
            r.back_gas_used == self.max_back_gas_used,
            r.front_access_list == front_access_list,
            r.back_access_list == back_access_list,
            r.front_calldata == self.max_front_calldata,
            r.back_calldata == self.max_back_calldata,
    {
        OptimizedSandwich {
            amount_in: self.optimized_in,
            max_revenue: self.max_revenue,
            front_gas_used: self.max_front_gas_used,
            back_gas_used: self.max_back_gas_used,
            front_access_list,
            back_access_list,
            front_calldata: self.max_front_calldata,
            back_calldata: self.max_back_calldata,
        }
    }
}

} // verus!
