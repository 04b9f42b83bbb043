use vstd::prelude::*;

use vstd::arithmetic::div_mod::{lemma_div_is_ordered, lemma_div_nonincreasing, lemma_div_pos_is_pos};
use vstd::arithmetic::mul::lemma_mul_upper_bound;

use crate::maps::AddrMap;
use crate::sandwich::Sandwich;
use crate::types::{Addr, Bytes32};

verus! {

/// One optimized candidate as considered by the packer. Candidates are handed
/// in already ordered by capital-efficiency score (the caller's float-scored
/// descending sort).
#[derive(Clone, Debug)]
pub struct Ingredients {
    pub tx_hash: Bytes32,
    pub pair: Addr,
    pub main_currency: Addr,
    pub amount_in: u128,
    pub max_revenue: u128,
    pub sandwich: Sandwich,
}

/// The inputs a packed bundle actually commits: each candidate's optimized
/// input clamped to what is left of the bot's balance in its main currency,
/// walking the list in order.
pub open spec fn spec_pack_amounts(plate: Seq<Ingredients>, balances: Map<Addr, u128>) -> Seq<u128>
    decreases plate.len(),
{
    if plate.len() == 0 {
        Seq::empty()
    } else {
        let mc = plate[0].main_currency;
        let b = if balances.contains_key(mc) {
            balances[mc]
        } else {
            0
        };
        let a = if b < plate[0].amount_in {
            b
        } else {
            plate[0].amount_in
        };
        seq![a] + spec_pack_amounts(plate.skip(1), balances.insert(mc, (b - a) as u128))
    }
}

/// Capital accounting: summed per main currency, a packed bundle never
/// commits more than the starting balance of that currency.
pub open spec fn spec_sum_for(plate: Seq<Ingredients>, amounts: Seq<u128>, c: Addr) -> int
    decreases plate.len(),
{
    if plate.len() == 0 || amounts.len() < plate.len() {
        0
    } else {
        (if plate[0].main_currency == c {
            amounts[0] as int
        } else {
            0
        }) + spec_sum_for(plate.skip(1), amounts.skip(1), c)
    }
}

/// The packed inputs of every bundle respect the per-currency balance budget.
pub proof fn lemma_pack_respects_balances(plate: Seq<Ingredients>, balances: Map<Addr, u128>, c: Addr)
    ensures
        spec_sum_for(plate, spec_pack_amounts(plate, balances), c) <= (if balances.contains_key(c) {
            balances[c] as int
        } else {
            0
        }),
    decreases plate.len(),
{
    if plate.len() == 0 {
    } else {
        let mc = plate[0].main_currency;
        let b = if balances.contains_key(mc) {
            balances[mc]
        } else {
            0
        };
        let a: u128 = if b < plate[0].amount_in {
            b
        } else {
            plate[0].amount_in
        };
        let rest_bal = balances.insert(mc, (b - a) as u128);
        lemma_pack_respects_balances(plate.skip(1), rest_bal, c);
        let amounts = spec_pack_amounts(plate, balances);
        assert(amounts.skip(1) =~= spec_pack_amounts(plate.skip(1), rest_bal));
        assert(amounts[0] == a);
    }
}

/// Builds the bundle of the first `count` candidates, clamping each input to
/// the remaining balance of its main currency.
pub fn pack_bundle(plate: &Vec<Ingredients>, bot_balances: &AddrMap<u128>, count: usize) -> (r: Vec<
    Sandwich,
>)
    requires
        bot_balances.wf(),
        count <= plate@.len(),
        forall|j: int|
            0 <= j < count ==> bot_balances@.contains_key(
                (#[trigger] plate@[j]).main_currency,
            ),
    ensures
        r@.len() == count,
        forall|j: int|
            0 <= j < count ==> (#[trigger] r@[j]).amount_in == spec_pack_amounts(
                plate@.subrange(0, count as int),
                bot_balances@,
            )[j],
        forall|j: int|
            0 <= j < count ==> (#[trigger] r@[j]).swap_info == plate@[j].sandwich.swap_info,
        forall|j: int|
            0 <= j < count ==> (#[trigger] r@[j]).victim_tx.tx_hash
                == plate@[j].sandwich.victim_tx.tx_hash,
        forall|j: int| 0 <= j < count ==> (#[trigger] r@[j]).optimized_sandwich is None,
    {
        let ghost plate0 = plate@.subrange(0, count as int);
        let ghost bal0 = bot_balances@;
        let mut balances: AddrMap<u128> = AddrMap::new();
        // Work on a copy of the balances so the caller's map is untouched.
        let mut c: usize = 0;
        let n = bot_balances.entries.len();
        while c < n
            invariant
                bot_balances.wf(),
                c <= n,
                n == bot_balances.entries@.len(),
                balances.wf(),
                balances@ == crate::maps::addr_alist_map(bot_balances.entries@.subrange(0, c as int)),
            decreases n - c,
        {
            let entry = &bot_balances.entries[c];
            balances.insert(entry.0, entry.1);
            proof {
                assert(bot_balances.entries@.subrange(0, c as int + 1).drop_last()
                    =~= bot_balances.entries@.subrange(0, c as int));
            }
            c = c + 1;
        }
        proof {
            assert(bot_balances.entries@.subrange(0, n as int) =~= bot_balances.entries@);
        }
        let mut out: Vec<Sandwich> = Vec::new();
        let mut j: usize = 0;
        proof {
            assert(plate0.skip(0) =~= plate0);
        }
        while j < count
            invariant
                bot_balances.wf(),
                balances.wf(),
                count <= plate@.len(),
                plate0 == plate@.subrange(0, count as int),
                bal0 == bot_balances@,
                forall|k: int|
                    0 <= k < count ==> bal0.contains_key((#[trigger] plate@[k]).main_currency),
                j <= count,
                out@.len() == j,
                Seq::new(j as nat, |k: int| out@[k].amount_in) + spec_pack_amounts(
                    plate0.skip(j as int),
                    balances@,
                ) =~= spec_pack_amounts(plate0, bal0),
                forall|k: int|
                    0 <= k < j ==> (#[trigger] out@[k]).swap_info == plate@[k].sandwich.swap_info,
                forall|k: int|
                    0 <= k < j ==> (#[trigger] out@[k]).victim_tx.tx_hash
                        == plate@[k].sandwich.victim_tx.tx_hash,
                forall|k: int| 0 <= k < j ==> (#[trigger] out@[k]).optimized_sandwich is None,
            decreases count - j,
        {
            let ing = &plate[j];
            let main_currency = ing.main_currency;
            let balance: u128 = match balances.get(main_currency) {
                Some(v) => *v,
                None => 0,
            };
            let amount_in: u128 = if balance < ing.amount_in {
                balance
            } else {
                ing.amount_in
            };
            let vt = &ing.sandwich.victim_tx;
            let gas_limit = vt.gas_limit;
            let final_sandwich = Sandwich {
                amount_in,
                swap_info: ing.sandwich.swap_info,
                victim_tx: crate::sandwich::VictimTx {
                    tx_hash: vt.tx_hash,
                    from: vt.from,
                    to: vt.to,
                    data: crate::encode::copy_bytes(&vt.data),
                    value: vt.value,
                    gas_price: vt.gas_price,
                    gas_limit,
                },
                optimized_sandwich: None,
            };
            balances.insert(main_currency, balance - amount_in);
            out.push(final_sandwich);
            proof {
                assert(plate0.skip(j as int)[0] == plate@[j as int]);
                assert(plate0.skip(j as int).skip(1) =~= plate0.skip(j as int + 1));
                assert(Seq::new(j as nat + 1, |k: int| out@[k].amount_in) =~= Seq::new(
                    j as nat,
                    |k: int| out@[k].amount_in,
                ).push(amount_in));
                assert(Seq::new(j as nat, |k: int| out@[k].amount_in).push(amount_in)
                    + spec_pack_amounts(plate0.skip(j as int + 1), balances@) =~= Seq::new(
                    j as nat,
                    |k: int| out@[k].amount_in,
                ) + (seq![amount_in] + spec_pack_amounts(plate0.skip(j as int + 1), balances@)));
            }
            j = j + 1;
        }
        proof {
            assert(plate0.skip(count as int) =~= Seq::<Ingredients>::empty());
            assert(Seq::new(count as nat, |k: int| out@[k].amount_in) + Seq::<u128>::empty()
                =~= Seq::new(count as nat, |k: int| out@[k].amount_in));
        }
        out
    }

/// The gas and fee terms of a bundle about to be signed: limits padded 30%
/// above simulated usage, and the bribe paid through the backrun's priority
/// fee against a realistic (5% padded) gas estimate.
#[derive(Clone, Copy, Debug, PartialEq, Eq, Structural)]
pub struct BundleFees {
    pub bribe_amount: u128,
    pub front_gas_limit: u64,
    pub back_gas_limit: u64,
    pub max_priority_fee_per_gas: u128,
    pub max_fee_per_gas: u128,
}

pub fn bundle_fee_params(
    revenue: i128,
    bribe_pct: u128,
    front_gas_used: u64,
    back_gas_used: u64,
    base_fee: u128,
) -> (r: BundleFees)
    requires
        revenue > 0,
        revenue <= 0x10000000000000000000000000000,
        bribe_pct <= 10000,
        0 < back_gas_used,
        front_gas_used <= u64::MAX / 13,
        back_gas_used <= u64::MAX / 105,
        base_fee <= u64::MAX,
    ensures
        r.bribe_amount == (revenue * bribe_pct) as int / 10000,
        r.front_gas_limit == (front_gas_used * 13) as int / 10,
        r.back_gas_limit == (back_gas_used * 13) as int / 10,
        r.max_priority_fee_per_gas == r.bribe_amount as int / ((back_gas_used * 105) as int / 100),
        r.max_fee_per_gas == base_fee + r.max_priority_fee_per_gas,
{
    proof {
        lemma_mul_upper_bound(
            revenue as int,
            0x10000000000000000000000000000,
            bribe_pct as int,
            10000,
        );
    }
    let bribe_amount: u128 = ((revenue as u128) * bribe_pct) / 10000;
    let front_gas_limit: u64 = (front_gas_used * 13) / 10;
    let back_gas_limit: u64 = (back_gas_used * 13) / 10;
    let realistic_back_gas_limit: u64 = (back_gas_used * 105) / 100;
    proof {
        assert(105 as int / 100 == 1);
        lemma_div_is_ordered(105, (back_gas_used * 105) as int, 100);
        lemma_div_pos_is_pos(bribe_amount as int, realistic_back_gas_limit as int);
        lemma_div_nonincreasing(bribe_amount as int, realistic_back_gas_limit as int);
    }
    let max_priority_fee_per_gas: u128 = bribe_amount / (realistic_back_gas_limit as u128);
    let max_fee_per_gas: u128 = base_fee + max_priority_fee_per_gas;
    BundleFees {
        bribe_amount,
        front_gas_limit,
        back_gas_limit,
        max_priority_fee_per_gas,
        max_fee_per_gas,
    }
}

} // verus!
