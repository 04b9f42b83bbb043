use sandooo::amm::{convert_usdc_to_weth, convert_usdt_to_weth, get_v2_amount_out};
use sandooo::encode::{decode_packed, encode_packed, SwapParams};
use sandooo::fees::{calculate_next_block_base_fee, next_base_fee_with_seed};
use sandooo::maps::AddrMap;
use sandooo::packer::{bundle_fee_params, pack_bundle, Ingredients};
use sandooo::sandwich::{
    settle_simulation, BatchSandwich, McSettleRow, Sandwich, SwapDirection, SwapInfo, VictimTx,
};
use sandooo::types::{usdt, weth, Addr, Bytes32};

fn addr(n: u32) -> Addr {
    Addr { hi: n, lo: n as u128 }
}

fn hash(n: u128) -> Bytes32 {
    Bytes32 { hi: n << 96, lo: 0 }
}

fn swap_info(tx: Bytes32, pair: Addr, mc: Addr, tt: Addr, token0_is_main: bool) -> SwapInfo {
    SwapInfo {
        tx_hash: tx,
        target_pair: pair,
        main_currency: mc,
        target_token: tt,
        version: 2,
        token0_is_main,
        direction: SwapDirection::Buy,
    }
}

fn victim(tx: Bytes32) -> VictimTx {
    VictimTx {
        tx_hash: tx,
        from: addr(7),
        to: addr(8),
        data: vec![1, 2, 3],
        value: 0,
        gas_price: 100,
        gas_limit: Some(21000),
    }
}

fn sandwich(tx: Bytes32, amount_in: u128, pair: Addr, mc: Addr, tt: Addr) -> Sandwich {
    Sandwich {
        amount_in,
        swap_info: swap_info(tx, pair, mc, tt, true),
        victim_tx: victim(tx),
        optimized_sandwich: None,
    }
}

#[test]
fn v2_amount_out_exact() {
    // 1 WETH into a 100 WETH / 100e3 TKN pool.
    let out = get_v2_amount_out(
        1_000_000_000_000_000_000,
        100_000_000_000_000_000_000,
        100_000_000_000_000_000_000_000,
    );
    assert_eq!(out, 987158034397061298850);
    assert_eq!(get_v2_amount_out(5, 0, 10), 10);
    assert_eq!(get_v2_amount_out(0, 0, 10), 0);
}

#[test]
fn v2_amount_out_constant_product() {
    // The pool's product of reserves never shrinks under the rounded formula.
    let (amount_in, rin, rout) = (12345u128, 1_000_000u128, 2_000_000u128);
    let out = get_v2_amount_out(amount_in, rin, rout);
    assert_eq!(out, 24316);
    assert!((rin + amount_in) * (rout - out) >= rin * rout);
}

#[test]
fn packed_calldata_round_trip() {
    let params = vec![
        SwapParams {
            zero_for_one: true,
            pair: addr(1),
            token_in: addr(2),
            amount_in: 12345678901234567890,
            amount_out: 98765,
        },
        SwapParams {
            zero_for_one: false,
            pair: addr(3),
            token_in: addr(4),
            amount_in: 0,
            amount_out: u128::MAX,
        },
    ];
    let encoded = encode_packed(19_000_001, &params);
    assert_eq!(encoded.len(), 8 + 2 * 105);
    // blockNumber as uint64, big endian.
    assert_eq!(&encoded[0..8], &[0, 0, 0, 0, 0x01, 0x21, 0xEA, 0xC1]);
    // zeroForOne of the first swap.
    assert_eq!(encoded[8], 1);
    let decoded = decode_packed(&encoded).expect("round trip");
    assert_eq!(decoded.0, 19_000_001);
    assert_eq!(decoded.1, params);
}

#[test]
fn packed_calldata_rejects_malformed() {
    assert!(decode_packed(&vec![1, 2, 3]).is_none());
    // Correct header, truncated body.
    let params = vec![];
    let mut encoded = encode_packed(1, &params);
    encoded.push(0);
    assert!(decode_packed(&encoded).is_none());
    // A swap whose flag byte is neither 0 nor 1.
    let mut good = encode_packed(
        1,
        &vec![SwapParams {
            zero_for_one: false,
            pair: addr(1),
            token_in: addr(2),
            amount_in: 5,
            amount_out: 6,
        }],
    );
    good[8] = 9;
    assert!(decode_packed(&good).is_none());
}

#[test]
fn bundle_id_stable_under_permutation_and_duplication() {
    let (pair, mc, tt) = (addr(10), weth(), addr(11));
    let a = sandwich(hash(0xd78ad95f), 5, pair, mc, tt);
    let b = sandwich(hash(0x00c0ffee), 5, pair, mc, tt);
    let batch1 = BatchSandwich { sandwiches: vec![a.clone(), b.clone()] };
    let batch2 = BatchSandwich { sandwiches: vec![b.clone(), a.clone(), b.clone(), a.clone()] };
    let id1 = batch1.bundle_id();
    let id2 = batch2.bundle_id();
    assert_eq!(id1, id2);
    assert_eq!(id1, "0x00c0ffee-0xd78ad95f");
    let single = BatchSandwich { sandwiches: vec![a] };
    assert_eq!(single.bundle_id(), "0xd78ad95f");
    let empty = BatchSandwich { sandwiches: vec![] };
    assert_eq!(empty.bundle_id(), "");
}

#[test]
fn backrun_spends_one_below_balance() {
    let (pair, mc, tt) = (addr(20), weth(), addr(21));
    let s = sandwich(hash(1), 50, pair, mc, tt);
    let batch = BatchSandwich { sandwiches: vec![s] };
    let mut reserves: AddrMap<(u128, u128)> = AddrMap::new();
    reserves.insert(pair, (1_000_000, 1_000_000));
    let mut balances: AddrMap<u128> = AddrMap::new();
    balances.insert(tt, 1000);
    let encoded = batch.encode_backrun_tx(100, &reserves, &balances);
    let decoded = decode_packed(&encoded).expect("backrun decodes");
    assert_eq!(decoded.1.len(), 1);
    let p = &decoded.1[0];
    // One less than the balance: the safety margin.
    assert_eq!(p.amount_in, 999);
    assert!(p.amount_in < 1000);
    // Selling the target token back: the buy direction flipped.
    assert!(!p.zero_for_one);
    assert_eq!(p.token_in, tt);
    assert_eq!(p.amount_out, 995);
}

#[test]
fn frontrun_encodes_margin_and_totals() {
    let (pair, mc, tt) = (addr(30), weth(), addr(31));
    let s1 = sandwich(hash(1), 1000, pair, mc, tt);
    let s2 = sandwich(hash(1), 500, pair, mc, tt);
    let batch = BatchSandwich { sandwiches: vec![s1, s2] };
    let mut reserves: AddrMap<(u128, u128)> = AddrMap::new();
    reserves.insert(pair, (1_000_000, 1_000_000));
    let (calldata, victims, totals) = batch.encode_frontrun_tx(77, &reserves);
    let decoded = decode_packed(&calldata).expect("frontrun decodes");
    assert_eq!(decoded.0, 77);
    assert_eq!(decoded.1.len(), 2);
    assert_eq!(decoded.1[0].amount_in, 999);
    assert_eq!(decoded.1[1].amount_in, 499);
    assert!(decoded.1[0].zero_for_one);
    assert_eq!(decoded.1[0].token_in, mc);
    // The shared victim hash appears once.
    assert_eq!(victims.len(), 1);
    assert_eq!(victims[0].gas_limit, 21000);
    // Committed capital, summed per main currency, margins included.
    assert_eq!(totals.get(mc).copied(), Some(999 + 499));
}

#[test]
fn settled_simulation_revenue_is_profit_minus_gas() {
    let rows = vec![
        McSettleRow {
            main_currency: weth(),
            balance_before: 10,
            balance_after: 25,
            conversion_reserves: (0, 0),
        },
        McSettleRow {
            main_currency: usdt(),
            balance_before: 5_000_000,
            balance_after: 7_000_000,
            conversion_reserves: (100_000_000_000_000_000_000, 300_000_000_000),
        },
    ];
    let settled = settle_simulation(
        &rows,
        1_000_000_000_000_000_000,
        900_000_000_000_000_000,
        111,
        222,
        vec![],
        vec![],
        vec![1],
        vec![2],
    );
    assert_eq!(settled.profit, 664640160560156);
    assert_eq!(settled.gas_cost, 100_000_000_000_000_000);
    assert_eq!(settled.revenue, settled.profit - settled.gas_cost);
    assert_eq!(settled.revenue, -99335359839439844);
    assert_eq!(settled.front_gas_used, 111);
    assert_eq!(settled.back_gas_used, 222);
}

#[test]
fn settled_simulation_gas_clamps_on_balance_rise() {
    // When the owner's ETH somehow rose, the whole starting balance counts.
    let settled =
        settle_simulation(&vec![], 1000, 2000, 0, 0, vec![], vec![], vec![], vec![]);
    assert_eq!(settled.gas_cost, 1000);
    assert_eq!(settled.profit, 0);
    assert_eq!(settled.revenue, -1000);
}

#[test]
fn usd_conversions_use_fixed_pair_sides() {
    // USDT pair: token0 = WETH, token1 = USDT.
    let reserves = (100_000_000_000_000_000_000, 300_000_000_000);
    assert_eq!(convert_usdt_to_weth(5_000_000, reserves), 1661639055764356);
    // USDC pair: token0 = USDC, token1 = WETH.
    let reserves_c = (300_000_000_000, 100_000_000_000_000_000_000);
    assert_eq!(convert_usdc_to_weth(5_000_000, reserves_c), 1661639055764356);
}

#[test]
fn next_base_fee_exact_and_monotonic() {
    // Above the gas target the base fee rises.
    let up = next_base_fee_with_seed(15_000_000, 20_000_000, 100_000_000_000, 0);
    assert_eq!(up, 106_250_000_000);
    assert!(up > 100_000_000_000);
    // Below it, it falls.
    let down = next_base_fee_with_seed(5_000_000, 20_000_000, 100_000_000_000, 0);
    assert_eq!(down, 93_750_000_000);
    // The jitter shifts the projection by its seed.
    assert_eq!(next_base_fee_with_seed(15_000_000, 20_000_000, 100_000_000_000, 8), up + 8);
    // The public entry draws a jitter in [0, 8].
    let jittered = calculate_next_block_base_fee(15_000_000, 20_000_000, 100_000_000_000);
    assert!(up <= jittered && jittered <= up + 8);
    // A fuller-than-target block raises the fee even where the proportional
    // increment floors to zero: the minimum move is one wei.
    assert_eq!(next_base_fee_with_seed(10, 2, 0, 0), 1);
    assert_eq!(next_base_fee_with_seed(10_000_001, 20_000_000, 100, 0), 101);
}

#[test]
fn pack_bundle_clamps_to_balances() {
    let (pair, mc, tt) = (addr(40), weth(), addr(41));
    let plate: Vec<Ingredients> = [30u128, 40, 50]
        .iter()
        .enumerate()
        .map(|(i, amount)| Ingredients {
            tx_hash: hash(i as u128 + 1),
            pair,
            main_currency: mc,
            amount_in: *amount,
            max_revenue: 1,
            sandwich: sandwich(hash(i as u128 + 1), *amount, pair, mc, tt),
        })
        .collect();
    let mut balances: AddrMap<u128> = AddrMap::new();
    balances.insert(mc, 60);
    let amounts =
        |b: &Vec<Sandwich>| b.iter().map(|s| s.amount_in).collect::<Vec<u128>>();
    let b1 = pack_bundle(&plate, &balances, 1);
    let b2 = pack_bundle(&plate, &balances, 2);
    let b3 = pack_bundle(&plate, &balances, 3);
    assert_eq!(amounts(&b1), vec![30]);
    assert_eq!(amounts(&b2), vec![30, 30]);
    assert_eq!(amounts(&b3), vec![30, 30, 0]);
    // Capital accounting: each bundle's total stays within the balance.
    for bundle in [&b1, &b2, &b3] {
        let total: u128 = bundle.iter().map(|s| s.amount_in).sum();
        assert!(total <= 60);
        for s in bundle.iter() {
            assert!(s.optimized_sandwich.is_none());
        }
    }
}

#[test]
fn bundle_fee_params_exact() {
    let fees = bundle_fee_params(1_000_000_000_000_000_000, 9900, 100_000, 200_000, 50_000_000_000);
    assert_eq!(fees.bribe_amount, 990_000_000_000_000_000);
    assert_eq!(fees.front_gas_limit, 130_000);
    assert_eq!(fees.back_gas_limit, 260_000);
    assert_eq!(fees.max_priority_fee_per_gas, 4_714_285_714_285);
    assert_eq!(fees.max_fee_per_gas, 50_000_000_000 + 4_714_285_714_285);
}

#[test]
fn replay_prices_a_full_sandwich_round() {
    let (pair, mc, tt) = (addr(60), weth(), addr(61));
    let s = sandwich(hash(9), 1000, pair, mc, tt);
    let batch = vec![s];
    let mut reserves: AddrMap<(u128, u128)> = AddrMap::new();
    reserves.insert(pair, (1_000_000, 1_000_000));
    let (after, balances) = sandooo::sandwich::replay_frontrun_swaps(&batch, &reserves);
    // The frontrun spends 999 and collects the constant-product output.
    assert_eq!(after.get(pair).copied(), Some((1_000_999, 999_005)));
    assert_eq!(balances.get(tt).copied(), Some(995));
    // The backrun sells the held balance less one, flipped.
    let proceeds = sandooo::sandwich::replay_backrun_swaps(&batch, &after, &balances);
    assert_eq!(proceeds.get(mc).copied(), Some(992));
}
