use sandooo::amm::get_v2_amount_out;
use sandooo::optimizer::{
    ceiling_amount_in, optimize_tolerance, probe_amount_in, probe_passes, should_prospect,
    OptimizerState, SimulationOutcome,
};
use sandooo::sandwich::{Sandwich, SwapDirection, SwapInfo, VictimTx};
use sandooo::strategy::{victim_gas_decision, NewPendingTx, StrategyState, TxData};
use sandooo::types::{usdc, weth, Addr, Bytes32};

fn addr(n: u32) -> Addr {
    Addr { hi: n, lo: n as u128 }
}

fn hash(n: u128) -> Bytes32 {
    Bytes32 { hi: n << 96, lo: 0 }
}

fn margin(a: u128) -> u128 {
    if a > 0 {
        a - 1
    } else {
        0
    }
}

/// A pure constant-product sandwich round: frontrun buy, victim buy, backrun
/// sell; the revenue is the main-currency gain of the bot (gas-free).
fn sandwich_revenue(x: u128, r_main: u128, r_target: u128, victim_in: u128) -> i128 {
    let f_in = margin(x);
    let out_f = get_v2_amount_out(f_in, r_main, r_target);
    let (r0, r1) = (r_main + f_in, r_target - out_f);
    let out_v = get_v2_amount_out(victim_in, r0, r1);
    let (r0, r1) = (r0 + victim_in, r1 - out_v);
    let b_in = margin(out_f);
    let out_b = get_v2_amount_out(b_in, r1, r0);
    out_b as i128 - f_in as i128
}

fn run_grid(r_main: u128, r_target: u128, victim_in: u128, ceiling: u128, tolerance: u128) -> OptimizerState {
    let mut state = OptimizerState::new(ceiling, tolerance);
    while !state.done() {
        let inputs = state.grid_inputs();
        let results: Vec<SimulationOutcome> = inputs
            .iter()
            .map(|x| SimulationOutcome {
                amount_in: *x,
                revenue: sandwich_revenue(*x, r_main, r_target, victim_in),
                front_gas_used: 100_000,
                back_gas_used: 110_000,
                front_calldata: vec![],
                back_calldata: vec![],
            })
            .collect();
        state.update(&results);
    }
    state
}

#[test]
fn weth_pair_profitable_buy_is_optimized() {
    // 100 WETH / 100e3 TKN pool; the victim buys with 5 WETH. This exercises
    // the grid search against the gas-free constant-product model above, not
    // an executed chain state, so the optimum it finds is the model's own:
    // on this curve the revenue keeps rising all the way to the ceiling.
    let (r_main, r_target) = (100_000_000_000_000_000_000u128, 100_000_000_000_000_000_000_000u128);
    let victim_in = 5_000_000_000_000_000_000u128;
    // The probe at 0.01 WETH is profitable, so the candidate advances.
    let probe = probe_amount_in(weth());
    assert_eq!(probe, 10_000_000_000_000_000);
    let probe_revenue = sandwich_revenue(probe, r_main, r_target, victim_in);
    assert_eq!(probe_revenue, 957231744676241);
    assert!(probe_passes(probe_revenue));
    // The search settles on the 100 WETH ceiling.
    let state = run_grid(
        r_main,
        r_target,
        victim_in,
        ceiling_amount_in(weth()),
        optimize_tolerance(weth()),
    );
    assert!(state.max_revenue > 0);
    assert_eq!(state.optimized_in, 100_000_000_000_000_000_000);
    assert_eq!(state.max_revenue, 3453756556011247546);
}

#[test]
fn usdc_pair_profit_via_conversion() {
    // 1e6 USDC / 1e3 TKN pool; the victim buys with 10000 USDC.
    let (r_main, r_target) = (1_000_000_000_000u128, 1_000_000_000_000_000_000_000u128);
    let victim_in = 10_000_000_000u128;
    let probe = probe_amount_in(usdc());
    assert_eq!(probe, 10_000_000);
    let probe_revenue = sandwich_revenue(probe, r_main, r_target, victim_in);
    assert_eq!(probe_revenue, 139582);
    assert!(probe_passes(probe_revenue));
    // Reported in WETH through the fixed USDC/WETH conversion pair.
    let conv = (31_000_000_000_000u128, 10_000_000_000_000_000_000_000u128);
    let before = probe - 1;
    let after = before + probe_revenue as u128;
    let weth_gain = sandooo::amm::convert_usdc_to_weth(after, conv)
        - sandooo::amm::convert_usdc_to_weth(before, conv);
    assert_eq!(weth_gain, 44891343181269);
    assert_eq!(ceiling_amount_in(usdc()), 300_000_000_000);
    assert_eq!(optimize_tolerance(usdc()), 1_000);
}

#[test]
fn only_buys_proceed_to_prospecting() {
    assert!(should_prospect(SwapDirection::Buy));
    assert!(!should_prospect(SwapDirection::Sell));
}

#[test]
fn non_profitable_probe_is_dropped() {
    // A 0.001 WETH victim against wide reserves: the probe loses money.
    let (r_main, r_target) = (10_000_000_000_000_000_000_000u128, 10_000_000_000_000_000_000_000_000u128);
    let victim_in = 1_000_000_000_000_000u128;
    let probe_revenue = sandwich_revenue(probe_amount_in(weth()), r_main, r_target, victim_in);
    assert_eq!(probe_revenue, -59907955415867);
    // The candidate is dropped before any optimizer round runs.
    assert!(!probe_passes(probe_revenue));
}

#[test]
fn grid_inputs_are_equally_spaced() {
    let state = OptimizerState::new(1000, 1);
    let inputs = state.grid_inputs();
    assert_eq!(inputs, vec![0, 100, 200, 300, 400, 500, 600, 700, 800, 900, 1000]);
    assert!(!state.done());
    let narrow = OptimizerState::new(9, 1);
    assert!(narrow.done());
}

fn pending(tx_hash: Bytes32) -> NewPendingTx {
    NewPendingTx {
        added_block: None,
        tx: TxData {
            hash: tx_hash,
            from: addr(1),
            to: Some(addr(2)),
            input: vec![],
            value: 0,
            gas: 21000,
            gas_price: Some(100),
            max_fee_per_gas: None,
            transaction_type: Some(0),
        },
    }
}

fn promising_sandwich(tx_hash: Bytes32) -> Sandwich {
    Sandwich {
        amount_in: 1,
        swap_info: SwapInfo {
            tx_hash,
            target_pair: addr(3),
            main_currency: weth(),
            target_token: addr(4),
            version: 2,
            token0_is_main: true,
            direction: SwapDirection::Buy,
        },
        victim_tx: VictimTx {
            tx_hash,
            from: addr(1),
            to: addr(2),
            data: vec![],
            value: 0,
            gas_price: 100,
            gas_limit: None,
        },
        optimized_sandwich: None,
    }
}

#[test]
fn confirmation_reaps_both_tables() {
    let mut state = StrategyState::new();
    let h = hash(42);
    state.record_pending_tx(h, pending(h), vec![promising_sandwich(h).swap_info], 100);
    state.add_promising_sandwich(h, promising_sandwich(h));
    assert!(state.already_received(h));
    // The next block includes the victim: both tables lose the entry.
    state.on_block(101, &vec![h]);
    assert!(!state.already_received(h));
    assert!(!state.has_promising());
}

#[test]
fn stale_pending_txs_are_evicted_after_three_blocks() {
    let mut state = StrategyState::new();
    let h = hash(43);
    state.record_pending_tx(h, pending(h), vec![promising_sandwich(h).swap_info], 100);
    state.on_block(102, &vec![]);
    // Still present two blocks later...
    assert!(state.already_received(h));
    state.on_block(103, &vec![]);
    // ...gone at the third.
    assert!(!state.already_received(h));
}

#[test]
fn receipt_drop_and_gas_admission() {
    let mut state = StrategyState::new();
    let h = hash(44);
    state.record_pending_tx(h, pending(h), vec![], 1);
    state.drop_confirmed(h);
    assert!(!state.already_received(h));
    // Legacy transactions are judged by gas_price, on top of the
    // unseen-and-receiptless guard.
    assert_eq!(victim_gas_decision(Some(0), Some(99), None, 100, true), (false, 99));
    assert_eq!(victim_gas_decision(Some(0), Some(100), None, 100, true), (true, 100));
    // A seen or confirmed transaction is never re-admitted by its fee.
    assert_eq!(victim_gas_decision(Some(0), Some(100), None, 100, false), (false, 100));
    assert_eq!(victim_gas_decision(Some(2), None, Some(150), 100, false), (false, 150));
    // Dynamic-fee transactions are judged by max_fee_per_gas.
    assert_eq!(victim_gas_decision(Some(2), None, Some(150), 100, true), (true, 150));
    assert_eq!(victim_gas_decision(Some(2), None, Some(50), 100, true), (false, 50));
    // Other or absent types are not admitted.
    assert_eq!(victim_gas_decision(Some(1), Some(500), Some(500), 100, true), (false, 0));
    assert_eq!(victim_gas_decision(None, Some(500), Some(500), 100, true), (false, 0));
}

#[test]
fn recent_bundle_ids_dedupe_and_rotate() {
    let mut state = StrategyState::new();
    let first = "0x00000001".to_string();
    assert!(!state.bundle_already_simulated(&first));
    state.record_bundle_id(first.clone());
    assert!(state.bundle_already_simulated(&first));
    // The deque holds thirty ids; the oldest falls out on the thirty-first.
    for i in 2..=31u32 {
        state.record_bundle_id(format!("0x{:08x}", i));
    }
    assert!(!state.bundle_already_simulated(&first));
    assert!(state.bundle_already_simulated(&"0x0000001f".to_string()));
}
