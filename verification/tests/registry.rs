use sandooo::encode::addr_hex;
use sandooo::extractor::{extract_logs, extract_swap_info, LogFrame, LogRecord};
use sandooo::maps::AddrMap;
use sandooo::pools::{
    assign_pool_ids, attach_pool_ids, block_ranges, parse_i64, parse_u64, to_h160, DexVariant,
    Pool, Token,
};
use sandooo::sandwich::{SwapDirection, Tx, VictimTx, V2_SWAP_EVENT_ID};
use sandooo::types::{
    is_main_currency, is_weth, return_main_and_target_currency, usdc, usdt, weth, Addr, Bytes32,
    Env, MainCurrency, RawEnv,
};

fn addr(n: u32) -> Addr {
    Addr { hi: n, lo: n as u128 }
}

fn pool(id: i64, address: Addr, token0: Addr, token1: Addr, block_number: u64) -> Pool {
    Pool {
        id,
        address,
        version: DexVariant::UniswapV2,
        token0,
        token1,
        fee: 300,
        block_number,
        timestamp: 0,
    }
}

#[test]
fn currency_helpers_match_constants() {
    assert!(is_weth(weth()));
    assert!(!is_weth(usdt()));
    assert!(is_main_currency(usdc()));
    assert!(!is_main_currency(addr(5)));
    assert_eq!(MainCurrency::new(weth()).decimals(), 18);
    assert_eq!(MainCurrency::new(usdt()).decimals(), 6);
    assert_eq!(MainCurrency::new(weth()).balance_slot(), 3);
    assert_eq!(MainCurrency::new(usdt()).balance_slot(), 2);
    assert_eq!(MainCurrency::new(usdc()).balance_slot(), 9);
    assert_eq!(MainCurrency::new(addr(5)).weight(), 3);
    // WETH outranks USDT, USDT outranks USDC.
    assert_eq!(return_main_and_target_currency(usdt(), weth()), Some((weth(), usdt())));
    assert_eq!(return_main_and_target_currency(usdc(), usdt()), Some((usdt(), usdc())));
    assert_eq!(return_main_and_target_currency(addr(5), usdc()), Some((usdc(), addr(5))));
    assert_eq!(return_main_and_target_currency(addr(5), addr(6)), None);
}

#[test]
fn addr_hex_renders_checksummed_constants_lowercase() {
    assert_eq!(addr_hex(weth()), "0xc02aaa39b223fe8d0a0e5c4f27ead9083c756cc2");
    assert_eq!(
        addr_hex(sandooo::types::usdt_weth_pair()),
        "0x0d4a11d5eeaac28ec3f61d100daf4d40471f1852"
    );
}

#[test]
fn address_parsing_round_trips() {
    let a = weth();
    assert_eq!(to_h160(&addr_hex(a)), Some(a));
    // Mixed case is accepted, as on chain explorers.
    assert_eq!(to_h160(&"0xC02aaA39b223FE8D0A0e5C4F27eAD9083C756Cc2".to_string()), Some(weth()));
    assert_eq!(to_h160(&"0xc02aaa39".to_string()), None);
    assert_eq!(to_h160(&"c02aaa39b223fe8d0a0e5c4f27ead9083c756cc2xx".to_string()), None);
    assert_eq!(to_h160(&"0xg02aaa39b223fe8d0a0e5c4f27ead9083c756cc2".to_string()), None);
}

#[test]
fn decimal_parsing_is_exact() {
    assert_eq!(parse_u64(&"0".to_string()), Some(0));
    assert_eq!(parse_u64(&"18446744073709551615".to_string()), Some(u64::MAX));
    assert_eq!(parse_u64(&"18446744073709551616".to_string()), None);
    assert_eq!(parse_u64(&"".to_string()), None);
    assert_eq!(parse_u64(&"12a".to_string()), None);
    assert_eq!(parse_i64(&"-1".to_string()), Some(-1));
    assert_eq!(parse_i64(&"9223372036854775807".to_string()), Some(i64::MAX));
    assert_eq!(parse_i64(&"-9223372036854775808".to_string()), Some(i64::MIN));
    assert_eq!(parse_i64(&"-".to_string()), None);
}

#[test]
fn pool_rows_round_trip() {
    let p = pool(7, weth(), usdt(), addr(9), 12345);
    let row = p.cache_row();
    assert_eq!(row.0, 7);
    assert_eq!(row.2, 2);
    let record = vec![
        "7".to_string(),
        row.1.clone(),
        "2".to_string(),
        row.3.clone(),
        row.4.clone(),
        "300".to_string(),
        "12345".to_string(),
        "0".to_string(),
    ];
    let parsed = Pool::from_record(&record).expect("row parses");
    assert_eq!(parsed, p);
    assert!(Pool::from_record(&vec!["1".to_string()]).is_none());
    let mut bad = record.clone();
    bad[1] = "not-an-address".to_string();
    assert!(Pool::from_record(&bad).is_none());
    assert!(p.trades(usdt(), addr(9)));
    assert!(p.trades(addr(9), usdt()));
    assert!(!p.trades(usdt(), addr(10)));
}

#[test]
fn token_rows_parse() {
    let record = vec![
        "3".to_string(),
        addr_hex(usdc()),
        "USD Coin".to_string(),
        "USDC".to_string(),
        "6".to_string(),
    ];
    let t = Token::from_record(&record).expect("token parses");
    assert_eq!(t.id, 3);
    assert_eq!(t.address, usdc());
    assert_eq!(t.decimals, 6);
    assert!(t.pool_ids.is_empty());
    let row = t.cache_row();
    assert_eq!(row.2, "USD Coin");
    assert_eq!(row.4, 6);
    assert!(Token::from_record(&vec![]).is_none());
    // Each malformed column is rejected: short row, bad id, bad address,
    // decimals out of the u8 range.
    let mut bad = record.clone();
    bad[0] = "x".to_string();
    assert!(Token::from_record(&bad).is_none());
    let mut bad = record.clone();
    bad[1] = "nope".to_string();
    assert!(Token::from_record(&bad).is_none());
    let mut bad = record.clone();
    bad[4] = "256".to_string();
    assert!(Token::from_record(&bad).is_none());
}

#[test]
fn new_pools_get_consecutive_ids() {
    let a = pool(-1, addr(1), addr(2), addr(3), 10);
    let b = pool(4, addr(4), addr(5), addr(6), 11);
    let c = pool(-1, addr(7), addr(8), addr(9), 12);
    let mut pools = vec![a, b, c];
    let added = assign_pool_ids(&mut pools, 4);
    assert_eq!(pools[0].id, 5);
    assert_eq!(pools[1].id, 4);
    assert_eq!(pools[2].id, 6);
    assert_eq!(added, 2);
}

#[test]
fn block_ranges_cover_the_scan() {
    assert_eq!(block_ranges(100, 149, 25), vec![(100, 124), (125, 149), (150, 149)]);
    assert_eq!(block_ranges(100, 160, 25), vec![(100, 124), (125, 149), (150, 160)]);
    assert_eq!(block_ranges(100, 90, 25), vec![(100, 90)]);
}

#[test]
fn call_tree_logs_flatten_depth_first() {
    let leaf = |tag: u32| LogRecord {
        address: Some(addr(tag)),
        topics: Some(vec![Bytes32 { hi: tag as u128, lo: 0 }]),
        data: Some(vec![tag as u8]),
    };
    let frame = LogFrame {
        logs: Some(vec![leaf(1)]),
        calls: Some(vec![
            LogFrame { logs: Some(vec![leaf(2), leaf(3)]), calls: None },
            LogFrame {
                logs: None,
                calls: Some(vec![LogFrame { logs: Some(vec![leaf(4)]), calls: None }]),
            },
        ]),
    };
    let mut logs = Vec::new();
    extract_logs(&frame, &mut logs);
    let order: Vec<Option<Addr>> = logs.iter().map(|l| l.address).collect();
    assert_eq!(order, vec![Some(addr(1)), Some(addr(2)), Some(addr(3)), Some(addr(4))]);
}

fn swap_topic() -> Bytes32 {
    Bytes32 { hi: (V2_SWAP_EVENT_ID as u128) << 96, lo: 0 }
}

fn swap_data(in0: u8, out1: u8) -> Vec<u8> {
    let mut data = vec![0u8; 128];
    data[31] = in0;
    data[127] = out1;
    data
}

#[test]
fn swap_logs_classify_buy_and_sell() {
    let pair = addr(50);
    let tkn = addr(51);
    let mut pools: AddrMap<Pool> = AddrMap::new();
    pools.insert(pair, pool(1, pair, weth(), tkn, 5));
    let tx = Bytes32 { hi: 77 << 96, lo: 0 };
    let logs = vec![
        // token0 (WETH) in, token1 out: a buy of the target token.
        LogRecord {
            address: Some(pair),
            topics: Some(vec![swap_topic(), Bytes32 { hi: 0, lo: 0 }]),
            data: Some(swap_data(1, 1)),
        },
        // token1 in, token0 out: a sell.
        LogRecord {
            address: Some(pair),
            topics: Some(vec![swap_topic(), Bytes32 { hi: 0, lo: 0 }]),
            data: Some(swap_data(0, 0)),
        },
        // An unknown pool is skipped.
        LogRecord {
            address: Some(addr(99)),
            topics: Some(vec![swap_topic(), Bytes32 { hi: 0, lo: 0 }]),
            data: Some(swap_data(1, 1)),
        },
        // A single topic is not a swap.
        LogRecord { address: Some(pair), topics: Some(vec![swap_topic()]), data: None },
        LogRecord { address: Some(pair), topics: None, data: None },
    ];
    let infos = extract_swap_info(tx, &logs, &pools);
    assert_eq!(infos.len(), 2);
    assert_eq!(infos[0].direction, SwapDirection::Buy);
    assert_eq!(infos[0].main_currency, weth());
    assert_eq!(infos[0].target_token, tkn);
    assert_eq!(infos[0].target_pair, pair);
    assert_eq!(infos[0].version, 2);
    assert!(infos[0].token0_is_main);
    assert_eq!(infos[1].direction, SwapDirection::Sell);
    // Undecodable logs are not recognized swaps: truncated data, missing
    // data, and a missing emitting address are all skipped silently.
    let undecodable = vec![
        LogRecord {
            address: Some(pair),
            topics: Some(vec![swap_topic(), Bytes32 { hi: 0, lo: 0 }]),
            data: Some(vec![1u8; 64]),
        },
        LogRecord {
            address: Some(pair),
            topics: Some(vec![swap_topic(), Bytes32 { hi: 0, lo: 0 }]),
            data: None,
        },
        LogRecord {
            address: None,
            topics: Some(vec![swap_topic(), Bytes32 { hi: 0, lo: 0 }]),
            data: Some(swap_data(1, 1)),
        },
    ];
    assert!(extract_swap_info(tx, &undecodable, &pools).is_empty());
}

#[test]
fn victim_tx_defaults_gas_limit() {
    let v = VictimTx {
        tx_hash: Bytes32 { hi: 1, lo: 2 },
        from: addr(1),
        to: addr(2),
        data: vec![9],
        value: 3,
        gas_price: 4,
        gas_limit: None,
    };
    let t = Tx::from(v);
    assert_eq!(t.gas_limit, 5_000_000);
    assert_eq!(t.caller, addr(1));
    assert_eq!(t.transact_to, addr(2));
    assert_eq!(t.data, vec![9]);
}

#[test]
fn env_parses_flags() {
    let raw = RawEnv {
        https_url: "https://example.invalid".to_string(),
        wss_url: "wss://example.invalid".to_string(),
        bot_address: addr_hex(addr(1)),
        private_key: "SECRET-REDACTED".to_string(),
        identity_key: "SECRET-REDACTED".to_string(),
        telegram_token: "SECRET-REDACTED".to_string(),
        telegram_chat_id: "123".to_string(),
        use_alert: "false".to_string(),
        debug: "true".to_string(),
    };
    let env = Env::new(raw);
    assert!(!env.use_alert);
    assert!(env.debug);
    assert_eq!(env.telegram_chat_id, "123");
}

#[test]
fn addr_maps_behave_like_maps() {
    let mut m: AddrMap<u128> = AddrMap::new();
    assert!(m.get(addr(1)).is_none());
    m.insert(addr(1), 10);
    m.insert(addr(2), 20);
    m.insert(addr(1), 30);
    assert_eq!(m.get(addr(1)), Some(&30));
    assert_eq!(m.get(addr(2)), Some(&20));
    assert!(m.contains_key(addr(2)));
    m.remove(addr(2));
    assert!(!m.contains_key(addr(2)));
    assert_eq!(m.get(addr(1)), Some(&30));
}

#[test]
fn pool_ids_backfill_tokens() {
    let t = |address: Addr| Token {
        id: 0,
        address,
        name: String::new(),
        symbol: String::new(),
        decimals: 18,
        pool_ids: vec![],
    };
    let mut tokens = vec![t(addr(1)), t(addr(2)), t(addr(3))];
    let pools = vec![
        pool(10, addr(100), addr(1), addr(2), 1),
        pool(11, addr(101), addr(2), addr(3), 2),
        // A degenerate pool pairing a token with itself lists it twice.
        pool(12, addr(102), addr(1), addr(1), 3),
    ];
    attach_pool_ids(&mut tokens, &pools);
    assert_eq!(tokens[0].pool_ids, vec![10, 12, 12]);
    assert_eq!(tokens[1].pool_ids, vec![10, 11]);
    assert_eq!(tokens[2].pool_ids, vec![11]);
}

#[test]
fn pool_description_renders() {
    let p = pool(1, addr(0xAB), weth(), addr(0xCD), 1);
    let msg = p.pretty_msg();
    assert!(msg.starts_with("[UniswapV2] 0x000000ab"));
    assert!(msg.contains(": 0xc02aaa39"));
    assert!(msg.contains(" --> 0x000000cd"));
}
