use vstd::prelude::*;

use vstd::string::StringExecFns;

verus! {

/// A 20-byte account address, split into its leading 4 bytes and trailing 16 bytes.
#[derive(Clone, Copy, Debug, Hash, PartialEq, Eq, Structural)]
pub struct Addr {
    pub hi: u32,
    pub lo: u128,
}

/// A 32-byte word (transaction hash, log topic, storage key), split into halves.
#[derive(Clone, Copy, Debug, Hash, PartialEq, Eq, Structural)]
pub struct Bytes32 {
    pub hi: u128,
    pub lo: u128,
}

pub open spec fn weth_addr() -> Addr {
    Addr { hi: 0xC02aaA39, lo: 0xb223FE8D0A0e5C4F27eAD9083C756Cc2 }
}

pub open spec fn usdt_addr() -> Addr {
    Addr { hi: 0xdAC17F95, lo: 0x8D2ee523a2206206994597C13D831ec7 }
}

pub open spec fn usdc_addr() -> Addr {
    Addr { hi: 0xA0b86991, lo: 0xc6218b36c1d19D4a2e9Eb0cE3606eB48 }
}

/// Block builder credited as coinbase in simulated blocks.
pub open spec fn coinbase_addr() -> Addr {
    Addr { hi: 0xDAFEA492, lo: 0xD9c6733ae3d56b7Ed1ADB60692c98Bc5 }
}

/// V2 pair used to price USDT in WETH (token0 = WETH, token1 = USDT).
pub open spec fn usdt_conversion_pair() -> Addr {
    Addr { hi: 0x0d4a11d5, lo: 0xEEaaC28EC3F61d100daF4d40471f1852 }
}

/// V2 pair used to price USDC in WETH (token0 = USDC, token1 = WETH).
pub open spec fn usdc_conversion_pair() -> Addr {
    Addr { hi: 0xB4e16d01, lo: 0x68e52d35CaCD2c6185b44281Ec28C9Dc }
}

pub fn weth() -> (a: Addr)
    ensures
        a == weth_addr(),
{
    Addr { hi: 0xC02aaA39, lo: 0xb223FE8D0A0e5C4F27eAD9083C756Cc2 }
}

pub fn usdt() -> (a: Addr)
    ensures
        a == usdt_addr(),
{
    Addr { hi: 0xdAC17F95, lo: 0x8D2ee523a2206206994597C13D831ec7 }
}

pub fn usdc() -> (a: Addr)
    ensures
        a == usdc_addr(),
{
    Addr { hi: 0xA0b86991, lo: 0xc6218b36c1d19D4a2e9Eb0cE3606eB48 }
}

pub fn coinbase() -> (a: Addr)
    ensures
        a == coinbase_addr(),
{
    Addr { hi: 0xDAFEA492, lo: 0xD9c6733ae3d56b7Ed1ADB60692c98Bc5 }
}

pub fn usdt_weth_pair() -> (a: Addr)
    ensures
        a == usdt_conversion_pair(),
{
    Addr { hi: 0x0d4a11d5, lo: 0xEEaaC28EC3F61d100daF4d40471f1852 }
}

pub fn usdc_weth_pair() -> (a: Addr)
    ensures
        a == usdc_conversion_pair(),
{
    Addr { hi: 0xB4e16d01, lo: 0x68e52d35CaCD2c6185b44281Ec28C9Dc }
}

pub const WETH_BALANCE_SLOT: i32 = 3;

pub const USDT_BALANCE_SLOT: i32 = 2;

pub const USDC_BALANCE_SLOT: i32 = 9;

pub const WETH_DECIMALS: u8 = 18;

pub const USDT_DECIMALS: u8 = 6;

pub const USDC_DECIMALS: u8 = 6;

pub open spec fn spec_is_weth(token: Addr) -> bool {
    token == weth_addr()
}

pub fn is_weth(token_address: Addr) -> (r: bool)
    ensures
        r == spec_is_weth(token_address),
{
    token_address == weth()
}

pub open spec fn spec_is_main_currency(token: Addr) -> bool {
    token == weth_addr() || token == usdt_addr() || token == usdc_addr()
}

pub fn is_main_currency(token_address: Addr) -> (r: bool)
    ensures
        r == spec_is_main_currency(token_address),
{
    token_address == weth() || token_address == usdt() || token_address == usdc()
}

/// Recognized quote currencies; capital is committed on this side of a pair.
#[derive(Clone, Copy, Debug, PartialEq, Eq, Structural)]
pub enum MainCurrency {
    WETH,
    USDT,
    USDC,
    /// Pairs without a recognized quote side are treated as WETH pairs.
    Default,
}

pub open spec fn spec_main_currency(address: Addr) -> MainCurrency {
    if address == weth_addr() {
        MainCurrency::WETH
    } else if address == usdt_addr() {
        MainCurrency::USDT
    } else if address == usdc_addr() {
        MainCurrency::USDC
    } else {
        MainCurrency::Default
    }
}

impl MainCurrency {
    pub fn new(address: Addr) -> (r: Self)
        ensures
            r == spec_main_currency(address),
    {
        if address == weth() {
            MainCurrency::WETH
        } else if address == usdt() {
            MainCurrency::USDT
        } else if address == usdc() {
            MainCurrency::USDC
        } else {
            MainCurrency::Default
        }
    }

    pub open spec fn spec_decimals(self) -> u8 {
        match self {
            MainCurrency::WETH => WETH_DECIMALS,
            MainCurrency::USDT => USDT_DECIMALS,
            MainCurrency::USDC => USDC_DECIMALS,
            MainCurrency::Default => WETH_DECIMALS,
        }
    }

    pub fn decimals(&self) -> (r: u8)
        ensures
            r == self.spec_decimals(),
    {
        match self {
            MainCurrency::WETH => WETH_DECIMALS,
            MainCurrency::USDT => USDT_DECIMALS,
            MainCurrency::USDC => USDC_DECIMALS,
            MainCurrency::Default => WETH_DECIMALS,
        }
    }

    pub open spec fn spec_balance_slot(self) -> i32 {
        match self {
            MainCurrency::WETH => WETH_BALANCE_SLOT,
            MainCurrency::USDT => USDT_BALANCE_SLOT,
            MainCurrency::USDC => USDC_BALANCE_SLOT,
            MainCurrency::Default => WETH_BALANCE_SLOT,
        }
    }

    /// Storage slot holding the `balanceOf` mapping of the currency's contract.
    pub fn balance_slot(&self) -> (r: i32)
        ensures
            r == self.spec_balance_slot(),
    {
        match self {
            MainCurrency::WETH => WETH_BALANCE_SLOT,
            MainCurrency::USDT => USDT_BALANCE_SLOT,
            MainCurrency::USDC => USDC_BALANCE_SLOT,
            MainCurrency::Default => WETH_BALANCE_SLOT,
        }
    }

    pub open spec fn spec_weight(self) -> u8 {
        match self {
            MainCurrency::WETH => 3,
            MainCurrency::USDT => 2,
            MainCurrency::USDC => 1,
            MainCurrency::Default => 3,
        }
    }

    /// Currencies ranked by importance: WETH above USDT above USDC.
    pub fn weight(&self) -> (r: u8)
        ensures
            r == self.spec_weight(),
    {
        match self {
            MainCurrency::WETH => 3,
            MainCurrency::USDT => 2,
            MainCurrency::USDC => 1,
            MainCurrency::Default => 3,
        }
    }
}

pub open spec fn spec_return_main_and_target(token0: Addr, token1: Addr) -> Option<(Addr, Addr)> {
    let token0_supported = spec_is_main_currency(token0);
    let token1_supported = spec_is_main_currency(token1);
    if !token0_supported && !token1_supported {
        None
    } else if token0_supported && token1_supported {
        if spec_main_currency(token0).spec_weight() > spec_main_currency(token1).spec_weight() {
            Some((token0, token1))
        } else {
            Some((token1, token0))
        }
    } else if token0_supported {
        Some((token0, token1))
    } else {
        Some((token1, token0))
    }
}

/// Orders a pair's sides into (main currency, target token), or None when
/// neither side is a recognized quote currency.
pub fn return_main_and_target_currency(token0: Addr, token1: Addr) -> (r: Option<(Addr, Addr)>)
    ensures
        r == spec_return_main_and_target(token0, token1),
{
    let token0_supported = is_main_currency(token0);
    let token1_supported = is_main_currency(token1);

    if !token0_supported && !token1_supported {
        return None;
    }
    if token0_supported && token1_supported {
        let mc0 = MainCurrency::new(token0);
        let mc1 = MainCurrency::new(token1);
        let token0_weight = mc0.weight();
        let token1_weight = mc1.weight();
        if token0_weight > token1_weight {
            return Some((token0, token1));
        } else {
            return Some((token1, token0));
        }
    }
    if token0_supported {
        Some((token0, token1))
    } else {
        Some((token1, token0))
    }
}

/// What parsing a boolean flag yields: exactly "true" or "false".
pub open spec fn spec_parse_bool(s: Seq<char>) -> Option<bool> {
    if s == seq!['t', 'r', 'u', 'e'] {
        Some(true)
    } else if s == seq!['f', 'a', 'l', 's', 'e'] {
        Some(false)
    } else {
        None
    }
}

pub fn parse_bool(s: &String) -> (r: Option<bool>)
    ensures
        r == spec_parse_bool(s@),
{
    proof {
        reveal_strlit("true");
        reveal_strlit("false");
        assert("true"@ =~= seq!['t', 'r', 'u', 'e']);
        assert("false"@ =~= seq!['f', 'a', 'l', 's', 'e']);
    }
    if *s == String::from_str("true") {
        Some(true)
    } else if *s == String::from_str("false") {
        Some(false)
    } else {
        proof {
            assert(s@ != seq!['t', 'r', 'u', 'e']);
            assert(s@ != seq!['f', 'a', 'l', 's', 'e']);
        }
        None
    }
}

/// The raw text of the configuration variables, as read from the environment.
pub struct RawEnv {
    pub https_url: String,
    pub wss_url: String,
    pub bot_address: String,
    pub private_key: String,
    pub identity_key: String,
    pub telegram_token: String,
    pub telegram_chat_id: String,
    pub use_alert: String,
    pub debug: String,
}

/// The engine's configuration; the two flags are parsed booleans.
pub struct Env {
    pub https_url: String,
    pub wss_url: String,
    pub bot_address: String,
    pub private_key: String,
    pub identity_key: String,
    pub telegram_token: String,
    pub telegram_chat_id: String,
    pub use_alert: bool,
    pub debug: bool,
}

impl Env {
    /// Builds the configuration from raw variable text; the boolean flags
    /// must read exactly "true" or "false".
    pub fn new(raw: RawEnv) -> (r: Env)
        requires
            spec_parse_bool(raw.use_alert@) is Some,
            spec_parse_bool(raw.debug@) is Some,
        ensures
            r.https_url == raw.https_url,
            r.wss_url == raw.wss_url,
            r.bot_address == raw.bot_address,
            r.private_key == raw.private_key,
            r.identity_key == raw.identity_key,
            r.telegram_token == raw.telegram_token,
            r.telegram_chat_id == raw.telegram_chat_id,
            Some(r.use_alert) == spec_parse_bool(raw.use_alert@),
            Some(r.debug) == spec_parse_bool(raw.debug@),
    {
        let use_alert = match parse_bool(&raw.use_alert) {
            Some(b) => b,
            None => false,
        };
        let debug = match parse_bool(&raw.debug) {
            Some(b) => b,
            None => false,
        };
        Env {
            https_url: raw.https_url,
            wss_url: raw.wss_url,
            bot_address: raw.bot_address,
            private_key: raw.private_key,
            identity_key: raw.identity_key,
            telegram_token: raw.telegram_token,
            telegram_chat_id: raw.telegram_chat_id,
            use_alert,
            debug,
        }
    }
}

} // verus!
