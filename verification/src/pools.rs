use vstd::prelude::*;

use vstd::string::{StrSliceExecFns, StringExecFns};

use crate::encode::{addr_hex, spec_addr_hex};
use crate::types::Addr;

verus! {

/// The AMM family of a pool; only the constant-product variant exists here.
#[derive(Clone, Copy, Debug, PartialEq, Eq, Structural)]
pub enum DexVariant {
    UniswapV2,
}

impl DexVariant {
    pub fn num(&self) -> (r: u8)
        ensures
            r == 2,
    {
        match self {
            DexVariant::UniswapV2 => 2,
        }
    }
}

/// A V2 pair: its address, its two tokens, and its discovery coordinates.
#[derive(Clone, Copy, Debug, PartialEq, Eq, Structural)]
pub struct Pool {
    pub id: i64,
    pub address: Addr,
    pub version: DexVariant,
    pub token0: Addr,
    pub token1: Addr,
    pub fee: u32,
    pub block_number: u64,
    pub timestamp: u64,
}

impl Pool {
    /// Whether the pool trades exactly this unordered token pair.
    pub fn trades(&self, token_a: Addr, token_b: Addr) -> (r: bool)
        ensures
            r == ((self.token0 == token_a && self.token1 == token_b) || (self.token1 == token_a
                && self.token0 == token_b)),
    {
        let is_zero_for_one = self.token0 == token_a && self.token1 == token_b;
        let is_one_for_zero = self.token1 == token_a && self.token0 == token_b;
        is_zero_for_one || is_one_for_zero
    }

    /// The pool's one-line description.
    pub fn pretty_msg(&self) -> (r: String)
        ensures
            r@ == seq!['[', 'U', 'n', 'i', 's', 'w', 'a', 'p', 'V', '2', ']', ' ']
                + spec_addr_hex(self.address) + seq![':', ' '] + spec_addr_hex(self.token0) + seq![
                ' ',
                '-',
                '-',
                '>',
                ' ',
            ] + spec_addr_hex(self.token1),
    {
        let mut s = String::new();
        proof {
            reveal_strlit("[UniswapV2] ");
            reveal_strlit(": ");
            reveal_strlit(" --> ");
        }
        s.append("[UniswapV2] ");
        let address = addr_hex(self.address);
        s.append(address.as_str());
        s.append(": ");
        let token0 = addr_hex(self.token0);
        s.append(token0.as_str());
        s.append(" --> ");
        let token1 = addr_hex(self.token1);
        s.append(token1.as_str());
        proof {
            assert(s@ =~= seq!['[', 'U', 'n', 'i', 's', 'w', 'a', 'p', 'V', '2', ']', ' ']
                + spec_addr_hex(self.address) + seq![':', ' '] + spec_addr_hex(self.token0) + seq![
                ' ',
                '-',
                '-',
                '>',
                ' ',
            ] + spec_addr_hex(self.token1));
        }
        s
    }

    /// The row persisted to the pool cache.
    pub fn cache_row(&self) -> (r: (i64, String, i32, String, String, u32, u64, u64))
        ensures
            r.0 == self.id,
            r.1@ == spec_addr_hex(self.address),
            r.2 == 2,
            r.3@ == spec_addr_hex(self.token0),
            r.4@ == spec_addr_hex(self.token1),
            r.5 == self.fee,
            r.6 == self.block_number,
            r.7 == self.timestamp,
    {
        (
            self.id,
            addr_hex(self.address),
            self.version.num() as i32,
            addr_hex(self.token0),
            addr_hex(self.token1),
            self.fee,
            self.block_number,
            self.timestamp,
        )
    }
}

pub open spec fn is_dec_digit(c: char) -> bool {
    '0' <= c && c <= '9'
}

pub open spec fn dec_digit_val(c: char) -> nat {
    (c as nat - '0' as nat) as nat
}

/// The decimal value of a digit string.
pub open spec fn dec_val(s: Seq<char>) -> nat
    decreases s.len(),
{
    if s.len() == 0 {
        0
    } else {
        dec_val(s.drop_last()) * 10 + dec_digit_val(s.last())
    }
}

pub open spec fn all_dec_digits(s: Seq<char>) -> bool {
    forall|i: int| 0 <= i < s.len() ==> is_dec_digit(#[trigger] s[i])
}

/// What parsing a decimal u64 yields: the value of a nonempty digit string
/// that fits, nothing otherwise.
pub open spec fn spec_parse_u64(s: Seq<char>) -> Option<u64> {
    if s.len() > 0 && all_dec_digits(s) && dec_val(s) <= u64::MAX {
        Some(dec_val(s) as u64)
    } else {
        None
    }
}

proof fn lemma_dec_val_step_le(s: Seq<char>, i: int)
    requires
        0 <= i < s.len(),
    ensures
        dec_val(s.subrange(0, i)) <= dec_val(s.subrange(0, i + 1)),
{
    let pre = s.subrange(0, i);
    let post = s.subrange(0, i + 1);
    assert(post.drop_last() =~= pre);
    assert(dec_val(post) == dec_val(pre) * 10 + dec_digit_val(post.last()));
    assert(dec_val(pre) <= dec_val(pre) * 10) by (nonlinear_arith)
        requires
            dec_val(pre) >= 0,
    ;
}

proof fn lemma_dec_val_prefix_le(s: Seq<char>, i: int)
    requires
        0 <= i <= s.len(),
    ensures
        dec_val(s.subrange(0, i)) <= dec_val(s),
    decreases s.len() - i,
{
    if i == s.len() {
        assert(s.subrange(0, i) =~= s);
    } else {
        lemma_dec_val_step_le(s, i);
        lemma_dec_val_prefix_le(s, i + 1);
    }
}

/// Parses a nonempty decimal digit string into a u64.
pub fn parse_u64(s: &String) -> (r: Option<u64>)
    ensures
        r == spec_parse_u64(s@),
{
    let str_s = s.as_str();
    let n = str_s.unicode_len();
    if n == 0 {
        return None;
    }
    let mut acc: u128 = 0;
    let mut i: usize = 0;
    proof {
        assert(s@.subrange(0, 0) =~= Seq::<char>::empty());
    }
    while i < n
        invariant
            n == s@.len(),
            str_s@ == s@,
            i <= n,
            acc == dec_val(s@.subrange(0, i as int)),
            acc <= u64::MAX,
            forall|k: int| 0 <= k < i ==> is_dec_digit(#[trigger] s@[k]),
        decreases n - i,
    {
        let c = str_s.get_char(i);
        if !('0' <= c && c <= '9') {
            return None;
        }
        let d: u128 = (c as u32 - 48) as u128;
        proof {
            assert(s@.subrange(0, i as int + 1).drop_last() =~= s@.subrange(0, i as int));
            assert(d == dec_digit_val(s@[i as int]));
        }
        let next: u128 = acc * 10 + d;
        if next > 0xFFFF_FFFF_FFFF_FFFF {
            proof {
                lemma_dec_val_prefix_le(s@, i as int + 1);
            }
            return None;
        }
        acc = next;
        i = i + 1;
    }
    proof {
        assert(s@.subrange(0, n as int) =~= s@);
    }
    Some(acc as u64)
}

/// What parsing a decimal i64 yields: an optional leading minus before a
/// digit string whose magnitude fits.
pub open spec fn spec_parse_i64(s: Seq<char>) -> Option<i64> {
    if s.len() > 0 && s[0] == '-' {
        let mag = s.skip(1);
        if mag.len() > 0 && all_dec_digits(mag) && dec_val(mag) <= 0x8000000000000000 {
            Some((-(dec_val(mag) as int)) as i64)
        } else {
            None
        }
    } else if s.len() > 0 && all_dec_digits(s) && dec_val(s) <= i64::MAX {
        Some(dec_val(s) as i64)
    } else {
        None
    }
}

pub fn parse_i64(s: &String) -> (r: Option<i64>)
    ensures
        r == spec_parse_i64(s@),
{
    let str_s = s.as_str();
    let n = str_s.unicode_len();
    if n == 0 {
        return None;
    }
    let c0 = str_s.get_char(0);
    if c0 == '-' {
        let rest = str_s.substring_char(1, n);
        let rest_string = rest.to_string();
        proof {
            assert(rest_string@ =~= s@.skip(1));
        }
        match parse_u64(&rest_string) {
            Some(v) => {
                if v <= 0x8000_0000_0000_0000 {
                    if v == 0x8000_0000_0000_0000 {
                        Some(i64::MIN)
                    } else {
                        Some(-(v as i64))
                    }
                } else {
                    None
                }
            },
            None => {
                if rest_string.as_str().unicode_len() > 0 {
                    // A digit string too large for u64 is too large for i64 too.
                    proof {
                        if all_dec_digits(s@.skip(1)) {
                            assert(dec_val(s@.skip(1)) > u64::MAX);
                        }
                    }
                    None
                } else {
                    None
                }
            },
        }
    } else {
        match parse_u64(s) {
            Some(v) => {
                if v <= 0x7FFF_FFFF_FFFF_FFFF {
                    Some(v as i64)
                } else {
                    None
                }
            },
            None => None,
        }
    }
}

pub open spec fn is_hex_digit(c: char) -> bool {
    ('0' <= c && c <= '9') || ('a' <= c && c <= 'f') || ('A' <= c && c <= 'F')
}

pub open spec fn hex_digit_val(c: char) -> nat {
    if '0' <= c && c <= '9' {
        (c as nat - '0' as nat) as nat
    } else if 'a' <= c && c <= 'f' {
        (c as nat - 'a' as nat + 10) as nat
    } else {
        (c as nat - 'A' as nat + 10) as nat
    }
}

pub open spec fn hex_val(s: Seq<char>) -> nat
    decreases s.len(),
{
    if s.len() == 0 {
        0
    } else {
        hex_val(s.drop_last()) * 16 + hex_digit_val(s.last())
    }
}

pub open spec fn all_hex_digits(s: Seq<char>) -> bool {
    forall|i: int| 0 <= i < s.len() ==> is_hex_digit(#[trigger] s[i])
}

/// What parsing a 20-byte hex address yields: "0x" followed by 40 hex digits.
pub open spec fn spec_parse_addr(s: Seq<char>) -> Option<Addr> {
    if s.len() == 42 && s[0] == '0' && s[1] == 'x' && all_hex_digits(s.skip(2)) {
        Some(
            Addr {
                hi: hex_val(s.subrange(2, 10)) as u32,
                lo: hex_val(s.subrange(10, 42)) as u128,
            },
        )
    } else {
        None
    }
}

proof fn lemma_hex_val_bound(s: Seq<char>)
    requires
        all_hex_digits(s),
    ensures
        hex_val(s) < crate::encode::pow16(s.len()),
    decreases s.len(),
{
    if s.len() > 0 {
        assert(all_hex_digits(s.drop_last())) by {
            assert(forall|i: int|
                0 <= i < s.len() - 1 ==> s.drop_last()[i] == #[trigger] s[i]);
        }
        lemma_hex_val_bound(s.drop_last());
        assert(is_hex_digit(s.last()));
        assert(hex_digit_val(s.last()) < 16);
    }
}

fn hex_char_val(c: char) -> (r: Option<u32>)
    ensures
        match r {
            Some(v) => is_hex_digit(c) && v == hex_digit_val(c),
            None => !is_hex_digit(c),
        },
{
    if '0' <= c && c <= '9' {
        Some(c as u32 - 48)
    } else if 'a' <= c && c <= 'f' {
        Some(c as u32 - 97 + 10)
    } else if 'A' <= c && c <= 'F' {
        Some(c as u32 - 65 + 10)
    } else {
        None
    }
}

fn parse_hex_span(str_s: &str, from: usize, to: usize) -> (r: Option<u128>)
    requires
        from <= to <= str_s@.len(),
        to - from <= 32,
    ensures
        match r {
            Some(v) => all_hex_digits(str_s@.subrange(from as int, to as int)) && v == hex_val(
                str_s@.subrange(from as int, to as int),
            ),
            None => !all_hex_digits(str_s@.subrange(from as int, to as int)),
        },
{
    let ghost span = str_s@.subrange(from as int, to as int);
    let mut acc: u128 = 0;
    let mut i: usize = from;
    proof {
        assert(str_s@.subrange(from as int, from as int) =~= Seq::<char>::empty());
        crate::encode::lemma_pow16_values();
    }
    while i < to
        invariant
            from <= i <= to <= str_s@.len(),
            to - from <= 32,
            span == str_s@.subrange(from as int, to as int),
            acc == hex_val(str_s@.subrange(from as int, i as int)),
            all_hex_digits(str_s@.subrange(from as int, i as int)),
            acc < crate::encode::pow16((i - from) as nat),
        decreases to - i,
    {
        let c = str_s.get_char(i);
        let d = match hex_char_val(c) {
            Some(d) => d,
            None => {
                proof {
                    assert(span[i as int - from as int] == str_s@[i as int]);
                }
                return None;
            },
        };
        proof {
            assert(str_s@.subrange(from as int, i as int + 1).drop_last() =~= str_s@.subrange(
                from as int,
                i as int,
            ));
            assert(str_s@.subrange(from as int, i as int + 1).last() == str_s@[i as int]);
            crate::encode::lemma_pow16_values();
            lemma_pow16_le((i - from) as nat + 1, 32);
        }
        acc = acc * 16 + (d as u128);
        i = i + 1;
    }
    proof {
        lemma_hex_val_bound(span);
    }
    Some(acc)
}

proof fn lemma_pow16_le(a: nat, b: nat)
    requires
        a <= b,
    ensures
        crate::encode::pow16(a) <= crate::encode::pow16(b),
    decreases b,
{
    if a < b && b > 0 {
        lemma_pow16_le(a, (b - 1) as nat);
        assert(crate::encode::pow16((b - 1) as nat) <= 16 * crate::encode::pow16((b - 1) as nat))
            by (nonlinear_arith)
            requires
                crate::encode::pow16((b - 1) as nat) >= 0,
        ;
    }
}

/// Parses a "0x"-prefixed 40-digit hex address.
pub fn to_h160(s: &String) -> (r: Option<Addr>)
    ensures
        r == spec_parse_addr(s@),
{
    let str_s = s.as_str();
    let n = str_s.unicode_len();
    if n != 42 {
        return None;
    }
    if !(str_s.get_char(0) == '0' && str_s.get_char(1) == 'x') {
        return None;
    }
    let hi = parse_hex_span(str_s, 2, 10);
    let lo = parse_hex_span(str_s, 10, 42);
    match (hi, lo) {
        (Some(hi), Some(lo)) => {
            proof {
                lemma_hex_val_bound(s@.subrange(2, 10));
                crate::encode::lemma_pow16_values();
                lemma_pow16_le(8, 32);
                assert(all_hex_digits(s@.skip(2))) by {
                    assert(forall|i: int|
                        0 <= i < 8 ==> s@.skip(2)[i] == #[trigger] s@.subrange(2, 10)[i]);
                    assert(forall|i: int|
                        8 <= i < 40 ==> s@.skip(2)[i] == #[trigger] s@.subrange(10, 42)[i - 8]);
                    assert forall|i: int| 0 <= i < s@.skip(2).len() implies is_hex_digit(
                        #[trigger] s@.skip(2)[i],
                    ) by {
                        if i < 8 {
                            assert(s@.subrange(2, 10)[i] == s@.skip(2)[i]);
                        } else {
                            assert(s@.subrange(10, 42)[i - 8] == s@.skip(2)[i]);
                        }
                    }
                }
                assert(hex_val(s@.subrange(2, 10)) < 0x100000000);
            }
            Some(Addr { hi: hi as u32, lo })
        },
        _ => {
            proof {
                if all_hex_digits(s@.skip(2)) {
                    assert forall|i: int| 0 <= i < 8 implies is_hex_digit(
                        #[trigger] s@.subrange(2, 10)[i],
                    ) by {
                        assert(s@.subrange(2, 10)[i] == s@.skip(2)[i]);
                    }
                    assert forall|i: int| 0 <= i < 32 implies is_hex_digit(
                        #[trigger] s@.subrange(10, 42)[i],
                    ) by {
                        assert(s@.subrange(10, 42)[i] == s@.skip(2)[i + 8]);
                    }
                }
            }
            None
        },
    }
}

/// What building a pool from a cache row yields. The variant column accepts
/// any number (everything maps to the V2 variant).
pub open spec fn spec_pool_from_record(r: Seq<Seq<char>>) -> Option<Pool> {
    if r.len() < 8 {
        None
    } else {
        let id = spec_parse_i64(r[0]);
        let address = spec_parse_addr(r[1]);
        let version = spec_parse_u64(r[2]);
        let token0 = spec_parse_addr(r[3]);
        let token1 = spec_parse_addr(r[4]);
        let fee = spec_parse_u64(r[5]);
        let block_number = spec_parse_u64(r[6]);
        let timestamp = spec_parse_u64(r[7]);
        if id is Some && address is Some && version is Some && token0 is Some && token1 is Some
            && fee is Some && fee.unwrap() <= u32::MAX && block_number is Some && timestamp is Some {
            Some(
                Pool {
                    id: id.unwrap(),
                    address: address.unwrap(),
                    version: DexVariant::UniswapV2,
                    token0: token0.unwrap(),
                    token1: token1.unwrap(),
                    fee: fee.unwrap() as u32,
                    block_number: block_number.unwrap(),
                    timestamp: timestamp.unwrap(),
                },
            )
        } else {
            None
        }
    }
}

impl Pool {
    /// Builds a pool from one cache row of decimal and hex columns.
    pub fn from_record(record: &Vec<String>) -> (r: Option<Pool>)
        ensures
            r == spec_pool_from_record(Seq::new(record@.len(), |i: int| record@[i]@)),
    {
        let ghost cols = Seq::new(record@.len(), |i: int| record@[i]@);
        if record.len() < 8 {
            return None;
        }
        let id = parse_i64(&record[0]);
        let address = to_h160(&record[1]);
        let version = parse_u64(&record[2]);
        let token0 = to_h160(&record[3]);
        let token1 = to_h160(&record[4]);
        let fee = parse_u64(&record[5]);
        let block_number = parse_u64(&record[6]);
        let timestamp = parse_u64(&record[7]);
        match (id, address, version, token0, token1, fee, block_number, timestamp) {
            (
                Some(id),
                Some(address),
                Some(_version),
                Some(token0),
                Some(token1),
                Some(fee),
                Some(block_number),
                Some(timestamp),
            ) => {
                if fee <= 0xFFFF_FFFF {
                    Some(
                        Pool {
                            id,
                            address,
                            version: DexVariant::UniswapV2,
                            token0,
                            token1,
                            fee: fee as u32,
                            block_number,
                            timestamp,
                        },
                    )
                } else {
                    None
                }
            },
            _ => None,
        }
    }
}

/// The id assignment of freshly discovered pools: entries carrying the
/// sentinel id -1 get consecutive ids continuing from the running maximum.
pub open spec fn spec_assign_ids(pools: Seq<Pool>, next_id: i64) -> Seq<Pool>
    decreases pools.len(),
{
    if pools.len() == 0 {
        Seq::empty()
    } else {
        let p = pools[0];
        if p.id == -1 {
            seq![Pool { id: (next_id + 1) as i64, ..p }] + spec_assign_ids(
                pools.skip(1),
                (next_id + 1) as i64,
            )
        } else {
            seq![p] + spec_assign_ids(pools.skip(1), next_id)
        }
    }
}

/// Assigns ids to new pools and counts how many rows now sit above the
/// previously persisted id.
pub fn assign_pool_ids(pools: &mut Vec<Pool>, last_id: i64) -> (added: usize)
    requires
        -1 <= last_id,
        last_id + old(pools)@.len() <= i64::MAX,
        old(pools)@.len() <= usize::MAX,
    ensures
        final(pools)@ == spec_assign_ids(old(pools)@, last_id),
        added == final(pools)@.filter(|p: Pool| p.id > last_id).len(),
{
    let ghost orig = pools@;
    let n = pools.len();
    let mut id: i64 = last_id;
    let mut added: usize = 0;
    let mut i: usize = 0;
    proof {
        reveal(Seq::filter);
        assert(pools@.subrange(0, 0) =~= Seq::<Pool>::empty());
        assert(orig.subrange(0, n as int) =~= orig);
        assert(Seq::<Pool>::empty() + spec_assign_ids(orig, last_id) =~= spec_assign_ids(
            orig,
            last_id,
        ));
        lemma_assign_ids_len(orig, last_id);
    }
    while i < n
        invariant
            n == pools@.len(),
            i <= n,
            orig.len() == n,
            -1 <= last_id,
            last_id + n <= i64::MAX,
            last_id <= id,
            id <= last_id + i,
            pools@.subrange(i as int, n as int) =~= orig.subrange(i as int, n as int),
            spec_assign_ids(orig, last_id) == pools@.subrange(0, i as int) + spec_assign_ids(
                orig.subrange(i as int, n as int),
                id,
            ),
            added == pools@.subrange(0, i as int).filter(|p: Pool| p.id > last_id).len(),
            added <= i,
        decreases n - i,
    {
        let ghost pre = pools@.subrange(0, i as int);
        let ghost rest = orig.subrange(i as int, n as int);
        proof {
            assert(rest[0] == pools@[i as int]);
            assert(rest.skip(1) =~= orig.subrange(i as int + 1, n as int));
        }
        let p = pools[i];
        if p.id == -1 {
            id = id + 1;
            let updated = Pool { id, ..p };
            pools.set(i, updated);
        }
        if pools[i].id > last_id {
            added = added + 1;
        }
        proof {
            reveal(Seq::filter);
            assert(pools@.subrange(0, i as int + 1).drop_last() =~= pre);
            assert(pools@.subrange(0, i as int + 1).last() == pools@[i as int]);
            assert(pools@.subrange(i as int + 1, n as int) =~= orig.subrange(i as int + 1, n as int));
            assert(spec_assign_ids(orig, last_id) =~= pools@.subrange(0, i as int + 1)
                + spec_assign_ids(orig.subrange(i as int + 1, n as int), id));
        }
        i = i + 1;
    }
    proof {
        assert(pools@.subrange(0, n as int) =~= pools@);
        assert(spec_assign_ids(orig.subrange(n as int, n as int), id) =~= Seq::<Pool>::empty());
        assert(pools@ + Seq::<Pool>::empty() =~= pools@);
    }
    added
}

proof fn lemma_assign_ids_len(pools: Seq<Pool>, next_id: i64)
    ensures
        spec_assign_ids(pools, next_id).len() == pools.len(),
    decreases pools.len(),
{
    if pools.len() > 0 {
        if pools[0].id == -1 {
            lemma_assign_ids_len(pools.skip(1), (next_id + 1) as i64);
        } else {
            lemma_assign_ids_len(pools.skip(1), next_id);
        }
    }
}

/// The block windows scanned for pair-creation events: fixed-size chunks from
/// `start`, the last one clamped at `to_block`; when the chunks divide the
/// span exactly, a degenerate final window follows.
pub open spec fn spec_block_ranges(start: int, to_block: int, chunk: int) -> Seq<(u64, u64)>
    decreases (if start <= to_block + 1 {
        to_block + 1 - start
    } else {
        0
    }),
{
    if chunk <= 0 || start + chunk > to_block + 1 {
        seq![(start as u64, to_block as u64)]
    } else {
        seq![(start as u64, (start + chunk - 1) as u64)] + spec_block_ranges(
            start + chunk,
            to_block,
            chunk,
        )
    }
}

/// Splits the scan into windows of `chunk` blocks.
pub fn block_ranges(from_block: u64, to_block: u64, chunk: u64) -> (r: Vec<(u64, u64)>)
    requires
        chunk >= 1,
        to_block < u64::MAX,
    ensures
        r@ == spec_block_ranges(from_block as int, to_block as int, chunk as int),
    {
        let mut out: Vec<(u64, u64)> = Vec::new();
        let mut start: u64 = from_block;
        let ghost whole = spec_block_ranges(from_block as int, to_block as int, chunk as int);
        proof {
            assert(out@ + spec_block_ranges(start as int, to_block as int, chunk as int) =~= whole);
        }
        loop
            invariant
                chunk >= 1,
                to_block < u64::MAX,
                whole == spec_block_ranges(from_block as int, to_block as int, chunk as int),
                out@ + spec_block_ranges(start as int, to_block as int, chunk as int) == whole,
            decreases to_block + chunk - start,
        {
            let end_wide: u128 = start as u128 + chunk as u128 - 1;
            if end_wide > to_block as u128 {
                proof {
                    assert(start as int + chunk as int > to_block as int + 1);
                    assert(spec_block_ranges(start as int, to_block as int, chunk as int) =~= seq![
                        (start, to_block),
                    ]);
                }
                out.push((start, to_block));
                proof {
                    assert(out@ =~= whole);
                }
                return out;
            }
            let end: u64 = end_wide as u64;
            out.push((start, end));
            proof {
                assert(out@ + spec_block_ranges(
                    start as int + chunk as int,
                    to_block as int,
                    chunk as int,
                ) =~= whole);
            }
            start = start + chunk;
        }
    }

/// An ERC-20 token and the pools it appears in.
#[derive(Clone, Debug)]
pub struct Token {
    pub id: i64,
    pub address: Addr,
    pub name: String,
    pub symbol: String,
    pub decimals: u8,
    pub pool_ids: Vec<i64>,
}

impl Token {
    /// The row persisted to the token cache.
    pub fn cache_row(&self) -> (r: (i64, String, String, String, u8))
        ensures
            r.0 == self.id,
            r.1@ == spec_addr_hex(self.address),
            r.2@ == self.name@,
            r.3@ == self.symbol@,
            r.4 == self.decimals,
    {
        let name = self.name.as_str().to_string();
        let symbol = self.symbol.as_str().to_string();
        (self.id, addr_hex(self.address), name, symbol, self.decimals)
    }

    /// Builds a token from one cache row; its pool list starts empty. A row
    /// parses exactly when it has all five columns and its id, address and
    /// decimals columns are well-formed.
    pub fn from_record(record: &Vec<String>) -> (r: Option<Token>)
        ensures
            (r is Some) <==> ({
                let cols = Seq::new(record@.len(), |i: int| record@[i]@);
                &&& record@.len() >= 5
                &&& spec_parse_i64(cols[0]) is Some
                &&& spec_parse_addr(cols[1]) is Some
                &&& spec_parse_u64(cols[4]) is Some
                &&& spec_parse_u64(cols[4]).unwrap() <= 255
            }),
            match r {
                Some(t) => {
                    let cols = Seq::new(record@.len(), |i: int| record@[i]@);
                    &&& Some(t.id) == spec_parse_i64(cols[0])
                    &&& Some(t.address) == spec_parse_addr(cols[1])
                    &&& t.name@ == cols[2]
                    &&& t.symbol@ == cols[3]
                    &&& spec_parse_u64(cols[4]) == Some(t.decimals as u64)
                    &&& t.pool_ids@ == Seq::<i64>::empty()
                },
                None => true,
            },
    {
        if record.len() < 5 {
            return None;
        }
        let id = parse_i64(&record[0]);
        let address = to_h160(&record[1]);
        let name = record[2].as_str().to_string();
        let symbol = record[3].as_str().to_string();
        let decimals = parse_u64(&record[4]);
        match (id, address, decimals) {
            (Some(id), Some(address), Some(decimals)) => {
                if decimals <= 255 {
                    Some(
                        Token {
                            id,
                            address,
                            name,
                            symbol,
                            decimals: decimals as u8,
                            pool_ids: Vec::new(),
                        },
                    )
                } else {
                    None
                }
            },
            _ => None,
        }
    }
}

/// The pool ids appended to a token while walking `pools` in order: one entry
/// for each side of each pool that names the token's address.
pub open spec fn spec_appended_pool_ids(pools: Seq<Pool>, address: Addr, n: int) -> Seq<i64>
    decreases n,
{
    if n <= 0 {
        Seq::empty()
    } else {
        spec_appended_pool_ids(pools, address, n - 1) + (if pools[n - 1].token0 == address {
            seq![pools[n - 1].id]
        } else {
            Seq::empty()
        }) + (if pools[n - 1].token1 == address {
            seq![pools[n - 1].id]
        } else {
            Seq::empty()
        })
    }
}

/// Backfills each token's pool list from the loaded pools, second pass of the
/// registry load. Token addresses must be distinct.
pub fn attach_pool_ids(tokens: &mut Vec<Token>, pools: &Vec<Pool>)
    requires
        forall|i: int, j: int|
            0 <= i < j < old(tokens)@.len() ==> (#[trigger] old(tokens)@[i]).address != (
            #[trigger] old(tokens)@[j]).address,
    ensures
        final(tokens)@.len() == old(tokens)@.len(),
        forall|t: int|
            0 <= t < old(tokens)@.len() ==> {
                let before = #[trigger] old(tokens)@[t];
                let after = final(tokens)@[t];
                &&& after.id == before.id
                &&& after.address == before.address
                &&& after.name == before.name
                &&& after.symbol == before.symbol
                &&& after.decimals == before.decimals
                &&& after.pool_ids@ == before.pool_ids@ + spec_appended_pool_ids(
                    pools@,
                    before.address,
                    pools@.len() as int,
                )
            },
{
    let n = pools.len();
    let m = tokens.len();
    let mut i: usize = 0;
    while i < n
        invariant
            n == pools@.len(),
            m == tokens@.len(),
            m == old(tokens)@.len(),
            i <= n,
            forall|a: int, b: int|
                0 <= a < b < old(tokens)@.len() ==> (#[trigger] old(tokens)@[a]).address != (
                #[trigger] old(tokens)@[b]).address,
            forall|t: int|
                0 <= t < m ==> {
                    let before = #[trigger] old(tokens)@[t];
                    let after = tokens@[t];
                    &&& after.id == before.id
                    &&& after.address == before.address
                    &&& after.name == before.name
                    &&& after.symbol == before.symbol
                    &&& after.decimals == before.decimals
                    &&& after.pool_ids@ == before.pool_ids@ + spec_appended_pool_ids(
                        pools@,
                        before.address,
                        i as int,
                    )
                },
        decreases n - i,
    {
        let pool_id = pools[i].id;
        let token0 = pools[i].token0;
        let token1 = pools[i].token1;
        let ghost snap0 = tokens@;
        push_pool_id(tokens, token0, pool_id);
        proof {
            assert forall|t: int| 0 <= t < m implies (#[trigger] tokens@[t]).pool_ids@ == snap0[t].pool_ids@ + (if old(tokens)@[t].address == token0 {
                seq![pool_id]
            } else {
                Seq::<i64>::empty()
            }) by {
                assert(snap0[t].address == old(tokens)@[t].address);
                if snap0[t].address == token0 {
                    assert forall|v: int| 0 <= v < t implies (#[trigger] snap0[v]).address
                        != token0 by {
                        assert(snap0[v].address == old(tokens)@[v].address);
                        assert(old(tokens)@[v].address != old(tokens)@[t].address);
                    }
                }
            }
        }
        let ghost snap1 = tokens@;
        push_pool_id(tokens, token1, pool_id);
        proof {
            assert forall|t: int| 0 <= t < m implies (#[trigger] tokens@[t]).pool_ids@ == snap1[t].pool_ids@ + (if old(tokens)@[t].address == token1 {
                seq![pool_id]
            } else {
                Seq::<i64>::empty()
            }) by {
                assert(snap1[t].address == old(tokens)@[t].address);
                if snap1[t].address == token1 {
                    assert forall|v: int| 0 <= v < t implies (#[trigger] snap1[v]).address
                        != token1 by {
                        assert(snap1[v].address == old(tokens)@[v].address);
                        assert(old(tokens)@[v].address != old(tokens)@[t].address);
                    }
                }
            }
            assert forall|t: int| 0 <= t < m implies (#[trigger] tokens@[t]).pool_ids@ == old(
                tokens,
            )@[t].pool_ids@ + spec_appended_pool_ids(
                pools@,
                old(tokens)@[t].address,
                i as int + 1,
            ) by {
                let addr0 = old(tokens)@[t].address;
                let base0 = old(tokens)@[t].pool_ids@;
                let mid = spec_appended_pool_ids(pools@, addr0, i as int);
                let add0: Seq<i64> = if pools@[i as int].token0 == addr0 {
                    seq![pools@[i as int].id]
                } else {
                    Seq::empty()
                };
                let add1: Seq<i64> = if pools@[i as int].token1 == addr0 {
                    seq![pools@[i as int].id]
                } else {
                    Seq::empty()
                };
                assert(snap0[t].pool_ids@ == base0 + mid);
                assert(snap1[t].pool_ids@ == (base0 + mid) + add0);
                assert(tokens@[t].pool_ids@ == ((base0 + mid) + add0) + add1);
                assert(spec_appended_pool_ids(pools@, addr0, i as int + 1) == (mid + add0) + add1);
                assert(((base0 + mid) + add0) + add1 =~= base0 + ((mid + add0) + add1));
            }
        }
        i = i + 1;
    }
}

/// Appends a pool id to the token holding `address`, if one is listed; the
/// other entries stay as they are.
fn push_pool_id(tokens: &mut Vec<Token>, address: Addr, pool_id: i64)
    ensures
        final(tokens)@.len() == old(tokens)@.len(),
        forall|t: int|
            0 <= t < old(tokens)@.len() ==> {
                let before = #[trigger] old(tokens)@[t];
                let after = final(tokens)@[t];
                &&& after.id == before.id
                &&& after.address == before.address
                &&& after.name == before.name
                &&& after.symbol == before.symbol
                &&& after.decimals == before.decimals
                &&& after.pool_ids@ == before.pool_ids@ + (if before.address == address && (forall|
                    s: int,
                |
                    0 <= s < t ==> (#[trigger] old(tokens)@[s]).address != address) {
                    seq![pool_id]
                } else {
                    Seq::<i64>::empty()
                })
            },
{
    let m = tokens.len();
    let mut t: usize = 0;
    while t < m
        invariant
            m == tokens@.len(),
            t <= m,
            forall|k: int| 0 <= k < t ==> (#[trigger] old(tokens)@[k]).address != address,
            tokens@ == old(tokens)@,
        decreases m - t,
    {
        if tokens[t].address == address {
            let entry = vstd::std_specs::vec::vec_index_mut(tokens, t);
            entry.pool_ids.push(pool_id);
            proof {
                assert forall|k: int| 0 <= k < m implies (#[trigger] tokens@[k]).pool_ids@ == old(
                    tokens,
                )@[k].pool_ids@ + (if old(tokens)@[k].address == address && (forall|s: int|
                    0 <= s < k ==> (#[trigger] old(tokens)@[s]).address != address) {
                    seq![pool_id]
                } else {
                    Seq::<i64>::empty()
                }) by {
                    if k != t {
                        assert(tokens@[k] == old(tokens)@[k]);
                        assert(old(tokens)@[k].pool_ids@ + Seq::<i64>::empty() =~= old(
                            tokens,
                        )@[k].pool_ids@);
                        if old(tokens)@[k].address == address {
                            if k > t {
                                assert(old(tokens)@[t as int].address == address);
                            }
                        }
                    }
                }
            }
            return ;
        }
        t = t + 1;
    }
    proof {
        assert forall|k: int| 0 <= k < m implies (#[trigger] tokens@[k]).pool_ids@ == old(
            tokens,
        )@[k].pool_ids@ + Seq::<i64>::empty() by {
            assert(old(tokens)@[k].pool_ids@ + Seq::<i64>::empty() =~= old(tokens)@[k].pool_ids@);
        }
    }
}

} // verus!
