use vstd::prelude::*;

use vstd::arithmetic::div_mod::{lemma_fundamental_div_mod, lemma_multiply_divide_lt};

use crate::types::Addr;

verus! {

pub open spec fn pow256(n: nat) -> nat
    decreases n,
{
    if n == 0 {
        1
    } else {
        256 * pow256((n - 1) as nat)
    }
}

pub open spec fn pow16(n: nat) -> nat
    decreases n,
{
    if n == 0 {
        1
    } else {
        16 * pow16((n - 1) as nat)
    }
}

pub proof fn lemma_pow256_values()
    ensures
        pow256(4) == 0x100000000,
        pow256(8) == 0x10000000000000000,
        pow256(16) == 0x100000000000000000000000000000000,
{
    reveal_with_fuel(pow256, 17);
}

pub proof fn lemma_pow16_values()
    ensures
        pow16(8) == 0x100000000,
        pow16(32) == 0x100000000000000000000000000000000,
{
    reveal_with_fuel(pow16, 33);
}

/// The big-endian byte string of `v`, `len` bytes long (modulo 256^len).
pub open spec fn be_seq(v: nat, len: nat) -> Seq<u8>
    decreases len,
{
    if len == 0 {
        Seq::empty()
    } else {
        be_seq(v / 256, (len - 1) as nat).push((v % 256) as u8)
    }
}

/// The value of a big-endian byte string.
pub open spec fn be_val(s: Seq<u8>) -> nat
    decreases s.len(),
{
    if s.len() == 0 {
        0
    } else {
        be_val(s.drop_last()) * 256 + s.last() as nat
    }
}

pub proof fn lemma_be_seq_len(v: nat, len: nat)
    ensures
        be_seq(v, len).len() == len,
    decreases len,
{
    if len > 0 {
        lemma_be_seq_len(v / 256, (len - 1) as nat);
    }
}

pub proof fn lemma_be_val_bound(s: Seq<u8>)
    ensures
        be_val(s) < pow256(s.len()),
    decreases s.len(),
{
    if s.len() > 0 {
        lemma_be_val_bound(s.drop_last());
    }
}

/// Reading back the big-endian bytes of a value recovers the value.
pub proof fn lemma_be_round_trip(v: nat, len: nat)
    requires
        v < pow256(len),
    ensures
        be_val(be_seq(v, len)) == v,
    decreases len,
{
    if len > 0 {
        lemma_be_seq_len(v / 256, (len - 1) as nat);
        assert(be_seq(v, len).drop_last() =~= be_seq(v / 256, (len - 1) as nat));
        lemma_multiply_divide_lt(v as int, 256, pow256((len - 1) as nat) as int);
        lemma_be_round_trip(v / 256, (len - 1) as nat);
        lemma_fundamental_div_mod(v as int, 256);
    }
}

/// Appends the `len`-byte big-endian form of `v`.
pub fn push_be(out: &mut Vec<u8>, v: u128, len: usize)
    requires
        len <= 16,
        (v as nat) < pow256(len as nat),
    ensures
        final(out)@ == old(out)@ + be_seq(v as nat, len as nat),
    decreases len,
{
    if len == 0 {
        proof {
            assert(out@ =~= out@ + be_seq(v as nat, 0));
        }
        return ;
    }
    proof {
        lemma_multiply_divide_lt(v as int, 256, pow256((len - 1) as nat) as int);
    }
    push_be(out, v / 256, len - 1);
    out.push((v % 256) as u8);
    proof {
        assert(out@ =~= old(out)@ + be_seq(v as nat, len as nat));
    }
}

/// Reads `len` bytes at `off` as a big-endian value.
pub fn read_be(data: &Vec<u8>, off: usize, len: usize) -> (r: u128)
    requires
        off + len <= data@.len(),
        len <= 16,
    ensures
        r as nat == be_val(data@.subrange(off as int, off as int + len as int)),
        (r as nat) < pow256(len as nat),
{
    let n = data.len();
    let mut acc: u128 = 0;
    let mut i: usize = 0;
    proof {
        assert(data@.subrange(off as int, off as int) =~= Seq::<u8>::empty());
    }
    while i < len
        invariant
            off + len <= n,
            n == data@.len(),
            len <= 16,
            i <= len,
            acc as nat == be_val(data@.subrange(off as int, off as int + i as int)),
            (acc as nat) < pow256(i as nat),
        decreases len - i,
    {
        proof {
            lemma_pow256_values();
            lemma_pow256_increases(i as nat + 1, 16);
            assert(data@.subrange(off as int, off as int + i as int + 1).drop_last()
                =~= data@.subrange(off as int, off as int + i as int));
            assert(data@.subrange(off as int, off as int + i as int + 1).last() == data@[off as int
                + i as int]);
        }
        acc = acc * 256 + (data[off + i] as u128);
        i = i + 1;
    }
    proof {
        lemma_be_val_bound(data@.subrange(off as int, off as int + len as int));
    }
    acc
}

pub proof fn lemma_pow256_increases(a: nat, b: nat)
    requires
        a <= b,
    ensures
        pow256(a) <= pow256(b),
    decreases b,
{
    if a < b && b > 0 {
        lemma_pow256_increases(a, (b - 1) as nat);
        assert(pow256(b) == 256 * pow256((b - 1) as nat));
        assert(pow256((b - 1) as nat) <= 256 * pow256((b - 1) as nat)) by (nonlinear_arith)
            requires
                pow256((b - 1) as nat) >= 0,
        ;
    }
}

/// One hex digit as a lowercase character.
pub open spec fn hex_char(d: int) -> char {
    if d == 0 {
        '0'
    } else if d == 1 {
        '1'
    } else if d == 2 {
        '2'
    } else if d == 3 {
        '3'
    } else if d == 4 {
        '4'
    } else if d == 5 {
        '5'
    } else if d == 6 {
        '6'
    } else if d == 7 {
        '7'
    } else if d == 8 {
        '8'
    } else if d == 9 {
        '9'
    } else if d == 10 {
        'a'
    } else if d == 11 {
        'b'
    } else if d == 12 {
        'c'
    } else if d == 13 {
        'd'
    } else if d == 14 {
        'e'
    } else {
        'f'
    }
}

/// The `len`-digit lowercase hex string of `v` (modulo 16^len).
pub open spec fn hex_seq(v: nat, len: nat) -> Seq<char>
    decreases len,
{
    if len == 0 {
        Seq::empty()
    } else {
        hex_seq(v / 16, (len - 1) as nat).push(hex_char((v % 16) as int))
    }
}

fn push_hex_digit(s: &mut String, d: u128)
    requires
        d < 16,
    ensures
        final(s)@ == old(s)@ + seq![hex_char(d as int)],
{
    let piece: &str = if d == 0 {
        "0"
    } else if d == 1 {
        "1"
    } else if d == 2 {
        "2"
    } else if d == 3 {
        "3"
    } else if d == 4 {
        "4"
    } else if d == 5 {
        "5"
    } else if d == 6 {
        "6"
    } else if d == 7 {
        "7"
    } else if d == 8 {
        "8"
    } else if d == 9 {
        "9"
    } else if d == 10 {
        "a"
    } else if d == 11 {
        "b"
    } else if d == 12 {
        "c"
    } else if d == 13 {
        "d"
    } else if d == 14 {
        "e"
    } else {
        "f"
    };
    proof {
        reveal_strlit("0");
        reveal_strlit("1");
        reveal_strlit("2");
        reveal_strlit("3");
        reveal_strlit("4");
        reveal_strlit("5");
        reveal_strlit("6");
        reveal_strlit("7");
        reveal_strlit("8");
        reveal_strlit("9");
        reveal_strlit("a");
        reveal_strlit("b");
        reveal_strlit("c");
        reveal_strlit("d");
        reveal_strlit("e");
        reveal_strlit("f");
        assert(piece@ =~= seq![hex_char(d as int)]);
    }
    s.append(piece);
}

/// Appends the `len`-digit lowercase hex form of `v`.
pub fn push_hex(s: &mut String, v: u128, len: usize)
    requires
        len <= 32,
        (v as nat) < pow16(len as nat),
    ensures
        final(s)@ == old(s)@ + hex_seq(v as nat, len as nat),
    decreases len,
{
    if len == 0 {
        proof {
            assert(s@ =~= s@ + hex_seq(v as nat, 0));
        }
        return ;
    }
    proof {
        lemma_multiply_divide_lt(v as int, 16, pow16((len - 1) as nat) as int);
    }
    push_hex(s, v / 16, len - 1);
    push_hex_digit(s, v % 16);
    proof {
        assert(s@ =~= old(s)@ + hex_seq(v as nat, len as nat));
    }
}

/// The "0x"-prefixed lowercase hex rendering of an address, 42 characters.
pub open spec fn spec_addr_hex(a: Addr) -> Seq<char> {
    seq!['0', 'x'] + hex_seq(a.hi as nat, 8) + hex_seq(a.lo as nat, 32)
}

pub fn addr_hex(a: Addr) -> (r: String)
    ensures
        r@ == spec_addr_hex(a),
{
    let mut s = String::new();
    proof {
        reveal_strlit("0x");
        lemma_pow16_values();
    }
    s.append("0x");
    push_hex(&mut s, a.hi as u128, 8);
    push_hex(&mut s, a.lo, 32);
    proof {
        assert(s@ =~= spec_addr_hex(a));
    }
    s
}

/// One swap instruction of the bot contract's packed calldata.
#[derive(Clone, Copy, Debug, PartialEq, Eq, Structural)]
pub struct SwapParams {
    pub zero_for_one: bool,
    pub pair: Addr,
    pub token_in: Addr,
    pub amount_in: u128,
    pub amount_out: u128,
}

pub open spec fn addr_bytes(a: Addr) -> Seq<u8> {
    be_seq(a.hi as nat, 4) + be_seq(a.lo as nat, 16)
}

/// A 32-byte big-endian word holding a value below 2^128.
pub open spec fn word_bytes(v: u128) -> Seq<u8> {
    be_seq(0, 16) + be_seq(v as nat, 16)
}

/// The packed layout of one swap: zeroForOne:uint8, pair:address,
/// tokenIn:address, amountIn:uint256, amountOut:uint256; 105 bytes.
pub open spec fn params_bytes(p: SwapParams) -> Seq<u8> {
    seq![
        if p.zero_for_one {
            1u8
        } else {
            0u8
        },
    ] + addr_bytes(p.pair) + addr_bytes(p.token_in) + word_bytes(p.amount_in) + word_bytes(
        p.amount_out,
    )
}

pub open spec fn entries_bytes(ps: Seq<SwapParams>) -> Seq<u8>
    decreases ps.len(),
{
    if ps.len() == 0 {
        Seq::empty()
    } else {
        params_bytes(ps[0]) + entries_bytes(ps.skip(1))
    }
}

/// The full calldata: blockNumber:uint64 followed by the packed swaps.
pub open spec fn packed_bytes(block_number: u64, ps: Seq<SwapParams>) -> Seq<u8> {
    be_seq(block_number as nat, 8) + entries_bytes(ps)
}

pub proof fn lemma_params_bytes_len(p: SwapParams)
    ensures
        params_bytes(p).len() == 105,
{
    lemma_be_seq_len(p.pair.hi as nat, 4);
    lemma_be_seq_len(p.pair.lo as nat, 16);
    lemma_be_seq_len(p.token_in.hi as nat, 4);
    lemma_be_seq_len(p.token_in.lo as nat, 16);
    lemma_be_seq_len(0, 16);
    lemma_be_seq_len(p.amount_in as nat, 16);
    lemma_be_seq_len(p.amount_out as nat, 16);
}

pub proof fn lemma_entries_bytes_push(ps: Seq<SwapParams>, p: SwapParams)
    ensures
        entries_bytes(ps.push(p)) == entries_bytes(ps) + params_bytes(p),
    decreases ps.len(),
{
    let one = ps.push(p);
    assert(entries_bytes(one) == params_bytes(one[0]) + entries_bytes(one.skip(1)));
    if ps.len() == 0 {
        assert(one[0] == p);
        assert(one.skip(1) =~= Seq::<SwapParams>::empty());
        assert(entries_bytes(one.skip(1)) == Seq::<u8>::empty());
        assert(entries_bytes(ps) == Seq::<u8>::empty());
        assert(entries_bytes(one) =~= entries_bytes(ps) + params_bytes(p));
    } else {
        assert(one.skip(1) =~= ps.skip(1).push(p));
        assert(one[0] == ps[0]);
        lemma_entries_bytes_push(ps.skip(1), p);
        assert(entries_bytes(one) == params_bytes(ps[0]) + (entries_bytes(ps.skip(1))
            + params_bytes(p)));
        assert(entries_bytes(ps) == params_bytes(ps[0]) + entries_bytes(ps.skip(1)));
        assert(entries_bytes(one) =~= entries_bytes(ps) + params_bytes(p));
    }
}

/// Appends one packed swap.
fn push_params(out: &mut Vec<u8>, p: &SwapParams)
    ensures
        final(out)@ == old(out)@ + params_bytes(*p),
{
    proof {
        lemma_pow256_values();
    }
    if p.zero_for_one {
        out.push(1u8);
    } else {
        out.push(0u8);
    }
    push_be(out, p.pair.hi as u128, 4);
    push_be(out, p.pair.lo, 16);
    push_be(out, p.token_in.hi as u128, 4);
    push_be(out, p.token_in.lo, 16);
    push_be(out, 0, 16);
    push_be(out, p.amount_in, 16);
    push_be(out, 0, 16);
    push_be(out, p.amount_out, 16);
    proof {
        assert(out@ =~= old(out)@ + params_bytes(*p));
    }
}

/// Builds the bot contract's packed calldata for a block number and swap list.
pub fn encode_packed(block_number: u64, params: &Vec<SwapParams>) -> (out: Vec<u8>)
    ensures
        out@ == packed_bytes(block_number, params@),
{
    let mut out: Vec<u8> = Vec::new();
    proof {
        lemma_pow256_values();
    }
    push_be(&mut out, block_number as u128, 8);
    let ghost all = params@;
    let n = params.len();
    let mut i: usize = 0;
    proof {
        assert(all.subrange(0, 0) =~= Seq::<SwapParams>::empty());
        assert(out@ =~= packed_bytes(block_number, all.subrange(0, 0)));
    }
    while i < n
        invariant
            n == all.len(),
            i <= n,
            all == params@,
            out@ == packed_bytes(block_number, all.subrange(0, i as int)),
        decreases n - i,
    {
        push_params(&mut out, &params[i]);
        proof {
            assert(all.subrange(0, i as int + 1) =~= all.subrange(0, i as int).push(all[i as int]));
            lemma_entries_bytes_push(all.subrange(0, i as int), all[i as int]);
            assert(out@ =~= packed_bytes(block_number, all.subrange(0, i as int + 1)));
        }
        i = i + 1;
    }
    proof {
        assert(all.subrange(0, n as int) =~= all);
    }
    out
}

/// What one 105-byte slice decodes to, if anything.
pub open spec fn spec_decode_params(s: Seq<u8>) -> Option<SwapParams> {
    if s.len() != 105 {
        None
    } else if s[0] != 0 && s[0] != 1 {
        None
    } else if be_val(s.subrange(41, 57)) != 0 || be_val(s.subrange(73, 89)) != 0 {
        None
    } else {
        Some(
            SwapParams {
                zero_for_one: s[0] == 1,
                pair: Addr {
                    hi: be_val(s.subrange(1, 5)) as u32,
                    lo: be_val(s.subrange(5, 21)) as u128,
                },
                token_in: Addr {
                    hi: be_val(s.subrange(21, 25)) as u32,
                    lo: be_val(s.subrange(25, 41)) as u128,
                },
                amount_in: be_val(s.subrange(57, 73)) as u128,
                amount_out: be_val(s.subrange(89, 105)) as u128,
            },
        )
    }
}

pub open spec fn spec_decode_entries(s: Seq<u8>) -> Option<Seq<SwapParams>>
    decreases s.len(),
{
    if s.len() == 0 {
        Some(Seq::empty())
    } else if s.len() < 105 {
        None
    } else {
        match spec_decode_params(s.subrange(0, 105)) {
            None => None,
            Some(p) => match spec_decode_entries(s.skip(105)) {
                None => None,
                Some(rest) => Some(seq![p] + rest),
            },
        }
    }
}

pub open spec fn spec_decode_packed(s: Seq<u8>) -> Option<(u64, Seq<SwapParams>)> {
    if s.len() < 8 {
        None
    } else {
        match spec_decode_entries(s.skip(8)) {
            None => None,
            Some(ps) => Some((be_val(s.subrange(0, 8)) as u64, ps)),
        }
    }
}

/// Decodes one packed swap at `off`.
fn decode_params(data: &Vec<u8>, off: usize) -> (r: Option<SwapParams>)
    requires
        off + 105 <= data@.len(),
    ensures
        r == spec_decode_params(data@.subrange(off as int, off as int + 105)),
{
    let ghost s = data@.subrange(off as int, off as int + 105);
    let total = data.len();
    let zf = data[off];
    if zf != 0 && zf != 1 {
        return None;
    }
    proof {
        lemma_pow256_values();
        assert(s.subrange(41, 57) =~= data@.subrange(off as int + 41, off as int + 57));
        assert(s.subrange(73, 89) =~= data@.subrange(off as int + 73, off as int + 89));
        assert(s.subrange(1, 5) =~= data@.subrange(off as int + 1, off as int + 5));
        assert(s.subrange(5, 21) =~= data@.subrange(off as int + 5, off as int + 21));
        assert(s.subrange(21, 25) =~= data@.subrange(off as int + 21, off as int + 25));
        assert(s.subrange(25, 41) =~= data@.subrange(off as int + 25, off as int + 41));
        assert(s.subrange(57, 73) =~= data@.subrange(off as int + 57, off as int + 73));
        assert(s.subrange(89, 105) =~= data@.subrange(off as int + 89, off as int + 105));
    }
    let pad_in = read_be(data, off + 41, 16);
    let pad_out = read_be(data, off + 73, 16);
    if pad_in != 0 || pad_out != 0 {
        return None;
    }
    let pair_hi = read_be(data, off + 1, 4);
    let pair_lo = read_be(data, off + 5, 16);
    let token_hi = read_be(data, off + 21, 4);
    let token_lo = read_be(data, off + 25, 16);
    let amount_in = read_be(data, off + 57, 16);
    let amount_out = read_be(data, off + 89, 16);
    Some(
        SwapParams {
            zero_for_one: zf == 1,
            pair: Addr { hi: pair_hi as u32, lo: pair_lo },
            token_in: Addr { hi: token_hi as u32, lo: token_lo },
            amount_in,
            amount_out,
        },
    )
}

/// Parses packed calldata back into the block number and swap list.
pub fn decode_packed(data: &Vec<u8>) -> (r: Option<(u64, Vec<SwapParams>)>)
    ensures
        match r {
            Some(decoded) => spec_decode_packed(data@) == Some((decoded.0, decoded.1@)),
            None => spec_decode_packed(data@) is None,
        },
{
    if data.len() < 8 {
        return None;
    }
    proof {
        lemma_pow256_values();
    }
    let block_number = read_be(data, 0, 8);
    let mut params: Vec<SwapParams> = Vec::new();
    let mut off: usize = 8;
    let n = data.len();
    proof {
        assert(data@.skip(8) =~= data@.skip(8));
    }
    while n - off >= 105
        invariant
            8 <= off <= n,
            n == data@.len(),
            (match spec_decode_entries(data@.skip(off as int)) {
                Some(rest) => spec_decode_entries(data@.skip(8)) == Some(params@ + rest),
                None => spec_decode_entries(data@.skip(8)) is None,
            }),
        decreases n - off,
    {
        let ghost tail = data@.skip(off as int);
        proof {
            assert(tail.len() >= 105);
            assert(tail.subrange(0, 105) =~= data@.subrange(off as int, off as int + 105));
            assert(tail.skip(105) =~= data@.skip(off as int + 105));
        }
        let entry = decode_params(data, off);
        match entry {
            None => {
                return None;
            },
            Some(p) => {
                params.push(p);
                proof {
                    let rest_opt = spec_decode_entries(data@.skip(off as int + 105));
                    match rest_opt {
                        Some(rest) => {
                            assert(spec_decode_entries(tail) == Some(seq![p] + rest));
                            assert(params@ + rest =~= old_params_plus(params@, p, rest));
                        },
                        None => {
                            assert(spec_decode_entries(tail) is None);
                        },
                    }
                }
                off = off + 105;
                proof {
                    match spec_decode_entries(data@.skip(off as int)) {
                        Some(rest) => {
                            assert(params@.drop_last() + (seq![p] + rest) =~= params@ + rest);
                        },
                        None => {
                        },
                    }
                }
            },
        }
    }
    if off != n {
        proof {
            assert(data@.skip(off as int).len() == n - off);
            assert(spec_decode_entries(data@.skip(off as int)) is None);
        }
        return None;
    }
    proof {
        assert(data@.skip(off as int).len() == 0);
        assert(spec_decode_entries(data@.skip(off as int)) == Some(Seq::<SwapParams>::empty()));
        assert(params@ + Seq::<SwapParams>::empty() =~= params@);
        assert(data@.subrange(0, 8) =~= data@.subrange(0, 8));
    }
    Some((block_number as u64, params))
}

/// Helper shape for the decode loop proof.
spec fn old_params_plus(ps: Seq<SwapParams>, p: SwapParams, rest: Seq<SwapParams>) -> Seq<
    SwapParams,
> {
    ps.drop_last() + (seq![p] + rest)
}

pub proof fn lemma_decode_params_of_params_bytes(p: SwapParams)
    ensures
        spec_decode_params(params_bytes(p)) == Some(p),
{
    let s = params_bytes(p);
    lemma_params_bytes_len(p);
    lemma_be_seq_len(p.pair.hi as nat, 4);
    lemma_be_seq_len(p.pair.lo as nat, 16);
    lemma_be_seq_len(p.token_in.hi as nat, 4);
    lemma_be_seq_len(p.token_in.lo as nat, 16);
    lemma_be_seq_len(0, 16);
    lemma_be_seq_len(p.amount_in as nat, 16);
    lemma_be_seq_len(p.amount_out as nat, 16);
    lemma_pow256_values();
    assert(s.subrange(1, 5) =~= be_seq(p.pair.hi as nat, 4));
    assert(s.subrange(5, 21) =~= be_seq(p.pair.lo as nat, 16));
    assert(s.subrange(21, 25) =~= be_seq(p.token_in.hi as nat, 4));
    assert(s.subrange(25, 41) =~= be_seq(p.token_in.lo as nat, 16));
    assert(s.subrange(41, 57) =~= be_seq(0, 16));
    assert(s.subrange(57, 73) =~= be_seq(p.amount_in as nat, 16));
    assert(s.subrange(73, 89) =~= be_seq(0, 16));
    assert(s.subrange(89, 105) =~= be_seq(p.amount_out as nat, 16));
    lemma_be_round_trip(p.pair.hi as nat, 4);
    lemma_be_round_trip(p.pair.lo as nat, 16);
    lemma_be_round_trip(p.token_in.hi as nat, 4);
    lemma_be_round_trip(p.token_in.lo as nat, 16);
    lemma_be_round_trip(0, 16);
    lemma_be_round_trip(p.amount_in as nat, 16);
    lemma_be_round_trip(p.amount_out as nat, 16);
}

proof fn lemma_decode_entries_of_entries_bytes(ps: Seq<SwapParams>)
    ensures
        spec_decode_entries(entries_bytes(ps)) == Some(ps),
    decreases ps.len(),
{
    if ps.len() == 0 {
        assert(spec_decode_entries(entries_bytes(ps)) == Some(Seq::<SwapParams>::empty()));
        assert(Seq::<SwapParams>::empty() =~= ps);
    } else {
        let s = entries_bytes(ps);
        lemma_params_bytes_len(ps[0]);
        assert(s.subrange(0, 105) =~= params_bytes(ps[0]));
        assert(s.skip(105) =~= entries_bytes(ps.skip(1)));
        lemma_decode_params_of_params_bytes(ps[0]);
        lemma_decode_entries_of_entries_bytes(ps.skip(1));
        assert(seq![ps[0]] + ps.skip(1) =~= ps);
    }
}

/// Round trip of the packed calldata: decoding what was encoded for a block
/// number and swap list yields that block number and that list.
pub proof fn lemma_packed_round_trip(block_number: u64, ps: Seq<SwapParams>)
    ensures
        spec_decode_packed(packed_bytes(block_number, ps)) == Some((block_number, ps)),
{
    let s = packed_bytes(block_number, ps);
    lemma_be_seq_len(block_number as nat, 8);
    lemma_pow256_values();
    assert(s.subrange(0, 8) =~= be_seq(block_number as nat, 8));
    assert(s.skip(8) =~= entries_bytes(ps));
    lemma_be_round_trip(block_number as nat, 8);
    lemma_decode_entries_of_entries_bytes(ps);
}

/// A fresh vector with the same bytes.
pub fn copy_bytes(v: &Vec<u8>) -> (r: Vec<u8>)
    ensures
        r@ == v@,
{
    let n = v.len();
    let mut out: Vec<u8> = Vec::new();
    let mut i: usize = 0;
    while i < n
        invariant
            n == v@.len(),
            i <= n,
            out@ == v@.subrange(0, i as int),
        decreases n - i,
    {
        out.push(v[i]);
        proof {
            assert(out@ =~= v@.subrange(0, i as int + 1));
        }
        i = i + 1;
    }
    proof {
        assert(v@.subrange(0, n as int) =~= v@);
    }
    out
}

} // verus!
