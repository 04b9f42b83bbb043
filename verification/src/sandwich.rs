use vstd::prelude::*;

use crate::amm::{fits_u112, get_v2_amount_out, spec_v2_amount_out};
use crate::encode::{encode_packed, hex_seq, lemma_pow16_values, packed_bytes, SwapParams};
use crate::maps::AddrMap;
use crate::types::{usdc_addr, usdt_addr, Addr, Bytes32};

verus! {

/// First four bytes of the topic identifying the V2 `Swap` event.
pub const V2_SWAP_EVENT_ID: u32 = 0xd78ad95f;

/// A victim transaction, as replayed in simulation and wrapped into bundles.
#[derive(Clone, Debug)]
pub struct VictimTx {
    pub tx_hash: Bytes32,
    pub from: Addr,
    pub to: Addr,
    pub data: Vec<u8>,
    pub value: u128,
    pub gas_price: u128,
    pub gas_limit: Option<u64>,
}

#[derive(Clone, Copy, Debug, PartialEq, Eq, Structural)]
pub enum SwapDirection {
    Buy,
    Sell,
}

/// Per-pool classification of one victim transaction.
#[derive(Clone, Copy, Debug, PartialEq, Eq, Structural)]
pub struct SwapInfo {
    pub tx_hash: Bytes32,
    pub target_pair: Addr,
    pub main_currency: Addr,
    pub target_token: Addr,
    pub version: u8,
    pub token0_is_main: bool,
    pub direction: SwapDirection,
}

/// A call to execute against the simulated chain state.
#[derive(Clone, Debug)]
pub struct Tx {
    pub caller: Addr,
    pub transact_to: Addr,
    pub data: Vec<u8>,
    pub value: u128,
    pub gas_price: u128,
    pub gas_limit: u64,
}

pub open spec fn spec_tx_from(tx: VictimTx) -> Tx {
    Tx {
        caller: tx.from,
        transact_to: tx.to,
        data: tx.data,
        value: tx.value,
        gas_price: tx.gas_price,
        gas_limit: match tx.gas_limit {
            Some(gas_limit) => gas_limit,
            None => 5000000,
        },
    }
}

impl Tx {
    pub fn from(tx: VictimTx) -> (r: Self)
        ensures
            r == spec_tx_from(tx),
    {
        let gas_limit = match tx.gas_limit {
            Some(gas_limit) => gas_limit,
            None => 5000000,
        };
        Tx {
            caller: tx.from,
            transact_to: tx.to,
            data: tx.data,
            value: tx.value,
            gas_price: tx.gas_price,
            gas_limit,
        }
    }
}

/// Field-wise agreement of two calls, comparing calldata by contents.
pub open spec fn tx_eq(a: Tx, b: Tx) -> bool {
    a.caller == b.caller && a.transact_to == b.transact_to && a.data@ == b.data@ && a.value
        == b.value && a.gas_price == b.gas_price && a.gas_limit == b.gas_limit
}

/// One EIP-2930 access-list entry.
#[derive(Clone, Debug)]
pub struct AccessListItem {
    pub address: Addr,
    pub storage_keys: Vec<Bytes32>,
}

/// The result of searching for the best frontrun input size.
#[derive(Clone, Debug)]
pub struct OptimizedSandwich {
    pub amount_in: u128,
    pub max_revenue: u128,
    pub front_gas_used: u64,
    pub back_gas_used: u64,
    pub front_access_list: Vec<AccessListItem>,
    pub back_access_list: Vec<AccessListItem>,
    pub front_calldata: Vec<u8>,
    pub back_calldata: Vec<u8>,
}

/// A frontrun prospect for one (victim, pool, buy) triple.
#[derive(Clone, Debug)]
pub struct Sandwich {
    pub amount_in: u128,
    pub swap_info: SwapInfo,
    pub victim_tx: VictimTx,
    pub optimized_sandwich: Option<OptimizedSandwich>,
}

impl Sandwich {
    pub fn is_optimized(&mut self) -> (r: bool)
        ensures
            *final(self) == *old(self),
            r == (old(self).optimized_sandwich is Some),
    {
        self.optimized_sandwich.is_some()
    }
}

/// An ordered list of sandwiches packed into one atomic bundle.
#[derive(Clone, Debug)]
pub struct BatchSandwich {
    pub sandwiches: Vec<Sandwich>,
}

/// Measured outcome of simulating a bundle; all currency values are
/// WETH-equivalent signed integers.
#[derive(Clone, Debug)]
pub struct SimulatedSandwich {
    pub revenue: i128,
    pub profit: i128,
    pub gas_cost: i128,
    pub front_gas_used: u64,
    pub back_gas_used: u64,
    pub front_access_list: Vec<AccessListItem>,
    pub back_access_list: Vec<AccessListItem>,
    pub front_calldata: Vec<u8>,
    pub back_calldata: Vec<u8>,
}

impl SimulatedSandwich {
    /// Every settled simulation satisfies revenue == profit - gas_cost.
    pub open spec fn wf(&self) -> bool {
        self.revenue == self.profit - self.gas_cost
    }
}

/// The dedup key of a victim transaction: its hash's first four bytes.
pub open spec fn hash_prefix(h: Bytes32) -> u32 {
    (h.hi >> 96) as u32
}

pub open spec fn prefixes_of(sw: Seq<Sandwich>) -> Seq<u32> {
    Seq::new(sw.len(), |i: int| hash_prefix(sw[i].victim_tx.tx_hash))
}

pub open spec fn in_seq(s: Seq<u32>, x: u32) -> bool {
    exists|i: int| 0 <= i < s.len() && s[i] == x
}

pub open spec fn same_elements(a: Seq<u32>, b: Seq<u32>) -> bool {
    forall|x: u32| #![all_triggers] in_seq(a, x) <==> in_seq(b, x)
}

pub open spec fn strictly_sorted(s: Seq<u32>) -> bool {
    forall|i: int, j: int| 0 <= i < j < s.len() ==> s[i] < s[j]
}

/// Inserts a value into a duplicate-free sorted sequence, keeping it so.
pub open spec fn insert_sorted(c: Seq<u32>, x: u32) -> Seq<u32>
    decreases c.len(),
{
    if c.len() == 0 {
        seq![x]
    } else if x < c[0] {
        seq![x] + c
    } else if x == c[0] {
        c
    } else {
        seq![c[0]] + insert_sorted(c.skip(1), x)
    }
}

/// The sorted, deduplicated form of a sequence.
pub open spec fn canon_sort(s: Seq<u32>) -> Seq<u32>
    decreases s.len(),
{
    if s.len() == 0 {
        Seq::empty()
    } else {
        insert_sorted(canon_sort(s.skip(1)), s[0])
    }
}

proof fn lemma_insert_sorted_props(c: Seq<u32>, x: u32)
    requires
        strictly_sorted(c),
    ensures
        strictly_sorted(insert_sorted(c, x)),
        forall|y: u32| #![all_triggers] in_seq(insert_sorted(c, x), y) <==> (y == x || in_seq(
            c,
            y,
        )),
    decreases c.len(),
{
    let r = insert_sorted(c, x);
    if c.len() == 0 {
        assert(r =~= seq![x]);
        assert forall|y: u32| in_seq(r, y) <==> (y == x || in_seq(c, y)) by {
            if in_seq(r, y) {
                let i = choose|i: int| 0 <= i < r.len() && r[i] == y;
                assert(y == x);
            }
            if y == x {
                assert(r[0] == x);
                assert(in_seq(r, y));
            }
        }
    } else if x < c[0] {
        assert(r =~= seq![x] + c);
        assert forall|y: u32| in_seq(r, y) <==> (y == x || in_seq(c, y)) by {
            if in_seq(r, y) {
                let i = choose|i: int| 0 <= i < r.len() && r[i] == y;
                if i > 0 {
                    assert(c[i - 1] == y);
                    assert(in_seq(c, y));
                }
            }
            if y == x {
                assert(r[0] == x);
                assert(in_seq(r, y));
            }
            if in_seq(c, y) {
                let i = choose|i: int| 0 <= i < c.len() && c[i] == y;
                assert(r[i + 1] == y);
                assert(in_seq(r, y));
            }
        }
        assert forall|i: int, j: int| 0 <= i < j < r.len() implies r[i] < r[j] by {
            if i == 0 {
                assert(r[j] == c[j - 1]);
                assert(c[0] <= c[j - 1]);
            } else {
                assert(r[i] == c[i - 1] && r[j] == c[j - 1]);
            }
        }
    } else if x == c[0] {
        assert(r =~= c);
        assert forall|y: u32| in_seq(r, y) <==> (y == x || in_seq(c, y)) by {
            if y == x {
                assert(c[0] == x);
                assert(in_seq(c, y));
            }
        }
    } else {
        lemma_insert_sorted_props(c.skip(1), x);
        let rest = insert_sorted(c.skip(1), x);
        assert(r == seq![c[0]] + rest);
        // Every element of rest is above c[0].
        assert forall|k: int| 0 <= k < rest.len() implies c[0] < rest[k] by {
            assert(rest[k] == rest[k]);
            assert(in_seq(rest, rest[k]));
            if rest[k] == x {
            } else {
                assert(in_seq(c.skip(1), rest[k]));
                let i = choose|i: int| 0 <= i < c.skip(1).len() && c.skip(1)[i] == rest[k];
                assert(c[i + 1] == rest[k]);
                assert(c[0] < c[i + 1]);
            }
        }
        assert forall|i: int, j: int| 0 <= i < j < r.len() implies r[i] < r[j] by {
            if i == 0 {
                assert(r[j] == rest[j - 1]);
            } else {
                assert(r[i] == rest[i - 1] && r[j] == rest[j - 1]);
            }
        }
        assert forall|y: u32| in_seq(r, y) <==> (y == x || in_seq(c, y)) by {
            if in_seq(r, y) {
                let i = choose|i: int| 0 <= i < r.len() && r[i] == y;
                if i == 0 {
                    assert(c[0] == y);
                    assert(in_seq(c, y));
                } else {
                    assert(rest[i - 1] == y);
                    assert(in_seq(rest, y));
                    if y != x {
                        assert(in_seq(c.skip(1), y));
                        let k = choose|k: int| 0 <= k < c.skip(1).len() && c.skip(1)[k] == y;
                        assert(c[k + 1] == y);
                        assert(in_seq(c, y));
                    }
                }
            }
            if y == x {
                assert(in_seq(rest, x));
                let k = choose|k: int| 0 <= k < rest.len() && rest[k] == x;
                assert(r[k + 1] == x);
                assert(in_seq(r, y));
            }
            if in_seq(c, y) {
                let i = choose|i: int| 0 <= i < c.len() && c[i] == y;
                if i == 0 {
                    assert(r[0] == y);
                    assert(in_seq(r, y));
                } else {
                    assert(c.skip(1)[i - 1] == y);
                    assert(in_seq(c.skip(1), y));
                    assert(in_seq(rest, y));
                    let k = choose|k: int| 0 <= k < rest.len() && rest[k] == y;
                    assert(r[k + 1] == y);
                    assert(in_seq(r, y));
                }
            }
        }
    }
}

proof fn lemma_canon_sort_props(s: Seq<u32>)
    ensures
        strictly_sorted(canon_sort(s)),
        same_elements(canon_sort(s), s),
    decreases s.len(),
{
    if s.len() == 0 {
    } else {
        lemma_canon_sort_props(s.skip(1));
        lemma_insert_sorted_props(canon_sort(s.skip(1)), s[0]);
        let r = canon_sort(s);
        assert forall|y: u32| in_seq(r, y) <==> in_seq(s, y) by {
            if in_seq(r, y) {
                if y == s[0] {
                    assert(s[0] == y);
                    assert(in_seq(s, y));
                } else {
                    assert(in_seq(canon_sort(s.skip(1)), y));
                    assert(in_seq(s.skip(1), y));
                    let i = choose|i: int| 0 <= i < s.skip(1).len() && s.skip(1)[i] == y;
                    assert(s[i + 1] == y);
                    assert(in_seq(s, y));
                }
            }
            if in_seq(s, y) {
                let i = choose|i: int| 0 <= i < s.len() && s[i] == y;
                if i == 0 {
                    assert(in_seq(r, y));
                } else {
                    assert(s.skip(1)[i - 1] == y);
                    assert(in_seq(s.skip(1), y));
                    assert(in_seq(canon_sort(s.skip(1)), y));
                    assert(in_seq(r, y));
                }
            }
        }
    }
}

/// Two duplicate-free sorted sequences over the same elements are equal.
proof fn lemma_strictly_sorted_unique(a: Seq<u32>, b: Seq<u32>)
    requires
        strictly_sorted(a),
        strictly_sorted(b),
        same_elements(a, b),
    ensures
        a == b,
    decreases a.len(),
{
    if a.len() == 0 {
        if b.len() > 0 {
            assert(in_seq(b, b[0]));
            assert(in_seq(a, b[0]));
        }
        assert(a =~= b);
    } else {
        assert(in_seq(a, a[0]));
        assert(in_seq(b, a[0]));
        if b.len() == 0 {
            assert(!in_seq(b, a[0]));
        }
        let i = choose|i: int| 0 <= i < b.len() && b[i] == a[0];
        assert(b[0] <= b[i]);
        assert(in_seq(b, b[0]));
        assert(in_seq(a, b[0]));
        let j = choose|j: int| 0 <= j < a.len() && a[j] == b[0];
        assert(a[0] <= a[j]);
        assert(a[0] == b[0]);
        assert(same_elements(a.skip(1), b.skip(1))) by {
            assert forall|y: u32| in_seq(a.skip(1), y) implies in_seq(b.skip(1), y) by {
                let k = choose|k: int| 0 <= k < a.skip(1).len() && a.skip(1)[k] == y;
                assert(a[k + 1] == y);
                assert(a[0] < y);
                assert(in_seq(a, y));
                assert(in_seq(b, y));
                let m = choose|m: int| 0 <= m < b.len() && b[m] == y;
                assert(m > 0);
                assert(b.skip(1)[m - 1] == y);
            }
            assert forall|y: u32| in_seq(b.skip(1), y) implies in_seq(a.skip(1), y) by {
                let k = choose|k: int| 0 <= k < b.skip(1).len() && b.skip(1)[k] == y;
                assert(b[k + 1] == y);
                assert(b[0] < y);
                assert(in_seq(b, y));
                assert(in_seq(a, y));
                let m = choose|m: int| 0 <= m < a.len() && a[m] == y;
                assert(m > 0);
                assert(a.skip(1)[m - 1] == y);
            }
        }
        lemma_strictly_sorted_unique(a.skip(1), b.skip(1));
        assert(a.len() == b.len());
        assert forall|k: int| 0 <= k < a.len() implies a[k] == b[k] by {
            if k > 0 {
                assert(a[k] == a.skip(1)[k - 1]);
                assert(b[k] == b.skip(1)[k - 1]);
            }
        }
        assert(a =~= b);
    }
}

/// The joined rendering of the dedup key list: "0x" + 8 hex digits each,
/// separated by '-'.
pub open spec fn join_ids(c: Seq<u32>) -> Seq<char>
    decreases c.len(),
{
    if c.len() == 0 {
        Seq::empty()
    } else if c.len() == 1 {
        seq!['0', 'x'] + hex_seq(c[0] as nat, 8)
    } else {
        seq!['0', 'x'] + hex_seq(c[0] as nat, 8) + seq!['-'] + join_ids(c.skip(1))
    }
}

proof fn lemma_join_ids_push(c: Seq<u32>, y: u32)
    ensures
        join_ids(c.push(y)) == if c.len() == 0 {
            seq!['0', 'x'] + hex_seq(y as nat, 8)
        } else {
            join_ids(c) + seq!['-'] + (seq!['0', 'x'] + hex_seq(y as nat, 8))
        },
    decreases c.len(),
{
    let p = c.push(y);
    if c.len() == 0 {
        assert(p.len() == 1 && p[0] == y);
    } else {
        assert(p[0] == c[0]);
        assert(p.skip(1) =~= c.skip(1).push(y));
        lemma_join_ids_push(c.skip(1), y);
        if c.len() == 1 {
            assert(c.skip(1).len() == 0);
            assert(join_ids(p) =~= join_ids(c) + seq!['-'] + (seq!['0', 'x'] + hex_seq(
                y as nat,
                8,
            )));
        } else {
            assert(join_ids(p) =~= join_ids(c) + seq!['-'] + (seq!['0', 'x'] + hex_seq(
                y as nat,
                8,
            )));
        }
    }
}

/// The bundle identity of a sandwich list: its victim-hash prefixes, sorted,
/// deduplicated, hex-rendered and joined with '-'.
pub open spec fn spec_bundle_id(sw: Seq<Sandwich>) -> Seq<char> {
    join_ids(canon_sort(prefixes_of(sw)))
}

/// The bundle id ignores the order and multiplicity of victim transactions:
/// two batches whose victim-hash prefixes cover the same set get the same id.
pub proof fn lemma_bundle_id_stable(s1: Seq<Sandwich>, s2: Seq<Sandwich>)
    requires
        same_elements(prefixes_of(s1), prefixes_of(s2)),
    ensures
        spec_bundle_id(s1) == spec_bundle_id(s2),
{
    lemma_canon_sort_props(prefixes_of(s1));
    lemma_canon_sort_props(prefixes_of(s2));
    lemma_strictly_sorted_unique(canon_sort(prefixes_of(s1)), canon_sort(prefixes_of(s2)));
}

fn hash_prefix_exec(h: Bytes32) -> (r: u32)
    ensures
        r == hash_prefix(h),
{
    (h.hi >> 96u128) as u32
}

/// Inserts `x` into a sorted, duplicate-free vector, keeping it so.
fn insert_sorted_exec(c: &mut Vec<u32>, x: u32)
    requires
        strictly_sorted(old(c)@),
    ensures
        final(c)@ == insert_sorted(old(c)@, x),
        strictly_sorted(final(c)@),
{
    let n = c.len();
    let mut j: usize = 0;
    while j < n && c[j] < x
        invariant
            n == c@.len(),
            j <= n,
            strictly_sorted(c@),
            c@ == old(c)@,
            forall|k: int| 0 <= k < j ==> c@[k] < x,
        decreases n - j,
    {
        j = j + 1;
    }
    if j < n && c[j] == x {
        proof {
            lemma_insert_position(c@, x, j as int);
        }
        return ;
    }
    c.insert(j, x);
    proof {
        lemma_insert_position(old(c)@, x, j as int);
        assert(c@ =~= old(c)@.subrange(0, j as int) + seq![x] + old(c)@.skip(j as int));
        lemma_insert_sorted_props(old(c)@, x);
    }
}

/// Positional form of `insert_sorted`: inserting at the first index whose
/// element is not below `x` matches the recursive definition.
proof fn lemma_insert_position(c: Seq<u32>, x: u32, j: int)
    requires
        strictly_sorted(c),
        0 <= j <= c.len(),
        forall|k: int| 0 <= k < j ==> c[k] < x,
        j < c.len() ==> c[j] >= x,
    ensures
        insert_sorted(c, x) == if j < c.len() && c[j] == x {
            c
        } else {
            c.subrange(0, j) + seq![x] + c.skip(j)
        },
    decreases c.len(),
{
    if c.len() == 0 {
        assert(insert_sorted(c, x) =~= c.subrange(0, 0) + seq![x] + c.skip(0));
    } else if j == 0 {
        if c[0] == x {
        } else {
            assert(x < c[0]);
            assert(insert_sorted(c, x) =~= c.subrange(0, 0) + seq![x] + c.skip(0));
        }
    } else {
        assert(c[0] < x);
        lemma_insert_position(c.skip(1), x, j - 1);
        if j < c.len() && c[j] == x {
            assert(c.skip(1)[j - 1] == x);
            assert(insert_sorted(c, x) =~= c);
        } else {
            assert(insert_sorted(c, x) == seq![c[0]] + insert_sorted(c.skip(1), x));
            assert(c.skip(1).subrange(0, j - 1) =~= c.subrange(1, j));
            assert(c.skip(1).skip(j - 1) =~= c.skip(j));
            assert(insert_sorted(c, x) =~= c.subrange(0, j) + seq![x] + c.skip(j));
        }
    }
}

impl BatchSandwich {
    /// The batch's dedup key: sorted, deduplicated victim-hash prefixes,
    /// rendered in hex and joined with '-'.
    pub fn bundle_id(&self) -> (r: String)
        ensures
            r@ == spec_bundle_id(self.sandwiches@),
    {
        let ghost all = prefixes_of(self.sandwiches@);
        let n = self.sandwiches.len();
        // Process back to front so the accumulator mirrors canon_sort.
        let mut sorted: Vec<u32> = Vec::new();
        let mut i: usize = n;
        proof {
            assert(all.skip(n as int) =~= Seq::<u32>::empty());
        }
        while i > 0
            invariant
                n == self.sandwiches@.len(),
                i <= n,
                all == prefixes_of(self.sandwiches@),
                strictly_sorted(sorted@),
                sorted@ == canon_sort(all.skip(i as int)),
            decreases i,
        {
            i = i - 1;
            let p = hash_prefix_exec(self.sandwiches[i].victim_tx.tx_hash);
            proof {
                assert(all[i as int] == hash_prefix(self.sandwiches@[i as int].victim_tx.tx_hash));
                assert(all.skip(i as int)[0] == all[i as int]);
                assert(all.skip(i as int).skip(1) =~= all.skip(i as int + 1));
            }
            insert_sorted_exec(&mut sorted, p);
        }
        proof {
            assert(all.skip(0) =~= all);
        }
        let mut id = String::new();
        let m = sorted.len();
        let mut k: usize = 0;
        proof {
            assert(sorted@.subrange(0, 0) =~= Seq::<u32>::empty());
            assert(id@ =~= join_ids(sorted@.subrange(0, 0)));
            lemma_pow16_values();
        }
        while k < m
            invariant
                m == sorted@.len(),
                k <= m,
                sorted@ == canon_sort(all),
                all == prefixes_of(self.sandwiches@),
                id@ == join_ids(sorted@.subrange(0, k as int)),
            decreases m - k,
        {
            if k > 0 {
                proof {
                    reveal_strlit("-");
                }
                id.append("-");
            }
            proof {
                reveal_strlit("0x");
                lemma_pow16_values();
            }
            id.append("0x");
            crate::encode::push_hex(&mut id, sorted[k] as u128, 8);
            proof {
                assert(sorted@.subrange(0, k as int + 1) =~= sorted@.subrange(0, k as int).push(
                    sorted@[k as int],
                ));
                lemma_join_ids_push(sorted@.subrange(0, k as int), sorted@[k as int]);
                assert(id@ =~= join_ids(sorted@.subrange(0, k as int + 1)));
            }
            k = k + 1;
        }
        proof {
            assert(sorted@.subrange(0, m as int) =~= sorted@);
        }
        id
    }

    pub fn victim_tx_hashes(&self) -> (r: Vec<Bytes32>)
        ensures
            r@ == Seq::new(
                self.sandwiches@.len(),
                |i: int| self.sandwiches@[i].victim_tx.tx_hash,
            ),
    {
        let n = self.sandwiches.len();
        let mut out: Vec<Bytes32> = Vec::new();
        let mut i: usize = 0;
        while i < n
            invariant
                n == self.sandwiches@.len(),
                i <= n,
                out@ == Seq::new(i as nat, |j: int| self.sandwiches@[j].victim_tx.tx_hash),
            decreases n - i,
        {
            out.push(self.sandwiches[i].victim_tx.tx_hash);
            proof {
                assert(out@ =~= Seq::new(
                    i as nat + 1,
                    |j: int| self.sandwiches@[j].victim_tx.tx_hash,
                ));
            }
            i = i + 1;
        }
        out
    }

    pub fn target_tokens(&self) -> (r: Vec<Addr>)
        ensures
            r@ == Seq::new(
                self.sandwiches@.len(),
                |i: int| self.sandwiches@[i].swap_info.target_token,
            ),
    {
        let n = self.sandwiches.len();
        let mut out: Vec<Addr> = Vec::new();
        let mut i: usize = 0;
        while i < n
            invariant
                n == self.sandwiches@.len(),
                i <= n,
                out@ == Seq::new(i as nat, |j: int| self.sandwiches@[j].swap_info.target_token),
            decreases n - i,
        {
            out.push(self.sandwiches[i].swap_info.target_token);
            proof {
                assert(out@ =~= Seq::new(
                    i as nat + 1,
                    |j: int| self.sandwiches@[j].swap_info.target_token,
                ));
            }
            i = i + 1;
        }
        out
    }

    /// Pairs of the batch's V2 sandwiches, in order, with repetitions.
    pub fn target_v2_pairs(&self) -> (r: Vec<Addr>)
        ensures
            r@ == self.sandwiches@.filter(|s: Sandwich| s.swap_info.version == 2).map_values(
                |s: Sandwich| s.swap_info.target_pair,
            ),
    {
        let n = self.sandwiches.len();
        let mut out: Vec<Addr> = Vec::new();
        let mut i: usize = 0;
        proof {
            assert(self.sandwiches@.subrange(0, 0) =~= Seq::<Sandwich>::empty());
            reveal(Seq::filter);
        }
        while i < n
            invariant
                n == self.sandwiches@.len(),
                i <= n,
                out@ == self.sandwiches@.subrange(0, i as int).filter(
                    |s: Sandwich| s.swap_info.version == 2,
                ).map_values(|s: Sandwich| s.swap_info.target_pair),
            decreases n - i,
        {
            if self.sandwiches[i].swap_info.version == 2 {
                out.push(self.sandwiches[i].swap_info.target_pair);
            }
            proof {
                let prefix = self.sandwiches@.subrange(0, i as int);
                let next = self.sandwiches@.subrange(0, i as int + 1);
                assert(next.drop_last() =~= prefix);
                assert(next.last() == self.sandwiches@[i as int]);
                reveal(Seq::filter);
                assert(out@ =~= next.filter(|s: Sandwich| s.swap_info.version == 2).map_values(
                    |s: Sandwich| s.swap_info.target_pair,
                ));
            }
            i = i + 1;
        }
        proof {
            assert(self.sandwiches@.subrange(0, n as int) =~= self.sandwiches@);
        }
        out
    }
}


/// The input actually spent on a swap: one less than the available amount, as
/// a safety margin against rounding reverts; zero when nothing is available.
pub open spec fn spec_margin_amount(amount: u128) -> u128 {
    if amount > 0 {
        (amount - 1) as u128
    } else {
        0
    }
}

/// The one-unit safety margin: the backrun spends strictly less than the
/// bot's post-frontrun balance of the target token.
pub proof fn lemma_backrun_margin(balance: u128)
    requires
        balance > 0,
    ensures
        spec_margin_amount(balance) < balance,
{
}

pub open spec fn spec_frontrun_params(sw: Seq<Sandwich>, reserves: Map<Addr, (u128, u128)>) -> Seq<
    SwapParams,
> {
    Seq::new(
        sw.len(),
        |i: int|
            {
                let info = sw[i].swap_info;
                let zero_for_one = info.token0_is_main;
                let amt = spec_margin_amount(sw[i].amount_in);
                let amount_out = if info.version == 2 {
                    let rs = reserves[info.target_pair];
                    let rin = if zero_for_one {
                        rs.0
                    } else {
                        rs.1
                    };
                    let rout = if zero_for_one {
                        rs.1
                    } else {
                        rs.0
                    };
                    spec_v2_amount_out(amt, rin, rout) as u128
                } else {
                    0
                };
                SwapParams {
                    zero_for_one,
                    pair: info.target_pair,
                    token_in: info.main_currency,
                    amount_in: amt,
                    amount_out,
                }
            },
    )
}

/// Whether index `i` carries the first occurrence of its victim hash.
pub open spec fn first_occurrence(sw: Seq<Sandwich>, i: int) -> bool {
    forall|j: int| 0 <= j < i ==> (#[trigger] sw[j]).victim_tx.tx_hash != sw[i].victim_tx.tx_hash
}

/// The victim transactions of the first `n` sandwiches, deduplicated by hash,
/// in first-seen order.
pub open spec fn spec_victim_txs(sw: Seq<Sandwich>, n: int) -> Seq<Tx>
    decreases n,
{
    if n <= 0 {
        Seq::empty()
    } else if first_occurrence(sw, n - 1) {
        spec_victim_txs(sw, n - 1).push(spec_tx_from(sw[n - 1].victim_tx))
    } else {
        spec_victim_txs(sw, n - 1)
    }
}

/// Margin-adjusted frontrun inputs of the first `n` sandwiches, summed per
/// main currency.
pub open spec fn spec_mc_totals(sw: Seq<Sandwich>, n: int) -> Map<Addr, int>
    decreases n,
{
    if n <= 0 {
        Map::empty()
    } else {
        let m = spec_mc_totals(sw, n - 1);
        let mc = sw[n - 1].swap_info.main_currency;
        let amt = spec_margin_amount(sw[n - 1].amount_in) as int;
        let prev = if m.contains_key(mc) {
            m[mc]
        } else {
            0
        };
        m.insert(mc, prev + amt)
    }
}

pub open spec fn frontrun_reserves_ok(sw: Seq<Sandwich>, reserves: Map<Addr, (u128, u128)>) -> bool {
    forall|i: int|
        0 <= i < sw.len() && (#[trigger] sw[i]).swap_info.version == 2 ==> reserves.contains_key(
            sw[i].swap_info.target_pair,
        ) && fits_u112(reserves[sw[i].swap_info.target_pair].0) && fits_u112(
            reserves[sw[i].swap_info.target_pair].1,
        )
}

impl BatchSandwich {
    /// Builds the frontrun calldata (a buy on every target pair), the
    /// deduplicated victim transactions, and the capital committed per main
    /// currency.
    pub fn encode_frontrun_tx(
        &self,
        block_number: u64,
        pair_reserves: &AddrMap<(u128, u128)>,
    ) -> (r: (Vec<u8>, Vec<Tx>, AddrMap<u128>))
        requires
            pair_reserves.wf(),
            self.sandwiches@.len() <= 4096,
            forall|i: int|
                0 <= i < self.sandwiches@.len() ==> fits_u112(
                    (#[trigger] self.sandwiches@[i]).amount_in,
                ),
            frontrun_reserves_ok(self.sandwiches@, pair_reserves@),
        ensures
            r.0@ == packed_bytes(
                block_number,
                spec_frontrun_params(self.sandwiches@, pair_reserves@),
            ),
            r.1@.len() == spec_victim_txs(self.sandwiches@, self.sandwiches@.len() as int).len(),
            forall|k: int|
                0 <= k < r.1@.len() ==> tx_eq(
                    #[trigger] r.1@[k],
                    spec_victim_txs(self.sandwiches@, self.sandwiches@.len() as int)[k],
                ),
            r.2.wf(),
            forall|k: Addr| #![all_triggers]
                r.2@.contains_key(k) <==> spec_mc_totals(
                    self.sandwiches@,
                    self.sandwiches@.len() as int,
                ).contains_key(k),
            forall|k: Addr| #![all_triggers]
                r.2@.contains_key(k) ==> r.2@[k] == spec_mc_totals(
                    self.sandwiches@,
                    self.sandwiches@.len() as int,
                )[k],
    {
        let ghost sw = self.sandwiches@;
        let ghost res = pair_reserves@;
        let n = self.sandwiches.len();
        let mut params: Vec<SwapParams> = Vec::new();
        let mut victim_txs: Vec<Tx> = Vec::new();
        let mut seen: crate::maps::TxMap<bool> = crate::maps::TxMap::new();
        let mut starting_mc_values: AddrMap<u128> = AddrMap::new();
        let mut i: usize = 0;
        while i < n
            invariant
                n == sw.len(),
                i <= n,
                sw == self.sandwiches@,
                res == pair_reserves@,
                pair_reserves.wf(),
                seen.wf(),
                starting_mc_values.wf(),
                sw.len() <= 4096,
                forall|k: int| 0 <= k < sw.len() ==> fits_u112((#[trigger] sw[k]).amount_in),
                frontrun_reserves_ok(sw, res),
                params@ =~= spec_frontrun_params(sw, res).subrange(0, i as int),
                victim_txs@.len() == spec_victim_txs(sw, i as int).len(),
                forall|k: int|
                    0 <= k < victim_txs@.len() ==> tx_eq(
                        #[trigger] victim_txs@[k],
                        spec_victim_txs(sw, i as int)[k],
                    ),
                forall|h: Bytes32| #![all_triggers]
                    seen@.contains_key(h) <==> exists|j: int|
                        0 <= j < i && (#[trigger] sw[j]).victim_tx.tx_hash == h,
                forall|k: Addr| #![all_triggers]
                    starting_mc_values@.contains_key(k) <==> spec_mc_totals(
                        sw,
                        i as int,
                    ).contains_key(k),
                forall|k: Addr| #![all_triggers]
                    starting_mc_values@.contains_key(k) ==> starting_mc_values@[k]
                        == spec_mc_totals(sw, i as int)[k] && starting_mc_values@[k] <= (i as int)
                        * 0x10000000000000000000000000000,
            decreases n - i,
        {
            let s = &self.sandwiches[i];
            let tx_hash = s.victim_tx.tx_hash;
            if !seen.contains_key(tx_hash) {
                seen.insert(tx_hash, true);
                let vt = &s.victim_tx;
                let gas_limit: u64 = match vt.gas_limit {
                    Some(gas_limit) => gas_limit,
                    None => 5000000,
                };
                let tx = Tx {
                    caller: vt.from,
                    transact_to: vt.to,
                    data: crate::encode::copy_bytes(&vt.data),
                    value: vt.value,
                    gas_price: vt.gas_price,
                    gas_limit,
                };
                proof {
                    assert(first_occurrence(sw, i as int));
                    assert(tx_eq(tx, spec_tx_from(sw[i as int].victim_tx)));
                }
                victim_txs.push(tx);
            } else {
                proof {
                    assert(!first_occurrence(sw, i as int));
                }
            }
            let zero_for_one = s.swap_info.token0_is_main;
            let new_amount_in: u128 = if s.amount_in > 0 {
                s.amount_in - 1
            } else {
                0
            };
            let amount_out: u128 = if s.swap_info.version == 2 {
                let rs = match pair_reserves.get(s.swap_info.target_pair) {
                    Some(rs) => *rs,
                    None => (0, 0),
                };
                let (reserve_in, reserve_out) = if zero_for_one {
                    (rs.0, rs.1)
                } else {
                    (rs.1, rs.0)
                };
                get_v2_amount_out(new_amount_in, reserve_in, reserve_out)
            } else {
                0
            };
            params.push(
                SwapParams {
                    zero_for_one,
                    pair: s.swap_info.target_pair,
                    token_in: s.swap_info.main_currency,
                    amount_in: new_amount_in,
                    amount_out,
                },
            );
            proof {
                assert(params@ =~= spec_frontrun_params(sw, res).subrange(0, i as int + 1));
            }
            let main_currency = s.swap_info.main_currency;
            let prev: u128 = match starting_mc_values.get(main_currency) {
                Some(v) => *v,
                None => 0,
            };
            starting_mc_values.insert(main_currency, prev + new_amount_in);
            i = i + 1;
        }
        proof {
            assert(spec_frontrun_params(sw, res).subrange(0, n as int) =~= spec_frontrun_params(
                sw,
                res,
            ));
        }
        let frontrun_calldata = encode_packed(block_number, &params);
        (frontrun_calldata, victim_txs, starting_mc_values)
    }
}

pub open spec fn spec_backrun_params(
    sw: Seq<Sandwich>,
    reserves: Map<Addr, (u128, u128)>,
    balances: Map<Addr, u128>,
) -> Seq<SwapParams> {
    Seq::new(
        sw.len(),
        |i: int|
            {
                let info = sw[i].swap_info;
                let zero_for_one = info.token0_is_main;
                let bal = if balances.contains_key(info.target_token) {
                    balances[info.target_token]
                } else {
                    0
                };
                let amt = spec_margin_amount(bal);
                let amount_out = if info.version == 2 {
                    let rs = reserves[info.target_pair];
                    let rin = if zero_for_one {
                        rs.1
                    } else {
                        rs.0
                    };
                    let rout = if zero_for_one {
                        rs.0
                    } else {
                        rs.1
                    };
                    spec_v2_amount_out(amt, rin, rout) as u128
                } else {
                    0
                };
                SwapParams {
                    zero_for_one: !zero_for_one,
                    pair: info.target_pair,
                    token_in: info.target_token,
                    amount_in: amt,
                    amount_out,
                }
            },
    )
}

/// The backrun of a positive balance spends exactly the balance less one,
/// strictly below the balance itself.
pub proof fn lemma_backrun_spends_below_balance(
    sw: Seq<Sandwich>,
    reserves: Map<Addr, (u128, u128)>,
    balances: Map<Addr, u128>,
    i: int,
)
    requires
        0 <= i < sw.len(),
        balances.contains_key(sw[i].swap_info.target_token),
        balances[sw[i].swap_info.target_token] > 0,
    ensures
        spec_backrun_params(sw, reserves, balances)[i].amount_in < balances[sw[i].swap_info.target_token],
{
}

impl BatchSandwich {
    /// Builds the backrun calldata: the frontrun's buys flipped into sells of
    /// the bot's accumulated target-token balances.
    pub fn encode_backrun_tx(
        &self,
        block_number: u64,
        pair_reserves: &AddrMap<(u128, u128)>,
        token_balances: &AddrMap<u128>,
    ) -> (r: Vec<u8>)
        requires
            pair_reserves.wf(),
            token_balances.wf(),
            forall|k: Addr|
                token_balances@.contains_key(k) ==> fits_u112(#[trigger] token_balances@[k]),
            frontrun_reserves_ok(self.sandwiches@, pair_reserves@),
        ensures
            r@ == packed_bytes(
                block_number,
                spec_backrun_params(self.sandwiches@, pair_reserves@, token_balances@),
            ),
    {
        let ghost sw = self.sandwiches@;
        let ghost res = pair_reserves@;
        let ghost bals = token_balances@;
        let n = self.sandwiches.len();
        let mut params: Vec<SwapParams> = Vec::new();
        let mut i: usize = 0;
        while i < n
            invariant
                n == sw.len(),
                i <= n,
                sw == self.sandwiches@,
                res == pair_reserves@,
                bals == token_balances@,
                pair_reserves.wf(),
                token_balances.wf(),
                forall|k: Addr| bals.contains_key(k) ==> fits_u112(#[trigger] bals[k]),
                frontrun_reserves_ok(sw, res),
                params@ =~= spec_backrun_params(sw, res, bals).subrange(0, i as int),
            decreases n - i,
        {
            let s = &self.sandwiches[i];
            let balance: u128 = match token_balances.get(s.swap_info.target_token) {
                Some(v) => *v,
                None => 0,
            };
            let new_amount_in: u128 = if balance > 0 {
                balance - 1
            } else {
                0
            };
            let zero_for_one = s.swap_info.token0_is_main;
            let amount_out: u128 = if s.swap_info.version == 2 {
                let rs = match pair_reserves.get(s.swap_info.target_pair) {
                    Some(rs) => *rs,
                    None => (0, 0),
                };
                // Selling back: the reserve sides swap relative to the frontrun.
                let (reserve_in, reserve_out) = if zero_for_one {
                    (rs.1, rs.0)
                } else {
                    (rs.0, rs.1)
                };
                get_v2_amount_out(new_amount_in, reserve_in, reserve_out)
            } else {
                0
            };
            params.push(
                SwapParams {
                    zero_for_one: !zero_for_one,
                    pair: s.swap_info.target_pair,
                    token_in: s.swap_info.target_token,
                    amount_in: new_amount_in,
                    amount_out,
                },
            );
            proof {
                assert(params@ =~= spec_backrun_params(sw, res, bals).subrange(0, i as int + 1));
            }
            i = i + 1;
        }
        proof {
            assert(spec_backrun_params(sw, res, bals).subrange(0, n as int) =~= spec_backrun_params(
                sw,
                res,
                bals,
            ));
        }
        encode_packed(block_number, &params)
    }
}


/// A quantity saturated at the largest value a V2 reserve slot holds.
pub open spec fn spec_clamp_u112(x: int) -> u128 {
    if x > 0xFFFFFFFFFFFFFFFFFFFFFFFFFFFF {
        0xFFFFFFFFFFFFFFFFFFFFFFFFFFFF
    } else {
        x as u128
    }
}

fn clamp_u112(x: u128) -> (r: u128)
    ensures
        r == spec_clamp_u112(x as int),
        fits_u112(r),
{
    if x > 0xFFFF_FFFF_FFFF_FFFF_FFFF_FFFF_FFFF {
        0xFFFF_FFFF_FFFF_FFFF_FFFF_FFFF_FFFF
    } else {
        x
    }
}

pub open spec fn reserves_fit(m: Map<Addr, (u128, u128)>) -> bool {
    forall|k: Addr|
        m.contains_key(k) ==> fits_u112((#[trigger] m[k]).0) && fits_u112(m[k].1)
}

pub open spec fn balances_fit(m: Map<Addr, u128>) -> bool {
    forall|k: Addr| m.contains_key(k) ==> fits_u112(#[trigger] m[k])
}

/// The reserves and the bot's target-token balances after the frontrun buys
/// of the first `n` sandwiches run in order against `res0`: each swap spends
/// the margin-adjusted input on its pair's quote side and collects the
/// constant-product output; grown quantities saturate at the reserve width.
pub open spec fn spec_replay_frontrun(
    sw: Seq<Sandwich>,
    res0: Map<Addr, (u128, u128)>,
    n: int,
) -> (Map<Addr, (u128, u128)>, Map<Addr, u128>)
    decreases n,
{
    if n <= 0 {
        (res0, Map::empty())
    } else {
        let prev = spec_replay_frontrun(sw, res0, n - 1);
        let res = prev.0;
        let bal = prev.1;
        let info = sw[n - 1].swap_info;
        let amount = spec_margin_amount(sw[n - 1].amount_in);
        let rs = if res.contains_key(info.target_pair) {
            res[info.target_pair]
        } else {
            (0u128, 0u128)
        };
        let rin = if info.token0_is_main {
            rs.0
        } else {
            rs.1
        };
        let rout = if info.token0_is_main {
            rs.1
        } else {
            rs.0
        };
        let out = spec_v2_amount_out(amount, rin, rout) as u128;
        let updated = if info.token0_is_main {
            (spec_clamp_u112(rs.0 + amount), (rs.1 - out) as u128)
        } else {
            ((rs.0 - out) as u128, spec_clamp_u112(rs.1 + amount))
        };
        let held = if bal.contains_key(info.target_token) {
            bal[info.target_token]
        } else {
            0u128
        };
        (
            res.insert(info.target_pair, updated),
            bal.insert(info.target_token, spec_clamp_u112(held + out)),
        )
    }
}

/// Replays the batch's frontrun buys on the given reserves, returning the
/// post-frontrun reserves and the bot's target-token balances.
pub fn replay_frontrun_swaps(
    sandwiches: &Vec<Sandwich>,
    pair_reserves: &AddrMap<(u128, u128)>,
) -> (r: (AddrMap<(u128, u128)>, AddrMap<u128>))
    requires
        pair_reserves.wf(),
        reserves_fit(pair_reserves@),
        forall|i: int|
            0 <= i < sandwiches@.len() ==> fits_u112((#[trigger] sandwiches@[i]).amount_in),
    ensures
        r.0.wf(),
        r.1.wf(),
        r.0@ == spec_replay_frontrun(sandwiches@, pair_reserves@, sandwiches@.len() as int).0,
        r.1@ == spec_replay_frontrun(sandwiches@, pair_reserves@, sandwiches@.len() as int).1,
        reserves_fit(r.0@),
        balances_fit(r.1@),
{
    let ghost sw = sandwiches@;
    let ghost res0 = pair_reserves@;
    let mut reserves: AddrMap<(u128, u128)> = AddrMap::new();
    let m = pair_reserves.entries.len();
    let mut c: usize = 0;
    while c < m
        invariant
            pair_reserves.wf(),
            c <= m,
            m == pair_reserves.entries@.len(),
            reserves.wf(),
            reserves@ == crate::maps::addr_alist_map(pair_reserves.entries@.subrange(0, c as int)),
        decreases m - c,
    {
        let entry = &pair_reserves.entries[c];
        reserves.insert(entry.0, entry.1);
        proof {
            assert(pair_reserves.entries@.subrange(0, c as int + 1).drop_last()
                =~= pair_reserves.entries@.subrange(0, c as int));
        }
        c = c + 1;
    }
    proof {
        assert(pair_reserves.entries@.subrange(0, m as int) =~= pair_reserves.entries@);
    }
    let mut balances: AddrMap<u128> = AddrMap::new();
    let n = sandwiches.len();
    let mut i: usize = 0;
    while i < n
        invariant
            n == sw.len(),
            i <= n,
            sw == sandwiches@,
            res0 == pair_reserves@,
            forall|k: int| 0 <= k < n ==> fits_u112((#[trigger] sw[k]).amount_in),
            reserves.wf(),
            balances.wf(),
            reserves@ == spec_replay_frontrun(sw, res0, i as int).0,
            balances@ == spec_replay_frontrun(sw, res0, i as int).1,
            reserves_fit(reserves@),
            balances_fit(balances@),
        decreases n - i,
    {
        let s = &sandwiches[i];
        let info = s.swap_info;
        let amount: u128 = if s.amount_in > 0 {
            s.amount_in - 1
        } else {
            0
        };
        let rs: (u128, u128) = match reserves.get(info.target_pair) {
            Some(r) => *r,
            None => (0, 0),
        };
        let (reserve_in, reserve_out) = if info.token0_is_main {
            (rs.0, rs.1)
        } else {
            (rs.1, rs.0)
        };
        let out = get_v2_amount_out(amount, reserve_in, reserve_out);
        let updated = if info.token0_is_main {
            (clamp_u112(rs.0 + amount), rs.1 - out)
        } else {
            (rs.0 - out, clamp_u112(rs.1 + amount))
        };
        reserves.insert(info.target_pair, updated);
        let held: u128 = match balances.get(info.target_token) {
            Some(v) => *v,
            None => 0,
        };
        balances.insert(info.target_token, clamp_u112(held + out));
        i = i + 1;
    }
    (reserves, balances)
}

/// The main-currency proceeds of the backrun sells of the first `n`
/// sandwiches, run in order: each sells the bot's held target-token balance
/// less one back through its pair, flipped relative to the frontrun; proceeds
/// accumulate per main currency and saturate at the reserve width.
pub open spec fn spec_replay_backrun(
    sw: Seq<Sandwich>,
    res0: Map<Addr, (u128, u128)>,
    bal0: Map<Addr, u128>,
    n: int,
) -> (Map<Addr, (u128, u128)>, Map<Addr, u128>, Map<Addr, u128>)
    decreases n,
{
    if n <= 0 {
        (res0, bal0, Map::empty())
    } else {
        let prev = spec_replay_backrun(sw, res0, bal0, n - 1);
        let res = prev.0;
        let bal = prev.1;
        let proceeds = prev.2;
        let info = sw[n - 1].swap_info;
        let held = if bal.contains_key(info.target_token) {
            bal[info.target_token]
        } else {
            0u128
        };
        let amount = spec_margin_amount(held);
        let rs = if res.contains_key(info.target_pair) {
            res[info.target_pair]
        } else {
            (0u128, 0u128)
        };
        let rin = if info.token0_is_main {
            rs.1
        } else {
            rs.0
        };
        let rout = if info.token0_is_main {
            rs.0
        } else {
            rs.1
        };
        let out = spec_v2_amount_out(amount, rin, rout) as u128;
        let updated = if info.token0_is_main {
            ((rs.0 - out) as u128, spec_clamp_u112(rs.1 + amount))
        } else {
            (spec_clamp_u112(rs.0 + amount), (rs.1 - out) as u128)
        };
        let leftover: u128 = if held > 0 {
            1
        } else {
            0
        };
        let got = if proceeds.contains_key(info.main_currency) {
            proceeds[info.main_currency]
        } else {
            0u128
        };
        (
            res.insert(info.target_pair, updated),
            bal.insert(info.target_token, leftover),
            proceeds.insert(info.main_currency, spec_clamp_u112(got + out)),
        )
    }
}

/// Replays the batch's backrun sells on the post-frontrun reserves and
/// balances, returning what each main currency collects.
pub fn replay_backrun_swaps(
    sandwiches: &Vec<Sandwich>,
    pair_reserves: &AddrMap<(u128, u128)>,
    token_balances: &AddrMap<u128>,
) -> (r: AddrMap<u128>)
    requires
        pair_reserves.wf(),
        token_balances.wf(),
        reserves_fit(pair_reserves@),
        balances_fit(token_balances@),
    ensures
        r.wf(),
        r@ == spec_replay_backrun(
            sandwiches@,
            pair_reserves@,
            token_balances@,
            sandwiches@.len() as int,
        ).2,
        balances_fit(r@),
{
    let ghost sw = sandwiches@;
    let ghost res0 = pair_reserves@;
    let ghost bal0 = token_balances@;
    let mut reserves: AddrMap<(u128, u128)> = AddrMap::new();
    let m = pair_reserves.entries.len();
    let mut c: usize = 0;
    while c < m
        invariant
            pair_reserves.wf(),
            c <= m,
            m == pair_reserves.entries@.len(),
            reserves.wf(),
            reserves@ == crate::maps::addr_alist_map(pair_reserves.entries@.subrange(0, c as int)),
        decreases m - c,
    {
        let entry = &pair_reserves.entries[c];
        reserves.insert(entry.0, entry.1);
        proof {
            assert(pair_reserves.entries@.subrange(0, c as int + 1).drop_last()
                =~= pair_reserves.entries@.subrange(0, c as int));
        }
        c = c + 1;
    }
    proof {
        assert(pair_reserves.entries@.subrange(0, m as int) =~= pair_reserves.entries@);
    }
    let mut balances: AddrMap<u128> = AddrMap::new();
    let mb = token_balances.entries.len();
    let mut b: usize = 0;
    while b < mb
        invariant
            token_balances.wf(),
            b <= mb,
            mb == token_balances.entries@.len(),
            balances.wf(),
            balances@ == crate::maps::addr_alist_map(token_balances.entries@.subrange(0, b as int)),
        decreases mb - b,
    {
        let entry = &token_balances.entries[b];
        balances.insert(entry.0, entry.1);
        proof {
            assert(token_balances.entries@.subrange(0, b as int + 1).drop_last()
                =~= token_balances.entries@.subrange(0, b as int));
        }
        b = b + 1;
    }
    proof {
        assert(token_balances.entries@.subrange(0, mb as int) =~= token_balances.entries@);
    }
    let mut proceeds: AddrMap<u128> = AddrMap::new();
    let n = sandwiches.len();
    let mut i: usize = 0;
    while i < n
        invariant
            n == sw.len(),
            i <= n,
            sw == sandwiches@,
            res0 == pair_reserves@,
            bal0 == token_balances@,
            reserves.wf(),
            balances.wf(),
            proceeds.wf(),
            reserves@ == spec_replay_backrun(sw, res0, bal0, i as int).0,
            balances@ == spec_replay_backrun(sw, res0, bal0, i as int).1,
            proceeds@ == spec_replay_backrun(sw, res0, bal0, i as int).2,
            reserves_fit(reserves@),
            balances_fit(balances@),
            balances_fit(proceeds@),
        decreases n - i,
    {
        let s = &sandwiches[i];
        let info = s.swap_info;
        let held: u128 = match balances.get(info.target_token) {
            Some(v) => *v,
            None => 0,
        };
        let amount: u128 = if held > 0 {
            held - 1
        } else {
            0
        };
        let rs: (u128, u128) = match reserves.get(info.target_pair) {
            Some(r) => *r,
            None => (0, 0),
        };
        let (reserve_in, reserve_out) = if info.token0_is_main {
            (rs.1, rs.0)
        } else {
            (rs.0, rs.1)
        };
        let out = get_v2_amount_out(amount, reserve_in, reserve_out);
        let updated = if info.token0_is_main {
            (rs.0 - out, clamp_u112(rs.1 + amount))
        } else {
            (clamp_u112(rs.0 + amount), rs.1 - out)
        };
        reserves.insert(info.target_pair, updated);
        let leftover: u128 = if held > 0 {
            1
        } else {
            0
        };
        balances.insert(info.target_token, leftover);
        let got: u128 = match proceeds.get(info.main_currency) {
            Some(v) => *v,
            None => 0,
        };
        proceeds.insert(info.main_currency, clamp_u112(got + out));
        i = i + 1;
    }
    proceeds
}

/// Balances of one main currency before and after the bundle ran, with the
/// reserves of its WETH conversion pair as read at settlement time.
#[derive(Clone, Copy, Debug)]
pub struct McSettleRow {
    pub main_currency: Addr,
    pub balance_before: u128,
    pub balance_after: u128,
    pub conversion_reserves: (u128, u128),
}

/// A main-currency amount priced in WETH: stables go through their conversion
/// pair, anything else counts at par.
pub open spec fn spec_weth_equiv(mc: Addr, amount: u128, reserves: (u128, u128)) -> int {
    if mc == usdt_addr() {
        spec_v2_amount_out(amount, reserves.1, reserves.0)
    } else if mc == usdc_addr() {
        spec_v2_amount_out(amount, reserves.0, reserves.1)
    } else {
        amount as int
    }
}

/// WETH-equivalent net gain over the first `n` settlement rows.
pub open spec fn spec_profit(rows: Seq<McSettleRow>, n: int) -> int
    decreases n,
{
    if n <= 0 {
        0
    } else {
        spec_profit(rows, n - 1) + spec_weth_equiv(
            rows[n - 1].main_currency,
            rows[n - 1].balance_after,
            rows[n - 1].conversion_reserves,
        ) - spec_weth_equiv(
            rows[n - 1].main_currency,
            rows[n - 1].balance_before,
            rows[n - 1].conversion_reserves,
        )
    }
}

/// ETH spent on gas: the drop of the owner's balance, or the whole starting
/// balance where the balance did not drop.
pub open spec fn spec_gas_cost(eth_balance_before: u128, eth_balance_after: u128) -> int {
    if eth_balance_after <= eth_balance_before {
        eth_balance_before - eth_balance_after
    } else {
        eth_balance_before as int
    }
}

pub open spec fn settle_rows_ok(rows: Seq<McSettleRow>) -> bool {
    forall|i: int|
        0 <= i < rows.len() ==> fits_u112((#[trigger] rows[i]).balance_before) && fits_u112(
            rows[i].balance_after,
        ) && fits_u112(rows[i].conversion_reserves.0) && fits_u112(rows[i].conversion_reserves.1)
}

/// Settles a simulated bundle: profit as the WETH-equivalent balance change
/// summed over main currencies, gas as the owner's ETH drop, and
/// revenue = profit - gas_cost.
pub fn settle_simulation(
    rows: &Vec<McSettleRow>,
    eth_balance_before: u128,
    eth_balance_after: u128,
    front_gas_used: u64,
    back_gas_used: u64,
    front_access_list: Vec<AccessListItem>,
    back_access_list: Vec<AccessListItem>,
    front_calldata: Vec<u8>,
    back_calldata: Vec<u8>,
) -> (r: SimulatedSandwich)
    requires
        rows@.len() <= 4096,
        settle_rows_ok(rows@),
        fits_u112(eth_balance_before),
    ensures
        r.wf(),
        r.profit == spec_profit(rows@, rows@.len() as int),
        r.gas_cost == spec_gas_cost(eth_balance_before, eth_balance_after),
        r.revenue == r.profit - r.gas_cost,
        r.front_gas_used == front_gas_used,
        r.back_gas_used == back_gas_used,
        r.front_access_list == front_access_list,
        r.back_access_list == back_access_list,
        r.front_calldata == front_calldata,
        r.back_calldata == back_calldata,
{
    let n = rows.len();
    let mut profit: i128 = 0;
    let mut i: usize = 0;
    while i < n
        invariant
            n == rows@.len(),
            i <= n,
            n <= 4096,
            settle_rows_ok(rows@),
            profit == spec_profit(rows@, i as int),
            -((i as int) * 0x10000000000000000000000000000) <= profit <= (i as int)
                * 0x10000000000000000000000000000,
        decreases n - i,
    {
        let row = rows[i];
        proof {
            assert(rows@[i as int] == row);
            assert(fits_u112(row.balance_before) && fits_u112(row.balance_after) && fits_u112(
                row.conversion_reserves.0,
            ) && fits_u112(row.conversion_reserves.1));
        }
        let before_equiv: u128 = if row.main_currency == crate::types::usdt() {
            crate::amm::convert_usdt_to_weth(row.balance_before, row.conversion_reserves)
        } else if row.main_currency == crate::types::usdc() {
            crate::amm::convert_usdc_to_weth(row.balance_before, row.conversion_reserves)
        } else {
            row.balance_before
        };
        let after_equiv: u128 = if row.main_currency == crate::types::usdt() {
            crate::amm::convert_usdt_to_weth(row.balance_after, row.conversion_reserves)
        } else if row.main_currency == crate::types::usdc() {
            crate::amm::convert_usdc_to_weth(row.balance_after, row.conversion_reserves)
        } else {
            row.balance_after
        };
        proof {
            assert(fits_u112(before_equiv) && fits_u112(after_equiv));
        }
        profit = profit + (after_equiv as i128) - (before_equiv as i128);
        i = i + 1;
    }
    let eth_used_as_gas: u128 = if eth_balance_after <= eth_balance_before {
        eth_balance_before - eth_balance_after
    } else {
        eth_balance_before
    };
    let gas_cost = eth_used_as_gas as i128;
    let revenue = profit - gas_cost;
    SimulatedSandwich {
        revenue,
        profit,
        gas_cost,
        front_gas_used,
        back_gas_used,
        front_access_list,
        back_access_list,
        front_calldata,
        back_calldata,
    }
}

} // verus!
