use vstd::prelude::*;

use bounded_vec_deque::BoundedVecDeque;

use crate::maps::TxMap;
use crate::sandwich::{Sandwich, SwapInfo};
use crate::types::{Addr, Bytes32};

verus! {

/// A sealed block, with the base fee projected for the block after it.
#[derive(Clone, Copy, Debug, PartialEq, Eq, Structural)]
pub struct NewBlock {
    pub block_number: u64,
    pub base_fee: u128,
    pub next_base_fee: u128,
}

/// The fields of a pending transaction that the strategy reads.
#[derive(Clone, Debug)]
pub struct TxData {
    pub hash: Bytes32,
    pub from: Addr,
    pub to: Option<Addr>,
    pub input: Vec<u8>,
    pub value: u128,
    pub gas: u64,
    pub gas_price: Option<u128>,
    pub max_fee_per_gas: Option<u128>,
    pub transaction_type: Option<u64>,
}

/// A pending transaction and the block at which it entered the table.
#[derive(Clone, Debug)]
pub struct NewPendingTx {
    pub added_block: Option<u64>,
    pub tx: TxData,
}

/// What the two streams publish.
#[derive(Clone, Debug)]
pub enum Event {
    Block(NewBlock),
    PendingTx(NewPendingTx),
}

/// A tracked pending transaction and the pool interactions it touches.
#[derive(Clone, Debug)]
pub struct PendingTxInfo {
    pub pending_tx: NewPendingTx,
    pub touched_pairs: Vec<SwapInfo>,
}

#[verifier::external_type_specification]
#[verifier::external_body]
#[verifier::reject_recursive_types(T)]
pub struct ExBoundedVecDeque<T>(BoundedVecDeque<T>);

/// What the recent-bundle queue holds, oldest first.
pub uninterp spec fn recent_ids_elems(q: BoundedVecDeque<String>) -> Seq<Seq<char>>;

/// The length bound the recent-bundle queue was created with.
pub uninterp spec fn recent_ids_bound(q: BoundedVecDeque<String>) -> nat;

/// Relies on bounded_vec_deque::BoundedVecDeque::new: an empty deque with the
/// given length bound.
#[verifier::external_body]
fn new_recent_ids(max_len: usize) -> (q: BoundedVecDeque<String>)
    ensures
        recent_ids_elems(q) == Seq::<Seq<char>>::empty(),
        recent_ids_bound(q) == max_len,
{
    BoundedVecDeque::new(max_len)
}

/// Relies on VecDeque::contains, reached through BoundedVecDeque's Deref:
/// whether any held string equals the given one.
#[verifier::external_body]
fn recent_ids_contains(q: &BoundedVecDeque<String>, id: &String) -> (r: bool)
    ensures
        r == recent_ids_elems(*q).contains(id@),
{
    q.contains(id)
}

/// Relies on bounded_vec_deque::BoundedVecDeque::push_back: appends at the
/// back; a full deque first drops its front element; a zero-bound deque
/// stays empty.
#[verifier::external_body]
fn recent_ids_push(q: &mut BoundedVecDeque<String>, id: String)
    ensures
        recent_ids_bound(*final(q)) == recent_ids_bound(*old(q)),
        recent_ids_elems(*final(q)) == (if recent_ids_bound(*old(q)) == 0 {
            recent_ids_elems(*old(q))
        } else if recent_ids_elems(*old(q)).len() < recent_ids_bound(*old(q)) {
            recent_ids_elems(*old(q)).push(id@)
        } else {
            recent_ids_elems(*old(q)).skip(1).push(id@)
        }),
{
    let _ = q.push_back(id);
}

pub open spec fn hash_in(s: Seq<Bytes32>, h: Bytes32) -> bool {
    exists|i: int| 0 <= i < s.len() && s[i] == h
}

/// The block at which a tracked pending transaction entered the table.
pub open spec fn spec_added_block(info: PendingTxInfo) -> u64 {
    info.pending_tx.added_block.unwrap()
}

/// A tracked pending transaction is kept while it is under three blocks old.
pub open spec fn spec_is_fresh(info: PendingTxInfo, block_number: u64) -> bool {
    block_number - spec_added_block(info) < 3
}

/// The tables the strategy loop owns: pending victim transactions, the
/// promising sandwiches built on them, and the recently submitted bundle ids.
pub struct StrategyState {
    pub pending_txs: TxMap<PendingTxInfo>,
    pub promising_sandwiches: TxMap<Vec<Sandwich>>,
    pub simulated_bundle_ids: BoundedVecDeque<String>,
}

impl StrategyState {
    pub open spec fn wf(&self) -> bool {
        &&& self.pending_txs.wf()
        &&& self.promising_sandwiches.wf()
        &&& forall|h: Bytes32|
            self.pending_txs@.contains_key(h) ==> (#[trigger] self.pending_txs@[h]).pending_tx.added_block is Some
    }

    pub fn new() -> (r: Self)
        ensures
            r.wf(),
            r.pending_txs@ == Map::<Bytes32, PendingTxInfo>::empty(),
            r.promising_sandwiches@ == Map::<Bytes32, Vec<Sandwich>>::empty(),
            recent_ids_elems(r.simulated_bundle_ids) == Seq::<Seq<char>>::empty(),
            recent_ids_bound(r.simulated_bundle_ids) == 30,
    {
        StrategyState {
            pending_txs: TxMap::new(),
            promising_sandwiches: TxMap::new(),
            simulated_bundle_ids: new_recent_ids(30),
        }
    }

    pub fn already_received(&self, tx_hash: Bytes32) -> (r: bool)
        requires
            self.wf(),
        ensures
            r == self.pending_txs@.contains_key(tx_hash),
    {
        self.pending_txs.contains_key(tx_hash)
    }

    /// A transaction seen with a receipt is confirmed and leaves the table.
    pub fn drop_confirmed(&mut self, tx_hash: Bytes32)
        requires
            old(self).wf(),
        ensures
            final(self).wf(),
            final(self).pending_txs@ == old(self).pending_txs@.remove(tx_hash),
            final(self).promising_sandwiches@ == old(self).promising_sandwiches@,
            final(self).simulated_bundle_ids == old(self).simulated_bundle_ids,
    {
        self.pending_txs.remove(tx_hash);
    }

    /// Admits a classified pending transaction at the current block.
    pub fn record_pending_tx(
        &mut self,
        tx_hash: Bytes32,
        pending_tx: NewPendingTx,
        touched_pairs: Vec<SwapInfo>,
        block_number: u64,
    )
        requires
            old(self).wf(),
        ensures
            final(self).wf(),
            final(self).pending_txs@ == old(self).pending_txs@.insert(
                tx_hash,
                PendingTxInfo {
                    pending_tx: NewPendingTx {
                        added_block: Some(block_number),
                        tx: pending_tx.tx,
                    },
                    touched_pairs,
                },
            ),
            final(self).promising_sandwiches@ == old(self).promising_sandwiches@,
            final(self).simulated_bundle_ids == old(self).simulated_bundle_ids,
    {
        let info = PendingTxInfo {
            pending_tx: NewPendingTx { added_block: Some(block_number), tx: pending_tx.tx },
            touched_pairs,
        };
        self.pending_txs.insert(tx_hash, info);
    }

    /// Files one more promising sandwich under its victim transaction.
    pub fn add_promising_sandwich(&mut self, tx_hash: Bytes32, sandwich: Sandwich)
        requires
            old(self).wf(),
        ensures
            final(self).wf(),
            final(self).pending_txs@ == old(self).pending_txs@,
            final(self).simulated_bundle_ids == old(self).simulated_bundle_ids,
            final(self).promising_sandwiches@.contains_key(tx_hash),
            final(self).promising_sandwiches@[tx_hash]@ == (if old(self).promising_sandwiches@.contains_key(tx_hash) {
                old(self).promising_sandwiches@[tx_hash]@.push(sandwich)
            } else {
                seq![sandwich]
            }),
            forall|h: Bytes32|
                h != tx_hash ==> (#[trigger] final(self).promising_sandwiches@.contains_key(h))
                    == old(self).promising_sandwiches@.contains_key(h),
            forall|h: Bytes32|
                h != tx_hash && old(self).promising_sandwiches@.contains_key(h) ==> (
                #[trigger] final(self).promising_sandwiches@[h]) == old(self).promising_sandwiches@[h],
    {
        let existing = self.promising_sandwiches.take(tx_hash);
        match existing {
            Some(mut sandwiches) => {
                sandwiches.push(sandwich);
                self.promising_sandwiches.insert(tx_hash, sandwiches);
            },
            None => {
                let mut sandwiches: Vec<Sandwich> = Vec::new();
                sandwiches.push(sandwich);
                self.promising_sandwiches.insert(tx_hash, sandwiches);
            },
        }
        proof {
            assert(final(self).promising_sandwiches@ =~= old(self).promising_sandwiches@.insert(
                tx_hash,
                final(self).promising_sandwiches@[tx_hash],
            ));
        }
    }

    pub fn has_promising(&self) -> (r: bool)
        ensures
            r == (self.promising_sandwiches.entries@.len() > 0),
    {
        self.promising_sandwiches.len() > 0
    }

    pub fn bundle_already_simulated(&self, bundle_id: &String) -> (r: bool)
        ensures
            r == recent_ids_elems(self.simulated_bundle_ids).contains(bundle_id@),
    {
        recent_ids_contains(&self.simulated_bundle_ids, bundle_id)
    }

    pub fn record_bundle_id(&mut self, bundle_id: String)
        ensures
            final(self).pending_txs == old(self).pending_txs,
            final(self).promising_sandwiches == old(self).promising_sandwiches,
            recent_ids_bound(final(self).simulated_bundle_ids) == recent_ids_bound(
                old(self).simulated_bundle_ids,
            ),
            recent_ids_elems(final(self).simulated_bundle_ids) == (if recent_ids_bound(
                old(self).simulated_bundle_ids,
            ) == 0 {
                recent_ids_elems(old(self).simulated_bundle_ids)
            } else if recent_ids_elems(old(self).simulated_bundle_ids).len() < recent_ids_bound(
                old(self).simulated_bundle_ids,
            ) {
                recent_ids_elems(old(self).simulated_bundle_ids).push(bundle_id@)
            } else {
                recent_ids_elems(old(self).simulated_bundle_ids).skip(1).push(bundle_id@)
            }),
    {
        recent_ids_push(&mut self.simulated_bundle_ids, bundle_id);
    }

    /// Reacts to a sealed block: drops tracked transactions it confirmed, then
    /// evicts entries three or more blocks old, and keeps only promising
    /// sandwiches whose victim is still tracked.
    pub fn on_block(&mut self, block_number: u64, confirmed_tx_hashes: &Vec<Bytes32>)
        requires
            old(self).wf(),
            forall|h: Bytes32|
                old(self).pending_txs@.contains_key(h) ==> spec_added_block(
                    #[trigger] old(self).pending_txs@[h],
                ) <= block_number,
        ensures
            final(self).wf(),
            forall|h: Bytes32| #![all_triggers]
                final(self).pending_txs@.contains_key(h) <==> (old(self).pending_txs@.contains_key(h) && !hash_in(confirmed_tx_hashes@, h) && spec_is_fresh(
                    old(self).pending_txs@[h],
                    block_number,
                )),
            forall|h: Bytes32| #![all_triggers]
                final(self).pending_txs@.contains_key(h) ==> final(self).pending_txs@[h] == old(self).pending_txs@[h],
            forall|h: Bytes32| #![all_triggers]
                final(self).promising_sandwiches@.contains_key(h) <==> (old(self).promising_sandwiches@.contains_key(h) && final(self).pending_txs@.contains_key(
                    h,
                )),
            forall|h: Bytes32| #![all_triggers]
                final(self).promising_sandwiches@.contains_key(h) ==> final(self).promising_sandwiches@[h] == old(self).promising_sandwiches@[h],
            final(self).simulated_bundle_ids == old(self).simulated_bundle_ids,
    {
        let ghost pending0 = old(self).pending_txs@;
        let ghost promising0 = old(self).promising_sandwiches@;
        // Remove transactions the block confirmed.
        let n = confirmed_tx_hashes.len();
        let mut i: usize = 0;
        while i < n
            invariant
                n == confirmed_tx_hashes@.len(),
                i <= n,
                self.pending_txs.wf(),
                self.promising_sandwiches.wf(),
                self.simulated_bundle_ids == old(self).simulated_bundle_ids,
                pending0 == old(self).pending_txs@,
                promising0 == old(self).promising_sandwiches@,
                forall|h: Bytes32| #![all_triggers]
                    self.pending_txs@.contains_key(h) <==> (pending0.contains_key(h) && !hash_in(
                        confirmed_tx_hashes@.subrange(0, i as int),
                        h,
                    )),
                forall|h: Bytes32| #![all_triggers]
                    self.pending_txs@.contains_key(h) ==> self.pending_txs@[h] == pending0[h],
                forall|h: Bytes32| #![all_triggers]
                    self.promising_sandwiches@.contains_key(h) <==> (promising0.contains_key(h)
                        && !(pending0.contains_key(h) && hash_in(
                        confirmed_tx_hashes@.subrange(0, i as int),
                        h,
                    ))),
                forall|h: Bytes32| #![all_triggers]
                    self.promising_sandwiches@.contains_key(h)
                        ==> self.promising_sandwiches@[h] == promising0[h],
            decreases n - i,
        {
            let tx_hash = confirmed_tx_hashes[i];
            if self.pending_txs.contains_key(tx_hash) {
                self.pending_txs.remove(tx_hash);
                self.promising_sandwiches.remove(tx_hash);
            }
            proof {
                let pre = confirmed_tx_hashes@.subrange(0, i as int);
                let post = confirmed_tx_hashes@.subrange(0, i as int + 1);
                assert(post.drop_last() =~= pre);
                assert forall|h: Bytes32| hash_in(post, h) implies (hash_in(pre, h) || h
                    == confirmed_tx_hashes@[i as int]) by {
                    let k = choose|k: int| 0 <= k < post.len() && post[k] == h;
                    if k < i {
                        assert(pre[k] == h);
                    }
                }
                assert forall|h: Bytes32| hash_in(pre, h) implies hash_in(post, h) by {
                    let k = choose|k: int| 0 <= k < pre.len() && pre[k] == h;
                    assert(post[k] == h);
                }
                assert(hash_in(post, confirmed_tx_hashes@[i as int])) by {
                    assert(post[i as int] == confirmed_tx_hashes@[i as int]);
                }
            }
            i = i + 1;
        }
        proof {
            assert(confirmed_tx_hashes@.subrange(0, n as int) =~= confirmed_tx_hashes@);
        }
        // Evict entries that have gone stale.
        let ghost pending1 = self.pending_txs@;
        let mut stale: Vec<Bytes32> = Vec::new();
        let m = self.pending_txs.entries.len();
        let mut j: usize = 0;
        while j < m
            invariant
                self.pending_txs.wf(),
                m == self.pending_txs.entries@.len(),
                j <= m,
                pending1 == self.pending_txs@,
                pending0 == old(self).pending_txs@,
                forall|h: Bytes32|
                    pending1.contains_key(h) ==> pending1[h] == pending0[h]
                        && #[trigger] pending0.contains_key(h),
                forall|h: Bytes32|
                    pending0.contains_key(h) ==> (#[trigger] pending0[h]).pending_tx.added_block is Some
                        && spec_added_block(pending0[h]) <= block_number,
                forall|h: Bytes32| #![all_triggers]
                    hash_in(stale@, h) <==> exists|k: int|
                        0 <= k < j && (#[trigger] self.pending_txs.entries@[k]).0 == h
                            && !spec_is_fresh(self.pending_txs.entries@[k].1, block_number),
            decreases m - j,
        {
            proof {
                self.pending_txs.lemma_entry_in_view(j as int);
                let h = self.pending_txs.entries@[j as int].0;
                assert(pending1.contains_key(h));
                assert(pending1[h] == self.pending_txs.entries@[j as int].1);
                assert(pending0.contains_key(h));
                assert(pending0[h].pending_tx.added_block is Some);
                assert(spec_added_block(pending0[h]) <= block_number);
            }
            let entry = &self.pending_txs.entries[j];
            let tx_hash = entry.0;
            let added = match entry.1.pending_tx.added_block {
                Some(b) => b,
                None => 0,
            };
            proof {
                assert(added == spec_added_block(self.pending_txs.entries@[j as int].1));
                assert(added <= block_number);
            }
            let ghost stale_pre = stale@;
            if !(block_number - added < 3) {
                stale.push(tx_hash);
            }
            proof {
                assert forall|h: Bytes32|
                    hash_in(stale@, h) <==> exists|k: int|
                        0 <= k < j + 1 && (#[trigger] self.pending_txs.entries@[k]).0 == h
                            && !spec_is_fresh(self.pending_txs.entries@[k].1, block_number) by {
                    if hash_in(stale@, h) {
                        let q = choose|q: int| 0 <= q < stale@.len() && stale@[q] == h;
                        if q < stale_pre.len() {
                            assert(stale_pre[q] == h);
                            assert(hash_in(stale_pre, h));
                        } else {
                            assert(self.pending_txs.entries@[j as int].0 == h);
                        }
                    }
                    if exists|k: int|
                        0 <= k < j + 1 && (#[trigger] self.pending_txs.entries@[k]).0 == h
                            && !spec_is_fresh(self.pending_txs.entries@[k].1, block_number) {
                        let k = choose|k: int|
                            0 <= k < j + 1 && (#[trigger] self.pending_txs.entries@[k]).0 == h
                                && !spec_is_fresh(self.pending_txs.entries@[k].1, block_number);
                        if k < j {
                            assert(hash_in(stale_pre, h));
                            let q = choose|q: int| 0 <= q < stale_pre.len() && stale_pre[q] == h;
                            assert(stale@[q] == h);
                        } else {
                            assert(stale@[stale@.len() - 1] == h);
                        }
                    }
                }
            }
            j = j + 1;
        }
        proof {
            // A key is listed stale exactly when its tracked entry is stale.
            assert forall|h: Bytes32| #![all_triggers]
                hash_in(stale@, h) <==> (pending1.contains_key(h) && !spec_is_fresh(
                    pending1[h],
                    block_number,
                )) by {
                if hash_in(stale@, h) {
                    let k = choose|k: int|
                        0 <= k < m && (#[trigger] self.pending_txs.entries@[k]).0 == h
                            && !spec_is_fresh(self.pending_txs.entries@[k].1, block_number);
                    self.pending_txs.lemma_entry_in_view(k);
                }
                if pending1.contains_key(h) && !spec_is_fresh(pending1[h], block_number) {
                    self.pending_txs.lemma_view_in_entries(h);
                    let k = choose|k: int|
                        0 <= k < m && #[trigger] self.pending_txs.entries@[k] == (h, pending1[h]);
                }
            }
        }
        let s = stale.len();
        let mut t: usize = 0;
        while t < s
            invariant
                s == stale@.len(),
                t <= s,
                self.pending_txs.wf(),
                self.promising_sandwiches.wf(),
                self.simulated_bundle_ids == old(self).simulated_bundle_ids,
                pending0 == old(self).pending_txs@,
                promising0 == old(self).promising_sandwiches@,
                forall|h: Bytes32| #![all_triggers]
                    self.pending_txs@.contains_key(h) <==> (pending1.contains_key(h) && !(
                    exists|k: int| 0 <= k < t && stale@[k] == h)),
                forall|h: Bytes32| #![all_triggers]
                    self.pending_txs@.contains_key(h) ==> self.pending_txs@[h] == pending1[h],
                forall|h: Bytes32| #![all_triggers]
                    hash_in(stale@, h) <==> (pending1.contains_key(h) && !spec_is_fresh(
                        pending1[h],
                        block_number,
                    )),
                forall|h: Bytes32|
                    pending1.contains_key(h) ==> pending1[h] == pending0[h]
                        && #[trigger] pending0.contains_key(h),
                forall|h: Bytes32| #![all_triggers]
                    pending1.contains_key(h) <==> (pending0.contains_key(h) && !hash_in(
                        confirmed_tx_hashes@,
                        h,
                    )),
                forall|h: Bytes32| #![all_triggers]
                    self.promising_sandwiches@.contains_key(h) <==> (promising0.contains_key(h)
                        && !(pending0.contains_key(h) && hash_in(confirmed_tx_hashes@, h))),
                forall|h: Bytes32| #![all_triggers]
                    self.promising_sandwiches@.contains_key(h)
                        ==> self.promising_sandwiches@[h] == promising0[h],
            decreases s - t,
        {
            let tx_hash = stale[t];
            self.pending_txs.remove(tx_hash);
            proof {
                assert(stale@[t as int] == tx_hash);
            }
            t = t + 1;
        }
        // Keep only promising entries whose victim is still tracked.
        let ghost pending2 = self.pending_txs@;
        let ghost promising1 = self.promising_sandwiches@;
        let mut doomed: Vec<Bytes32> = Vec::new();
        let p = self.promising_sandwiches.entries.len();
        let mut u: usize = 0;
        while u < p
            invariant
                self.pending_txs.wf(),
                self.promising_sandwiches.wf(),
                p == self.promising_sandwiches.entries@.len(),
                u <= p,
                pending2 == self.pending_txs@,
                promising1 == self.promising_sandwiches@,
                forall|h: Bytes32| #![all_triggers]
                    hash_in(doomed@, h) <==> exists|k: int|
                        0 <= k < u && (#[trigger] self.promising_sandwiches.entries@[k]).0 == h
                            && !pending2.contains_key(h),
            decreases p - u,
        {
            proof {
                self.promising_sandwiches.lemma_entry_in_view(u as int);
            }
            let tx_hash = self.promising_sandwiches.entries[u].0;
            let ghost doomed_pre = doomed@;
            if !self.pending_txs.contains_key(tx_hash) {
                doomed.push(tx_hash);
            }
            proof {
                assert forall|h: Bytes32|
                    hash_in(doomed@, h) <==> exists|k: int|
                        0 <= k < u + 1 && (#[trigger] self.promising_sandwiches.entries@[k]).0 == h
                            && !pending2.contains_key(h) by {
                    if hash_in(doomed@, h) {
                        let q = choose|q: int| 0 <= q < doomed@.len() && doomed@[q] == h;
                        if q < doomed_pre.len() {
                            assert(doomed_pre[q] == h);
                            assert(hash_in(doomed_pre, h));
                        } else {
                            assert(self.promising_sandwiches.entries@[u as int].0 == h);
                        }
                    }
                    if exists|k: int|
                        0 <= k < u + 1 && (#[trigger] self.promising_sandwiches.entries@[k]).0 == h
                            && !pending2.contains_key(h) {
                        let k = choose|k: int|
                            0 <= k < u + 1 && (#[trigger] self.promising_sandwiches.entries@[k]).0
                                == h && !pending2.contains_key(h);
                        if k < u {
                            assert(hash_in(doomed_pre, h));
                            let q = choose|q: int|
                                0 <= q < doomed_pre.len() && doomed_pre[q] == h;
                            assert(doomed@[q] == h);
                        } else {
                            assert(doomed@[doomed@.len() - 1] == h);
                        }
                    }
                }
            }
            u = u + 1;
        }
        proof {
            assert forall|h: Bytes32| #![all_triggers]
                hash_in(doomed@, h) <==> (promising1.contains_key(h) && !pending2.contains_key(
                    h,
                )) by {
                if hash_in(doomed@, h) {
                    let k = choose|k: int|
                        0 <= k < p && (#[trigger] self.promising_sandwiches.entries@[k]).0 == h
                            && !pending2.contains_key(h);
                    self.promising_sandwiches.lemma_entry_in_view(k);
                }
                if promising1.contains_key(h) && !pending2.contains_key(h) {
                    self.promising_sandwiches.lemma_view_in_entries(h);
                    let k = choose|k: int|
                        0 <= k < p && #[trigger] self.promising_sandwiches.entries@[k] == (
                        h,
                        promising1[h],
                        );
                }
            }
        }
        let d = doomed.len();
        let mut w: usize = 0;
        while w < d
            invariant
                d == doomed@.len(),
                w <= d,
                self.pending_txs.wf(),
                self.promising_sandwiches.wf(),
                self.simulated_bundle_ids == old(self).simulated_bundle_ids,
                pending2 == self.pending_txs@,
                forall|h: Bytes32| #![all_triggers]
                    self.promising_sandwiches@.contains_key(h) <==> (promising1.contains_key(h)
                        && !(exists|k: int| 0 <= k < w && doomed@[k] == h)),
                forall|h: Bytes32| #![all_triggers]
                    self.promising_sandwiches@.contains_key(h)
                        ==> self.promising_sandwiches@[h] == promising1[h],
                forall|h: Bytes32| #![all_triggers]
                    hash_in(doomed@, h) <==> (promising1.contains_key(h) && !pending2.contains_key(
                        h,
                    )),
            decreases d - w,
        {
            let tx_hash = doomed[w];
            self.promising_sandwiches.remove(tx_hash);
            proof {
                assert(doomed@[w as int] == tx_hash);
            }
            w = w + 1;
        }
    }
}

/// The admission rule for a pending transaction: a transaction already judged
/// admissible (unseen and without a receipt) proceeds only if its effective
/// gas price clears the current base fee — gas_price for legacy transactions,
/// max_fee_per_gas for dynamic-fee ones. Other or absent types are not
/// admitted.
pub fn victim_gas_decision(
    transaction_type: Option<u64>,
    gas_price: Option<u128>,
    max_fee_per_gas: Option<u128>,
    base_fee: u128,
    should_add: bool,
) -> (r: (bool, u128))
    ensures
        r == (match transaction_type {
            Some(0u64) => {
                let gp = gas_price.unwrap_or(0);
                (should_add && gp >= base_fee, gp)
            },
            Some(2u64) => {
                let mf = max_fee_per_gas.unwrap_or(0);
                (should_add && mf >= base_fee, mf)
            },
            Some(_) => (false, 0u128),
            None => (false, 0u128),
        }),
{
    match transaction_type {
        Some(t) => {
            if t == 0 {
                let gp = match gas_price {
                    Some(v) => v,
                    None => 0,
                };
                (should_add && gp >= base_fee, gp)
            } else if t == 2 {
                let mf = match max_fee_per_gas {
                    Some(v) => v,
                    None => 0,
                };
                (should_add && mf >= base_fee, mf)
            } else {
                (false, 0)
            }
        },
        None => (false, 0),
    }
}

} // verus!
