use vstd::prelude::*;

use crate::maps::AddrMap;
use crate::pools::Pool;
use crate::sandwich::{hash_prefix, SwapDirection, SwapInfo, V2_SWAP_EVENT_ID};
use crate::types::{spec_return_main_and_target, Addr, Bytes32};

verus! {

/// One log emission inside a call trace, with the optional fields the tracer
/// reports.
#[derive(Clone, Debug)]
pub struct LogRecord {
    pub address: Option<Addr>,
    pub topics: Option<Vec<Bytes32>>,
    pub data: Option<Vec<u8>>,
}

/// One frame of a call trace: its own log emissions and its inner calls.
#[derive(Debug)]
pub struct LogFrame {
    pub logs: Option<Vec<LogRecord>>,
    pub calls: Option<Vec<LogFrame>>,
}

pub open spec fn frame_own_logs(frame: LogFrame) -> Seq<LogRecord> {
    match frame.logs {
        Some(l) => l@,
        None => Seq::empty(),
    }
}

pub open spec fn frame_nested(frame: LogFrame) -> Seq<LogFrame> {
    match frame.calls {
        Some(calls) => calls@,
        None => Seq::empty(),
    }
}

/// All log emissions of a frame, depth first: the frame's own logs, then the
/// logs of each inner call in order.
pub open spec fn spec_frame_logs(frame: LogFrame) -> Seq<LogRecord>
    decreases frame,
{
    frame_own_logs(frame) + (match frame.calls {
        Some(calls) => spec_frames_logs(calls@),
        None => Seq::empty(),
    })
}

pub open spec fn spec_frames_logs(frames: Seq<LogFrame>) -> Seq<LogRecord>
    decreases frames,
{
    if frames.len() == 0 {
        Seq::empty()
    } else {
        spec_frame_logs(frames[0]) + spec_frames_logs(frames.skip(1))
    }
}


/// Field-wise agreement of two log records, comparing vectors by contents.
pub open spec fn log_eq(a: LogRecord, b: LogRecord) -> bool {
    &&& a.address == b.address
    &&& (match (a.topics, b.topics) {
        (Some(x), Some(y)) => x@ == y@,
        (None, None) => true,
        _ => false,
    })
    &&& (match (a.data, b.data) {
        (Some(x), Some(y)) => x@ == y@,
        (None, None) => true,
        _ => false,
    })
}

fn copy_topics(v: &Vec<Bytes32>) -> (r: Vec<Bytes32>)
    ensures
        r@ == v@,
{
    let n = v.len();
    let mut out: Vec<Bytes32> = Vec::new();
    let mut i: usize = 0;
    while i < n
        invariant
            n == v@.len(),
            i <= n,
            out@ == v@.subrange(0, i as int),
        decreases n - i,
    {
        out.push(v[i]);
        proof {
            assert(out@ =~= v@.subrange(0, i as int + 1));
        }
        i = i + 1;
    }
    proof {
        assert(v@.subrange(0, n as int) =~= v@);
    }
    out
}

fn copy_log(log: &LogRecord) -> (r: LogRecord)
    ensures
        log_eq(r, *log),
{
    let address = log.address;
    let topics = match &log.topics {
        Some(t) => Some(copy_topics(t)),
        None => None,
    };
    let data = match &log.data {
        Some(d) => Some(crate::encode::copy_bytes(d)),
        None => None,
    };
    LogRecord { address, topics, data }
}

/// Walks a call tree and appends every log emission, depth first.
pub fn extract_logs(call_frame: &LogFrame, logs: &mut Vec<LogRecord>)
    ensures
        final(logs)@.len() == old(logs)@.len() + spec_frame_logs(*call_frame).len(),
        forall|k: int|
            0 <= k < old(logs)@.len() ==> #[trigger] final(logs)@[k] == old(logs)@[k],
        forall|k: int|
            0 <= k < spec_frame_logs(*call_frame).len() ==> log_eq(
                #[trigger] final(logs)@[old(logs)@.len() + k],
                spec_frame_logs(*call_frame)[k],
            ),
    decreases *call_frame,
{
    let ghost own = frame_own_logs(*call_frame);
    let ghost nested = frame_nested(*call_frame);
    match &call_frame.logs {
        Some(logs_vec) => {
            let n = logs_vec.len();
            let mut i: usize = 0;
            while i < n
                invariant
                    n == logs_vec@.len(),
                    own == logs_vec@,
                    i <= n,
                    logs@.len() == old(logs)@.len() + i,
                    forall|k: int|
                        0 <= k < old(logs)@.len() ==> #[trigger] logs@[k] == old(logs)@[k],
                    forall|k: int|
                        0 <= k < i ==> log_eq(
                            #[trigger] logs@[old(logs)@.len() + k],
                            logs_vec@[k],
                        ),
                decreases n - i,
            {
                let copied = copy_log(&logs_vec[i]);
                logs.push(copied);
                i = i + 1;
            }
        },
        None => {},
    }
    let ghost after_own = logs@;
    proof {
        assert(after_own.len() == old(logs)@.len() + own.len());
    }
    match &call_frame.calls {
        Some(calls_vec) => {
            let m = calls_vec.len();
            let mut j: usize = 0;
            proof {
                assert(calls_vec@.subrange(0, 0) =~= Seq::<LogFrame>::empty());
            }
            while j < m
                invariant
                    m == calls_vec@.len(),
                    call_frame.calls == Some(*calls_vec),
                    nested == calls_vec@,
                    j <= m,
                    after_own.len() == old(logs)@.len() + own.len(),
                    own == frame_own_logs(*call_frame),
                    logs@.len() == after_own.len() + spec_frames_logs(
                        calls_vec@.subrange(0, j as int),
                    ).len(),
                    forall|k: int| 0 <= k < after_own.len() ==> #[trigger] logs@[k] == after_own[k],
                    forall|k: int|
                        0 <= k < spec_frames_logs(calls_vec@.subrange(0, j as int)).len()
                            ==> log_eq(
                            #[trigger] logs@[after_own.len() + k],
                            spec_frames_logs(calls_vec@.subrange(0, j as int))[k],
                        ),
                decreases m - j,
            {
                let ghost before = logs@;
                let ghost pre = spec_frames_logs(calls_vec@.subrange(0, j as int));
                proof {
                    assert(calls_vec@[j as int] == call_frame.calls->Some_0@[j as int]);
                }
                extract_logs(&calls_vec[j], logs);
                proof {
                    let fl = spec_frame_logs(calls_vec@[j as int]);
                    lemma_frames_logs_snoc(calls_vec@, j as int + 1);
                    assert(calls_vec@.subrange(0, j as int + 1).subrange(0, j as int)
                        =~= calls_vec@.subrange(0, j as int));
                    let cur = spec_frames_logs(calls_vec@.subrange(0, j as int + 1));
                    assert(cur == pre + fl);
                    assert forall|k: int| 0 <= k < cur.len() implies log_eq(
                        #[trigger] logs@[after_own.len() + k],
                        cur[k],
                    ) by {
                        if k < pre.len() {
                            assert(logs@[after_own.len() + k] == before[after_own.len() + k]);
                            assert(cur[k] == pre[k]);
                        } else {
                            assert(cur[k] == fl[k - pre.len()]);
                            assert(logs@[before.len() + (k - pre.len())] == logs@[after_own.len()
                                + k]);
                        }
                    }
                }
                j = j + 1;
            }
            proof {
                assert(calls_vec@.subrange(0, m as int) =~= calls_vec@);
            }
        },
        None => {},
    }
    proof {
        let total = spec_frame_logs(*call_frame);
        assert(total == own + spec_frames_logs(nested)) by {
            if call_frame.calls is None {
                assert(spec_frames_logs(Seq::<LogFrame>::empty()) =~= Seq::<LogRecord>::empty());
                assert(total =~= own + spec_frames_logs(nested));
            }
        }
        assert(logs@.len() == after_own.len() + spec_frames_logs(nested).len()) by {
            if call_frame.calls is None {
                assert(spec_frames_logs(nested) =~= Seq::<LogRecord>::empty());
            }
        }
        assert forall|k: int| 0 <= k < total.len() implies log_eq(
            #[trigger] logs@[old(logs)@.len() + k],
            total[k],
        ) by {
            if k < own.len() {
                assert(total[k] == own[k]);
                assert(logs@[old(logs)@.len() + k] == after_own[old(logs)@.len() + k]);
            } else {
                assert(total[k] == spec_frames_logs(nested)[k - own.len()]);
                if call_frame.calls is None {
                    assert(spec_frames_logs(nested) =~= Seq::<LogRecord>::empty());
                } else {
                    assert(logs@[after_own.len() + (k - own.len())] == logs@[old(logs)@.len()
                        + k]);
                }
            }
        }
    }
}

/// The flattened logs of a frame prefix grow by the last frame's logs.
proof fn lemma_frames_logs_snoc(frames: Seq<LogFrame>, n: int)
    requires
        0 < n <= frames.len(),
    ensures
        spec_frames_logs(frames.subrange(0, n)) == spec_frames_logs(frames.subrange(0, n - 1))
            + spec_frame_logs(frames[n - 1]),
    decreases n,
{
    if n == 1 {
        assert(frames.subrange(0, 1).skip(1) =~= Seq::<LogFrame>::empty());
        assert(frames.subrange(0, 0) =~= Seq::<LogFrame>::empty());
        assert(frames.subrange(0, 1)[0] == frames[0]);
        assert(spec_frames_logs(frames.subrange(0, 1)) =~= spec_frames_logs(
            frames.subrange(0, 0),
        ) + spec_frame_logs(frames[0]));
    } else {
        let a = frames.subrange(0, n);
        let b = frames.subrange(0, n - 1);
        assert(a[0] == frames[0] && b[0] == frames[0]);
        assert(a.skip(1) =~= frames.skip(1).subrange(0, n - 1));
        assert(b.skip(1) =~= frames.skip(1).subrange(0, n - 2));
        lemma_frames_logs_snoc(frames.skip(1), n - 1);
        assert(frames.skip(1)[n - 2] == frames[n - 1]);
        assert(spec_frames_logs(a) =~= spec_frames_logs(b) + spec_frame_logs(frames[n - 1]));
    }
}

proof fn lemma_frame_logs_shape(frame: LogFrame)
    ensures
        spec_frame_logs(frame) == frame_own_logs(frame) + spec_frames_logs(frame_nested(frame)),
{
    if frame.calls is None {
        assert(spec_frames_logs(Seq::<LogFrame>::empty()) =~= Seq::<LogRecord>::empty());
        assert(spec_frame_logs(frame) =~= frame_own_logs(frame) + spec_frames_logs(
            frame_nested(frame),
        ));
    }
}

/// Whether any byte of the 32-byte word is set.
pub open spec fn word_nonzero(s: Seq<u8>) -> bool {
    exists|i: int| 0 <= i < s.len() && s[i] != 0
}

fn word_nonzero_at(data: &Vec<u8>, off: usize) -> (r: bool)
    requires
        off + 32 <= data@.len(),
    ensures
        r == word_nonzero(data@.subrange(off as int, off as int + 32)),
{
    let n = data.len();
    let mut i: usize = 0;
    while i < 32
        invariant
            off + 32 <= n,
            n == data@.len(),
            i <= 32,
            forall|k: int|
                0 <= k < i ==> #[trigger] data@.subrange(off as int, off as int + 32)[k] == 0,
        decreases 32 - i,
    {
        if data[off + i] != 0 {
            proof {
                assert(data@.subrange(off as int, off as int + 32)[i as int] != 0);
            }
            return true;
        }
        proof {
            assert(data@.subrange(off as int, off as int + 32)[i as int] == data@[off as int
                + i as int]);
        }
        i = i + 1;
    }
    false
}

/// What one traced log classifies to: a swap on a known pool with a
/// recognized quote side, its direction read off the emitted amounts. A log
/// that cannot be decoded — no emitting address, no data, or data shorter
/// than the four amount words — is not a recognized swap and yields nothing.
pub open spec fn spec_classify_log(tx_hash: Bytes32, log: LogRecord, pools: Map<Addr, Pool>) -> Option<
    SwapInfo,
> {
    match log.topics {
        None => None,
        Some(topics) => {
            if topics@.len() <= 1 || hash_prefix(topics@[0]) != V2_SWAP_EVENT_ID {
                None
            } else {
                match log.address {
                    None => None,
                    Some(pair_address) => {
                        if !pools.contains_key(pair_address) {
                            None
                        } else {
                            let pool = pools[pair_address];
                            match spec_return_main_and_target(pool.token0, pool.token1) {
                                None => None,
                                Some(mc_target) => {
                                    match log.data {
                                        None => None,
                                        Some(d) => {
                                            if d@.len() < 128 {
                                                None
                                            } else {
                                                let zero_for_one = word_nonzero(
                                                    d@.subrange(0, 32),
                                                ) && word_nonzero(d@.subrange(96, 128));
                                                let token0_is_main = mc_target.0 == pool.token0;
                                                let direction = if token0_is_main
                                                    == zero_for_one {
                                                    SwapDirection::Buy
                                                } else {
                                                    SwapDirection::Sell
                                                };
                                                Some(
                                                    SwapInfo {
                                                        tx_hash,
                                                        target_pair: pair_address,
                                                        main_currency: mc_target.0,
                                                        target_token: mc_target.1,
                                                        version: 2,
                                                        token0_is_main,
                                                        direction,
                                                    },
                                                )
                                            }
                                        },
                                    }
                                },
                            }
                        }
                    },
                }
            }
        },
    }
}

/// The classifications of the first `n` logs, in order.
pub open spec fn spec_swap_infos(
    tx_hash: Bytes32,
    logs: Seq<LogRecord>,
    pools: Map<Addr, Pool>,
    n: int,
) -> Seq<SwapInfo>
    decreases n,
{
    if n <= 0 {
        Seq::empty()
    } else {
        spec_swap_infos(tx_hash, logs, pools, n - 1) + (match spec_classify_log(
            tx_hash,
            logs[n - 1],
            pools,
        ) {
            Some(si) => seq![si],
            None => Seq::empty(),
        })
    }
}

/// Classifies a pending transaction's traced logs against the known pools,
/// returning one SwapInfo per qualifying V2 `Swap` emission.
pub fn extract_swap_info(
    tx_hash: Bytes32,
    logs: &Vec<LogRecord>,
    pools_map: &AddrMap<Pool>,
) -> (r: Vec<SwapInfo>)
    requires
        pools_map.wf(),
    ensures
        r@ == spec_swap_infos(tx_hash, logs@, pools_map@, logs@.len() as int),
{
    let n = logs.len();
    let mut out: Vec<SwapInfo> = Vec::new();
    let mut i: usize = 0;
    while i < n
        invariant
            pools_map.wf(),
            n == logs@.len(),
            i <= n,
            out@ == spec_swap_infos(tx_hash, logs@, pools_map@, i as int),
        decreases n - i,
    {
        let log = &logs[i];
        let ghost expected = spec_classify_log(tx_hash, logs@[i as int], pools_map@);
        match &log.topics {
            None => {},
            Some(topics) => {
                if topics.len() > 1 {
                    let prefix = (topics[0].hi >> 96u128) as u32;
                    if prefix == V2_SWAP_EVENT_ID {
                        match &log.address {
                            None => {},
                            Some(pair_ref) => {
                        let pair_address = *pair_ref;
                        match pools_map.get(pair_address) {
                            None => {},
                            Some(pool) => {
                                let token0 = pool.token0;
                                let token1 = pool.token1;
                                match crate::types::return_main_and_target_currency(
                                    token0,
                                    token1,
                                ) {
                                    None => {},
                                    Some(mc_target) => {
                                        let (main_currency, target_token) = mc_target;
                                        let token0_is_main = main_currency == token0;
                                        match &log.data {
                                            None => {},
                                            Some(d) => {
                                                if d.len() >= 128 {
                                                    let in0 = word_nonzero_at(d, 0);
                                                    let out1 = word_nonzero_at(d, 96);
                                                    let zero_for_one = in0 && out1;
                                                    let direction = if token0_is_main {
                                                        if zero_for_one {
                                                            SwapDirection::Buy
                                                        } else {
                                                            SwapDirection::Sell
                                                        }
                                                    } else {
                                                        if zero_for_one {
                                                            SwapDirection::Sell
                                                        } else {
                                                            SwapDirection::Buy
                                                        }
                                                    };
                                                    let swap_info = SwapInfo {
                                                        tx_hash,
                                                        target_pair: pair_address,
                                                        main_currency,
                                                        target_token,
                                                        version: 2,
                                                        token0_is_main,
                                                        direction,
                                                    };
                                                    proof {
                                                        assert(expected == Some(swap_info));
                                                    }
                                                    out.push(swap_info);
                                                }
                                            },
                                        }
                                    },
                                }
                            },
                        }
                            },
                        }
                    }
                }
            },
        }
        proof {
            assert(out@ =~= spec_swap_infos(tx_hash, logs@, pools_map@, i as int + 1));
        }
        i = i + 1;
    }
    out
}

} // verus!
