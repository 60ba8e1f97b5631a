//! The window worker: drives one `[start, end)` window of block heights
//! through fetch, retry, decode and persist steps.
//!
//! The worker is a state machine over plain data; whatever performs the
//! fetches (an RPC client) hands each outcome in as an event. A transient
//! fetch failure is retried up to `MAX_RETRIES` times; one more consecutive
//! failure abandons the window without stopping anything else. A successful
//! (possibly short) batch is decoded, persisted, and the cursor advances to
//! just past the last height actually returned.
use vstd::prelude::*;

use crate::decode::{
    extract_transaction, tx_count_known, tx_has_ibc_transfer, tx_has_send_to_eth, tx_records,
};
use crate::keys::MAX_KEY_HEIGHT;
use crate::messages::{sat_add_u64, Block, BlockView, Counters};
use crate::store::{lemma_write_records_idempotent, store_after, KvStore};

verus! {

/// How many times a transient fetch failure is retried before the window
/// is abandoned.
pub const MAX_RETRIES: u64 = 5;

/// The records of one block, in transaction order: nothing if the height
/// does not fit the fixed-width key prefix (such a block is skipped).
pub open spec fn block_records(b: BlockView) -> Seq<(Seq<u8>, Seq<u8>)> {
    if b.height >= MAX_KEY_HEIGHT {
        Seq::empty()
    } else {
        txs_records(b.height, b.timestamp, b.txs)
    }
}

/// The records of a transaction list, in order.
pub open spec fn txs_records(h: u64, ts: i64, txs: Seq<Seq<u8>>) -> Seq<(Seq<u8>, Seq<u8>)>
    decreases txs.len(),
{
    if txs.len() == 0 {
        Seq::empty()
    } else {
        tx_records(h, ts, txs.first()) + txs_records(h, ts, txs.drop_first())
    }
}

/// The records of a batch of blocks, in block order.
pub open spec fn batch_records(bs: Seq<BlockView>) -> Seq<(Seq<u8>, Seq<u8>)>
    decreases bs.len(),
{
    if bs.len() == 0 {
        Seq::empty()
    } else {
        block_records(bs.first()) + batch_records(bs.drop_first())
    }
}

/// The tallies after one transaction: a transaction counts once for each
/// message family it holds; every addition sticks at `u64::MAX`.
pub open spec fn tx_tally(c: Counters, tx: Seq<u8>) -> Counters {
    Counters {
        blocks: c.blocks,
        transactions: sat_add_u64(
            c.transactions as nat,
            (if tx_has_send_to_eth(tx) {
                1nat
            } else {
                0nat
            }) + (if tx_has_ibc_transfer(tx) {
                1nat
            } else {
                0nat
            }),
        ),
        msgs: sat_add_u64(c.msgs as nat, tx_count_known(tx)),
        ibc_msgs: sat_add_u64(
            c.ibc_msgs as nat,
            if tx_has_ibc_transfer(tx) {
                1nat
            } else {
                0nat
            },
        ),
        send_eth_msgs: sat_add_u64(
            c.send_eth_msgs as nat,
            if tx_has_send_to_eth(tx) {
                1nat
            } else {
                0nat
            },
        ),
    }
}

/// The tallies after a transaction list.
pub open spec fn txs_tally(c: Counters, txs: Seq<Seq<u8>>) -> Counters
    decreases txs.len(),
{
    if txs.len() == 0 {
        c
    } else {
        tx_tally(txs_tally(c, txs.drop_last()), txs.last())
    }
}

/// The tallies after one block: the block is counted, then its transactions;
/// a block whose height does not fit the key prefix is skipped whole.
pub open spec fn block_tally(c: Counters, b: BlockView) -> Counters {
    if b.height >= MAX_KEY_HEIGHT {
        c
    } else {
        txs_tally(Counters { blocks: sat_add_u64(c.blocks as nat, 1), ..c }, b.txs)
    }
}

/// The tallies after a batch of blocks.
pub open spec fn batch_tally(c: Counters, bs: Seq<BlockView>) -> Counters
    decreases bs.len(),
{
    if bs.len() == 0 {
        c
    } else {
        block_tally(batch_tally(c, bs.drop_last()), bs.last())
    }
}

/// Writing one record list after another writes their concatenation.
pub proof fn lemma_store_after_append(
    m: Map<Seq<u8>, Seq<u8>>,
    a: Seq<(Seq<u8>, Seq<u8>)>,
    b: Seq<(Seq<u8>, Seq<u8>)>,
)
    ensures
        store_after(m, a + b) == store_after(store_after(m, a), b),
    decreases b.len(),
{
    if b.len() == 0 {
        assert(a + b =~= a);
    } else {
        assert((a + b).drop_last() =~= a + b.drop_last());
        assert((a + b).last() == b.last());
        lemma_store_after_append(m, a, b.drop_last());
    }
}

/// Extending a transaction list appends its records.
proof fn lemma_txs_records_snoc(h: u64, ts: i64, txs: Seq<Seq<u8>>, tx: Seq<u8>)
    ensures
        txs_records(h, ts, txs.push(tx)) == txs_records(h, ts, txs) + tx_records(h, ts, tx),
    decreases txs.len(),
{
    if txs.len() == 0 {
        assert(txs.push(tx).drop_first() =~= Seq::<Seq<u8>>::empty());
        assert(txs.push(tx).first() == tx);
        assert(txs_records(h, ts, Seq::<Seq<u8>>::empty()) =~= Seq::<(Seq<u8>, Seq<u8>)>::empty());
        assert(txs_records(h, ts, txs) =~= Seq::<(Seq<u8>, Seq<u8>)>::empty());
        assert(txs_records(h, ts, txs.push(tx)) =~= txs_records(h, ts, txs) + tx_records(
            h,
            ts,
            tx,
        ));
    } else {
        assert(txs.push(tx).first() == txs.first());
        assert(txs.push(tx).drop_first() =~= txs.drop_first().push(tx));
        lemma_txs_records_snoc(h, ts, txs.drop_first(), tx);
        assert(txs_records(h, ts, txs.push(tx)) =~= txs_records(h, ts, txs) + tx_records(
            h,
            ts,
            tx,
        ));
    }
}

/// Extending a batch appends its blocks' records.
pub proof fn lemma_batch_records_snoc(bs: Seq<BlockView>, b: BlockView)
    ensures
        batch_records(bs.push(b)) == batch_records(bs) + block_records(b),
    decreases bs.len(),
{
    if bs.len() == 0 {
        assert(bs.push(b).drop_first() =~= Seq::<BlockView>::empty());
        assert(bs.push(b).first() == b);
        assert(batch_records(Seq::<BlockView>::empty()) =~= Seq::<(Seq<u8>, Seq<u8>)>::empty());
        assert(batch_records(bs) =~= Seq::<(Seq<u8>, Seq<u8>)>::empty());
        assert(batch_records(bs.push(b)) =~= batch_records(bs) + block_records(b));
    } else {
        assert(bs.push(b).first() == bs.first());
        assert(bs.push(b).drop_first() =~= bs.drop_first().push(b));
        lemma_batch_records_snoc(bs.drop_first(), b);
        assert(batch_records(bs.push(b)) =~= batch_records(bs) + block_records(b));
    }
}

/// Writes a record list into the store, in order; a pure overwrite per key.
pub fn write_records(store: &mut KvStore, recs: &Vec<(Vec<u8>, Vec<u8>)>)
    requires
        old(store).wf(),
    ensures
        final(store).wf(),
        final(store)@ == store_after(old(store)@, recs.deep_view()),
{
    let ghost m0 = store@;
    let n = recs.len();
    let mut i: usize = 0;
    proof {
        assert(recs.deep_view().take(0) =~= Seq::<(Seq<u8>, Seq<u8>)>::empty());
    }
    while i < n
        invariant
            0 <= i <= n,
            n == recs@.len(),
            recs.deep_view().len() == n,
            store.wf(),
            store@ == store_after(m0, recs.deep_view().take(i as int)),
        decreases n - i,
    {
        proof {
            assert(recs.deep_view()[i as int] == (recs@[i as int].0@, recs@[i as int].1@));
            assert(recs.deep_view().take(i as int + 1).drop_last() =~= recs.deep_view().take(
                i as int,
            ));
            assert(recs.deep_view().take(i as int + 1).last() == recs.deep_view()[i as int]);
        }
        let key = crate::keys::bytes_range(recs[i].0.as_slice(), 0, recs[i].0.len());
        let val = crate::keys::bytes_range(recs[i].1.as_slice(), 0, recs[i].1.len());
        proof {
            assert(key@ =~= recs@[i as int].0@);
            assert(val@ =~= recs@[i as int].1@);
        }
        store.put(key, val);
        i = i + 1;
    }
    proof {
        assert(recs.deep_view().take(n as int) =~= recs.deep_view());
    }
}

/// Persists the records of every transaction of one block, in transaction
/// order, and tallies what was found.
pub fn process_block(store: &mut KvStore, counters: &mut Counters, b: &Block)
    requires
        old(store).wf(),
    ensures
        final(store).wf(),
        final(store)@ == store_after(old(store)@, block_records(b@)),
        *final(counters) == block_tally(*old(counters), b@),
{
    let ghost m0 = store@;
    if b.height >= MAX_KEY_HEIGHT {
        proof {
            assert(store_after(m0, Seq::<(Seq<u8>, Seq<u8>)>::empty()) == m0);
        }
        return ;
    }
    counters.add(&Counters { blocks: 1, transactions: 0, msgs: 0, ibc_msgs: 0, send_eth_msgs: 0 });
    let ghost c0 = *counters;
    let n = b.txs.len();
    let mut i: usize = 0;
    proof {
        assert(b@.txs.take(0) =~= Seq::<Seq<u8>>::empty());
        assert(store_after(m0, txs_records(b@.height, b@.timestamp, Seq::<Seq<u8>>::empty()))
            == m0);
    }
    while i < n
        invariant
            0 <= i <= n,
            n == b.txs@.len(),
            b@.txs.len() == n,
            b.height < MAX_KEY_HEIGHT,
            b@.height == b.height,
            b@.timestamp == b.timestamp,
            store.wf(),
            store@ == store_after(m0, txs_records(b@.height, b@.timestamp, b@.txs.take(i as int))),
            *counters == txs_tally(c0, b@.txs.take(i as int)),
        decreases n - i,
    {
        proof {
            assert(b@.txs[i as int] == b.txs@[i as int]@);
            assert(b@.txs.take(i as int + 1).drop_last() =~= b@.txs.take(i as int));
            assert(b@.txs.take(i as int + 1).last() == b@.txs[i as int]);
            assert(b@.txs.take(i as int + 1) =~= b@.txs.take(i as int).push(b@.txs[i as int]));
        }
        let extract = extract_transaction(b.height, b.timestamp, &b.txs[i]);
        write_records(store, &extract.records);
        counters.add(
            &Counters {
                blocks: 0,
                transactions: (if extract.has_send_to_eth {
                    1u64
                } else {
                    0u64
                }) + (if extract.has_ibc_transfer {
                    1u64
                } else {
                    0u64
                }),
                msgs: extract.msgs,
                ibc_msgs: if extract.has_ibc_transfer {
                    1
                } else {
                    0
                },
                send_eth_msgs: if extract.has_send_to_eth {
                    1
                } else {
                    0
                },
            },
        );
        proof {
            lemma_txs_records_snoc(b@.height, b@.timestamp, b@.txs.take(i as int), b@.txs[i as int]);
            lemma_store_after_append(
                m0,
                txs_records(b@.height, b@.timestamp, b@.txs.take(i as int)),
                tx_records(b@.height, b@.timestamp, b@.txs[i as int]),
            );
        }
        i = i + 1;
    }
    proof {
        assert(b@.txs.take(n as int) =~= b@.txs);
    }
}

/// Persists a whole batch of blocks, in block order.
pub fn process_batch(store: &mut KvStore, counters: &mut Counters, blocks: &Vec<Block>)
    requires
        old(store).wf(),
    ensures
        final(store).wf(),
        final(store)@ == store_after(old(store)@, batch_records(blocks.deep_view())),
        *final(counters) == batch_tally(*old(counters), blocks.deep_view()),
{
    let ghost m0 = store@;
    let ghost c0 = *counters;
    let n = blocks.len();
    let mut i: usize = 0;
    proof {
        assert(blocks.deep_view().take(0) =~= Seq::<BlockView>::empty());
        assert(store_after(m0, batch_records(Seq::<BlockView>::empty())) == m0);
    }
    while i < n
        invariant
            0 <= i <= n,
            n == blocks@.len(),
            blocks.deep_view().len() == n,
            store.wf(),
            store@ == store_after(m0, batch_records(blocks.deep_view().take(i as int))),
            *counters == batch_tally(c0, blocks.deep_view().take(i as int)),
        decreases n - i,
    {
        proof {
            assert(blocks.deep_view()[i as int] == blocks@[i as int]@);
            assert(blocks.deep_view().take(i as int + 1).drop_last() =~= blocks.deep_view().take(
                i as int,
            ));
            assert(blocks.deep_view().take(i as int + 1).last() == blocks.deep_view()[i as int]);
            assert(blocks.deep_view().take(i as int + 1) =~= blocks.deep_view().take(
                i as int,
            ).push(blocks.deep_view()[i as int]));
            lemma_batch_records_snoc(
                blocks.deep_view().take(i as int),
                blocks.deep_view()[i as int],
            );
            lemma_store_after_append(
                m0,
                batch_records(blocks.deep_view().take(i as int)),
                block_records(blocks.deep_view()[i as int]),
            );
        }
        process_block(store, counters, &blocks[i]);
        i = i + 1;
    }
    proof {
        assert(blocks.deep_view().take(n as int) =~= blocks.deep_view());
    }
}


/// Idempotence of indexing: indexing a batch of blocks a second time leaves
/// the store's contents exactly as the first pass left them.
pub proof fn lemma_index_idempotent(m: Map<Seq<u8>, Seq<u8>>, bs: Seq<BlockView>)
    ensures
        store_after(store_after(m, batch_records(bs)), batch_records(bs)) == store_after(
            m,
            batch_records(bs),
        ),
{
    lemma_write_records_idempotent(m, batch_records(bs));
}

/// Whether a window worker is still fetching, finished, or gave its window
/// up after exhausting the retry budget.
#[derive(Clone, Copy, PartialEq, Eq, Structural, Debug)]
pub enum WorkerStatus {
    Active,
    Done,
    Abandoned,
}

/// One window worker: a cursor over the half-open height range
/// `[cursor, end)` still to fetch, and the count of consecutive transient
/// failures seen since the last success.
#[derive(Clone, Copy, PartialEq, Eq, Structural, Debug)]
pub struct WindowWorker {
    pub cursor: u64,
    pub end: u64,
    pub retries: u64,
    pub status: WorkerStatus,
}

/// The worker after one transient fetch failure: one more consecutive
/// failure than the budget allows abandons the window.
pub open spec fn failed_step(w: WindowWorker) -> WindowWorker {
    if w.status != WorkerStatus::Active {
        w
    } else if w.retries >= MAX_RETRIES {
        WindowWorker { status: WorkerStatus::Abandoned, ..w }
    } else {
        WindowWorker { retries: (w.retries + 1) as u64, ..w }
    }
}

/// The worker after a successful batch: the failure count resets, and the
/// cursor advances to just past the last height actually returned; an empty
/// batch, or one reaching the window's end, finishes the window.
pub open spec fn success_step(w: WindowWorker, bs: Seq<BlockView>) -> WindowWorker {
    if w.status != WorkerStatus::Active {
        w
    } else if bs.len() == 0 {
        WindowWorker { retries: 0, status: WorkerStatus::Done, ..w }
    } else {
        let last_height = bs.last().height;
        if last_height as int + 1 >= w.end {
            WindowWorker { retries: 0, status: WorkerStatus::Done, ..w }
        } else {
            WindowWorker {
                cursor: (last_height + 1) as u64,
                retries: 0,
                status: WorkerStatus::Active,
                ..w
            }
        }
    }
}

/// The worker after `n` consecutive transient failures.
pub open spec fn worker_after_failures(w: WindowWorker, n: nat) -> WindowWorker
    decreases n,
{
    if n == 0 {
        w
    } else {
        failed_step(worker_after_failures(w, (n - 1) as nat))
    }
}

impl WindowWorker {
    /// A fresh worker for the window `[start, end)`.
    pub fn new(start: u64, end: u64) -> (r: WindowWorker)
        ensures
            r == (WindowWorker {
                cursor: start,
                end,
                retries: 0,
                status: if start < end {
                    WorkerStatus::Active
                } else {
                    WorkerStatus::Done
                },
            }),
    {
        WindowWorker {
            cursor: start,
            end,
            retries: 0,
            status: if start < end {
                WorkerStatus::Active
            } else {
                WorkerStatus::Done
            },
        }
    }

    /// The height range the worker wants fetched next, if it is still active.
    pub fn pending_fetch(&self) -> (r: Option<(u64, u64)>)
        ensures
            r == if self.status == WorkerStatus::Active {
                Some((self.cursor, self.end))
            } else {
                None::<(u64, u64)>
            },
    {
        if self.status == WorkerStatus::Active {
            Some((self.cursor, self.end))
        } else {
            None
        }
    }

    /// Feeds in one transient fetch failure.
    pub fn on_fetch_failed(&mut self)
        ensures
            *final(self) == failed_step(*old(self)),
    {
        if self.status == WorkerStatus::Active {
            if self.retries >= MAX_RETRIES {
                self.status = WorkerStatus::Abandoned;
            } else {
                self.retries = self.retries + 1;
            }
        }
    }

    /// Feeds in one successful (possibly short) batch: its blocks are
    /// decoded and persisted in order, the tallies updated, and the cursor
    /// advanced past the last height returned.
    pub fn on_fetch_success(
        &mut self,
        blocks: &Vec<Block>,
        store: &mut KvStore,
        counters: &mut Counters,
    )
        requires
            old(self).status == WorkerStatus::Active,
            old(store).wf(),
        ensures
            final(store).wf(),
            final(store)@ == store_after(old(store)@, batch_records(blocks.deep_view())),
            *final(counters) == batch_tally(*old(counters), blocks.deep_view()),
            *final(self) == success_step(*old(self), blocks.deep_view()),
    {
        process_batch(store, counters, blocks);
        self.retries = 0;
        let n = blocks.len();
        if n == 0 {
            self.status = WorkerStatus::Done;
            return ;
        }
        proof {
            assert(blocks.deep_view().last() == blocks@[n - 1]@);
        }
        let last_height = blocks[n - 1].height;
        if last_height >= self.end || last_height + 1 >= self.end {
            self.status = WorkerStatus::Done;
        } else {
            self.cursor = last_height + 1;
        }
    }
}

/// Retry recovery: within the retry budget, consecutive transient failures
/// leave the window active with its range intact, and whatever batch then
/// arrives is processed, never abandoning the window.
pub proof fn lemma_retry_recovery(w: WindowWorker, n: nat)
    requires
        w.status == WorkerStatus::Active,
        w.retries == 0,
        n <= MAX_RETRIES,
    ensures
        worker_after_failures(w, n).status == WorkerStatus::Active,
        worker_after_failures(w, n).retries == n,
        worker_after_failures(w, n).cursor == w.cursor,
        worker_after_failures(w, n).end == w.end,
        forall|bs: Seq<BlockView>|
            (#[trigger] success_step(worker_after_failures(w, n), bs)).status
                != WorkerStatus::Abandoned,
    decreases n,
{
    if n > 0 {
        lemma_retry_recovery(w, (n - 1) as nat);
    }
}

/// Retry exhaustion: more consecutive transient failures than the retry
/// budget allows abandon the window, and it stays abandoned.
pub proof fn lemma_retry_exhaustion(w: WindowWorker, n: nat)
    requires
        w.status == WorkerStatus::Active,
        w.retries == 0,
        n > MAX_RETRIES,
    ensures
        worker_after_failures(w, n).status == WorkerStatus::Abandoned,
    decreases n,
{
    if n == MAX_RETRIES + 1 {
        lemma_retry_recovery(w, MAX_RETRIES as nat);
    } else {
        lemma_retry_exhaustion(w, (n - 1) as nat);
    }
}

} // verus!
