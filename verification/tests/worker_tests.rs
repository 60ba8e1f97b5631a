use cosmos_sdk_proto_althea::cosmos::base::v1beta1::Coin;
use cosmos_sdk_proto_althea::cosmos::tx::v1beta1::{TxBody, TxRaw};
use gravity_indexer::bootstrap::BootstrapSearch;
use gravity_indexer::messages::{Block, Counters};
use gravity_indexer::schedule::{
    latest_height_of, next_retry_interval, partition_windows, resume_height, ChainStatus,
};
use gravity_indexer::store::KvStore;
use gravity_indexer::worker::{process_batch, WindowWorker, WorkerStatus, MAX_RETRIES};
use gravity_proto::gravity::v1::MsgSendToEth;
use prost::Message;

fn send_tx(denom: &str, fee: &str) -> Vec<u8> {
    let msg = MsgSendToEth {
        sender: "gravity1sender".to_string(),
        eth_dest: "0xdest".to_string(),
        amount: Some(Coin { denom: "ugraviton".to_string(), amount: "1".to_string() }),
        bridge_fee: Some(Coin { denom: denom.to_string(), amount: fee.to_string() }),
        chain_fee: None,
    };
    let body = TxBody {
        messages: vec![prost_types::Any {
            type_url: "/gravity.v1.MsgSendToEth".to_string(),
            value: msg.encode_to_vec(),
        }],
        memo: String::new(),
        timeout_height: 0,
        extension_options: vec![],
        non_critical_extension_options: vec![],
    };
    TxRaw { body_bytes: body.encode_to_vec(), auth_info_bytes: vec![], signatures: vec![] }
        .encode_to_vec()
}

fn block_at(height: u64, ts: i64) -> Block {
    Block { height, timestamp: ts, txs: vec![send_tx("denomA", "10")] }
}

#[test]
fn retry_recovery_indexes_the_window() {
    // a reader that fails twice and then succeeds leaves the window fully
    // indexed, not abandoned
    let mut worker = WindowWorker::new(100, 103);
    let mut db = KvStore::new();
    let mut counters = Counters::new();
    worker.on_fetch_failed();
    worker.on_fetch_failed();
    assert_eq!(worker.status, WorkerStatus::Active);
    let (start, end) = worker.pending_fetch().expect("still fetching");
    assert_eq!((start, end), (100, 103));
    let blocks = vec![block_at(100, 50), block_at(101, 51), block_at(102, 52)];
    worker.on_fetch_success(&blocks, &mut db, &mut counters);
    assert_eq!(worker.status, WorkerStatus::Done);
    assert_ne!(worker.status, WorkerStatus::Abandoned);
    assert_eq!(db.num_entries(), 3);
    assert_eq!(counters.blocks, 3);
    assert_eq!(counters.send_eth_msgs, 3);
}

#[test]
fn a_short_batch_advances_the_cursor() {
    let mut worker = WindowWorker::new(100, 200);
    let mut db = KvStore::new();
    let mut counters = Counters::new();
    // the upstream returns fewer blocks than asked for
    let blocks = vec![block_at(100, 50), block_at(101, 51)];
    worker.on_fetch_success(&blocks, &mut db, &mut counters);
    assert_eq!(worker.status, WorkerStatus::Active);
    assert_eq!(worker.pending_fetch(), Some((102, 200)));
    // an empty batch finishes the window
    worker.on_fetch_success(&vec![], &mut db, &mut counters);
    assert_eq!(worker.status, WorkerStatus::Done);
}

#[test]
fn retry_exhaustion_abandons_only_that_window() {
    let mut stuck = WindowWorker::new(0, 100);
    for _ in 0..MAX_RETRIES {
        stuck.on_fetch_failed();
        assert_eq!(stuck.status, WorkerStatus::Active);
    }
    // one more consecutive failure than the budget allows
    stuck.on_fetch_failed();
    assert_eq!(stuck.status, WorkerStatus::Abandoned);
    assert_eq!(stuck.pending_fetch(), None);

    // an independent window in the same run completes normally
    let mut healthy = WindowWorker::new(100, 101);
    let mut db = KvStore::new();
    let mut counters = Counters::new();
    healthy.on_fetch_success(&vec![block_at(100, 1)], &mut db, &mut counters);
    assert_eq!(healthy.status, WorkerStatus::Done);
    assert_eq!(db.num_entries(), 1);
}

#[test]
fn reindexing_a_range_is_idempotent() {
    // indexing a block range once, then indexing the same range again,
    // leaves the store's contents byte-identical
    let blocks = vec![block_at(100, 50), block_at(101, 51), block_at(102, 52)];
    let mut db = KvStore::new();
    let mut counters = Counters::new();
    process_batch(&mut db, &mut counters, &blocks);
    let mut first = Vec::new();
    for i in 0..db.num_entries() {
        first.push((db.key_at(i).clone(), db.value_at(i).clone()));
    }
    process_batch(&mut db, &mut counters, &blocks);
    let mut second = Vec::new();
    for i in 0..db.num_entries() {
        second.push((db.key_at(i).clone(), db.value_at(i).clone()));
    }
    assert_eq!(first, second);
}

#[test]
fn bootstrap_locator_finds_the_exact_threshold() {
    // against a reader where fetching height h succeeds exactly when
    // h >= threshold, the locator returns the threshold itself
    for latest in [0u64, 1, 2, 7, 31, 32, 33] {
        for threshold in 0..=latest {
            let mut search = BootstrapSearch::new(latest);
            while let Some(p) = search.next_probe() {
                search.step(p, p >= threshold);
            }
            assert_eq!(search.result(), threshold, "latest {latest} threshold {threshold}");
        }
    }
}

#[test]
fn windows_partition_the_range_back_to_back() {
    let ws = partition_windows(0, 1200, 500);
    assert_eq!(ws, vec![(0, 500), (500, 1000), (1000, 1200)]);
    assert_eq!(partition_windows(10, 10, 500), vec![]);
    assert_eq!(partition_windows(11, 10, 500), vec![]);
    let ws = partition_windows(7, 8, 500);
    assert_eq!(ws, vec![(7, 8)]);
}

#[test]
fn scheduler_decisions() {
    assert_eq!(resume_height(Some(41), 7), 42);
    assert_eq!(resume_height(None, 7), 7);
    assert_eq!(resume_height(Some(u64::MAX), 7), u64::MAX);
    assert_eq!(latest_height_of(&ChainStatus::Latest(10)), Some(10));
    assert_eq!(latest_height_of(&ChainStatus::Syncing(9)), Some(9));
    assert_eq!(latest_height_of(&ChainStatus::WaitingToStart), None);
    assert_eq!(next_retry_interval(1), 2);
    assert_eq!(next_retry_interval(4), 8);
    assert_eq!(next_retry_interval(u64::MAX), u64::MAX);
}

#[test]
fn counters_saturate_instead_of_wrapping() {
    let mut c = Counters::new();
    c.add(&Counters { blocks: u64::MAX - 1, transactions: 0, msgs: 0, ibc_msgs: 0, send_eth_msgs: 0 });
    c.add(&Counters { blocks: 5, transactions: 0, msgs: 0, ibc_msgs: 0, send_eth_msgs: 0 });
    assert_eq!(c.blocks, u64::MAX);
}
