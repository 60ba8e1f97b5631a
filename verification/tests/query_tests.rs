use cosmos_sdk_proto_althea::cosmos::base::v1beta1::Coin;
use cosmos_sdk_proto_althea::cosmos::tx::v1beta1::{TxBody, TxRaw};
use gravity_indexer::messages::{Block, Counters, CustomCoin};
use gravity_indexer::query::{
    get_all_msg_send_to_eth_transactions, get_send_to_eth_transaction_totals, process_fee,
    FeeTotals,
};
use gravity_indexer::store::KvStore;
use gravity_indexer::worker::process_batch;
use gravity_proto::gravity::v1::MsgSendToEth;
use prost::Message;

fn send_tx(nonce: &str, bridge_denom: &str, bridge_amount: &str) -> Vec<u8> {
    let msg = MsgSendToEth {
        sender: format!("gravity1sender{nonce}"),
        eth_dest: "0xdest".to_string(),
        amount: Some(Coin { denom: "ugraviton".to_string(), amount: "1".to_string() }),
        bridge_fee: Some(Coin {
            denom: bridge_denom.to_string(),
            amount: bridge_amount.to_string(),
        }),
        chain_fee: Some(Coin { denom: "denomC".to_string(), amount: "2".to_string() }),
    };
    let body = TxBody {
        messages: vec![prost_types::Any {
            type_url: "/gravity.v1.MsgSendToEth".to_string(),
            value: msg.encode_to_vec(),
        }],
        memo: String::new(),
        timeout_height: 0,
        extension_options: vec![],
        non_critical_extension_options: vec![],
    };
    TxRaw { body_bytes: body.encode_to_vec(), auth_info_bytes: vec![], signatures: vec![] }
        .encode_to_vec()
}

#[test]
fn process_fee_sums_per_denomination() {
    let totals = FeeTotals::new();
    let totals = process_fee(
        vec![
            CustomCoin { denom: b"denomA".to_vec(), amount: b"10".to_vec() },
            CustomCoin { denom: b"denomB".to_vec(), amount: b"5".to_vec() },
        ],
        &totals,
    );
    let totals = process_fee(
        vec![CustomCoin { denom: b"denomA".to_vec(), amount: b"7".to_vec() }],
        &totals,
    );
    assert_eq!(totals.total_of(b"denomA"), Some(17));
    assert_eq!(totals.total_of(b"denomB"), Some(5));
    assert_eq!(totals.total_of(b"denomZ"), None);
    assert_eq!(totals.num_denoms(), 2);
}

#[test]
fn process_fee_skips_bad_amounts_and_saturates() {
    let totals = FeeTotals::new();
    let totals = process_fee(
        vec![
            CustomCoin { denom: b"denomA".to_vec(), amount: b"not-a-number".to_vec() },
            CustomCoin {
                denom: b"denomB".to_vec(),
                amount: b"340282366920938463463374607431768211455".to_vec(),
            },
            CustomCoin { denom: b"denomB".to_vec(), amount: b"1".to_vec() },
        ],
        &totals,
    );
    assert_eq!(totals.total_of(b"denomA"), None);
    assert_eq!(totals.total_of(b"denomB"), Some(u128::MAX));
}

#[test]
fn fee_totals_over_trailing_windows() {
    // three blocks at heights 100, 101, 102, each with one qualifying
    // transfer carrying bridge fee denomA 10, all inside the last hour: the
    // one-day bucket's bridge total is denomA 30, and so is every wider
    // bucket, the windows being cumulative
    let now: i64 = 1700000000;
    let ts = now - 1800;
    let blocks = vec![
        Block { height: 100, timestamp: ts, txs: vec![send_tx("a", "denomA", "10")] },
        Block { height: 101, timestamp: ts + 1, txs: vec![send_tx("b", "denomA", "10")] },
        Block { height: 102, timestamp: ts + 2, txs: vec![send_tx("c", "denomA", "10")] },
    ];
    let mut db = KvStore::new();
    let mut counters = Counters::new();
    process_batch(&mut db, &mut counters, &blocks);
    assert_eq!(db.num_entries(), 3);

    let data = get_send_to_eth_transaction_totals(&db, now);
    assert_eq!(data.time_frames.len(), 5);
    assert_eq!(data.time_frames[0].period, b"1 day".to_vec());
    assert_eq!(data.time_frames[1].period, b"7 days".to_vec());
    assert_eq!(data.time_frames[2].period, b"30 days".to_vec());
    assert_eq!(data.time_frames[3].period, b"1 year".to_vec());
    assert_eq!(data.time_frames[4].period, b"All time".to_vec());
    for frame in &data.time_frames {
        assert_eq!(frame.bridge_fee_totals.total_of(b"denomA"), Some(30));
        assert_eq!(frame.chain_fee_totals.total_of(b"denomC"), Some(6));
    }
}

#[test]
fn old_records_fall_out_of_short_windows() {
    let now: i64 = 1700000000;
    let eight_days_ago = now - 8 * 24 * 60 * 60;
    let blocks = vec![
        Block { height: 100, timestamp: now - 60, txs: vec![send_tx("a", "denomA", "10")] },
        Block {
            height: 90,
            timestamp: eight_days_ago,
            txs: vec![send_tx("b", "denomA", "100")],
        },
    ];
    let mut db = KvStore::new();
    let mut counters = Counters::new();
    process_batch(&mut db, &mut counters, &blocks);

    let data = get_send_to_eth_transaction_totals(&db, now);
    // one day and seven days hold only the fresh record
    assert_eq!(data.time_frames[0].bridge_fee_totals.total_of(b"denomA"), Some(10));
    assert_eq!(data.time_frames[1].bridge_fee_totals.total_of(b"denomA"), Some(10));
    // thirty days, one year and all time hold both
    assert_eq!(data.time_frames[2].bridge_fee_totals.total_of(b"denomA"), Some(110));
    assert_eq!(data.time_frames[3].bridge_fee_totals.total_of(b"denomA"), Some(110));
    assert_eq!(data.time_frames[4].bridge_fee_totals.total_of(b"denomA"), Some(110));
}

#[test]
fn listing_groups_records_by_ascending_height() {
    let blocks = vec![
        Block {
            height: 200,
            timestamp: 1000,
            txs: vec![send_tx("x", "denomA", "1"), send_tx("y", "denomA", "2")],
        },
        Block { height: 150, timestamp: 900, txs: vec![send_tx("z", "denomA", "3")] },
    ];
    let mut db = KvStore::new();
    let mut counters = Counters::new();
    process_batch(&mut db, &mut counters, &blocks);

    let listing = get_all_msg_send_to_eth_transactions(&db);
    assert_eq!(listing.len(), 2);
    assert_eq!(listing[0].block_number, 150);
    assert_eq!(listing[1].block_number, 200);
    assert_eq!(listing[0].transactions.len(), 1);
    assert_eq!(listing[1].transactions.len(), 2);
    // the listed payloads carry the decoded fields
    assert_eq!(listing[0].transactions[0].data.sender, b"gravity1senderz".to_vec());
    // each transaction hash is the 64-digit uppercase hex digest
    assert_eq!(listing[0].transactions[0].tx_hash.len(), 64);
    // the attached date is the local rendering of the block timestamp
    assert!(!listing[0].formatted_date.is_empty());
}

#[test]
fn listing_ignores_other_record_types() {
    let mut db = KvStore::new();
    db.put(b"last_download_block".to_vec(), b"123".to_vec());
    db.put(b"000000000005:msgSendToEth:1:AB".to_vec(), b"not-a-payload".to_vec());
    let listing = get_all_msg_send_to_eth_transactions(&db);
    assert!(listing.is_empty());
}
