use gravity_indexer::persist::{
    advance_checkpoint, load_last_download_block, load_msg_ibc_transfer, load_msg_send_to_eth,
    save_last_download_block, save_msg_ibc_transfer, save_msg_send_to_eth,
};
use gravity_indexer::messages::{CustomCoin, CustomHeight, CustomMsgSendToEth, CustomMsgTransfer};
use gravity_indexer::store::KvStore;
use gravity_indexer::worker::write_records;

fn snapshot(db: &KvStore) -> Vec<(Vec<u8>, Vec<u8>)> {
    let mut out = Vec::new();
    let n = db.num_entries();
    for i in 0..n {
        out.push((db.key_at(i).clone(), db.value_at(i).clone()));
    }
    out
}

#[test]
fn put_get_overwrite() {
    let mut db = KvStore::new();
    assert!(db.get(b"k1").is_none());
    db.put(b"k1".to_vec(), b"v1".to_vec());
    db.put(b"k2".to_vec(), b"v2".to_vec());
    assert_eq!(db.get(b"k1").unwrap(), &b"v1".to_vec());
    assert_eq!(db.get(b"k2").unwrap(), &b"v2".to_vec());
    db.put(b"k1".to_vec(), b"v1bis".to_vec());
    assert_eq!(db.get(b"k1").unwrap(), &b"v1bis".to_vec());
    assert_eq!(db.num_entries(), 2);
}

#[test]
fn scan_is_in_ascending_key_order() {
    let mut db = KvStore::new();
    db.put(b"b".to_vec(), b"2".to_vec());
    db.put(b"c".to_vec(), b"3".to_vec());
    db.put(b"a".to_vec(), b"1".to_vec());
    let keys: Vec<Vec<u8>> = snapshot(&db).into_iter().map(|e| e.0).collect();
    assert_eq!(keys, vec![b"a".to_vec(), b"b".to_vec(), b"c".to_vec()]);
}

#[test]
fn rewriting_the_same_records_changes_nothing() {
    // writing a record list, then writing it again, leaves the contents
    // byte-identical
    let recs = vec![
        (b"000000000001:msgSendToEth:5:AA".to_vec(), b"one".to_vec()),
        (b"000000000002:msgSendToEth:6:BB".to_vec(), b"two".to_vec()),
        (b"000000000001:msgSendToEth:5:AA".to_vec(), b"one".to_vec()),
    ];
    let mut db = KvStore::new();
    write_records(&mut db, &recs);
    let first = snapshot(&db);
    write_records(&mut db, &recs);
    let second = snapshot(&db);
    assert_eq!(first, second);
}

#[test]
fn message_payloads_round_trip_through_the_store() {
    let msg = CustomMsgSendToEth {
        sender: b"gravity1sender".to_vec(),
        eth_dest: b"0xdest".to_vec(),
        amount: vec![CustomCoin { denom: b"ugraviton".to_vec(), amount: b"150".to_vec() }],
        bridge_fee: vec![CustomCoin { denom: b"denomA".to_vec(), amount: b"10".to_vec() }],
        chain_fee: vec![],
    };
    let mut db = KvStore::new();
    save_msg_send_to_eth(&mut db, &b"k-send".to_vec(), &msg);
    let back = load_msg_send_to_eth(&db, b"k-send").expect("stored payload must decode");
    assert_eq!(back.sender, msg.sender);
    assert_eq!(back.eth_dest, msg.eth_dest);
    assert_eq!(back.amount.len(), 1);
    assert_eq!(back.amount[0].denom, b"ugraviton".to_vec());
    assert_eq!(back.amount[0].amount, b"150".to_vec());
    assert_eq!(back.bridge_fee.len(), 1);
    assert_eq!(back.chain_fee.len(), 0);
    assert!(load_msg_send_to_eth(&db, b"absent").is_none());

    let transfer = CustomMsgTransfer {
        source_port: b"transfer".to_vec(),
        source_channel: b"channel-0".to_vec(),
        token: vec![CustomCoin { denom: b"uatom".to_vec(), amount: b"7".to_vec() }],
        sender: b"cosmos1abc".to_vec(),
        receiver: b"gravity1def".to_vec(),
        timeout_height: Some(CustomHeight { revision_number: 1, revision_height: 900 }),
        timeout_timestamp: 123456789,
    };
    save_msg_ibc_transfer(&mut db, &b"k-transfer".to_vec(), &transfer);
    let back = load_msg_ibc_transfer(&db, b"k-transfer").expect("stored payload must decode");
    assert_eq!(back.source_port, transfer.source_port);
    assert_eq!(back.source_channel, transfer.source_channel);
    assert_eq!(back.timeout_height, Some(CustomHeight { revision_number: 1, revision_height: 900 }));
    assert_eq!(back.timeout_timestamp, 123456789);
}

#[test]
fn checkpoint_round_trips_and_never_goes_backwards() {
    let mut db = KvStore::new();
    assert_eq!(load_last_download_block(&db), None);
    save_last_download_block(&mut db, 12345);
    assert_eq!(load_last_download_block(&db), Some(12345));
    advance_checkpoint(&mut db, 20000);
    assert_eq!(load_last_download_block(&db), Some(20000));
    // advancing to a lower height leaves the checkpoint alone
    advance_checkpoint(&mut db, 15000);
    assert_eq!(load_last_download_block(&db), Some(20000));
}
