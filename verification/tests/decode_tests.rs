use cosmos_sdk_proto_althea::cosmos::base::v1beta1::Coin;
use cosmos_sdk_proto_althea::cosmos::tx::v1beta1::{TxBody, TxRaw};
use cosmos_sdk_proto_althea::ibc::applications::transfer::v1::MsgTransfer;
use gravity_indexer::decode::extract_transaction;
use gravity_indexer::encoding::{encode_send_to_eth, encode_transfer};
use gravity_indexer::keys::make_key;
use gravity_indexer::messages::{CustomCoin, CustomMsgSendToEth, CustomMsgTransfer, MessageType};
use gravity_proto::gravity::v1::MsgSendToEth;
use prost::Message;

type Response = cosmos_sdk_proto_althea::ibc::core::channel::v1::acknowledgement::Response;
type Acknowledgement = cosmos_sdk_proto_althea::ibc::core::channel::v1::Acknowledgement;
type MsgAcknowledgement = cosmos_sdk_proto_althea::ibc::core::channel::v1::MsgAcknowledgement;

const SEND_URL: &str = "/gravity.v1.MsgSendToEth";
const TRANSFER_URL: &str = "/ibc.applications.transfer.v1.MsgTransfer";
const ACK_URL: &str = "/ibc.core.channel.v1.MsgAcknowledgement";

fn any_of(url: &str, value: Vec<u8>) -> prost_types::Any {
    prost_types::Any { type_url: url.to_string(), value }
}

fn tx_of(messages: Vec<prost_types::Any>) -> Vec<u8> {
    let body = TxBody {
        messages,
        memo: String::new(),
        timeout_height: 0,
        extension_options: vec![],
        non_critical_extension_options: vec![],
    };
    let raw = TxRaw {
        body_bytes: body.encode_to_vec(),
        auth_info_bytes: vec![],
        signatures: vec![],
    };
    raw.encode_to_vec()
}

fn expected_hash(tx: &[u8]) -> Vec<u8> {
    sha256::digest(tx).to_uppercase().into_bytes()
}

fn sample_send_msg() -> MsgSendToEth {
    MsgSendToEth {
        sender: "gravity1sender".to_string(),
        eth_dest: "0xdest".to_string(),
        amount: Some(Coin { denom: "ugraviton".to_string(), amount: "150".to_string() }),
        bridge_fee: Some(Coin { denom: "denomA".to_string(), amount: "10".to_string() }),
        chain_fee: None,
    }
}

fn sample_transfer_msg() -> MsgTransfer {
    MsgTransfer {
        source_port: "transfer".to_string(),
        source_channel: "channel-0".to_string(),
        token: Some(Coin { denom: "uatom".to_string(), amount: "7".to_string() }),
        sender: "cosmos1abc".to_string(),
        receiver: "gravity1def".to_string(),
        timeout_height: None,
        timeout_timestamp: 42,
        memo: String::new(),
    }
}

#[test]
fn send_to_eth_transaction_produces_one_keyed_record() {
    let tx = tx_of(vec![any_of(SEND_URL, sample_send_msg().encode_to_vec())]);
    let extract = extract_transaction(100, 1700000000, &tx);
    assert_eq!(extract.records.len(), 1);
    assert_eq!(extract.msgs, 1);
    assert!(extract.has_send_to_eth);
    assert!(!extract.has_ibc_transfer);
    let hash = expected_hash(&tx);
    let expected_key = make_key(100, MessageType::SendToEth, 1700000000, &hash);
    assert_eq!(extract.records[0].0, expected_key);
    let expected_payload = encode_send_to_eth(&CustomMsgSendToEth {
        sender: b"gravity1sender".to_vec(),
        eth_dest: b"0xdest".to_vec(),
        amount: vec![CustomCoin { denom: b"ugraviton".to_vec(), amount: b"150".to_vec() }],
        bridge_fee: vec![CustomCoin { denom: b"denomA".to_vec(), amount: b"10".to_vec() }],
        chain_fee: vec![],
    });
    assert_eq!(extract.records[0].1, expected_payload);
}

#[test]
fn ibc_transfer_transaction_produces_one_keyed_record() {
    let tx = tx_of(vec![any_of(TRANSFER_URL, sample_transfer_msg().encode_to_vec())]);
    let extract = extract_transaction(55, 1600000000, &tx);
    assert_eq!(extract.records.len(), 1);
    assert!(!extract.has_send_to_eth);
    assert!(extract.has_ibc_transfer);
    let hash = expected_hash(&tx);
    let expected_key = make_key(55, MessageType::IbcTransfer, 1600000000, &hash);
    assert_eq!(extract.records[0].0, expected_key);
    let expected_payload = encode_transfer(&CustomMsgTransfer {
        source_port: b"transfer".to_vec(),
        source_channel: b"channel-0".to_vec(),
        token: vec![CustomCoin { denom: b"uatom".to_vec(), amount: b"7".to_vec() }],
        sender: b"cosmos1abc".to_vec(),
        receiver: b"gravity1def".to_vec(),
        timeout_height: None,
        timeout_timestamp: 42,
    });
    assert_eq!(extract.records[0].1, expected_payload);
}

fn ack_tx(response: Response) -> Vec<u8> {
    let ack = Acknowledgement { response: Some(response) };
    let envelope = MsgAcknowledgement {
        packet: None,
        acknowledgement: ack.encode_to_vec(),
        proof_acked: vec![],
        proof_height: None,
        signer: "gravity1relayer".to_string(),
    };
    tx_of(vec![any_of(ACK_URL, envelope.encode_to_vec())])
}

#[test]
fn success_acknowledgement_unwraps_to_one_record() {
    // a success-coded acknowledgement wrapping a valid transfer produces
    // exactly one acknowledgement-tagged record
    let tx = ack_tx(Response::Result(sample_transfer_msg().encode_to_vec()));
    let extract = extract_transaction(77, 1650000000, &tx);
    assert_eq!(extract.records.len(), 1);
    assert!(extract.has_ibc_transfer);
    let hash = expected_hash(&tx);
    let expected_key = make_key(77, MessageType::IbcRecv, 1650000000, &hash);
    assert_eq!(extract.records[0].0, expected_key);
}

#[test]
fn error_acknowledgement_produces_no_record() {
    let tx = ack_tx(Response::Error("transfer failed".to_string()));
    let extract = extract_transaction(77, 1650000000, &tx);
    assert_eq!(extract.records.len(), 0);
    // the acknowledgement itself is still a recognized message
    assert_eq!(extract.msgs, 1);
    assert!(extract.has_ibc_transfer);
}

#[test]
fn unknown_and_malformed_messages_are_skipped() {
    let tx = tx_of(vec![
        any_of("/cosmos.bank.v1beta1.MsgSend", vec![1, 2, 3]),
        any_of(SEND_URL, sample_send_msg().encode_to_vec()),
    ]);
    let extract = extract_transaction(9, 8, &tx);
    assert_eq!(extract.records.len(), 1);
    assert_eq!(extract.msgs, 1);

    // a transaction that is not a valid envelope contributes nothing
    let garbage = vec![0xffu8, 0x00, 0x13, 0x37];
    let extract = extract_transaction(9, 8, &garbage);
    assert_eq!(extract.records.len(), 0);
    assert_eq!(extract.msgs, 0);
}

#[test]
fn two_messages_in_one_transaction_share_the_key() {
    // two transfer-to-external-chain messages in one transaction produce the
    // same key, so the later one overwrites the earlier: re-indexing stays
    // idempotent because the write order is the message order
    let tx = tx_of(vec![
        any_of(SEND_URL, sample_send_msg().encode_to_vec()),
        any_of(SEND_URL, sample_send_msg().encode_to_vec()),
    ]);
    let extract = extract_transaction(3, 4, &tx);
    assert_eq!(extract.records.len(), 2);
    assert_eq!(extract.records[0].0, extract.records[1].0);
    assert_eq!(extract.msgs, 2);
}
