//! Decoding of raw transactions into persisted records.
//!
//! The wire-format parsing itself is done by the upstream protobuf types
//! through trusted wrappers; what each parse returns is given a name, and
//! everything from classification to key and payload construction is
//! verified against those names.
use vstd::prelude::*;

use crate::encoding::{enc_send_to_eth, enc_transfer, encode_send_to_eth, encode_transfer};
use crate::keys::{key_bytes, make_key, sep_free, MAX_KEY_HEIGHT, SEP};
use crate::messages::{
    BlockView, CustomMsgSendToEth, CustomMsgTransfer, RawMessage, RawMessageView, MessageType,
    SendToEthView, TransferView,
};

verus! {

/// The decoded response carried by an inbound acknowledgement: either the
/// embedded result payload of a delivered transfer, or an error.
pub enum AckResponse {
    Success(Vec<u8>),
    Failure(Vec<u8>),
}

pub ghost enum AckView {
    Success(Seq<u8>),
    Failure(Seq<u8>),
}

impl View for AckResponse {
    type V = AckView;

    open spec fn view(&self) -> AckView {
        match self {
            AckResponse::Success(b) => AckView::Success(b@),
            AckResponse::Failure(b) => AckView::Failure(b@),
        }
    }
}

/// The type URL of a transfer-to-external-chain message.
pub open spec fn url_send_to_eth() -> Seq<u8> {
    // "/gravity.v1.MsgSendToEth"
    seq![47u8, 103, 114, 97, 118, 105, 116, 121, 46, 118, 49, 46, 77, 115, 103, 83, 101, 110, 100, 84, 111, 69, 116, 104]
}

/// The type URL of an inter-chain transfer message.
pub open spec fn url_transfer() -> Seq<u8> {
    // "/ibc.applications.transfer.v1.MsgTransfer"
    seq![47u8, 105, 98, 99, 46, 97, 112, 112, 108, 105, 99, 97, 116, 105, 111, 110, 115, 46, 116, 114, 97, 110, 115, 102, 101, 114, 46, 118, 49, 46, 77, 115, 103, 84, 114, 97, 110, 115, 102, 101, 114]
}

/// The type URL of an inter-chain acknowledgement message.
pub open spec fn url_ack() -> Seq<u8> {
    // "/ibc.core.channel.v1.MsgAcknowledgement"
    seq![47u8, 105, 98, 99, 46, 99, 111, 114, 101, 46, 99, 104, 97, 110, 110, 101, 108, 46, 118, 49, 46, 77, 115, 103, 65, 99, 107, 110, 111, 119, 108, 101, 100, 103, 101, 109, 101, 110, 116]
}

/// What decoding a transaction's outer envelope yields: its body bytes.
pub uninterp spec fn parse_tx_raw(b: Seq<u8>) -> Option<Seq<u8>>;

/// What decoding a transaction body yields: its inner messages.
pub uninterp spec fn parse_tx_body(b: Seq<u8>) -> Option<Seq<RawMessageView>>;

/// What decoding a transfer-to-external-chain message yields.
pub uninterp spec fn parse_send_to_eth(b: Seq<u8>) -> Option<SendToEthView>;

/// What decoding an inter-chain transfer message yields.
pub uninterp spec fn parse_transfer(b: Seq<u8>) -> Option<TransferView>;

/// What decoding an acknowledgement message envelope yields: the bytes of
/// the acknowledgement it carries.
pub uninterp spec fn parse_ack_envelope(b: Seq<u8>) -> Option<Seq<u8>>;

/// What decoding an acknowledgement yields: its success or error response.
pub uninterp spec fn parse_ack(b: Seq<u8>) -> Option<AckView>;

/// The transaction identifier: the SHA-256 of the raw transaction bytes,
/// rendered as uppercase hexadecimal.
pub uninterp spec fn tx_hash_hex(b: Seq<u8>) -> Seq<u8>;

/// Relies on prost's decoding of the cosmos `TxRaw` envelope; hands back its
/// `body_bytes` field.
#[verifier::external_body]
fn decode_tx_raw(bytes: &[u8]) -> (r: Option<Vec<u8>>)
    ensures
        match r {
            Some(v) => parse_tx_raw(bytes@) == Some(v@),
            None => parse_tx_raw(bytes@) is None,
        },
{
    match <cosmos_sdk_proto_althea::cosmos::tx::v1beta1::TxRaw as prost::Message>::decode(bytes) {
        Ok(t) => Some(t.body_bytes),
        Err(_) => None,
    }
}

/// Relies on prost's decoding of the cosmos `TxBody`; hands back each inner
/// message's type URL (as its UTF-8 bytes) and value.
#[verifier::external_body]
fn decode_tx_body(bytes: &[u8]) -> (r: Option<Vec<RawMessage>>)
    ensures
        match r {
            Some(v) => parse_tx_body(bytes@) == Some(v.deep_view()),
            None => parse_tx_body(bytes@) is None,
        },
{
    match <cosmos_sdk_proto_althea::cosmos::tx::v1beta1::TxBody as prost::Message>::decode(bytes) {
        Ok(t) => Some(
            t.messages.into_iter().map(
                |a| RawMessage { type_url: a.type_url.into_bytes(), value: a.value },
            ).collect(),
        ),
        Err(_) => None,
    }
}

/// Relies on prost's decoding of gravity's `MsgSendToEth`; hands back its
/// fields, each optional coin as a list of zero or one coins.
#[verifier::external_body]
fn decode_msg_send_to_eth(bytes: &[u8]) -> (r: Option<CustomMsgSendToEth>)
    ensures
        match r {
            Some(m) => parse_send_to_eth(bytes@) == Some(m@),
            None => parse_send_to_eth(bytes@) is None,
        },
{
    let coin = |c: cosmos_sdk_proto_althea::cosmos::base::v1beta1::Coin| crate::messages::CustomCoin { denom: c.denom.into_bytes(), amount: c.amount.into_bytes() };
    match <gravity_proto::gravity::v1::MsgSendToEth as prost::Message>::decode(bytes) {
        Ok(m) => Some(CustomMsgSendToEth {
            sender: m.sender.into_bytes(),
            eth_dest: m.eth_dest.into_bytes(),
            amount: m.amount.map(coin).into_iter().collect(),
            bridge_fee: m.bridge_fee.map(coin).into_iter().collect(),
            chain_fee: m.chain_fee.map(coin).into_iter().collect(),
        }),
        Err(_) => None,
    }
}

/// Relies on prost's decoding of the inter-chain `MsgTransfer`; hands back
/// its fields, the optional token as a list of zero or one coins.
#[verifier::external_body]
fn decode_msg_transfer(bytes: &[u8]) -> (r: Option<CustomMsgTransfer>)
    ensures
        match r {
            Some(m) => parse_transfer(bytes@) == Some(m@),
            None => parse_transfer(bytes@) is None,
        },
{
    let coin = |c: cosmos_sdk_proto_althea::cosmos::base::v1beta1::Coin| crate::messages::CustomCoin { denom: c.denom.into_bytes(), amount: c.amount.into_bytes() };
    match <cosmos_sdk_proto_althea::ibc::applications::transfer::v1::MsgTransfer as prost::Message>::decode(bytes) {
        Ok(m) => Some(CustomMsgTransfer {
            source_port: m.source_port.into_bytes(),
            source_channel: m.source_channel.into_bytes(),
            token: m.token.map(coin).into_iter().collect(),
            sender: m.sender.into_bytes(),
            receiver: m.receiver.into_bytes(),
            timeout_height: m.timeout_height.map(|h| crate::messages::CustomHeight { revision_number: h.revision_number, revision_height: h.revision_height }),
            timeout_timestamp: m.timeout_timestamp,
        }),
        Err(_) => None,
    }
}

/// Relies on prost's decoding of the inter-chain `MsgAcknowledgement`
/// envelope; hands back the acknowledgement bytes it wraps.
#[verifier::external_body]
fn decode_msg_ack_envelope(bytes: &[u8]) -> (r: Option<Vec<u8>>)
    ensures
        match r {
            Some(v) => parse_ack_envelope(bytes@) == Some(v@),
            None => parse_ack_envelope(bytes@) is None,
        },
{
    match <cosmos_sdk_proto_althea::ibc::core::channel::v1::MsgAcknowledgement as prost::Message>::decode(
        bytes,
    ) {
        Ok(m) => Some(m.acknowledgement),
        Err(_) => None,
    }
}

/// Relies on prost's decoding of the inter-chain `Acknowledgement`; hands
/// back its response, one arm per variant, `None` when the response field
/// is missing or the bytes do not decode.
#[verifier::external_body]
fn decode_ack(bytes: &[u8]) -> (r: Option<AckResponse>)
    ensures
        match r {
            Some(a) => parse_ack(bytes@) == Some(a@),
            None => parse_ack(bytes@) is None,
        },
{
    match <cosmos_sdk_proto_althea::ibc::core::channel::v1::Acknowledgement as prost::Message>::decode(
        bytes,
    ) {
        Ok(a) => match a.response {
            Some(
                cosmos_sdk_proto_althea::ibc::core::channel::v1::acknowledgement::Response::Result(b),
            ) => Some(AckResponse::Success(b)),
            Some(
                cosmos_sdk_proto_althea::ibc::core::channel::v1::acknowledgement::Response::Error(e),
            ) => Some(AckResponse::Failure(e.into_bytes())),
            None => None,
        },
        Err(_) => None,
    }
}

/// Relies on sha256::digest: the SHA-256 of the bytes as 64 hexadecimal
/// digits, uppercased. A function of the bytes alone.
#[verifier::external_body]
fn tx_hash(bytes: &[u8]) -> (r: Vec<u8>)
    ensures
        r@ == tx_hash_hex(bytes@),
        r@.len() == 64,
        forall|i: int| 0 <= i < r@.len() ==> is_hex_upper(#[trigger] r@[i]),
{
    sha256::digest(bytes).to_uppercase().into_bytes()
}

/// An ASCII decimal digit or uppercase hexadecimal letter.
pub open spec fn is_hex_upper(b: u8) -> bool {
    (48 <= b <= 57) || (65 <= b <= 70)
}


/// The bytes of the type URL "/gravity.v1.MsgSendToEth".
fn url_send_to_eth_vec() -> (r: Vec<u8>)
    ensures
        r@ == url_send_to_eth(),
{
    let mut v: Vec<u8> = Vec::new();
    v.push(47);
    v.push(103);
    v.push(114);
    v.push(97);
    v.push(118);
    v.push(105);
    v.push(116);
    v.push(121);
    v.push(46);
    v.push(118);
    v.push(49);
    v.push(46);
    v.push(77);
    v.push(115);
    v.push(103);
    v.push(83);
    v.push(101);
    v.push(110);
    v.push(100);
    v.push(84);
    v.push(111);
    v.push(69);
    v.push(116);
    v.push(104);
    assert(v@ =~= url_send_to_eth());
    v
}

/// The bytes of the type URL "/ibc.applications.transfer.v1.MsgTransfer".
fn url_transfer_vec() -> (r: Vec<u8>)
    ensures
        r@ == url_transfer(),
{
    let mut v: Vec<u8> = Vec::new();
    v.push(47);
    v.push(105);
    v.push(98);
    v.push(99);
    v.push(46);
    v.push(97);
    v.push(112);
    v.push(112);
    v.push(108);
    v.push(105);
    v.push(99);
    v.push(97);
    v.push(116);
    v.push(105);
    v.push(111);
    v.push(110);
    v.push(115);
    v.push(46);
    v.push(116);
    v.push(114);
    v.push(97);
    v.push(110);
    v.push(115);
    v.push(102);
    v.push(101);
    v.push(114);
    v.push(46);
    v.push(118);
    v.push(49);
    v.push(46);
    v.push(77);
    v.push(115);
    v.push(103);
    v.push(84);
    v.push(114);
    v.push(97);
    v.push(110);
    v.push(115);
    v.push(102);
    v.push(101);
    v.push(114);
    assert(v@ =~= url_transfer());
    v
}

/// The bytes of the type URL "/ibc.core.channel.v1.MsgAcknowledgement".
fn url_ack_vec() -> (r: Vec<u8>)
    ensures
        r@ == url_ack(),
{
    let mut v: Vec<u8> = Vec::new();
    v.push(47);
    v.push(105);
    v.push(98);
    v.push(99);
    v.push(46);
    v.push(99);
    v.push(111);
    v.push(114);
    v.push(101);
    v.push(46);
    v.push(99);
    v.push(104);
    v.push(97);
    v.push(110);
    v.push(110);
    v.push(101);
    v.push(108);
    v.push(46);
    v.push(118);
    v.push(49);
    v.push(46);
    v.push(77);
    v.push(115);
    v.push(103);
    v.push(65);
    v.push(99);
    v.push(107);
    v.push(110);
    v.push(111);
    v.push(119);
    v.push(108);
    v.push(101);
    v.push(100);
    v.push(103);
    v.push(101);
    v.push(109);
    v.push(101);
    v.push(110);
    v.push(116);
    assert(v@ =~= url_ack());
    v
}


/// A type URL the indexer recognizes.
pub open spec fn known_url(u: Seq<u8>) -> bool {
    u == url_send_to_eth() || u == url_transfer() || u == url_ack()
}

/// The records one inner message contributes: at most one, keyed by the
/// block height, its kind, the block timestamp and the transaction hash,
/// its value the canonical payload encoding. An acknowledgement is
/// unwrapped one level: a success response is decoded as the transfer it
/// carries, an error response carries no transfer and yields nothing.
pub open spec fn extract_msg(height: u64, ts: i64, hash: Seq<u8>, m: RawMessageView) -> Seq<
    (Seq<u8>, Seq<u8>),
> {
    if m.type_url == url_send_to_eth() {
        match parse_send_to_eth(m.value) {
            Some(v) => seq![
                (key_bytes(height, MessageType::SendToEth, ts, hash), enc_send_to_eth(v)),
            ],
            None => Seq::empty(),
        }
    } else if m.type_url == url_transfer() {
        match parse_transfer(m.value) {
            Some(v) => seq![
                (key_bytes(height, MessageType::IbcTransfer, ts, hash), enc_transfer(v)),
            ],
            None => Seq::empty(),
        }
    } else if m.type_url == url_ack() {
        match parse_ack_envelope(m.value) {
            Some(ab) => match parse_ack(ab) {
                Some(AckView::Success(rb)) => match parse_transfer(rb) {
                    Some(v) => seq![
                        (key_bytes(height, MessageType::IbcRecv, ts, hash), enc_transfer(v)),
                    ],
                    None => Seq::empty(),
                },
                _ => Seq::empty(),
            },
            None => Seq::empty(),
        }
    } else {
        Seq::empty()
    }
}

/// The records of a message list, in message order.
pub open spec fn extract_msgs(height: u64, ts: i64, hash: Seq<u8>, msgs: Seq<RawMessageView>) -> Seq<
    (Seq<u8>, Seq<u8>),
>
    decreases msgs.len(),
{
    if msgs.len() == 0 {
        Seq::empty()
    } else {
        extract_msg(height, ts, hash, msgs.first()) + extract_msgs(
            height,
            ts,
            hash,
            msgs.drop_first(),
        )
    }
}

/// How many messages of recognized type a list holds.
pub open spec fn count_known(msgs: Seq<RawMessageView>) -> nat
    decreases msgs.len(),
{
    if msgs.len() == 0 {
        0
    } else {
        (if known_url(msgs.first().type_url) {
            1nat
        } else {
            0nat
        }) + count_known(msgs.drop_first())
    }
}

/// Does some message carry a transfer to the external chain?
pub open spec fn has_send_to_eth(msgs: Seq<RawMessageView>) -> bool
    decreases msgs.len(),
{
    if msgs.len() == 0 {
        false
    } else {
        msgs.first().type_url == url_send_to_eth() || has_send_to_eth(msgs.drop_first())
    }
}

/// Does some message carry an inter-chain transfer or acknowledgement?
pub open spec fn has_ibc_transfer(msgs: Seq<RawMessageView>) -> bool
    decreases msgs.len(),
{
    if msgs.len() == 0 {
        false
    } else {
        msgs.first().type_url == url_transfer() || msgs.first().type_url == url_ack()
            || has_ibc_transfer(msgs.drop_first())
    }
}

proof fn lemma_extract_msgs_snoc(height: u64, ts: i64, hash: Seq<u8>, msgs: Seq<RawMessageView>, m: RawMessageView)
    ensures
        extract_msgs(height, ts, hash, msgs.push(m)) == extract_msgs(height, ts, hash, msgs)
            + extract_msg(height, ts, hash, m),
    decreases msgs.len(),
{
    if msgs.len() == 0 {
        assert(msgs.push(m).drop_first() =~= Seq::<RawMessageView>::empty());
        assert(extract_msgs(height, ts, hash, Seq::<RawMessageView>::empty()) =~= Seq::<
            (Seq<u8>, Seq<u8>),
        >::empty());
        assert(extract_msgs(height, ts, hash, msgs) =~= Seq::<(Seq<u8>, Seq<u8>)>::empty());
        assert(extract_msgs(height, ts, hash, msgs.push(m)) =~= extract_msgs(height, ts, hash, msgs)
            + extract_msg(height, ts, hash, m));
    } else {
        assert(msgs.push(m).drop_first() =~= msgs.drop_first().push(m));
        lemma_extract_msgs_snoc(height, ts, hash, msgs.drop_first(), m);
        assert(extract_msgs(height, ts, hash, msgs.push(m)) =~= extract_msgs(height, ts, hash, msgs)
            + extract_msg(height, ts, hash, m));
    }
}

proof fn lemma_counts_snoc(msgs: Seq<RawMessageView>, m: RawMessageView)
    ensures
        count_known(msgs.push(m)) == count_known(msgs) + (if known_url(m.type_url) {
            1nat
        } else {
            0nat
        }),
        has_send_to_eth(msgs.push(m)) == (has_send_to_eth(msgs) || m.type_url
            == url_send_to_eth()),
        has_ibc_transfer(msgs.push(m)) == (has_ibc_transfer(msgs) || m.type_url == url_transfer()
            || m.type_url == url_ack()),
    decreases msgs.len(),
{
    let p = msgs.push(m);
    assert(p.len() == msgs.len() + 1);
    assert(has_send_to_eth(p) == (p.first().type_url == url_send_to_eth() || has_send_to_eth(
        p.drop_first(),
    )));
    assert(has_ibc_transfer(p) == (p.first().type_url == url_transfer() || p.first().type_url
        == url_ack() || has_ibc_transfer(p.drop_first())));
    if msgs.len() == 0 {
        assert(p.drop_first() =~= Seq::<RawMessageView>::empty());
        assert(p.first() == m);
        assert(!has_send_to_eth(Seq::<RawMessageView>::empty()));
        assert(!has_ibc_transfer(Seq::<RawMessageView>::empty()));
        assert(count_known(Seq::<RawMessageView>::empty()) == 0);
    } else {
        assert(p.first() == msgs.first());
        assert(p.drop_first() =~= msgs.drop_first().push(m));
        lemma_counts_snoc(msgs.drop_first(), m);
    }
}

/// Recognized messages never outnumber the messages.
pub proof fn lemma_count_known_bound(msgs: Seq<RawMessageView>)
    ensures
        count_known(msgs) <= msgs.len(),
    decreases msgs.len(),
{
    if msgs.len() > 0 {
        lemma_count_known_bound(msgs.drop_first());
    }
}

/// What one transaction contributes: its records, how many recognized
/// messages it held, and which kinds it held.
pub struct TxExtract {
    pub records: Vec<(Vec<u8>, Vec<u8>)>,
    pub msgs: u64,
    pub has_send_to_eth: bool,
    pub has_ibc_transfer: bool,
}

/// The records of one raw transaction: nothing if its envelope or body do
/// not decode (a malformed transaction is skipped, never fatal), else the
/// records of its messages in order.
pub open spec fn tx_records(height: u64, ts: i64, tx: Seq<u8>) -> Seq<(Seq<u8>, Seq<u8>)> {
    match parse_tx_raw(tx) {
        None => Seq::empty(),
        Some(bb) => match parse_tx_body(bb) {
            None => Seq::empty(),
            Some(msgs) => extract_msgs(height, ts, tx_hash_hex(tx), msgs),
        },
    }
}

/// How many recognized messages one raw transaction holds.
pub open spec fn tx_count_known(tx: Seq<u8>) -> nat {
    match parse_tx_raw(tx) {
        None => 0,
        Some(bb) => match parse_tx_body(bb) {
            None => 0,
            Some(msgs) => count_known(msgs),
        },
    }
}

/// Does one raw transaction hold a transfer to the external chain?
pub open spec fn tx_has_send_to_eth(tx: Seq<u8>) -> bool {
    match parse_tx_raw(tx) {
        None => false,
        Some(bb) => match parse_tx_body(bb) {
            None => false,
            Some(msgs) => has_send_to_eth(msgs),
        },
    }
}

/// Does one raw transaction hold an inter-chain transfer or acknowledgement?
pub open spec fn tx_has_ibc_transfer(tx: Seq<u8>) -> bool {
    match parse_tx_raw(tx) {
        None => false,
        Some(bb) => match parse_tx_body(bb) {
            None => false,
            Some(msgs) => has_ibc_transfer(msgs),
        },
    }
}

/// Handles one inner message: appends its records, and reports whether its
/// type is recognized and of which family it is.
fn handle_message(
    height: u64,
    ts: i64,
    hash: &Vec<u8>,
    m: &RawMessage,
    send_url: &Vec<u8>,
    transfer_url: &Vec<u8>,
    ack_url: &Vec<u8>,
    records: &mut Vec<(Vec<u8>, Vec<u8>)>,
) -> (r: (bool, bool, bool))
    requires
        height < MAX_KEY_HEIGHT,
        send_url@ == url_send_to_eth(),
        transfer_url@ == url_transfer(),
        ack_url@ == url_ack(),
    ensures
        final(records).deep_view() == old(records).deep_view() + extract_msg(height, ts, hash@, m@),
        r.0 == known_url(m@.type_url),
        r.1 == (m@.type_url == url_send_to_eth()),
        r.2 == (m@.type_url == url_transfer() || m@.type_url == url_ack()),
{
    let ghost rec0 = records.deep_view();
    let ghost mview = m@;
    if crate::keys::bytes_eq(m.type_url.as_slice(), send_url.as_slice()) {
        match decode_msg_send_to_eth(m.value.as_slice()) {
            Some(v) => {
                let key = make_key(height, MessageType::SendToEth, ts, hash);
                let val = encode_send_to_eth(&v);
                records.push((key, val));
                proof {
                    assert(records.deep_view() =~~= rec0.push((key@, val@)));
                    assert(rec0.push((key@, val@)) =~= rec0 + extract_msg(height, ts, hash@, mview));
                }
            },
            None => {
                proof {
                    assert(rec0 + extract_msg(height, ts, hash@, mview) =~= rec0);
                }
            },
        }
        (true, true, false)
    } else if crate::keys::bytes_eq(m.type_url.as_slice(), transfer_url.as_slice()) {
        match decode_msg_transfer(m.value.as_slice()) {
            Some(v) => {
                let key = make_key(height, MessageType::IbcTransfer, ts, hash);
                let val = encode_transfer(&v);
                records.push((key, val));
                proof {
                    assert(records.deep_view() =~~= rec0.push((key@, val@)));
                    assert(rec0.push((key@, val@)) =~= rec0 + extract_msg(height, ts, hash@, mview));
                }
            },
            None => {
                proof {
                    assert(rec0 + extract_msg(height, ts, hash@, mview) =~= rec0);
                }
            },
        }
        (true, false, true)
    } else if crate::keys::bytes_eq(m.type_url.as_slice(), ack_url.as_slice()) {
        let unwrapped = match decode_msg_ack_envelope(m.value.as_slice()) {
            Some(ab) => match decode_ack(ab.as_slice()) {
                Some(AckResponse::Success(rb)) => decode_msg_transfer(rb.as_slice()),
                Some(AckResponse::Failure(_)) => None,
                None => None,
            },
            None => None,
        };
        match unwrapped {
            Some(v) => {
                let key = make_key(height, MessageType::IbcRecv, ts, hash);
                let val = encode_transfer(&v);
                records.push((key, val));
                proof {
                    assert(records.deep_view() =~~= rec0.push((key@, val@)));
                    assert(rec0.push((key@, val@)) =~= rec0 + extract_msg(height, ts, hash@, mview));
                }
            },
            None => {
                proof {
                    assert(rec0 + extract_msg(height, ts, hash@, mview) =~= rec0);
                }
            },
        }
        (true, false, true)
    } else {
        proof {
            assert(rec0 + extract_msg(height, ts, hash@, mview) =~= rec0);
        }
        (false, false, false)
    }
}

/// Decodes one raw transaction and builds the records it contributes.
pub fn extract_transaction(height: u64, ts: i64, tx: &Vec<u8>) -> (r: TxExtract)
    requires
        height < MAX_KEY_HEIGHT,
    ensures
        r.records.deep_view() == tx_records(height, ts, tx@),
        r.msgs == tx_count_known(tx@),
        r.has_send_to_eth == tx_has_send_to_eth(tx@),
        r.has_ibc_transfer == tx_has_ibc_transfer(tx@),
{
    let empty = TxExtract {
        records: Vec::new(),
        msgs: 0,
        has_send_to_eth: false,
        has_ibc_transfer: false,
    };
    let body = match decode_tx_raw(tx.as_slice()) {
        None => {
            proof {
                assert(empty.records.deep_view() =~= tx_records(height, ts, tx@));
            }
            return empty;
        },
        Some(b) => b,
    };
    let msgs = match decode_tx_body(body.as_slice()) {
        None => {
            proof {
                assert(empty.records.deep_view() =~= tx_records(height, ts, tx@));
            }
            return empty;
        },
        Some(m) => m,
    };
    let hash = tx_hash(tx.as_slice());
    let send_url = url_send_to_eth_vec();
    let transfer_url = url_transfer_vec();
    let ack_url = url_ack_vec();
    let mut records: Vec<(Vec<u8>, Vec<u8>)> = Vec::new();
    let mut count: u64 = 0;
    let mut saw_send: bool = false;
    let mut saw_ibc: bool = false;
    let n = msgs.len();
    proof {
        assert(records.deep_view() =~= Seq::<(Seq<u8>, Seq<u8>)>::empty());
        assert(msgs.deep_view().take(0) =~= Seq::<RawMessageView>::empty());
        lemma_count_known_bound(msgs.deep_view());
    }
    let mut i: usize = 0;
    while i < n
        invariant
            0 <= i <= n,
            n == msgs@.len(),
            msgs.deep_view().len() == n,
            height < MAX_KEY_HEIGHT,
            hash@ == tx_hash_hex(tx@),
            send_url@ == url_send_to_eth(),
            transfer_url@ == url_transfer(),
            ack_url@ == url_ack(),
            records.deep_view() =~= extract_msgs(height, ts, hash@, msgs.deep_view().take(i as int)),
            count == count_known(msgs.deep_view().take(i as int)),
            count_known(msgs.deep_view().take(i as int)) <= i,
            saw_send == has_send_to_eth(msgs.deep_view().take(i as int)),
            saw_ibc == has_ibc_transfer(msgs.deep_view().take(i as int)),
        decreases n - i,
    {
        let ghost rec0 = records.deep_view();
        let ghost mview = msgs.deep_view()[i as int];
        proof {
            assert(msgs.deep_view()[i as int] == msgs@[i as int]@);
            assert(msgs.deep_view().take(i as int + 1) =~= msgs.deep_view().take(i as int).push(
                mview,
            ));
            lemma_extract_msgs_snoc(height, ts, hash@, msgs.deep_view().take(i as int), mview);
            lemma_counts_snoc(msgs.deep_view().take(i as int), mview);
        }
        let (known, is_send, is_ibc) = handle_message(
            height,
            ts,
            &hash,
            &msgs[i],
            &send_url,
            &transfer_url,
            &ack_url,
            &mut records,
        );
        if known {
            count = count + 1;
        }
        if is_send {
            saw_send = true;
        }
        if is_ibc {
            saw_ibc = true;
        }
        i = i + 1;
    }
    proof {
        assert(msgs.deep_view().take(n as int) =~= msgs.deep_view());
    }
    TxExtract { records, msgs: count, has_send_to_eth: saw_send, has_ibc_transfer: saw_ibc }
}

/// Unwrapping an acknowledgement: one message whose acknowledgement decodes
/// with a success response wrapping a valid transfer yields exactly one
/// acknowledgement-tagged record holding that transfer; one whose response
/// is an error yields none.
pub proof fn lemma_ack_unwrapping(height: u64, ts: i64, hash: Seq<u8>, m: RawMessageView)
    requires
        m.type_url == url_ack(),
    ensures
        (match parse_ack_envelope(m.value) {
            Some(ab) => match parse_ack(ab) {
                Some(AckView::Success(rb)) => match parse_transfer(rb) {
                    Some(v) => extract_msg(height, ts, hash, m) == seq![
                        (key_bytes(height, MessageType::IbcRecv, ts, hash), enc_transfer(v)),
                    ],
                    None => extract_msg(height, ts, hash, m) == Seq::<(Seq<u8>, Seq<u8>)>::empty(),
                },
                Some(AckView::Failure(_)) => extract_msg(height, ts, hash, m) == Seq::<
                    (Seq<u8>, Seq<u8>),
                >::empty(),
                None => extract_msg(height, ts, hash, m) == Seq::<(Seq<u8>, Seq<u8>)>::empty(),
            },
            None => extract_msg(height, ts, hash, m) == Seq::<(Seq<u8>, Seq<u8>)>::empty(),
        }),
{
    assert(url_ack() != url_send_to_eth());
    assert(url_ack() != url_transfer());
}

} // verus!
