//! The decoded message payloads that the indexer extracts from transactions,
//! the block shape it reads, and their mathematical views.
//!
//! String-typed fields of the upstream wire format (addresses, denominations,
//! decimal amounts, ports, channels) are held as their UTF-8 bytes: every
//! contract over them is stated on `Seq<u8>`.
use vstd::prelude::*;

verus! {

/// The closed set of message kinds the indexer persists.
#[derive(Clone, Copy, PartialEq, Eq, Structural, Debug)]
pub enum MessageType {
    /// A transfer from the ledger to the external chain.
    SendToEth,
    /// An outbound inter-chain transfer.
    IbcTransfer,
    /// An inter-chain transfer recovered from a success acknowledgement.
    IbcRecv,
}

/// One (denomination, amount) pair; the amount is a decimal string.
pub struct CustomCoin {
    pub denom: Vec<u8>,
    pub amount: Vec<u8>,
}

/// A revision-qualified timeout height of an inter-chain transfer.
#[derive(Clone, Copy, PartialEq, Eq, Structural, Debug)]
pub struct CustomHeight {
    pub revision_number: u64,
    pub revision_height: u64,
}

/// The persisted payload of a transfer-to-external-chain message.
pub struct CustomMsgSendToEth {
    pub sender: Vec<u8>,
    pub eth_dest: Vec<u8>,
    pub amount: Vec<CustomCoin>,
    pub bridge_fee: Vec<CustomCoin>,
    pub chain_fee: Vec<CustomCoin>,
}

/// The persisted payload of an inter-chain transfer message.
pub struct CustomMsgTransfer {
    pub source_port: Vec<u8>,
    pub source_channel: Vec<u8>,
    pub token: Vec<CustomCoin>,
    pub sender: Vec<u8>,
    pub receiver: Vec<u8>,
    pub timeout_height: Option<CustomHeight>,
    pub timeout_timestamp: u64,
}

/// One inner message of a transaction body: a type URL and its bytes.
pub struct RawMessage {
    pub type_url: Vec<u8>,
    pub value: Vec<u8>,
}

/// One block as the chain reader hands it over: height, header timestamp
/// in seconds, and the raw transactions.
pub struct Block {
    pub height: u64,
    pub timestamp: i64,
    pub txs: Vec<Vec<u8>>,
}

/// Per-run tallies of what a run processed, for observability only.
#[derive(Clone, Copy, PartialEq, Eq, Structural, Debug)]
pub struct Counters {
    pub blocks: u64,
    pub transactions: u64,
    pub msgs: u64,
    pub ibc_msgs: u64,
    pub send_eth_msgs: u64,
}

pub ghost struct CoinView {
    pub denom: Seq<u8>,
    pub amount: Seq<u8>,
}

pub ghost struct SendToEthView {
    pub sender: Seq<u8>,
    pub eth_dest: Seq<u8>,
    pub amount: Seq<CoinView>,
    pub bridge_fee: Seq<CoinView>,
    pub chain_fee: Seq<CoinView>,
}

pub ghost struct TransferView {
    pub source_port: Seq<u8>,
    pub source_channel: Seq<u8>,
    pub token: Seq<CoinView>,
    pub sender: Seq<u8>,
    pub receiver: Seq<u8>,
    pub timeout_height: Option<CustomHeight>,
    pub timeout_timestamp: u64,
}

pub ghost struct RawMessageView {
    pub type_url: Seq<u8>,
    pub value: Seq<u8>,
}

pub ghost struct BlockView {
    pub height: u64,
    pub timestamp: i64,
    pub txs: Seq<Seq<u8>>,
}

impl View for CustomCoin {
    type V = CoinView;

    open spec fn view(&self) -> CoinView {
        CoinView { denom: self.denom@, amount: self.amount@ }
    }
}

impl DeepView for CustomCoin {
    type V = CoinView;

    open spec fn deep_view(&self) -> CoinView {
        self@
    }
}

impl View for CustomMsgSendToEth {
    type V = SendToEthView;

    open spec fn view(&self) -> SendToEthView {
        SendToEthView {
            sender: self.sender@,
            eth_dest: self.eth_dest@,
            amount: self.amount.deep_view(),
            bridge_fee: self.bridge_fee.deep_view(),
            chain_fee: self.chain_fee.deep_view(),
        }
    }
}

impl DeepView for CustomMsgSendToEth {
    type V = SendToEthView;

    open spec fn deep_view(&self) -> SendToEthView {
        self@
    }
}

impl View for CustomMsgTransfer {
    type V = TransferView;

    open spec fn view(&self) -> TransferView {
        TransferView {
            source_port: self.source_port@,
            source_channel: self.source_channel@,
            token: self.token.deep_view(),
            sender: self.sender@,
            receiver: self.receiver@,
            timeout_height: self.timeout_height,
            timeout_timestamp: self.timeout_timestamp,
        }
    }
}

impl DeepView for CustomMsgTransfer {
    type V = TransferView;

    open spec fn deep_view(&self) -> TransferView {
        self@
    }
}

impl View for RawMessage {
    type V = RawMessageView;

    open spec fn view(&self) -> RawMessageView {
        RawMessageView { type_url: self.type_url@, value: self.value@ }
    }
}

impl DeepView for RawMessage {
    type V = RawMessageView;

    open spec fn deep_view(&self) -> RawMessageView {
        self@
    }
}

impl View for Block {
    type V = BlockView;

    open spec fn view(&self) -> BlockView {
        BlockView { height: self.height, timestamp: self.timestamp, txs: self.txs.deep_view() }
    }
}

impl DeepView for Block {
    type V = BlockView;

    open spec fn deep_view(&self) -> BlockView {
        self@
    }
}

impl Counters {
    /// A fresh all-zero tally, taken at the start of each run.
    pub fn new() -> (r: Counters)
        ensures
            r == (Counters { blocks: 0, transactions: 0, msgs: 0, ibc_msgs: 0, send_eth_msgs: 0 }),
    {
        Counters { blocks: 0, transactions: 0, msgs: 0, ibc_msgs: 0, send_eth_msgs: 0 }
    }

    /// Adds another tally onto this one field by field; each field sticks at
    /// `u64::MAX` rather than wrapping.
    pub fn add(&mut self, other: &Counters)
        ensures
            final(self).blocks == sat_add_u64(old(self).blocks as nat, other.blocks as nat),
            final(self).transactions == sat_add_u64(
                old(self).transactions as nat,
                other.transactions as nat,
            ),
            final(self).msgs == sat_add_u64(old(self).msgs as nat, other.msgs as nat),
            final(self).ibc_msgs == sat_add_u64(old(self).ibc_msgs as nat, other.ibc_msgs as nat),
            final(self).send_eth_msgs == sat_add_u64(
                old(self).send_eth_msgs as nat,
                other.send_eth_msgs as nat,
            ),
    {
        self.blocks = sat_add(self.blocks, other.blocks);
        self.transactions = sat_add(self.transactions, other.transactions);
        self.msgs = sat_add(self.msgs, other.msgs);
        self.ibc_msgs = sat_add(self.ibc_msgs, other.ibc_msgs);
        self.send_eth_msgs = sat_add(self.send_eth_msgs, other.send_eth_msgs);
    }
}

/// Addition on `u64` that sticks at the maximum instead of wrapping.
pub open spec fn sat_add_u64(a: nat, b: nat) -> u64 {
    if a + b <= u64::MAX {
        (a + b) as u64
    } else {
        u64::MAX
    }
}

/// Saturating `u64` addition.
pub fn sat_add(a: u64, b: u64) -> (r: u64)
    ensures
        r == sat_add_u64(a as nat, b as nat),
{
    if a <= u64::MAX - b {
        a + b
    } else {
        u64::MAX
    }
}

} // verus!
