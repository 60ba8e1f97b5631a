//! Saving and loading of decoded messages and of the checkpoint: thin,
//! fully specified accessors over the store.
use vstd::prelude::*;

use crate::digits::{dec_digits, digits_val, lemma_dec_digits_val, parse_u64_dec, push_dec_u64,
    spec_parse_u64};
use crate::encoding::{dec_send_to_eth, dec_transfer, decode_send_to_eth, decode_transfer,
    enc_send_to_eth, enc_transfer, encode_send_to_eth, encode_transfer,
    lemma_send_to_eth_roundtrip, lemma_transfer_roundtrip, send_to_eth_fits, transfer_fits};
use crate::messages::{CustomMsgSendToEth, CustomMsgTransfer, SendToEthView, TransferView};
use crate::store::KvStore;

verus! {

/// Saves a transfer-to-external-chain payload under its key, overwriting.
pub fn save_msg_send_to_eth(db: &mut KvStore, key: &Vec<u8>, data: &CustomMsgSendToEth)
    requires
        old(db).wf(),
    ensures
        final(db).wf(),
        final(db)@ == old(db)@.insert(key@, enc_send_to_eth(data@)),
{
    let k = crate::keys::bytes_range(key.as_slice(), 0, key.len());
    proof {
        assert(k@ =~= key@);
    }
    db.put(k, encode_send_to_eth(data));
}

/// Saves an inter-chain transfer payload under its key, overwriting.
pub fn save_msg_ibc_transfer(db: &mut KvStore, key: &Vec<u8>, data: &CustomMsgTransfer)
    requires
        old(db).wf(),
    ensures
        final(db).wf(),
        final(db)@ == old(db)@.insert(key@, enc_transfer(data@)),
{
    let k = crate::keys::bytes_range(key.as_slice(), 0, key.len());
    proof {
        assert(k@ =~= key@);
    }
    db.put(k, encode_transfer(data));
}

/// Saves a transfer recovered from an acknowledgement under its key; the
/// payload form is that of an inter-chain transfer.
pub fn save_msg_ibc_recv(db: &mut KvStore, key: &Vec<u8>, data: &CustomMsgTransfer)
    requires
        old(db).wf(),
    ensures
        final(db).wf(),
        final(db)@ == old(db)@.insert(key@, enc_transfer(data@)),
{
    save_msg_ibc_transfer(db, key, data);
}

/// Loads and decodes a transfer-to-external-chain payload; `None` when the
/// key is absent or its value is not a canonical payload.
pub fn load_msg_send_to_eth(db: &KvStore, key: &[u8]) -> (r: Option<CustomMsgSendToEth>)
    requires
        db.wf(),
    ensures
        match r {
            Some(m) => db@.dom().contains(key@) && dec_send_to_eth(db@[key@]) == Some(m@),
            None => !db@.dom().contains(key@) || dec_send_to_eth(db@[key@]) is None,
        },
{
    match db.get(key) {
        None => None,
        Some(v) => decode_send_to_eth(v.as_slice()),
    }
}

/// Loads and decodes an inter-chain transfer payload; `None` when the key
/// is absent or its value is not a canonical payload.
pub fn load_msg_ibc_transfer(db: &KvStore, key: &[u8]) -> (r: Option<CustomMsgTransfer>)
    requires
        db.wf(),
    ensures
        match r {
            Some(m) => db@.dom().contains(key@) && dec_transfer(db@[key@]) == Some(m@),
            None => !db@.dom().contains(key@) || dec_transfer(db@[key@]) is None,
        },
{
    match db.get(key) {
        None => None,
        Some(v) => decode_transfer(v.as_slice()),
    }
}

/// The reserved key under which the checkpoint lives: "last_download_block".
pub open spec fn checkpoint_key() -> Seq<u8> {
    seq![
        108u8, 97, 115, 116, 95, 100, 111, 119, 110, 108, 111, 97, 100, 95, 98, 108, 111, 99, 107,
    ]
}

/// The reserved checkpoint key, as a fresh vector.
pub fn checkpoint_key_vec() -> (r: Vec<u8>)
    ensures
        r@ == checkpoint_key(),
{
    let mut v: Vec<u8> = Vec::new();
    v.push(108);
    v.push(97);
    v.push(115);
    v.push(116);
    v.push(95);
    v.push(100);
    v.push(111);
    v.push(119);
    v.push(110);
    v.push(108);
    v.push(111);
    v.push(97);
    v.push(100);
    v.push(95);
    v.push(98);
    v.push(108);
    v.push(111);
    v.push(99);
    v.push(107);
    assert(v@ =~= checkpoint_key());
    v
}

/// The checkpoint a store holds: the reserved key's value read as a decimal
/// height, if it is there and reads as one.
pub open spec fn spec_checkpoint(m: Map<Seq<u8>, Seq<u8>>) -> Option<u64> {
    if m.dom().contains(checkpoint_key()) {
        spec_parse_u64(m[checkpoint_key()])
    } else {
        None
    }
}

/// Writes the checkpoint: the highest fully indexed height, as a decimal
/// string under the reserved key.
pub fn save_last_download_block(db: &mut KvStore, height: u64)
    requires
        old(db).wf(),
    ensures
        final(db).wf(),
        final(db)@ == old(db)@.insert(checkpoint_key(), dec_digits(height as nat)),
        spec_checkpoint(final(db)@) == Some(height),
{
    let mut v: Vec<u8> = Vec::new();
    push_dec_u64(height, &mut v);
    db.put(checkpoint_key_vec(), v);
    proof {
        lemma_dec_digits_val(height as nat);
    }
}

/// Reads the checkpoint back.
pub fn load_last_download_block(db: &KvStore) -> (r: Option<u64>)
    requires
        db.wf(),
    ensures
        r == spec_checkpoint(db@),
{
    let key = checkpoint_key_vec();
    match db.get(key.as_slice()) {
        None => None,
        Some(v) => parse_u64_dec(v.as_slice()),
    }
}

/// Advances the checkpoint to `latest` unless the stored one is already at
/// or past it: across successful runs the checkpoint never goes backwards.
pub fn advance_checkpoint(db: &mut KvStore, latest: u64)
    requires
        old(db).wf(),
    ensures
        final(db).wf(),
        match spec_checkpoint(old(db)@) {
            Some(c) => if c >= latest {
                final(db)@ == old(db)@ && spec_checkpoint(final(db)@) == Some(c)
            } else {
                final(db)@ == old(db)@.insert(checkpoint_key(), dec_digits(latest as nat))
                    && spec_checkpoint(final(db)@) == Some(latest)
            },
            None => final(db)@ == old(db)@.insert(checkpoint_key(), dec_digits(latest as nat))
                && spec_checkpoint(final(db)@) == Some(latest),
        },
{
    match load_last_download_block(db) {
        Some(c) => {
            if c < latest {
                save_last_download_block(db, latest);
            }
        },
        None => {
            save_last_download_block(db, latest);
        },
    }
}

/// Saving a transfer-to-external-chain payload and loading the same key
/// gives exactly the saved message back: the store round-trips payloads.
pub proof fn lemma_save_load_send_to_eth(m0: Map<Seq<u8>, Seq<u8>>, key: Seq<u8>, m: SendToEthView)
    requires
        send_to_eth_fits(m),
    ensures
        m0.insert(key, enc_send_to_eth(m)).dom().contains(key),
        dec_send_to_eth(m0.insert(key, enc_send_to_eth(m))[key]) == Some(m),
{
    lemma_send_to_eth_roundtrip(m);
}

/// Saving an inter-chain transfer payload and loading the same key gives
/// exactly the saved message back.
pub proof fn lemma_save_load_transfer(m0: Map<Seq<u8>, Seq<u8>>, key: Seq<u8>, m: TransferView)
    requires
        transfer_fits(m),
    ensures
        m0.insert(key, enc_transfer(m)).dom().contains(key),
        dec_transfer(m0.insert(key, enc_transfer(m))[key]) == Some(m),
{
    lemma_transfer_roundtrip(m);
}

} // verus!
