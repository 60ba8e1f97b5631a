//! The query layer: linear scans over the store answering "all records of
//! a type, grouped by height" and "fee totals over trailing time windows".
use vstd::prelude::*;

use crate::digits::{parse_u128_dec, spec_parse_u128};
use crate::encoding::{dec_send_to_eth, dec_transfer, decode_send_to_eth, decode_transfer};
use crate::keys::{parse_key, spec_parse_key};
use crate::messages::{CoinView, CustomCoin, CustomMsgSendToEth, CustomMsgTransfer, MessageType,
    SendToEthView, TransferView};
use crate::store::KvStore;

verus! {

/// Fee totals per denomination. Entries keep the order in which their
/// denominations were first seen; each denomination appears once.
pub struct FeeTotals {
    entries: Vec<(Vec<u8>, u128)>,
}

/// Every denomination appears at most once.
pub open spec fn denoms_unique(e: Seq<(Seq<u8>, u128)>) -> bool {
    forall|i: int, j: int|
        0 <= i < j < e.len() ==> (#[trigger] e[i]).0 != (#[trigger] e[j]).0
}

/// The map a totals list stands for.
pub open spec fn fee_map_of(e: Seq<(Seq<u8>, u128)>) -> Map<Seq<u8>, u128>
    decreases e.len(),
{
    if e.len() == 0 {
        Map::empty()
    } else {
        fee_map_of(e.drop_last()).insert(e.last().0, e.last().1)
    }
}

/// Totals lists and their maps agree on present denominations.
proof fn lemma_fee_map_entry(e: Seq<(Seq<u8>, u128)>, i: int)
    requires
        denoms_unique(e),
        0 <= i < e.len(),
    ensures
        fee_map_of(e).dom().contains(e[i].0),
        fee_map_of(e)[e[i].0] == e[i].1,
    decreases e.len(),
{
    if i == e.len() - 1 {
    } else {
        assert(forall|j: int| 0 <= j < e.len() - 1 ==> #[trigger] e.drop_last()[j] == e[j]);
        lemma_fee_map_entry(e.drop_last(), i);
        assert(e.last().0 != e[i].0);
    }
}

/// A denomination on no entry is not in the map.
proof fn lemma_fee_map_none(e: Seq<(Seq<u8>, u128)>, k: Seq<u8>)
    requires
        forall|j: int| 0 <= j < e.len() ==> (#[trigger] e[j]).0 != k,
    ensures
        !fee_map_of(e).dom().contains(k),
    decreases e.len(),
{
    if e.len() > 0 {
        assert(forall|j: int| 0 <= j < e.len() - 1 ==> #[trigger] e.drop_last()[j] == e[j]);
        lemma_fee_map_none(e.drop_last(), k);
    }
}

/// Updating the entry that holds `k` updates the map at `k`.
proof fn lemma_fee_map_update(e: Seq<(Seq<u8>, u128)>, i: int, k: Seq<u8>, v: u128)
    requires
        denoms_unique(e),
        0 <= i < e.len(),
        e[i].0 == k,
    ensures
        fee_map_of(e.update(i, (k, v))) == fee_map_of(e).insert(k, v),
    decreases e.len(),
{
    let e2 = e.update(i, (k, v));
    if i == e.len() - 1 {
        assert(e2.drop_last() =~= e.drop_last());
        assert(e2.last() == (k, v));
        assert(fee_map_of(e.drop_last()).insert(k, e.last().1).insert(k, v) =~= fee_map_of(
            e.drop_last(),
        ).insert(k, v));
    } else {
        assert(e2.drop_last() =~= e.drop_last().update(i, (k, v)));
        assert(e2.last() == e.last());
        assert(forall|x: int| 0 <= x < e.len() - 1 ==> #[trigger] e.drop_last()[x] == e[x]);
        lemma_fee_map_update(e.drop_last(), i, k, v);
        assert(e.last().0 != k);
        let m = fee_map_of(e.drop_last());
        assert(m.insert(k, v).insert(e.last().0, e.last().1) =~= m.insert(
            e.last().0,
            e.last().1,
        ).insert(k, v));
    }
}

/// Saturating addition on `u128`: sums stick at the maximum.
pub open spec fn sat_add_u128(a: nat, b: nat) -> u128 {
    if a + b <= u128::MAX {
        (a + b) as u128
    } else {
        u128::MAX
    }
}

/// One coin folded into the totals: its denomination's total grows by its
/// amount, sticking at `u128::MAX`; an amount that does not read as a
/// decimal number is skipped.
pub open spec fn fee_add(m: Map<Seq<u8>, u128>, c: CoinView) -> Map<Seq<u8>, u128> {
    match spec_parse_u128(c.amount) {
        None => m,
        Some(a) => {
            let cur: u128 = if m.dom().contains(c.denom) {
                m[c.denom]
            } else {
                0
            };
            m.insert(c.denom, sat_add_u128(cur as nat, a as nat))
        },
    }
}

/// A coin list folded into the totals, in order.
pub open spec fn add_coins(m: Map<Seq<u8>, u128>, cs: Seq<CoinView>) -> Map<Seq<u8>, u128>
    decreases cs.len(),
{
    if cs.len() == 0 {
        m
    } else {
        fee_add(add_coins(m, cs.drop_last()), cs.last())
    }
}

impl View for FeeTotals {
    type V = Map<Seq<u8>, u128>;

    open spec fn view(&self) -> Map<Seq<u8>, u128> {
        fee_map_of(self.entries_view())
    }
}

impl FeeTotals {
    /// The entries, in first-seen order.
    pub closed spec fn entries_view(self) -> Seq<(Seq<u8>, u128)> {
        self.entries.deep_view()
    }

    /// Well-formed: one entry per denomination.
    pub open spec fn wf(self) -> bool {
        denoms_unique(self.entries_view())
    }

    /// Empty totals.
    pub fn new() -> (r: FeeTotals)
        ensures
            r.wf(),
            r@ == Map::<Seq<u8>, u128>::empty(),
            r.entries_view() == Seq::<(Seq<u8>, u128)>::empty(),
    {
        let r = FeeTotals { entries: Vec::new() };
        proof {
            assert(r.entries_view() =~= Seq::<(Seq<u8>, u128)>::empty());
        }
        r
    }

    /// How many denominations have a total.
    pub fn num_denoms(&self) -> (r: usize)
        ensures
            r == self.entries_view().len(),
    {
        self.entries.len()
    }

    /// The `i`th denomination, in first-seen order.
    pub fn denom_at(&self, i: usize) -> (r: &Vec<u8>)
        requires
            i < self.entries_view().len(),
        ensures
            r@ == self.entries_view()[i as int].0,
    {
        proof {
            lemma_fee_entries_deep_view(self.entries);
        }
        &self.entries[i].0
    }

    /// The `i`th total, in first-seen order.
    pub fn amount_at(&self, i: usize) -> (r: u128)
        requires
            i < self.entries_view().len(),
        ensures
            r == self.entries_view()[i as int].1,
    {
        proof {
            lemma_fee_entries_deep_view(self.entries);
        }
        self.entries[i].1
    }

    /// The total of one denomination.
    pub fn total_of(&self, denom: &[u8]) -> (r: Option<u128>)
        requires
            self.wf(),
        ensures
            match r {
                Some(v) => self@.dom().contains(denom@) && self@[denom@] == v,
                None => !self@.dom().contains(denom@),
            },
    {
        let n = self.entries.len();
        let mut i: usize = 0;
        while i < n
            invariant
                0 <= i <= n,
                n == self.entries_view().len(),
                self.wf(),
                forall|j: int| 0 <= j < i ==> (#[trigger] self.entries_view()[j]).0 != denom@,
            decreases n - i,
        {
            proof {
                lemma_fee_entries_deep_view(self.entries);
            }
            if crate::keys::bytes_eq(self.entries[i].0.as_slice(), denom) {
                proof {
                    lemma_fee_map_entry(self.entries_view(), i as int);
                }
                return Some(self.entries[i].1);
            }
            i = i + 1;
        }
        proof {
            lemma_fee_map_none(self.entries_view(), denom@);
        }
        None
    }

    /// Folds one coin in.
    pub fn add_coin(&mut self, coin: &CustomCoin)
        requires
            old(self).wf(),
        ensures
            final(self).wf(),
            final(self)@ == fee_add(old(self)@, coin@),
    {
        let ghost e = self.entries_view();
        let amount = match parse_u128_dec(coin.amount.as_slice()) {
            None => {
                return ;
            },
            Some(a) => a,
        };
        let n = self.entries.len();
        let mut i: usize = 0;
        while i < n
            invariant
                0 <= i <= n,
                n == self.entries_view().len(),
                self.wf(),
                e == self.entries_view(),
                e == old(self).entries_view(),
                old(self).wf(),
                spec_parse_u128(coin@.amount) == Some(amount),
                forall|j: int| 0 <= j < i ==> (#[trigger] self.entries_view()[j]).0 != coin@.denom,
            decreases n - i,
        {
            proof {
                lemma_fee_entries_deep_view(self.entries);
            }
            if crate::keys::bytes_eq(self.entries[i].0.as_slice(), coin.denom.as_slice()) {
                proof {
                    lemma_fee_map_entry(e, i as int);
                }
                let cur = self.entries[i].1;
                let bumped = sat_add128(cur, amount);
                let denom = crate::keys::bytes_range(
                    self.entries[i].0.as_slice(),
                    0,
                    self.entries[i].0.len(),
                );
                proof {
                    assert(denom@ =~= coin@.denom);
                }
                self.entries.remove(i);
                self.entries.insert(i, (denom, bumped));
                proof {
                    lemma_fee_entries_deep_view(self.entries);
                    assert(self.entries_view() =~= e.update(i as int, (coin@.denom, bumped)));
                    lemma_fee_map_update(e, i as int, coin@.denom, bumped);
                }
                return ;
            }
            i = i + 1;
        }
        proof {
            lemma_fee_map_none(e, coin@.denom);
        }
        let denom = crate::keys::bytes_range(coin.denom.as_slice(), 0, coin.denom.len());
        proof {
            assert(denom@ =~= coin@.denom);
        }
        self.entries.push((denom, amount));
        proof {
            lemma_fee_entries_deep_view(self.entries);
            assert(self.entries_view() =~= e.push((coin@.denom, amount)));
            assert(self.entries_view().drop_last() =~= e);
            assert(sat_add_u128(0, amount as nat) == amount);
        }
    }
}

/// Saturating `u128` addition.
pub fn sat_add128(a: u128, b: u128) -> (r: u128)
    ensures
        r == sat_add_u128(a as nat, b as nat),
{
    if a <= u128::MAX - b {
        a + b
    } else {
        u128::MAX
    }
}

/// Bridges the deep view of a totals vector to the per-entry views.
proof fn lemma_fee_entries_deep_view(v: Vec<(Vec<u8>, u128)>)
    ensures
        v.deep_view().len() == v@.len(),
        forall|i: int|
            0 <= i < v@.len() ==> (#[trigger] v.deep_view()[i]) == (v@[i].0@, v@[i].1),
{
    assert forall|i: int|
        0 <= i < v@.len() implies (#[trigger] v.deep_view()[i]) == (v@[i].0@, v@[i].1) by {
        assert(v@[i].0.deep_view() =~= v@[i].0@);
    }
}

/// Folds a fee's coins into a copy of the running totals and hands the
/// updated totals back, as the aggregation loop uses per record.
pub fn process_fee(fee: Vec<CustomCoin>, totals: &FeeTotals) -> (r: FeeTotals)
    requires
        totals.wf(),
    ensures
        r.wf(),
        r@ == add_coins(totals@, fee.deep_view()),
{
    let mut r = totals.duplicate();
    add_fee_coins(&mut r, &fee);
    r
}

/// Folds a fee's coins into the totals in place.
pub fn add_fee_coins(totals: &mut FeeTotals, fee: &Vec<CustomCoin>)
    requires
        old(totals).wf(),
    ensures
        final(totals).wf(),
        final(totals)@ == add_coins(old(totals)@, fee.deep_view()),
{
    let ghost m0 = totals@;
    let n = fee.len();
    let mut i: usize = 0;
    proof {
        assert(fee.deep_view().take(0) =~= Seq::<CoinView>::empty());
    }
    while i < n
        invariant
            0 <= i <= n,
            n == fee@.len(),
            fee.deep_view().len() == n,
            totals.wf(),
            totals@ == add_coins(m0, fee.deep_view().take(i as int)),
        decreases n - i,
    {
        proof {
            assert(fee.deep_view()[i as int] == fee@[i as int]@);
            assert(fee.deep_view().take(i as int + 1).drop_last() =~= fee.deep_view().take(
                i as int,
            ));
            assert(fee.deep_view().take(i as int + 1).last() == fee.deep_view()[i as int]);
        }
        totals.add_coin(&fee[i]);
        i = i + 1;
    }
    proof {
        assert(fee.deep_view().take(n as int) =~= fee.deep_view());
    }
}

impl FeeTotals {
    /// An identical copy of the totals.
    pub fn duplicate(&self) -> (r: FeeTotals)
        ensures
            r.entries_view() == self.entries_view(),
            r@ == self@,
            r.wf() == self.wf(),
    {
        let n = self.entries.len();
        let mut out: Vec<(Vec<u8>, u128)> = Vec::new();
        let mut i: usize = 0;
        proof {
            lemma_fee_entries_deep_view(self.entries);
        }
        while i < n
            invariant
                0 <= i <= n,
                n == self.entries_view().len(),
                out.deep_view() =~= self.entries_view().take(i as int),
            decreases n - i,
        {
            proof {
                lemma_fee_entries_deep_view(self.entries);
                lemma_fee_entries_deep_view(out);
            }
            let denom = crate::keys::bytes_range(
                self.entries[i].0.as_slice(),
                0,
                self.entries[i].0.len(),
            );
            let amount = self.entries[i].1;
            let ghost out0 = out.deep_view();
            out.push((denom, amount));
            proof {
                lemma_fee_entries_deep_view(out);
                assert(out.deep_view() =~~= out0.push((self.entries_view()[i as int].0, amount)));
                assert(out.deep_view() =~= self.entries_view().take(i as int + 1));
            }
            i = i + 1;
        }
        proof {
            assert(self.entries_view().take(n as int) =~= self.entries_view());
        }
        let r = FeeTotals { entries: out };
        proof {
            assert(r.entries_view() =~= self.entries_view());
        }
        r
    }
}


/// The listed row one store entry contributes to the transfer-to-external-
/// chain listing: its key must parse with that type and its value decode.
pub open spec fn entry_send_row(p: (Seq<u8>, Seq<u8>)) -> Seq<(u64, i64, Seq<u8>, SendToEthView)> {
    match spec_parse_key(p.0) {
        Some((h, MessageType::SendToEth, ts, hash)) => match dec_send_to_eth(p.1) {
            Some(m) => seq![(h, ts, hash, m)],
            None => Seq::empty(),
        },
        _ => Seq::empty(),
    }
}

/// All transfer-to-external-chain rows of the store, in key order.
pub open spec fn send_rows(e: Seq<(Seq<u8>, Seq<u8>)>) -> Seq<(u64, i64, Seq<u8>, SendToEthView)>
    decreases e.len(),
{
    if e.len() == 0 {
        Seq::empty()
    } else {
        entry_send_row(e.first()) + send_rows(e.drop_first())
    }
}

/// The listed row one store entry contributes to the inter-chain transfer
/// listing.
pub open spec fn entry_transfer_row(p: (Seq<u8>, Seq<u8>)) -> Seq<(u64, i64, Seq<u8>, TransferView)> {
    match spec_parse_key(p.0) {
        Some((h, MessageType::IbcTransfer, ts, hash)) => match dec_transfer(p.1) {
            Some(m) => seq![(h, ts, hash, m)],
            None => Seq::empty(),
        },
        _ => Seq::empty(),
    }
}

/// All inter-chain transfer rows of the store, in key order.
pub open spec fn transfer_rows(e: Seq<(Seq<u8>, Seq<u8>)>) -> Seq<(u64, i64, Seq<u8>, TransferView)>
    decreases e.len(),
{
    if e.len() == 0 {
        Seq::empty()
    } else {
        entry_transfer_row(e.first()) + transfer_rows(e.drop_first())
    }
}

proof fn lemma_send_rows_snoc(e: Seq<(Seq<u8>, Seq<u8>)>, p: (Seq<u8>, Seq<u8>))
    ensures
        send_rows(e.push(p)) == send_rows(e) + entry_send_row(p),
    decreases e.len(),
{
    if e.len() == 0 {
        assert(e.push(p).drop_first() =~= Seq::<(Seq<u8>, Seq<u8>)>::empty());
        assert(e.push(p).first() == p);
        assert(send_rows(Seq::<(Seq<u8>, Seq<u8>)>::empty()) =~= Seq::<
            (u64, i64, Seq<u8>, SendToEthView),
        >::empty());
        assert(send_rows(e) =~= Seq::<(u64, i64, Seq<u8>, SendToEthView)>::empty());
        assert(send_rows(e.push(p)) =~= send_rows(e) + entry_send_row(p));
    } else {
        assert(e.push(p).first() == e.first());
        assert(e.push(p).drop_first() =~= e.drop_first().push(p));
        lemma_send_rows_snoc(e.drop_first(), p);
        assert(send_rows(e.push(p)) =~= send_rows(e) + entry_send_row(p));
    }
}

proof fn lemma_transfer_rows_snoc(e: Seq<(Seq<u8>, Seq<u8>)>, p: (Seq<u8>, Seq<u8>))
    ensures
        transfer_rows(e.push(p)) == transfer_rows(e) + entry_transfer_row(p),
    decreases e.len(),
{
    if e.len() == 0 {
        assert(e.push(p).drop_first() =~= Seq::<(Seq<u8>, Seq<u8>)>::empty());
        assert(e.push(p).first() == p);
        assert(transfer_rows(Seq::<(Seq<u8>, Seq<u8>)>::empty()) =~= Seq::<
            (u64, i64, Seq<u8>, TransferView),
        >::empty());
        assert(transfer_rows(e) =~= Seq::<(u64, i64, Seq<u8>, TransferView)>::empty());
        assert(transfer_rows(e.push(p)) =~= transfer_rows(e) + entry_transfer_row(p));
    } else {
        assert(e.push(p).first() == e.first());
        assert(e.push(p).drop_first() =~= e.drop_first().push(p));
        lemma_transfer_rows_snoc(e.drop_first(), p);
        assert(transfer_rows(e.push(p)) =~= transfer_rows(e) + entry_transfer_row(p));
    }
}

/// Walks the whole store and decodes every transfer-to-external-chain row.
pub fn collect_send_rows(db: &KvStore) -> (r: Vec<(u64, i64, Vec<u8>, CustomMsgSendToEth)>)
    requires
        db.wf(),
    ensures
        r.deep_view() == send_rows(db.entries_view()),
{
    let mut out: Vec<(u64, i64, Vec<u8>, CustomMsgSendToEth)> = Vec::new();
    let n = db.num_entries();
    let mut i: usize = 0;
    proof {
        assert(out.deep_view() =~= Seq::<(u64, i64, Seq<u8>, SendToEthView)>::empty());
        assert(db.entries_view().take(0) =~= Seq::<(Seq<u8>, Seq<u8>)>::empty());
        assert(send_rows(db.entries_view().take(0)) =~= Seq::<
            (u64, i64, Seq<u8>, SendToEthView),
        >::empty());
    }
    while i < n
        invariant
            0 <= i <= n,
            n == db.entries_view().len(),
            db.wf(),
            out.deep_view() =~= send_rows(db.entries_view().take(i as int)),
        decreases n - i,
    {
        let ghost out0 = out.deep_view();
        let ghost p = db.entries_view()[i as int];
        proof {
            assert(db.entries_view().take(i as int + 1) =~= db.entries_view().take(i as int).push(
                p,
            ));
            lemma_send_rows_snoc(db.entries_view().take(i as int), p);
        }
        let key = db.key_at(i);
        match parse_key(key.as_slice()) {
            Some((h, MessageType::SendToEth, ts, hash)) => {
                match decode_send_to_eth(db.value_at(i).as_slice()) {
                    Some(m) => {
                        out.push((h, ts, hash, m));
                        proof {
                            assert(out.deep_view() =~~= out0.push((h, ts, hash@, m@)));
                            assert(out0.push((h, ts, hash@, m@)) =~= out0 + entry_send_row(p));
                        }
                    },
                    None => {
                        proof {
                            assert(out0 + entry_send_row(p) =~= out0);
                        }
                    },
                }
            },
            _ => {
                proof {
                    assert(out0 + entry_send_row(p) =~= out0);
                }
            },
        }
        i = i + 1;
    }
    proof {
        assert(db.entries_view().take(n as int) =~= db.entries_view());
    }
    out
}

/// Walks the whole store and decodes every inter-chain transfer row.
pub fn collect_transfer_rows(db: &KvStore) -> (r: Vec<(u64, i64, Vec<u8>, CustomMsgTransfer)>)
    requires
        db.wf(),
    ensures
        r.deep_view() == transfer_rows(db.entries_view()),
{
    let mut out: Vec<(u64, i64, Vec<u8>, CustomMsgTransfer)> = Vec::new();
    let n = db.num_entries();
    let mut i: usize = 0;
    proof {
        assert(out.deep_view() =~= Seq::<(u64, i64, Seq<u8>, TransferView)>::empty());
        assert(db.entries_view().take(0) =~= Seq::<(Seq<u8>, Seq<u8>)>::empty());
        assert(transfer_rows(db.entries_view().take(0)) =~= Seq::<
            (u64, i64, Seq<u8>, TransferView),
        >::empty());
    }
    while i < n
        invariant
            0 <= i <= n,
            n == db.entries_view().len(),
            db.wf(),
            out.deep_view() =~= transfer_rows(db.entries_view().take(i as int)),
        decreases n - i,
    {
        let ghost out0 = out.deep_view();
        let ghost p = db.entries_view()[i as int];
        proof {
            assert(db.entries_view().take(i as int + 1) =~= db.entries_view().take(i as int).push(
                p,
            ));
            lemma_transfer_rows_snoc(db.entries_view().take(i as int), p);
        }
        let key = db.key_at(i);
        match parse_key(key.as_slice()) {
            Some((h, MessageType::IbcTransfer, ts, hash)) => {
                match decode_transfer(db.value_at(i).as_slice()) {
                    Some(m) => {
                        out.push((h, ts, hash, m));
                        proof {
                            assert(out.deep_view() =~~= out0.push((h, ts, hash@, m@)));
                            assert(out0.push((h, ts, hash@, m@)) =~= out0 + entry_transfer_row(p));
                        }
                    },
                    None => {
                        proof {
                            assert(out0 + entry_transfer_row(p) =~= out0);
                        }
                    },
                }
            },
            _ => {
                proof {
                    assert(out0 + entry_transfer_row(p) =~= out0);
                }
            },
        }
        i = i + 1;
    }
    proof {
        assert(db.entries_view().take(n as int) =~= db.entries_view());
    }
    out
}


/// One listed record: the transaction hash and the decoded payload.
pub struct SendRecord {
    pub tx_hash: Vec<u8>,
    pub data: CustomMsgSendToEth,
}

impl View for SendRecord {
    type V = (Seq<u8>, SendToEthView);

    open spec fn view(&self) -> (Seq<u8>, SendToEthView) {
        (self.tx_hash@, self.data@)
    }
}

impl DeepView for SendRecord {
    type V = (Seq<u8>, SendToEthView);

    open spec fn deep_view(&self) -> (Seq<u8>, SendToEthView) {
        self@
    }
}

pub ghost struct SendBlockView {
    pub block_number: u64,
    pub formatted_date: Seq<u8>,
    pub transactions: Seq<(Seq<u8>, SendToEthView)>,
}

/// One block's listed records, with a human-readable date of its timestamp.
pub struct SendBlock {
    pub block_number: u64,
    pub formatted_date: Vec<u8>,
    pub transactions: Vec<SendRecord>,
}

impl View for SendBlock {
    type V = SendBlockView;

    open spec fn view(&self) -> SendBlockView {
        SendBlockView {
            block_number: self.block_number,
            formatted_date: self.formatted_date@,
            transactions: self.transactions.deep_view(),
        }
    }
}

impl DeepView for SendBlock {
    type V = SendBlockView;

    open spec fn deep_view(&self) -> SendBlockView {
        self@
    }
}

/// The rows of one height, in row order.
pub open spec fn rows_at_send(rows: Seq<(u64, i64, Seq<u8>, SendToEthView)>, h: u64) -> Seq<
    (Seq<u8>, SendToEthView),
>
    decreases rows.len(),
{
    if rows.len() == 0 {
        Seq::empty()
    } else {
        (if rows.first().0 == h {
            seq![(rows.first().2, rows.first().3)]
        } else {
            Seq::empty()
        }) + rows_at_send(rows.drop_first(), h)
    }
}

proof fn lemma_rows_at_send_snoc(
    rows: Seq<(u64, i64, Seq<u8>, SendToEthView)>,
    r: (u64, i64, Seq<u8>, SendToEthView),
    h: u64,
)
    ensures
        rows_at_send(rows.push(r), h) == rows_at_send(rows, h) + (if r.0 == h {
            seq![(r.2, r.3)]
        } else {
            Seq::empty()
        }),
    decreases rows.len(),
{
    if rows.len() == 0 {
        assert(rows.push(r).drop_first() =~= Seq::<(u64, i64, Seq<u8>, SendToEthView)>::empty());
        assert(rows.push(r).first() == r);
        assert(rows_at_send(Seq::<(u64, i64, Seq<u8>, SendToEthView)>::empty(), h) =~= Seq::<
            (Seq<u8>, SendToEthView),
        >::empty());
        assert(rows_at_send(rows, h) =~= Seq::<(Seq<u8>, SendToEthView)>::empty());
        assert(rows_at_send(rows.push(r), h) =~= rows_at_send(rows, h) + (if r.0 == h {
            seq![(r.2, r.3)]
        } else {
            Seq::<(Seq<u8>, SendToEthView)>::empty()
        }));
    } else {
        assert(rows.push(r).first() == rows.first());
        assert(rows.push(r).drop_first() =~= rows.drop_first().push(r));
        lemma_rows_at_send_snoc(rows.drop_first(), r, h);
        assert(rows_at_send(rows.push(r), h) =~= rows_at_send(rows, h) + (if r.0 == h {
            seq![(r.2, r.3)]
        } else {
            Seq::<(Seq<u8>, SendToEthView)>::empty()
        }));
    }
}


/// Bridges the deep view of a send-row vector to the per-row views.
proof fn lemma_send_rows_deep(v: Vec<(u64, i64, Vec<u8>, CustomMsgSendToEth)>)
    ensures
        v.deep_view().len() == v@.len(),
        forall|i: int|
            0 <= i < v@.len() ==> (#[trigger] v.deep_view()[i]) == (
                v@[i].0,
                v@[i].1,
                v@[i].2@,
                v@[i].3@,
            ),
{
    assert forall|i: int|
        0 <= i < v@.len() implies (#[trigger] v.deep_view()[i]) == (
            v@[i].0,
            v@[i].1,
            v@[i].2@,
            v@[i].3@,
        ) by {
        assert(v@[i].2.deep_view() =~= v@[i].2@);
        assert(v@[i].3.deep_view() == v@[i].3@);
    }
}

/// Bridges the deep view of a group vector to the per-group views.
proof fn lemma_send_groups_deep(v: Vec<SendBlock>)
    ensures
        v.deep_view().len() == v@.len(),
        forall|i: int| 0 <= i < v@.len() ==> (#[trigger] v.deep_view()[i]) == v@[i]@,
{
    assert forall|i: int| 0 <= i < v@.len() implies (#[trigger] v.deep_view()[i]) == v@[i]@ by {
        assert(v@[i].deep_view() == v@[i]@);
    }
}

/// The ascending-by-height grouping of the rows: one group per height that
/// has rows, holding exactly that height's rows in row order.
pub open spec fn send_grouping_of(
    groups: Seq<SendBlockView>,
    rows: Seq<(u64, i64, Seq<u8>, SendToEthView)>,
) -> bool {
    &&& (forall|i: int, j: int|
        0 <= i < j < groups.len() ==> (#[trigger] groups[i]).block_number < (
        #[trigger] groups[j]).block_number)
    &&& (forall|i: int|
        0 <= i < groups.len() ==> (#[trigger] groups[i]).transactions == rows_at_send(
            rows,
            groups[i].block_number,
        ) && groups[i].transactions.len() > 0)
    &&& (forall|h: u64|
        rows_at_send(rows, h).len() > 0 ==> exists|i: int|
            0 <= i < groups.len() && (#[trigger] groups[i]).block_number == h)
}

/// Groups the rows by height, ascending.
pub fn group_send_rows(mut rows: Vec<(u64, i64, Vec<u8>, CustomMsgSendToEth)>) -> (r: Vec<
    SendBlock,
>)
    ensures
        send_grouping_of(r.deep_view(), rows.deep_view()),
{
    let ghost all = rows.deep_view();
    let mut groups: Vec<SendBlock> = Vec::new();
    let ghost k: int = 0;
    proof {
        assert(all.take(0) =~= Seq::<(u64, i64, Seq<u8>, SendToEthView)>::empty());
        lemma_send_groups_deep(groups);
        assert forall|h: u64| rows_at_send(all.take(0), h).len() > 0 implies exists|i: int|
            0 <= i < groups.deep_view().len() && (#[trigger] groups.deep_view()[i]).block_number
                == h by {}
    }
    while rows.len() > 0
        invariant
            0 <= k <= all.len(),
            rows.deep_view() =~= all.skip(k),
            send_grouping_of(groups.deep_view(), all.take(k)),
        decreases all.len() - k,
    {
        let ghost gs0 = groups.deep_view();
        let ghost pre = rows.deep_view();
        let ghost prev = rows@;
        proof {
            lemma_send_rows_deep(rows);
            assert(all.skip(k)[0] == all[k]);
            assert(pre[0] == all[k]);
            assert(all.take(k + 1) =~= all.take(k).push(all[k]));
        }
        let row = rows.remove(0);
        let ghost rv = all[k];
        proof {
            assert((row.0, row.1, row.2@, row.3@) == rv);
            lemma_send_rows_deep(rows);
            assert forall|x: int| 0 <= x < rows.deep_view().len() implies #[trigger] rows.deep_view()[x]
                == pre[x + 1] by {
                assert(rows@[x] == prev[x + 1]);
                assert(pre[x + 1] == (prev[x + 1].0, prev[x + 1].1, prev[x + 1].2@, prev[x + 1].3@));
            }
            assert(rows.deep_view() =~= pre.skip(1));
            assert(pre.skip(1) =~= all.skip(k + 1));
        }
        let (h, ts, hash, msg) = row;
        // find the slot: the first group at or above this height
        let glen = groups.len();
        let mut j: usize = 0;
        loop
            invariant_except_break
                0 <= j <= glen,
                glen == groups.deep_view().len(),
                forall|x: int|
                    0 <= x < j ==> (#[trigger] groups.deep_view()[x]).block_number < h,
            ensures
                0 <= j <= glen,
                glen == groups.deep_view().len(),
                forall|x: int|
                    0 <= x < j ==> (#[trigger] groups.deep_view()[x]).block_number < h,
                j < glen ==> groups.deep_view()[j as int].block_number >= h,
            decreases glen - j,
        {
            if j == glen {
                break ;
            }
            proof {
                lemma_send_groups_deep(groups);
            }
            if groups[j].block_number >= h {
                break ;
            }
            j = j + 1;
        }
        proof {
            lemma_send_groups_deep(groups);
        }
        if j < glen && groups[j].block_number == h {
            // existing group: append the row
            let mut g = groups.remove(j);
            let ghost gview = gs0[j as int];
            let ghost t0 = g.transactions.deep_view();
            g.transactions.push(SendRecord { tx_hash: hash, data: msg });
            proof {
                assert(g.transactions.deep_view() =~~= t0.push((rv.2, rv.3)));
            }
            groups.insert(j, g);
            proof {
                lemma_send_groups_deep(groups);
                assert(groups.deep_view() =~~= gs0.update(
                    j as int,
                    SendBlockView {
                        transactions: t0.push((rv.2, rv.3)),
                        ..gview
                    },
                ));
                assert forall|hq: u64| true implies #[trigger] rows_at_send(all.take(k + 1), hq)
                    =~= rows_at_send(all.take(k), hq) + (if rv.0 == hq {
                    seq![(rv.2, rv.3)]
                } else {
                    Seq::<(Seq<u8>, SendToEthView)>::empty()
                }) by {
                    lemma_rows_at_send_snoc(all.take(k), rv, hq);
                }
                assert(send_grouping_of(groups.deep_view(), all.take(k + 1))) by {
                    let gs1 = groups.deep_view();
                    assert forall|i: int|
                        0 <= i < gs1.len() implies (#[trigger] gs1[i]).transactions
                        == rows_at_send(all.take(k + 1), gs1[i].block_number)
                            && gs1[i].transactions.len() > 0 by {
                        if i == j {
                            assert(gs1[i].transactions =~= rows_at_send(
                                all.take(k + 1),
                                gs1[i].block_number,
                            ));
                        } else {
                            assert(gs1[i] == gs0[i]);
                            assert(gs0[i].block_number != h);
                            assert(gs1[i].transactions =~= rows_at_send(
                                all.take(k + 1),
                                gs1[i].block_number,
                            ));
                        }
                    }
                    assert forall|hq: u64| #[trigger] rows_at_send(all.take(k + 1), hq).len()
                        > 0 implies exists|i: int|
                            0 <= i < gs1.len() && (#[trigger] gs1[i]).block_number == hq by {
                        if hq == h {
                            assert(gs1[j as int].block_number == hq);
                        } else {
                            assert(rows_at_send(all.take(k), hq).len() > 0);
                            let w = choose|i: int|
                                0 <= i < gs0.len() && (#[trigger] gs0[i]).block_number == hq;
                            assert(gs1[w].block_number == hq);
                        }
                    }
                }
            }
        } else {
            // no group yet for this height: insert one at the slot
            let date = match local_date_string(ts) {
                Some(d) => d,
                None => Vec::new(),
            };
            let mut txs: Vec<SendRecord> = Vec::new();
            txs.push(SendRecord { tx_hash: hash, data: msg });
            let g = SendBlock { block_number: h, formatted_date: date, transactions: txs };
            proof {
                assert(g@.transactions =~~= seq![(rv.2, rv.3)]);
            }
            groups.insert(j, g);
            proof {
                lemma_send_groups_deep(groups);
                assert(groups.deep_view() =~~= gs0.insert(j as int, g@));
                gs0.insert_ensures(j as int, g@);
                assert forall|hq: u64| true implies #[trigger] rows_at_send(all.take(k + 1), hq)
                    =~= rows_at_send(all.take(k), hq) + (if rv.0 == hq {
                    seq![(rv.2, rv.3)]
                } else {
                    Seq::<(Seq<u8>, SendToEthView)>::empty()
                }) by {
                    lemma_rows_at_send_snoc(all.take(k), rv, hq);
                }
                // no earlier group holds this height
                assert forall|x: int| 0 <= x < gs0.len() implies (#[trigger] gs0[x]).block_number
                    != h by {
                    if x >= j {
                        assert(gs0[j as int].block_number >= h);
                        if gs0[x].block_number == h {
                            assert(gs0[j as int].block_number <= gs0[x].block_number);
                        }
                    }
                }
                assert(rows_at_send(all.take(k), h).len() == 0) by {
                    if rows_at_send(all.take(k), h).len() > 0 {
                        let w = choose|i: int|
                            0 <= i < gs0.len() && (#[trigger] gs0[i]).block_number == h;
                    }
                }
                assert(send_grouping_of(groups.deep_view(), all.take(k + 1))) by {
                    let gs1 = groups.deep_view();
                    assert forall|a: int, b: int|
                        0 <= a < b < gs1.len() implies (#[trigger] gs1[a]).block_number < (
                        #[trigger] gs1[b]).block_number by {
                        if b < j {
                        } else if b == j {
                            assert(gs1[a] == gs0[a]);
                        } else if a < j {
                            assert(gs1[b] == gs0[b - 1]);
                            if a == j {
                            } else {
                                assert(gs1[a] == gs0[a]);
                            }
                        } else if a == j {
                            assert(gs1[b] == gs0[b - 1]);
                            assert(gs0[b - 1].block_number >= h);
                            assert(gs0[b - 1].block_number != h);
                        } else {
                            assert(gs1[a] == gs0[a - 1]);
                            assert(gs1[b] == gs0[b - 1]);
                        }
                    }
                    assert forall|i: int|
                        0 <= i < gs1.len() implies (#[trigger] gs1[i]).transactions
                        == rows_at_send(all.take(k + 1), gs1[i].block_number)
                            && gs1[i].transactions.len() > 0 by {
                        if i == j {
                            assert(gs1[i].transactions =~= rows_at_send(
                                all.take(k + 1),
                                gs1[i].block_number,
                            ));
                        } else {
                            let oi = if i < j {
                                i
                            } else {
                                i - 1
                            };
                            assert(gs1[i] == gs0[oi]);
                            assert(gs0[oi].block_number != h);
                            assert(gs1[i].transactions =~= rows_at_send(
                                all.take(k + 1),
                                gs1[i].block_number,
                            ));
                        }
                    }
                    assert forall|hq: u64| #[trigger] rows_at_send(all.take(k + 1), hq).len()
                        > 0 implies exists|i: int|
                            0 <= i < gs1.len() && (#[trigger] gs1[i]).block_number == hq by {
                        if hq == h {
                            assert(gs1[j as int].block_number == hq);
                        } else {
                            assert(rows_at_send(all.take(k), hq).len() > 0);
                            let w = choose|i: int|
                                0 <= i < gs0.len() && (#[trigger] gs0[i]).block_number == hq;
                            if w < j {
                                assert(gs1[w].block_number == hq);
                            } else {
                                assert(gs1[w + 1].block_number == hq);
                            }
                        }
                    }
                }
            }
        }
        proof {
            k = k + 1;
        }
    }
    proof {
        assert(all.skip(k) =~= rows.deep_view());
        assert(all.take(k) =~= all);
    }
    groups
}

/// Relies on chrono for the local calendar date of a block timestamp,
/// rendered `MM-DD-YYYY`; `None` for a timestamp the calendar cannot
/// represent. The result depends on the machine's time zone.
#[verifier::external_body]
fn local_date_string(ts: i64) -> (r: Option<Vec<u8>>) {
    let utc = chrono::DateTime::<chrono::Utc>::from_timestamp(ts, 0)?;
    let local: chrono::DateTime<chrono::Local> = utc.into();
    let m = chrono::Datelike::month(&local);
    let d = chrono::Datelike::day(&local);
    let y = chrono::Datelike::year(&local);
    Some(format!("{:02}-{:02}-{}", m, d, y).into_bytes())
}

/// Lists every transfer-to-external-chain record in the store, grouped by
/// block height, ascending; each group carries a human-readable date.
pub fn get_all_msg_send_to_eth_transactions(db: &KvStore) -> (r: Vec<SendBlock>)
    requires
        db.wf(),
    ensures
        send_grouping_of(r.deep_view(), send_rows(db.entries_view())),
{
    group_send_rows(collect_send_rows(db))
}

/// One listed inter-chain transfer record.
pub struct TransferRecord {
    pub tx_hash: Vec<u8>,
    pub data: CustomMsgTransfer,
}

impl View for TransferRecord {
    type V = (Seq<u8>, TransferView);

    open spec fn view(&self) -> (Seq<u8>, TransferView) {
        (self.tx_hash@, self.data@)
    }
}

impl DeepView for TransferRecord {
    type V = (Seq<u8>, TransferView);

    open spec fn deep_view(&self) -> (Seq<u8>, TransferView) {
        self@
    }
}

pub ghost struct TransferBlockView {
    pub block_number: u64,
    pub formatted_date: Seq<u8>,
    pub transactions: Seq<(Seq<u8>, TransferView)>,
}

/// One block's listed records, with a human-readable date of its timestamp.
pub struct TransferBlock {
    pub block_number: u64,
    pub formatted_date: Vec<u8>,
    pub transactions: Vec<TransferRecord>,
}

impl View for TransferBlock {
    type V = TransferBlockView;

    open spec fn view(&self) -> TransferBlockView {
        TransferBlockView {
            block_number: self.block_number,
            formatted_date: self.formatted_date@,
            transactions: self.transactions.deep_view(),
        }
    }
}

impl DeepView for TransferBlock {
    type V = TransferBlockView;

    open spec fn deep_view(&self) -> TransferBlockView {
        self@
    }
}

/// The rows of one height, in row order.
pub open spec fn rows_at_transfer(rows: Seq<(u64, i64, Seq<u8>, TransferView)>, h: u64) -> Seq<
    (Seq<u8>, TransferView),
>
    decreases rows.len(),
{
    if rows.len() == 0 {
        Seq::empty()
    } else {
        (if rows.first().0 == h {
            seq![(rows.first().2, rows.first().3)]
        } else {
            Seq::empty()
        }) + rows_at_transfer(rows.drop_first(), h)
    }
}

proof fn lemma_rows_at_transfer_snoc(
    rows: Seq<(u64, i64, Seq<u8>, TransferView)>,
    r: (u64, i64, Seq<u8>, TransferView),
    h: u64,
)
    ensures
        rows_at_transfer(rows.push(r), h) == rows_at_transfer(rows, h) + (if r.0 == h {
            seq![(r.2, r.3)]
        } else {
            Seq::empty()
        }),
    decreases rows.len(),
{
    if rows.len() == 0 {
        assert(rows.push(r).drop_first() =~= Seq::<(u64, i64, Seq<u8>, TransferView)>::empty());
        assert(rows.push(r).first() == r);
        assert(rows_at_transfer(Seq::<(u64, i64, Seq<u8>, TransferView)>::empty(), h) =~= Seq::<
            (Seq<u8>, TransferView),
        >::empty());
        assert(rows_at_transfer(rows, h) =~= Seq::<(Seq<u8>, TransferView)>::empty());
        assert(rows_at_transfer(rows.push(r), h) =~= rows_at_transfer(rows, h) + (if r.0 == h {
            seq![(r.2, r.3)]
        } else {
            Seq::<(Seq<u8>, TransferView)>::empty()
        }));
    } else {
        assert(rows.push(r).first() == rows.first());
        assert(rows.push(r).drop_first() =~= rows.drop_first().push(r));
        lemma_rows_at_transfer_snoc(rows.drop_first(), r, h);
        assert(rows_at_transfer(rows.push(r), h) =~= rows_at_transfer(rows, h) + (if r.0 == h {
            seq![(r.2, r.3)]
        } else {
            Seq::<(Seq<u8>, TransferView)>::empty()
        }));
    }
}


/// Bridges the deep view of a transfer-row vector to the per-row views.
proof fn lemma_transfer_rows_deep(v: Vec<(u64, i64, Vec<u8>, CustomMsgTransfer)>)
    ensures
        v.deep_view().len() == v@.len(),
        forall|i: int|
            0 <= i < v@.len() ==> (#[trigger] v.deep_view()[i]) == (
                v@[i].0,
                v@[i].1,
                v@[i].2@,
                v@[i].3@,
            ),
{
    assert forall|i: int|
        0 <= i < v@.len() implies (#[trigger] v.deep_view()[i]) == (
            v@[i].0,
            v@[i].1,
            v@[i].2@,
            v@[i].3@,
        ) by {
        assert(v@[i].2.deep_view() =~= v@[i].2@);
        assert(v@[i].3.deep_view() == v@[i].3@);
    }
}

/// Bridges the deep view of a transfer group vector to the per-group views.
proof fn lemma_transfer_groups_deep(v: Vec<TransferBlock>)
    ensures
        v.deep_view().len() == v@.len(),
        forall|i: int| 0 <= i < v@.len() ==> (#[trigger] v.deep_view()[i]) == v@[i]@,
{
    assert forall|i: int| 0 <= i < v@.len() implies (#[trigger] v.deep_view()[i]) == v@[i]@ by {
        assert(v@[i].deep_view() == v@[i]@);
    }
}

/// The ascending-by-height grouping of the inter-chain transfer rows.
pub open spec fn transfer_grouping_of(
    groups: Seq<TransferBlockView>,
    rows: Seq<(u64, i64, Seq<u8>, TransferView)>,
) -> bool {
    &&& (forall|i: int, j: int|
        0 <= i < j < groups.len() ==> (#[trigger] groups[i]).block_number < (
        #[trigger] groups[j]).block_number)
    &&& (forall|i: int|
        0 <= i < groups.len() ==> (#[trigger] groups[i]).transactions == rows_at_transfer(
            rows,
            groups[i].block_number,
        ) && groups[i].transactions.len() > 0)
    &&& (forall|h: u64|
        rows_at_transfer(rows, h).len() > 0 ==> exists|i: int|
            0 <= i < groups.len() && (#[trigger] groups[i]).block_number == h)
}

/// Groups the inter-chain transfer rows by height, ascending.
pub fn group_transfer_rows(mut rows: Vec<(u64, i64, Vec<u8>, CustomMsgTransfer)>) -> (r: Vec<
    TransferBlock,
>)
    ensures
        transfer_grouping_of(r.deep_view(), rows.deep_view()),
{
    let ghost all = rows.deep_view();
    let mut groups: Vec<TransferBlock> = Vec::new();
    let ghost k: int = 0;
    proof {
        assert(all.take(0) =~= Seq::<(u64, i64, Seq<u8>, TransferView)>::empty());
        lemma_transfer_groups_deep(groups);
        assert forall|h: u64| rows_at_transfer(all.take(0), h).len() > 0 implies exists|i: int|
            0 <= i < groups.deep_view().len() && (#[trigger] groups.deep_view()[i]).block_number
                == h by {}
    }
    while rows.len() > 0
        invariant
            0 <= k <= all.len(),
            rows.deep_view() =~= all.skip(k),
            transfer_grouping_of(groups.deep_view(), all.take(k)),
        decreases all.len() - k,
    {
        let ghost gs0 = groups.deep_view();
        let ghost pre = rows.deep_view();
        let ghost prev = rows@;
        proof {
            lemma_transfer_rows_deep(rows);
            assert(all.skip(k)[0] == all[k]);
            assert(pre[0] == all[k]);
            assert(all.take(k + 1) =~= all.take(k).push(all[k]));
        }
        let row = rows.remove(0);
        let ghost rv = all[k];
        proof {
            assert((row.0, row.1, row.2@, row.3@) == rv);
            lemma_transfer_rows_deep(rows);
            assert forall|x: int| 0 <= x < rows.deep_view().len() implies #[trigger] rows.deep_view()[x]
                == pre[x + 1] by {
                assert(rows@[x] == prev[x + 1]);
                assert(pre[x + 1] == (prev[x + 1].0, prev[x + 1].1, prev[x + 1].2@, prev[x + 1].3@));
            }
            assert(rows.deep_view() =~= pre.skip(1));
            assert(pre.skip(1) =~= all.skip(k + 1));
        }
        let (h, ts, hash, msg) = row;
        // find the slot: the first group at or above this height
        let glen = groups.len();
        let mut j: usize = 0;
        loop
            invariant_except_break
                0 <= j <= glen,
                glen == groups.deep_view().len(),
                forall|x: int|
                    0 <= x < j ==> (#[trigger] groups.deep_view()[x]).block_number < h,
            ensures
                0 <= j <= glen,
                glen == groups.deep_view().len(),
                forall|x: int|
                    0 <= x < j ==> (#[trigger] groups.deep_view()[x]).block_number < h,
                j < glen ==> groups.deep_view()[j as int].block_number >= h,
            decreases glen - j,
        {
            if j == glen {
                break ;
            }
            proof {
                lemma_transfer_groups_deep(groups);
            }
            if groups[j].block_number >= h {
                break ;
            }
            j = j + 1;
        }
        proof {
            lemma_transfer_groups_deep(groups);
        }
        if j < glen && groups[j].block_number == h {
            // existing group: append the row
            let mut g = groups.remove(j);
            let ghost gview = gs0[j as int];
            let ghost t0 = g.transactions.deep_view();
            g.transactions.push(TransferRecord { tx_hash: hash, data: msg });
            proof {
                assert(g.transactions.deep_view() =~~= t0.push((rv.2, rv.3)));
            }
            groups.insert(j, g);
            proof {
                lemma_transfer_groups_deep(groups);
                assert(groups.deep_view() =~~= gs0.update(
                    j as int,
                    TransferBlockView {
                        transactions: t0.push((rv.2, rv.3)),
                        ..gview
                    },
                ));
                assert forall|hq: u64| true implies #[trigger] rows_at_transfer(all.take(k + 1), hq)
                    =~= rows_at_transfer(all.take(k), hq) + (if rv.0 == hq {
                    seq![(rv.2, rv.3)]
                } else {
                    Seq::<(Seq<u8>, TransferView)>::empty()
                }) by {
                    lemma_rows_at_transfer_snoc(all.take(k), rv, hq);
                }
                assert(transfer_grouping_of(groups.deep_view(), all.take(k + 1))) by {
                    let gs1 = groups.deep_view();
                    assert forall|i: int|
                        0 <= i < gs1.len() implies (#[trigger] gs1[i]).transactions
                        == rows_at_transfer(all.take(k + 1), gs1[i].block_number)
                            && gs1[i].transactions.len() > 0 by {
                        if i == j {
                            assert(gs1[i].transactions =~= rows_at_transfer(
                                all.take(k + 1),
                                gs1[i].block_number,
                            ));
                        } else {
                            assert(gs1[i] == gs0[i]);
                            assert(gs0[i].block_number != h);
                            assert(gs1[i].transactions =~= rows_at_transfer(
                                all.take(k + 1),
                                gs1[i].block_number,
                            ));
                        }
                    }
                    assert forall|hq: u64| #[trigger] rows_at_transfer(all.take(k + 1), hq).len()
                        > 0 implies exists|i: int|
                            0 <= i < gs1.len() && (#[trigger] gs1[i]).block_number == hq by {
                        if hq == h {
                            assert(gs1[j as int].block_number == hq);
                        } else {
                            assert(rows_at_transfer(all.take(k), hq).len() > 0);
                            let w = choose|i: int|
                                0 <= i < gs0.len() && (#[trigger] gs0[i]).block_number == hq;
                            assert(gs1[w].block_number == hq);
                        }
                    }
                }
            }
        } else {
            // no group yet for this height: insert one at the slot
            let date = match local_date_string(ts) {
                Some(d) => d,
                None => Vec::new(),
            };
            let mut txs: Vec<TransferRecord> = Vec::new();
            txs.push(TransferRecord { tx_hash: hash, data: msg });
            let g = TransferBlock { block_number: h, formatted_date: date, transactions: txs };
            proof {
                assert(g@.transactions =~~= seq![(rv.2, rv.3)]);
            }
            groups.insert(j, g);
            proof {
                lemma_transfer_groups_deep(groups);
                assert(groups.deep_view() =~~= gs0.insert(j as int, g@));
                gs0.insert_ensures(j as int, g@);
                assert forall|hq: u64| true implies #[trigger] rows_at_transfer(all.take(k + 1), hq)
                    =~= rows_at_transfer(all.take(k), hq) + (if rv.0 == hq {
                    seq![(rv.2, rv.3)]
                } else {
                    Seq::<(Seq<u8>, TransferView)>::empty()
                }) by {
                    lemma_rows_at_transfer_snoc(all.take(k), rv, hq);
                }
                // no earlier group holds this height
                assert forall|x: int| 0 <= x < gs0.len() implies (#[trigger] gs0[x]).block_number
                    != h by {
                    if x >= j {
                        assert(gs0[j as int].block_number >= h);
                        if gs0[x].block_number == h {
                            assert(gs0[j as int].block_number <= gs0[x].block_number);
                        }
                    }
                }
                assert(rows_at_transfer(all.take(k), h).len() == 0) by {
                    if rows_at_transfer(all.take(k), h).len() > 0 {
                        let w = choose|i: int|
                            0 <= i < gs0.len() && (#[trigger] gs0[i]).block_number == h;
                    }
                }
                assert(transfer_grouping_of(groups.deep_view(), all.take(k + 1))) by {
                    let gs1 = groups.deep_view();
                    assert forall|a: int, b: int|
                        0 <= a < b < gs1.len() implies (#[trigger] gs1[a]).block_number < (
                        #[trigger] gs1[b]).block_number by {
                        if b < j {
                        } else if b == j {
                            assert(gs1[a] == gs0[a]);
                        } else if a < j {
                            assert(gs1[b] == gs0[b - 1]);
                            if a == j {
                            } else {
                                assert(gs1[a] == gs0[a]);
                            }
                        } else if a == j {
                            assert(gs1[b] == gs0[b - 1]);
                            assert(gs0[b - 1].block_number >= h);
                            assert(gs0[b - 1].block_number != h);
                        } else {
                            assert(gs1[a] == gs0[a - 1]);
                            assert(gs1[b] == gs0[b - 1]);
                        }
                    }
                    assert forall|i: int|
                        0 <= i < gs1.len() implies (#[trigger] gs1[i]).transactions
                        == rows_at_transfer(all.take(k + 1), gs1[i].block_number)
                            && gs1[i].transactions.len() > 0 by {
                        if i == j {
                            assert(gs1[i].transactions =~= rows_at_transfer(
                                all.take(k + 1),
                                gs1[i].block_number,
                            ));
                        } else {
                            let oi = if i < j {
                                i
                            } else {
                                i - 1
                            };
                            assert(gs1[i] == gs0[oi]);
                            assert(gs0[oi].block_number != h);
                            assert(gs1[i].transactions =~= rows_at_transfer(
                                all.take(k + 1),
                                gs1[i].block_number,
                            ));
                        }
                    }
                    assert forall|hq: u64| #[trigger] rows_at_transfer(all.take(k + 1), hq).len()
                        > 0 implies exists|i: int|
                            0 <= i < gs1.len() && (#[trigger] gs1[i]).block_number == hq by {
                        if hq == h {
                            assert(gs1[j as int].block_number == hq);
                        } else {
                            assert(rows_at_transfer(all.take(k), hq).len() > 0);
                            let w = choose|i: int|
                                0 <= i < gs0.len() && (#[trigger] gs0[i]).block_number == hq;
                            if w < j {
                                assert(gs1[w].block_number == hq);
                            } else {
                                assert(gs1[w + 1].block_number == hq);
                            }
                        }
                    }
                }
            }
        }
        proof {
            k = k + 1;
        }
    }
    proof {
        assert(all.skip(k) =~= rows.deep_view());
        assert(all.take(k) =~= all);
    }
    groups
}


/// Lists every inter-chain transfer record in the store, grouped by block
/// height, ascending; each group carries a human-readable date.
pub fn get_all_msg_ibc_transfer_transactions(db: &KvStore) -> (r: Vec<TransferBlock>)
    requires
        db.wf(),
    ensures
        transfer_grouping_of(r.deep_view(), transfer_rows(db.entries_view())),
{
    group_transfer_rows(collect_transfer_rows(db))
}


/// Is a timestamp inside a trailing window? `None` stands for all time.
pub open spec fn in_window(ts: i64, cutoff: Option<int>) -> bool {
    match cutoff {
        None => true,
        Some(c) => ts as int >= c,
    }
}

/// The bridge-fee totals over the rows whose timestamps lie in the window.
pub open spec fn bridge_totals(
    rows: Seq<(u64, i64, Seq<u8>, SendToEthView)>,
    cutoff: Option<int>,
) -> Map<Seq<u8>, u128>
    decreases rows.len(),
{
    if rows.len() == 0 {
        Map::empty()
    } else {
        let m = bridge_totals(rows.drop_last(), cutoff);
        if in_window(rows.last().1, cutoff) {
            add_coins(m, rows.last().3.bridge_fee)
        } else {
            m
        }
    }
}

/// The chain-fee totals over the rows whose timestamps lie in the window.
pub open spec fn chain_totals(
    rows: Seq<(u64, i64, Seq<u8>, SendToEthView)>,
    cutoff: Option<int>,
) -> Map<Seq<u8>, u128>
    decreases rows.len(),
{
    if rows.len() == 0 {
        Map::empty()
    } else {
        let m = chain_totals(rows.drop_last(), cutoff);
        if in_window(rows.last().1, cutoff) {
            add_coins(m, rows.last().3.chain_fee)
        } else {
            m
        }
    }
}

/// An exec cutoff faithful to a mathematical one: the comparison agrees on
/// every timestamp.
pub open spec fn cutoff_matches(exec_cutoff: Option<i64>, c: Option<int>) -> bool {
    match exec_cutoff {
        None => c is None,
        Some(ce) => c matches Some(cc) && (ce as int == cc || (cc < i64::MIN as int && ce
            == i64::MIN)),
    }
}

/// Sums one fee kind of every row inside the window.
fn bridge_totals_in(
    rows: &Vec<(u64, i64, Vec<u8>, CustomMsgSendToEth)>,
    exec_cutoff: Option<i64>,
    Ghost(c): Ghost<Option<int>>,
) -> (r: FeeTotals)
    requires
        cutoff_matches(exec_cutoff, c),
    ensures
        r.wf(),
        r@ == bridge_totals(rows.deep_view(), c),
{
    let mut r = FeeTotals::new();
    let n = rows.len();
    let mut i: usize = 0;
    proof {
        lemma_send_rows_deep(*rows);
        assert(rows.deep_view().take(0) =~= Seq::<(u64, i64, Seq<u8>, SendToEthView)>::empty());
    }
    while i < n
        invariant
            0 <= i <= n,
            n == rows@.len(),
            rows.deep_view().len() == n,
            cutoff_matches(exec_cutoff, c),
            r.wf(),
            r@ == bridge_totals(rows.deep_view().take(i as int), c),
        decreases n - i,
    {
        proof {
            lemma_send_rows_deep(*rows);
            assert(rows.deep_view().take(i as int + 1).drop_last() =~= rows.deep_view().take(
                i as int,
            ));
            assert(rows.deep_view().take(i as int + 1).last() == rows.deep_view()[i as int]);
        }
        let inside = match exec_cutoff {
            None => true,
            Some(ce) => rows[i].1 >= ce,
        };
        if inside {
            add_fee_coins(&mut r, &rows[i].3.bridge_fee);
        }
        i = i + 1;
    }
    proof {
        assert(rows.deep_view().take(n as int) =~= rows.deep_view());
    }
    r
}

/// Sums the other fee kind of every row inside the window.
fn chain_totals_in(
    rows: &Vec<(u64, i64, Vec<u8>, CustomMsgSendToEth)>,
    exec_cutoff: Option<i64>,
    Ghost(c): Ghost<Option<int>>,
) -> (r: FeeTotals)
    requires
        cutoff_matches(exec_cutoff, c),
    ensures
        r.wf(),
        r@ == chain_totals(rows.deep_view(), c),
{
    let mut r = FeeTotals::new();
    let n = rows.len();
    let mut i: usize = 0;
    proof {
        lemma_send_rows_deep(*rows);
        assert(rows.deep_view().take(0) =~= Seq::<(u64, i64, Seq<u8>, SendToEthView)>::empty());
    }
    while i < n
        invariant
            0 <= i <= n,
            n == rows@.len(),
            rows.deep_view().len() == n,
            cutoff_matches(exec_cutoff, c),
            r.wf(),
            r@ == chain_totals(rows.deep_view().take(i as int), c),
        decreases n - i,
    {
        proof {
            lemma_send_rows_deep(*rows);
            assert(rows.deep_view().take(i as int + 1).drop_last() =~= rows.deep_view().take(
                i as int,
            ));
            assert(rows.deep_view().take(i as int + 1).last() == rows.deep_view()[i as int]);
        }
        let inside = match exec_cutoff {
            None => true,
            Some(ce) => rows[i].1 >= ce,
        };
        if inside {
            add_fee_coins(&mut r, &rows[i].3.chain_fee);
        }
        i = i + 1;
    }
    proof {
        assert(rows.deep_view().take(n as int) =~= rows.deep_view());
    }
    r
}

/// The trailing-window cutoff `secs` before `now`, clamped to what `i64`
/// holds; the comparison it makes agrees with the unclamped one.
fn cutoff_before(now: i64, secs: i64) -> (r: i64)
    requires
        secs >= 0,
    ensures
        cutoff_matches(Some(r), Some(now as int - secs as int)),
{
    if now >= i64::MIN + secs {
        now - secs
    } else {
        i64::MIN
    }
}

/// One trailing time window's totals, both fee kinds.
pub struct TimeFrame {
    pub period: Vec<u8>,
    pub bridge_fee_totals: FeeTotals,
    pub chain_fee_totals: FeeTotals,
}

/// The fee totals over the fixed set of trailing windows.
pub struct TimeFrameData {
    pub time_frames: Vec<TimeFrame>,
}

/// Fee totals by trailing time window, ending at `now` (seconds): for each
/// of one day, seven days, thirty days, one year, and all time, the two fee
/// kinds of every transfer-to-external-chain record whose block timestamp
/// falls inside the window, summed per denomination. The windows are
/// cumulative: a record inside a short window is inside every longer one.
pub fn get_send_to_eth_transaction_totals(db: &KvStore, now: i64) -> (r: TimeFrameData)
    requires
        db.wf(),
    ensures
        r.time_frames@.len() == 5,
        r.time_frames@[0].period@ == seq![49u8, 32, 100, 97, 121],
        r.time_frames@[0].bridge_fee_totals.wf() && r.time_frames@[0].bridge_fee_totals@ == bridge_totals(send_rows(db.entries_view()), Some(now as int - 86400)),
        r.time_frames@[0].chain_fee_totals.wf() && r.time_frames@[0].chain_fee_totals@ == chain_totals(send_rows(db.entries_view()), Some(now as int - 86400)),
        r.time_frames@[1].period@ == seq![55u8, 32, 100, 97, 121, 115],
        r.time_frames@[1].bridge_fee_totals.wf() && r.time_frames@[1].bridge_fee_totals@ == bridge_totals(send_rows(db.entries_view()), Some(now as int - 604800)),
        r.time_frames@[1].chain_fee_totals.wf() && r.time_frames@[1].chain_fee_totals@ == chain_totals(send_rows(db.entries_view()), Some(now as int - 604800)),
        r.time_frames@[2].period@ == seq![51u8, 48, 32, 100, 97, 121, 115],
        r.time_frames@[2].bridge_fee_totals.wf() && r.time_frames@[2].bridge_fee_totals@ == bridge_totals(send_rows(db.entries_view()), Some(now as int - 2592000)),
        r.time_frames@[2].chain_fee_totals.wf() && r.time_frames@[2].chain_fee_totals@ == chain_totals(send_rows(db.entries_view()), Some(now as int - 2592000)),
        r.time_frames@[3].period@ == seq![49u8, 32, 121, 101, 97, 114],
        r.time_frames@[3].bridge_fee_totals.wf() && r.time_frames@[3].bridge_fee_totals@ == bridge_totals(send_rows(db.entries_view()), Some(now as int - 31536000)),
        r.time_frames@[3].chain_fee_totals.wf() && r.time_frames@[3].chain_fee_totals@ == chain_totals(send_rows(db.entries_view()), Some(now as int - 31536000)),
        r.time_frames@[4].period@ == seq![65u8, 108, 108, 32, 116, 105, 109, 101],
        r.time_frames@[4].bridge_fee_totals.wf() && r.time_frames@[4].bridge_fee_totals@ == bridge_totals(send_rows(db.entries_view()), None::<int>),
        r.time_frames@[4].chain_fee_totals.wf() && r.time_frames@[4].chain_fee_totals@ == chain_totals(send_rows(db.entries_view()), None::<int>),
{
    let rows = collect_send_rows(db);
    let mut frames: Vec<TimeFrame> = Vec::new();
    let c1 = cutoff_before(now, 86400);
    let c7 = cutoff_before(now, 604800);
    let c30 = cutoff_before(now, 2592000);
    let c365 = cutoff_before(now, 31536000);
    frames.push(TimeFrame {
        period: period_one_day(),
        bridge_fee_totals: bridge_totals_in(
            &rows,
            Some(c1),
            Ghost(Some(now as int - 86400)),
        ),
        chain_fee_totals: chain_totals_in(&rows, Some(c1), Ghost(Some(now as int - 86400))),
    });
    frames.push(TimeFrame {
        period: period_seven_days(),
        bridge_fee_totals: bridge_totals_in(
            &rows,
            Some(c7),
            Ghost(Some(now as int - 604800)),
        ),
        chain_fee_totals: chain_totals_in(&rows, Some(c7), Ghost(Some(now as int - 604800))),
    });
    frames.push(TimeFrame {
        period: period_thirty_days(),
        bridge_fee_totals: bridge_totals_in(
            &rows,
            Some(c30),
            Ghost(Some(now as int - 2592000)),
        ),
        chain_fee_totals: chain_totals_in(&rows, Some(c30), Ghost(Some(now as int - 2592000))),
    });
    frames.push(TimeFrame {
        period: period_one_year(),
        bridge_fee_totals: bridge_totals_in(
            &rows,
            Some(c365),
            Ghost(Some(now as int - 31536000)),
        ),
        chain_fee_totals: chain_totals_in(&rows, Some(c365), Ghost(Some(now as int - 31536000))),
    });
    frames.push(TimeFrame {
        period: period_all_time(),
        bridge_fee_totals: bridge_totals_in(&rows, None, Ghost(None)),
        chain_fee_totals: chain_totals_in(&rows, None, Ghost(None)),
    });
    TimeFrameData { time_frames: frames }
}

/// The label "1 day".
fn period_one_day() -> (r: Vec<u8>)
    ensures
        r@ == seq![49u8, 32, 100, 97, 121],
{
    let mut v: Vec<u8> = Vec::new();
    v.push(49);
    v.push(32);
    v.push(100);
    v.push(97);
    v.push(121);
    assert(v@ =~= seq![49u8, 32, 100, 97, 121]);
    v
}

/// The label "7 days".
fn period_seven_days() -> (r: Vec<u8>)
    ensures
        r@ == seq![55u8, 32, 100, 97, 121, 115],
{
    let mut v: Vec<u8> = Vec::new();
    v.push(55);
    v.push(32);
    v.push(100);
    v.push(97);
    v.push(121);
    v.push(115);
    assert(v@ =~= seq![55u8, 32, 100, 97, 121, 115]);
    v
}

/// The label "30 days".
fn period_thirty_days() -> (r: Vec<u8>)
    ensures
        r@ == seq![51u8, 48, 32, 100, 97, 121, 115],
{
    let mut v: Vec<u8> = Vec::new();
    v.push(51);
    v.push(48);
    v.push(32);
    v.push(100);
    v.push(97);
    v.push(121);
    v.push(115);
    assert(v@ =~= seq![51u8, 48, 32, 100, 97, 121, 115]);
    v
}

/// The label "1 year".
fn period_one_year() -> (r: Vec<u8>)
    ensures
        r@ == seq![49u8, 32, 121, 101, 97, 114],
{
    let mut v: Vec<u8> = Vec::new();
    v.push(49);
    v.push(32);
    v.push(121);
    v.push(101);
    v.push(97);
    v.push(114);
    assert(v@ =~= seq![49u8, 32, 121, 101, 97, 114]);
    v
}

/// The label "All time".
fn period_all_time() -> (r: Vec<u8>)
    ensures
        r@ == seq![65u8, 108, 108, 32, 116, 105, 109, 101],
{
    let mut v: Vec<u8> = Vec::new();
    v.push(65);
    v.push(108);
    v.push(108);
    v.push(32);
    v.push(116);
    v.push(105);
    v.push(109);
    v.push(101);
    assert(v@ =~= seq![65u8, 108, 108, 32, 116, 105, 109, 101]);
    v
}


} // verus!
