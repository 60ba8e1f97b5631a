//! The canonical serialized form of persisted payloads: length-prefixed
//! byte strings and little-endian fixed-width integers. The encoding is a
//! pure function of the payload, which is what makes re-indexing the same
//! data write byte-identical values; decoding inverts it exactly.
use vstd::prelude::*;

use crate::messages::{CoinView, CustomCoin, CustomHeight, CustomMsgSendToEth, CustomMsgTransfer,
    SendToEthView, TransferView};

verus! {

/// 256 to the power `w`.
pub open spec fn pow256(w: nat) -> nat
    decreases w,
{
    if w == 0 {
        1
    } else {
        256 * pow256((w - 1) as nat)
    }
}

pub proof fn lemma_pow256_8()
    ensures
        pow256(8) == 0x1_0000_0000_0000_0000,
{
    reveal_with_fuel(pow256, 9);
}

/// `n` in `w` little-endian bytes (high bytes beyond the width are dropped).
pub open spec fn le_bytes(n: nat, w: nat) -> Seq<u8>
    decreases w,
{
    if w == 0 {
        Seq::empty()
    } else {
        seq![(n % 256) as u8] + le_bytes(n / 256, (w - 1) as nat)
    }
}

/// The value of a little-endian byte string.
pub open spec fn le_val(s: Seq<u8>) -> nat
    decreases s.len(),
{
    if s.len() == 0 {
        0
    } else {
        (s[0] + 256 * le_val(s.drop_first())) as nat
    }
}

pub proof fn lemma_le_bytes_len(n: nat, w: nat)
    ensures
        le_bytes(n, w).len() == w,
    decreases w,
{
    if w > 0 {
        lemma_le_bytes_len(n / 256, (w - 1) as nat);
    }
}

/// A little-endian rendering reads back as the value it was made from.
pub proof fn lemma_le_roundtrip(n: nat, w: nat)
    requires
        n < pow256(w),
    ensures
        le_val(le_bytes(n, w)) == n,
    decreases w,
{
    if w > 0 {
        let s = le_bytes(n, w);
        assert(s.drop_first() =~= le_bytes(n / 256, (w - 1) as nat));
        assert(n / 256 < pow256((w - 1) as nat)) by (nonlinear_arith)
            requires
                n < pow256(w),
                w > 0,
                pow256(w) == 256 * pow256((w - 1) as nat),
        ;
        lemma_le_roundtrip(n / 256, (w - 1) as nat);
        assert(s[0] == n % 256);
        assert(n % 256 + 256 * (n / 256) == n) by (nonlinear_arith);
    }
}

/// Appends the 8 little-endian bytes of `n` to `out`.
pub fn push_le8(n: u64, out: &mut Vec<u8>)
    ensures
        final(out)@ == old(out)@ + le_bytes(n as nat, 8),
{
    let mut m = n;
    let mut w: usize = 0;
    while w < 8
        invariant
            0 <= w <= 8,
            le_bytes(n as nat, 8).skip(w as int) =~= le_bytes(m as nat, (8 - w) as nat),
            out@ =~= old(out)@ + le_bytes(n as nat, 8).take(w as int),
        decreases 8 - w,
    {
        out.push((m % 256) as u8);
        proof {
            lemma_le_bytes_len(n as nat, 8);
            assert(le_bytes(m as nat, (8 - w) as nat)[0] == (m as nat % 256) as u8);
            assert(le_bytes(m as nat, (8 - w) as nat).drop_first() =~= le_bytes(
                (m / 256) as nat,
                (8 - (w + 1)) as nat,
            ));
            assert(le_bytes(n as nat, 8).skip(w as int).drop_first() =~= le_bytes(n as nat, 8).skip(
                w as int + 1,
            ));
            assert(out@ =~= old(out)@ + le_bytes(n as nat, 8).take(w as int + 1));
        }
        m = m / 256;
        w = w + 1;
    }
    proof {
        lemma_le_bytes_len(n as nat, 8);
        assert(le_bytes(n as nat, 8).take(8) =~= le_bytes(n as nat, 8));
    }
}

/// Reads 8 little-endian bytes at `pos`, if they are there.
pub open spec fn dec_le8(s: Seq<u8>, pos: int) -> Option<(u64, int)> {
    if 0 <= pos && pos + 8 <= s.len() {
        Some(((le_val(s.subrange(pos, pos + 8)) % 0x1_0000_0000_0000_0000) as u64, pos + 8))
    } else {
        None
    }
}

/// If the 8 bytes at `pos` render `n`, reading them gives `n` back.
pub proof fn lemma_dec_le8(s: Seq<u8>, pos: int, n: u64)
    requires
        0 <= pos,
        pos + 8 <= s.len(),
        s.subrange(pos, pos + 8) == le_bytes(n as nat, 8),
    ensures
        dec_le8(s, pos) == Some((n, pos + 8)),
{
    lemma_pow256_8();
    lemma_le_roundtrip(n as nat, 8);
}

/// Reads a `u64` from 8 little-endian bytes starting at `pos`.
pub fn read_le8(s: &[u8], pos: usize) -> (r: Option<(u64, usize)>)
    ensures
        match r {
            Some((v, end)) => dec_le8(s@, pos as int) == Some((v, end as int)),
            None => dec_le8(s@, pos as int) is None,
        },
{
    let slen = s.len();
    if pos > slen || slen - pos < 8 {
        return None;
    }
    let mut acc: u64 = 0;
    let mut j: usize = 8;
    while j > 0
        invariant
            0 <= j <= 8,
            slen == s@.len(),
            pos + 8 <= slen,
            acc == le_val(s@.subrange(pos + j, pos as int + 8)),
            acc < pow256((8 - j) as nat),
        decreases j,
    {
        proof {
            lemma_pow256_8();
            assert(pow256((8 - j) as nat) * 256 == pow256((8 - j + 1) as nat)) by (nonlinear_arith)
                requires
                    pow256((8 - j + 1) as nat) == 256 * pow256((8 - j) as nat),
            ;
            assert(acc * 256 + 255 < pow256((8 - j + 1) as nat)) by (nonlinear_arith)
                requires
                    acc < pow256((8 - j) as nat),
                    pow256((8 - j) as nat) * 256 == pow256((8 - j + 1) as nat),
            ;
            assert(pow256((8 - j + 1) as nat) <= pow256(8)) by {
                lemma_pow256_mono((8 - j + 1) as nat, 8);
            }
        }
        let b = s[pos + j - 1];
        acc = acc * 256 + (b as u64);
        j = j - 1;
        proof {
            let sub = s@.subrange(pos + j, pos as int + 8);
            assert(sub[0] == b);
            assert(sub.drop_first() =~= s@.subrange(pos + j + 1, pos as int + 8));
        }
    }
    proof {
        lemma_pow256_8();
        assert(s@.subrange(pos as int, pos as int + 8) =~= s@.subrange(
            pos as int + 0,
            pos as int + 8,
        ));
    }
    Some((acc, pos + 8))
}

/// Widths only grow the bound.
proof fn lemma_pow256_mono(a: nat, b: nat)
    requires
        a <= b,
    ensures
        pow256(a) <= pow256(b),
    decreases b,
{
    if a < b {
        lemma_pow256_mono(a, (b - 1) as nat);
        assert(pow256(b) == 256 * pow256((b - 1) as nat));
        assert(pow256((b - 1) as nat) <= 256 * pow256((b - 1) as nat)) by (nonlinear_arith)
            requires
                pow256((b - 1) as nat) >= 0,
        ;
    }
}


// ---------------------------------------------------------------------------
// length-prefixed byte strings
// ---------------------------------------------------------------------------
/// A byte string, prefixed by its length.
pub open spec fn enc_bytes(b: Seq<u8>) -> Seq<u8> {
    le_bytes(b.len(), 8) + b
}

/// Reads a length-prefixed byte string at `pos`.
pub open spec fn dec_bytes(s: Seq<u8>, pos: int) -> Option<(Seq<u8>, int)> {
    match dec_le8(s, pos) {
        None => None,
        Some((n, p)) => {
            if p + n <= s.len() {
                Some((s.subrange(p, p + n), p + n))
            } else {
                None
            }
        },
    }
}

/// Appends the length-prefixed form of `b` to `out`.
pub fn push_bytes(b: &Vec<u8>, out: &mut Vec<u8>)
    ensures
        final(out)@ == old(out)@ + enc_bytes(b@),
{
    push_le8(b.len() as u64, out);
    out.extend_from_slice(b.as_slice());
    assert(out@ =~= old(out)@ + enc_bytes(b@));
}

/// Reads a length-prefixed byte string starting at `pos`.
pub fn read_bytes(s: &[u8], pos: usize) -> (r: Option<(Vec<u8>, usize)>)
    ensures
        match r {
            Some((v, end)) => dec_bytes(s@, pos as int) == Some((v@, end as int)),
            None => dec_bytes(s@, pos as int) is None,
        },
{
    match read_le8(s, pos) {
        None => None,
        Some((n, p)) => {
            let slen = s.len();
            if n > (slen - p) as u64 {
                None
            } else {
                let end = p + (n as usize);
                let v = crate::keys::bytes_range(s, p, end);
                Some((v, end))
            }
        },
    }
}

// ---------------------------------------------------------------------------
// coins and coin lists
// ---------------------------------------------------------------------------
/// One coin: denomination then amount, each length-prefixed.
pub open spec fn enc_coin(c: CoinView) -> Seq<u8> {
    enc_bytes(c.denom) + enc_bytes(c.amount)
}

/// The coins of a list, one after the other.
pub open spec fn enc_coins_items(cs: Seq<CoinView>) -> Seq<u8>
    decreases cs.len(),
{
    if cs.len() == 0 {
        Seq::empty()
    } else {
        enc_coin(cs.first()) + enc_coins_items(cs.drop_first())
    }
}

/// A coin list: its count, then its coins.
pub open spec fn enc_coins(cs: Seq<CoinView>) -> Seq<u8> {
    le_bytes(cs.len(), 8) + enc_coins_items(cs)
}

pub open spec fn dec_coin(s: Seq<u8>, pos: int) -> Option<(CoinView, int)> {
    match dec_bytes(s, pos) {
        None => None,
        Some((denom, p)) => match dec_bytes(s, p) {
            None => None,
            Some((amount, p2)) => Some((CoinView { denom, amount }, p2)),
        },
    }
}

pub open spec fn dec_coins_items(s: Seq<u8>, pos: int, n: nat) -> Option<(Seq<CoinView>, int)>
    decreases n,
{
    if n == 0 {
        Some((Seq::empty(), pos))
    } else {
        match dec_coin(s, pos) {
            None => None,
            Some((c, p)) => match dec_coins_items(s, p, (n - 1) as nat) {
                None => None,
                Some((cs, p2)) => Some((seq![c] + cs, p2)),
            },
        }
    }
}

pub open spec fn dec_coins(s: Seq<u8>, pos: int) -> Option<(Seq<CoinView>, int)> {
    match dec_le8(s, pos) {
        None => None,
        Some((n, p)) => dec_coins_items(s, p, n as nat),
    }
}

/// Splitting a list at its last coin splits its encoding.
pub proof fn lemma_enc_items_snoc(cs: Seq<CoinView>, c: CoinView)
    ensures
        enc_coins_items(cs.push(c)) == enc_coins_items(cs) + enc_coin(c),
    decreases cs.len(),
{
    if cs.len() == 0 {
        assert(cs.push(c).drop_first() =~= Seq::<CoinView>::empty());
        assert(cs.push(c).first() == c);
        assert(enc_coins_items(Seq::<CoinView>::empty()) =~= Seq::<u8>::empty());
        assert(enc_coins_items(cs) =~= Seq::<u8>::empty());
        assert(enc_coins_items(cs.push(c)) =~= enc_coins_items(cs) + enc_coin(c));
    } else {
        assert(cs.push(c).drop_first() =~= cs.drop_first().push(c));
        lemma_enc_items_snoc(cs.drop_first(), c);
        assert(enc_coins_items(cs.push(c)) =~= enc_coins_items(cs) + enc_coin(c));
    }
}

/// Appends the encoding of one coin to `out`.
pub fn push_coin(c: &CustomCoin, out: &mut Vec<u8>)
    ensures
        final(out)@ == old(out)@ + enc_coin(c@),
{
    push_bytes(&c.denom, out);
    push_bytes(&c.amount, out);
    assert(out@ =~= old(out)@ + enc_coin(c@));
}

/// Appends the encoding of a coin list to `out`.
pub fn push_coins(cs: &Vec<CustomCoin>, out: &mut Vec<u8>)
    ensures
        final(out)@ == old(out)@ + enc_coins(cs.deep_view()),
{
    push_le8(cs.len() as u64, out);
    let n = cs.len();
    let mut i: usize = 0;
    while i < n
        invariant
            0 <= i <= n,
            n == cs@.len(),
            cs.deep_view().len() == n,
            out@ =~= old(out)@ + le_bytes(cs.deep_view().len(), 8) + enc_coins_items(
                cs.deep_view().take(i as int),
            ),
        decreases n - i,
    {
        proof {
            assert(cs.deep_view()[i as int] == cs@[i as int]@);
        }
        push_coin(&cs[i], out);
        proof {
            lemma_enc_items_snoc(cs.deep_view().take(i as int), cs.deep_view()[i as int]);
            assert(cs.deep_view().take(i as int).push(cs.deep_view()[i as int]) =~= cs.deep_view()
                .take(i as int + 1));
            assert(out@ =~= old(out)@ + le_bytes(cs.deep_view().len(), 8) + enc_coins_items(
                cs.deep_view().take(i as int + 1),
            ));
        }
        i = i + 1;
    }
    proof {
        assert(cs.deep_view().take(n as int) =~= cs.deep_view());
        assert(out@ =~= old(out)@ + enc_coins(cs.deep_view()));
    }
}

/// Reads one coin starting at `pos`.
pub fn read_coin(s: &[u8], pos: usize) -> (r: Option<(CustomCoin, usize)>)
    ensures
        match r {
            Some((c, end)) => dec_coin(s@, pos as int) == Some((c@, end as int)),
            None => dec_coin(s@, pos as int) is None,
        },
{
    match read_bytes(s, pos) {
        None => None,
        Some((denom, p)) => match read_bytes(s, p) {
            None => None,
            Some((amount, p2)) => Some((CustomCoin { denom, amount }, p2)),
        },
    }
}

/// Reads a coin list starting at `pos`.
pub fn read_coins(s: &[u8], pos: usize) -> (r: Option<(Vec<CustomCoin>, usize)>)
    ensures
        match r {
            Some((cs, end)) => dec_coins(s@, pos as int) == Some((cs.deep_view(), end as int)),
            None => dec_coins(s@, pos as int) is None,
        },
{
    let (n, p0) = match read_le8(s, pos) {
        None => {
            return None;
        },
        Some(x) => x,
    };
    let mut acc: Vec<CustomCoin> = Vec::new();
    let mut cur: usize = p0;
    let mut i: u64 = 0;
    proof {
        assert(acc.deep_view() =~= Seq::<CoinView>::empty());
    }
    while i < n
        invariant
            0 <= i <= n,
            dec_le8(s@, pos as int) == Some((n, p0 as int)),
            match dec_coins_items(s@, cur as int, (n - i) as nat) {
                Some((cs, p)) => dec_coins_items(s@, p0 as int, n as nat) == Some((
                    acc.deep_view() + cs,
                    p,
                )),
                None => dec_coins_items(s@, p0 as int, n as nat) is None,
            },
        decreases n - i,
    {
        let ghost acc0 = acc.deep_view();
        let (c, p) = match read_coin(s, cur) {
            None => {
                return None;
            },
            Some(x) => x,
        };
        acc.push(c);
        proof {
            assert(acc.deep_view() =~= acc0.push(c@));
            assert(acc0.push(c@) =~= acc0 + seq![c@]);
            if let Some((cs2, pend)) = dec_coins_items(s@, p as int, (n - i - 1) as nat) {
                assert(dec_coins_items(s@, cur as int, (n - i) as nat) == Some((
                    seq![c@] + cs2,
                    pend,
                )));
                assert(acc0 + (seq![c@] + cs2) =~= (acc0 + seq![c@]) + cs2);
            }
        }
        cur = p;
        i = i + 1;
    }
    proof {
        assert(dec_coins_items(s@, cur as int, 0) == Some((Seq::<CoinView>::empty(), cur as int)));
        assert(acc.deep_view() + Seq::<CoinView>::empty() =~= acc.deep_view());
    }
    Some((acc, cur))
}


// ---------------------------------------------------------------------------
// whole payloads
// ---------------------------------------------------------------------------
/// An optional timeout height: a presence tag, then the two revision fields.
pub open spec fn enc_opt_height(h: Option<CustomHeight>) -> Seq<u8> {
    match h {
        None => seq![0u8],
        Some(hh) => seq![1u8] + le_bytes(hh.revision_number as nat, 8) + le_bytes(
            hh.revision_height as nat,
            8,
        ),
    }
}

pub open spec fn dec_opt_height(s: Seq<u8>, pos: int) -> Option<(Option<CustomHeight>, int)> {
    if 0 <= pos < s.len() {
        if s[pos] == 0 {
            Some((None, pos + 1))
        } else if s[pos] == 1 {
            match dec_le8(s, pos + 1) {
                None => None,
                Some((rn, p)) => match dec_le8(s, p) {
                    None => None,
                    Some((rh, p2)) => Some(
                        (Some(CustomHeight { revision_number: rn, revision_height: rh }), p2),
                    ),
                },
            }
        } else {
            None
        }
    } else {
        None
    }
}

/// The canonical payload of a transfer-to-external-chain message.
pub open spec fn enc_send_to_eth(m: SendToEthView) -> Seq<u8> {
    enc_bytes(m.sender) + enc_bytes(m.eth_dest) + enc_coins(m.amount) + enc_coins(m.bridge_fee)
        + enc_coins(m.chain_fee)
}

/// What decoding a stored transfer-to-external-chain payload yields. The
/// whole value must be consumed.
pub open spec fn dec_send_to_eth(s: Seq<u8>) -> Option<SendToEthView> {
    match dec_bytes(s, 0) {
        None => None,
        Some((sender, p1)) => match dec_bytes(s, p1) {
            None => None,
            Some((eth_dest, p2)) => match dec_coins(s, p2) {
                None => None,
                Some((amount, p3)) => match dec_coins(s, p3) {
                    None => None,
                    Some((bridge_fee, p4)) => match dec_coins(s, p4) {
                        None => None,
                        Some((chain_fee, p5)) => {
                            if p5 == s.len() {
                                Some(
                                    SendToEthView {
                                        sender,
                                        eth_dest,
                                        amount,
                                        bridge_fee,
                                        chain_fee,
                                    },
                                )
                            } else {
                                None
                            }
                        },
                    },
                },
            },
        },
    }
}

/// The canonical payload of an inter-chain transfer message.
pub open spec fn enc_transfer(m: TransferView) -> Seq<u8> {
    enc_bytes(m.source_port) + enc_bytes(m.source_channel) + enc_coins(m.token) + enc_bytes(
        m.sender,
    ) + enc_bytes(m.receiver) + enc_opt_height(m.timeout_height) + le_bytes(
        m.timeout_timestamp as nat,
        8,
    )
}

/// What decoding a stored inter-chain transfer payload yields.
pub open spec fn dec_transfer(s: Seq<u8>) -> Option<TransferView> {
    match dec_bytes(s, 0) {
        None => None,
        Some((source_port, p1)) => match dec_bytes(s, p1) {
            None => None,
            Some((source_channel, p2)) => match dec_coins(s, p2) {
                None => None,
                Some((token, p3)) => match dec_bytes(s, p3) {
                    None => None,
                    Some((sender, p4)) => match dec_bytes(s, p4) {
                        None => None,
                        Some((receiver, p5)) => match dec_opt_height(s, p5) {
                            None => None,
                            Some((timeout_height, p6)) => match dec_le8(s, p6) {
                                None => None,
                                Some((timeout_timestamp, p7)) => {
                                    if p7 == s.len() {
                                        Some(
                                            TransferView {
                                                source_port,
                                                source_channel,
                                                token,
                                                sender,
                                                receiver,
                                                timeout_height,
                                                timeout_timestamp,
                                            },
                                        )
                                    } else {
                                        None
                                    }
                                },
                            },
                        },
                    },
                },
            },
        },
    }
}

/// Appends the encoding of an optional timeout height to `out`.
pub fn push_opt_height(h: &Option<CustomHeight>, out: &mut Vec<u8>)
    ensures
        final(out)@ == old(out)@ + enc_opt_height(*h),
{
    match h {
        None => {
            out.push(0);
            assert(out@ =~= old(out)@ + enc_opt_height(None::<CustomHeight>));
        },
        Some(hh) => {
            out.push(1);
            push_le8(hh.revision_number, out);
            push_le8(hh.revision_height, out);
            assert(out@ =~= old(out)@ + enc_opt_height(Some(*hh)));
        },
    }
}

/// Reads an optional timeout height starting at `pos`.
pub fn read_opt_height(s: &[u8], pos: usize) -> (r: Option<(Option<CustomHeight>, usize)>)
    ensures
        match r {
            Some((h, end)) => dec_opt_height(s@, pos as int) == Some((h, end as int)),
            None => dec_opt_height(s@, pos as int) is None,
        },
{
    if pos >= s.len() {
        return None;
    }
    let tag = s[pos];
    if tag == 0 {
        Some((None, pos + 1))
    } else if tag == 1 {
        match read_le8(s, pos + 1) {
            None => None,
            Some((rn, p)) => match read_le8(s, p) {
                None => None,
                Some((rh, p2)) => Some(
                    (Some(CustomHeight { revision_number: rn, revision_height: rh }), p2),
                ),
            },
        }
    } else {
        None
    }
}

/// Serializes a transfer-to-external-chain payload into its canonical bytes.
pub fn encode_send_to_eth(m: &CustomMsgSendToEth) -> (r: Vec<u8>)
    ensures
        r@ == enc_send_to_eth(m@),
{
    let mut out: Vec<u8> = Vec::new();
    push_bytes(&m.sender, &mut out);
    push_bytes(&m.eth_dest, &mut out);
    push_coins(&m.amount, &mut out);
    push_coins(&m.bridge_fee, &mut out);
    push_coins(&m.chain_fee, &mut out);
    assert(out@ =~= enc_send_to_eth(m@));
    out
}

/// Parses a stored transfer-to-external-chain payload.
pub fn decode_send_to_eth(s: &[u8]) -> (r: Option<CustomMsgSendToEth>)
    ensures
        match r {
            Some(m) => dec_send_to_eth(s@) == Some(m@),
            None => dec_send_to_eth(s@) is None,
        },
{
    let (sender, p1) = match read_bytes(s, 0) {
        None => {
            return None;
        },
        Some(x) => x,
    };
    let (eth_dest, p2) = match read_bytes(s, p1) {
        None => {
            return None;
        },
        Some(x) => x,
    };
    let (amount, p3) = match read_coins(s, p2) {
        None => {
            return None;
        },
        Some(x) => x,
    };
    let (bridge_fee, p4) = match read_coins(s, p3) {
        None => {
            return None;
        },
        Some(x) => x,
    };
    let (chain_fee, p5) = match read_coins(s, p4) {
        None => {
            return None;
        },
        Some(x) => x,
    };
    if p5 != s.len() {
        return None;
    }
    Some(CustomMsgSendToEth { sender, eth_dest, amount, bridge_fee, chain_fee })
}

/// Serializes an inter-chain transfer payload into its canonical bytes.
pub fn encode_transfer(m: &CustomMsgTransfer) -> (r: Vec<u8>)
    ensures
        r@ == enc_transfer(m@),
{
    let mut out: Vec<u8> = Vec::new();
    push_bytes(&m.source_port, &mut out);
    push_bytes(&m.source_channel, &mut out);
    push_coins(&m.token, &mut out);
    push_bytes(&m.sender, &mut out);
    push_bytes(&m.receiver, &mut out);
    push_opt_height(&m.timeout_height, &mut out);
    push_le8(m.timeout_timestamp, &mut out);
    assert(out@ =~= enc_transfer(m@));
    out
}

/// Parses a stored inter-chain transfer payload.
pub fn decode_transfer(s: &[u8]) -> (r: Option<CustomMsgTransfer>)
    ensures
        match r {
            Some(m) => dec_transfer(s@) == Some(m@),
            None => dec_transfer(s@) is None,
        },
{
    let (source_port, p1) = match read_bytes(s, 0) {
        None => {
            return None;
        },
        Some(x) => x,
    };
    let (source_channel, p2) = match read_bytes(s, p1) {
        None => {
            return None;
        },
        Some(x) => x,
    };
    let (token, p3) = match read_coins(s, p2) {
        None => {
            return None;
        },
        Some(x) => x,
    };
    let (sender, p4) = match read_bytes(s, p3) {
        None => {
            return None;
        },
        Some(x) => x,
    };
    let (receiver, p5) = match read_bytes(s, p4) {
        None => {
            return None;
        },
        Some(x) => x,
    };
    let (timeout_height, p6) = match read_opt_height(s, p5) {
        None => {
            return None;
        },
        Some(x) => x,
    };
    let (timeout_timestamp, p7) = match read_le8(s, p6) {
        None => {
            return None;
        },
        Some(x) => x,
    };
    if p7 != s.len() {
        return None;
    }
    Some(
        CustomMsgTransfer {
            source_port,
            source_channel,
            token,
            sender,
            receiver,
            timeout_height,
            timeout_timestamp,
        },
    )
}


// ---------------------------------------------------------------------------
// decoding inverts encoding
// ---------------------------------------------------------------------------
/// A coin both of whose fields fit their length prefixes.
pub open spec fn coin_fits(c: CoinView) -> bool {
    c.denom.len() < pow256(8) && c.amount.len() < pow256(8)
}

/// A coin list that fits its count and length prefixes.
pub open spec fn coins_fit(cs: Seq<CoinView>) -> bool {
    cs.len() < pow256(8) && (forall|i: int| 0 <= i < cs.len() ==> coin_fits(#[trigger] cs[i]))
}

/// A transfer-to-external-chain payload that fits all its length prefixes.
/// Every value built from in-memory vectors does.
pub open spec fn send_to_eth_fits(m: SendToEthView) -> bool {
    m.sender.len() < pow256(8) && m.eth_dest.len() < pow256(8) && coins_fit(m.amount)
        && coins_fit(m.bridge_fee) && coins_fit(m.chain_fee)
}

/// An inter-chain transfer payload that fits all its length prefixes.
pub open spec fn transfer_fits(m: TransferView) -> bool {
    m.source_port.len() < pow256(8) && m.source_channel.len() < pow256(8) && coins_fit(m.token)
        && m.sender.len() < pow256(8) && m.receiver.len() < pow256(8)
}

/// Reading a length-prefixed byte string where one was written gives it back.
proof fn lemma_dec_bytes(s: Seq<u8>, pos: int, b: Seq<u8>)
    requires
        0 <= pos,
        pos + 8 + b.len() <= s.len(),
        s.subrange(pos, pos + 8 + b.len()) == enc_bytes(b),
        b.len() < pow256(8),
    ensures
        dec_bytes(s, pos) == Some((b, pos + 8 + b.len())),
{
    lemma_pow256_8();
    lemma_le_bytes_len(b.len(), 8);
    let whole = s.subrange(pos, pos + 8 + b.len());
    assert(s.subrange(pos, pos + 8) =~= le_bytes(b.len(), 8)) by {
        assert(forall|i: int|
            0 <= i < 8 ==> s.subrange(pos, pos + 8)[i] == #[trigger] whole[i]);
    }
    assert((b.len() as u64) as nat == b.len());
    lemma_dec_le8(s, pos, b.len() as u64);
    assert(s.subrange(pos + 8, pos + 8 + b.len()) =~= b) by {
        assert(forall|i: int|
            0 <= i < b.len() ==> #[trigger] s.subrange(pos + 8, pos + 8 + b.len())[i] == whole[i
                + 8]);
    }
}

/// Reading a coin where one was written gives it back.
proof fn lemma_dec_coin_at(s: Seq<u8>, pos: int, c: CoinView)
    requires
        0 <= pos,
        pos + enc_coin(c).len() <= s.len(),
        s.subrange(pos, pos + enc_coin(c).len()) == enc_coin(c),
        coin_fits(c),
    ensures
        enc_coin(c).len() == 16 + c.denom.len() + c.amount.len(),
        dec_coin(s, pos) == Some((c, pos + enc_coin(c).len())),
{
    lemma_le_bytes_len(c.denom.len(), 8);
    lemma_le_bytes_len(c.amount.len(), 8);
    let whole = s.subrange(pos, pos + enc_coin(c).len());
    let dlen = 8 + c.denom.len();
    assert(s.subrange(pos, pos + dlen) =~= enc_bytes(c.denom)) by {
        assert(forall|i: int|
            0 <= i < dlen ==> s.subrange(pos, pos + dlen)[i] == #[trigger] whole[i]);
    }
    lemma_dec_bytes(s, pos, c.denom);
    let alen = 8 + c.amount.len();
    assert(s.subrange(pos + dlen, pos + dlen + alen) =~= enc_bytes(c.amount)) by {
        assert(forall|i: int|
            0 <= i < alen ==> #[trigger] s.subrange(pos + dlen, pos + dlen + alen)[i] == whole[i
                + dlen]);
    }
    lemma_dec_bytes(s, pos + dlen, c.amount);
}

/// Reading a written coin list, one coin at a time, gives the coins back.
proof fn lemma_dec_coins_items_at(s: Seq<u8>, pos: int, cs: Seq<CoinView>)
    requires
        0 <= pos,
        pos + enc_coins_items(cs).len() <= s.len(),
        s.subrange(pos, pos + enc_coins_items(cs).len()) == enc_coins_items(cs),
        coins_fit(cs),
    ensures
        dec_coins_items(s, pos, cs.len()) == Some((cs, pos + enc_coins_items(cs).len())),
    decreases cs.len(),
{
    if cs.len() == 0 {
        assert(dec_coins_items(s, pos, 0) == Some((Seq::<CoinView>::empty(), pos)));
        assert(cs =~= Seq::<CoinView>::empty());
    } else {
        let c = cs.first();
        let rest = cs.drop_first();
        assert(enc_coins_items(cs) == enc_coin(c) + enc_coins_items(rest));
        assert(enc_coins_items(cs).len() == enc_coin(c).len() + enc_coins_items(rest).len());
        let whole = s.subrange(pos, pos + enc_coins_items(cs).len());
        let clen = enc_coin(c).len();
        assert(forall|i: int|
            0 <= i < enc_coins_items(rest).len() ==> #[trigger] enc_coins_items(cs)[i + clen]
                == enc_coins_items(rest)[i]);
        assert(s.subrange(pos, pos + clen) =~= enc_coin(c)) by {
            assert(forall|i: int|
                0 <= i < clen ==> s.subrange(pos, pos + clen)[i] == #[trigger] whole[i]);
        }
        lemma_dec_coin_at(s, pos, c);
        let rlen = enc_coins_items(rest).len();
        assert(s.subrange(pos + clen, pos + clen + rlen) =~= enc_coins_items(rest)) by {
            assert(forall|i: int|
                0 <= i < rlen ==> #[trigger] s.subrange(pos + clen, pos + clen + rlen)[i]
                    == whole[i + clen]);
        }
        assert(coins_fit(rest)) by {
            assert(forall|i: int|
                0 <= i < rest.len() ==> #[trigger] rest[i] == cs[i + 1]);
        }
        lemma_dec_coins_items_at(s, pos + clen, rest);
        assert(seq![c] + rest =~= cs);
        assert((cs.len() - 1) as nat == rest.len());
    }
}

/// Reading a written coin list gives it back.
proof fn lemma_dec_coins_at(s: Seq<u8>, pos: int, cs: Seq<CoinView>)
    requires
        0 <= pos,
        pos + enc_coins(cs).len() <= s.len(),
        s.subrange(pos, pos + enc_coins(cs).len()) == enc_coins(cs),
        coins_fit(cs),
    ensures
        dec_coins(s, pos) == Some((cs, pos + enc_coins(cs).len())),
{
    lemma_pow256_8();
    lemma_le_bytes_len(cs.len(), 8);
    assert(enc_coins(cs) == le_bytes(cs.len(), 8) + enc_coins_items(cs));
    assert(enc_coins(cs).len() == 8 + enc_coins_items(cs).len());
    let whole = s.subrange(pos, pos + enc_coins(cs).len());
    assert(s.subrange(pos, pos + 8) =~= le_bytes(cs.len(), 8)) by {
        assert(forall|i: int|
            0 <= i < 8 ==> s.subrange(pos, pos + 8)[i] == #[trigger] whole[i]);
    }
    assert((cs.len() as u64) as nat == cs.len());
    lemma_dec_le8(s, pos, cs.len() as u64);
    let ilen = enc_coins_items(cs).len();
    assert(s.subrange(pos + 8, pos + 8 + ilen) =~= enc_coins_items(cs)) by {
        assert(forall|i: int|
            0 <= i < ilen ==> #[trigger] s.subrange(pos + 8, pos + 8 + ilen)[i] == whole[i + 8]);
    }
    lemma_dec_coins_items_at(s, pos + 8, cs);
}

/// Decoding inverts encoding: a stored transfer-to-external-chain payload
/// reads back as exactly the message it was made from.
pub proof fn lemma_send_to_eth_roundtrip(m: SendToEthView)
    requires
        send_to_eth_fits(m),
    ensures
        dec_send_to_eth(enc_send_to_eth(m)) == Some(m),
{
    let s = enc_send_to_eth(m);
    lemma_le_bytes_len(m.sender.len(), 8);
    lemma_le_bytes_len(m.eth_dest.len(), 8);
    let p1 = 8 + m.sender.len() as int;
    let p2 = p1 + 8 + m.eth_dest.len();
    let p3 = p2 + enc_coins(m.amount).len();
    let p4 = p3 + enc_coins(m.bridge_fee).len();
    let p5 = p4 + enc_coins(m.chain_fee).len();
    assert(s.len() == p5);
    assert(s.subrange(0, p1) =~= enc_bytes(m.sender));
    lemma_dec_bytes(s, 0, m.sender);
    assert(s.subrange(p1, p2 as int) =~= enc_bytes(m.eth_dest));
    lemma_dec_bytes(s, p1, m.eth_dest);
    assert(s.subrange(p2 as int, p3 as int) =~= enc_coins(m.amount));
    lemma_dec_coins_at(s, p2 as int, m.amount);
    assert(s.subrange(p3 as int, p4 as int) =~= enc_coins(m.bridge_fee));
    lemma_dec_coins_at(s, p3 as int, m.bridge_fee);
    assert(s.subrange(p4 as int, p5 as int) =~= enc_coins(m.chain_fee));
    lemma_dec_coins_at(s, p4 as int, m.chain_fee);
}


/// Reading an optional timeout height where one was written gives it back.
proof fn lemma_dec_opt_height_at(s: Seq<u8>, pos: int, h: Option<CustomHeight>)
    requires
        0 <= pos,
        pos + enc_opt_height(h).len() <= s.len(),
        s.subrange(pos, pos + enc_opt_height(h).len()) == enc_opt_height(h),
    ensures
        dec_opt_height(s, pos) == Some((h, pos + enc_opt_height(h).len())),
{
    let whole = s.subrange(pos, pos + enc_opt_height(h).len());
    match h {
        None => {
            assert(whole[0] == 0);
            assert(s[pos] == 0);
        },
        Some(hh) => {
            lemma_le_bytes_len(hh.revision_number as nat, 8);
            lemma_le_bytes_len(hh.revision_height as nat, 8);
            assert(whole[0] == 1);
            assert(s[pos] == 1);
            assert(s.subrange(pos + 1, pos + 9) =~= le_bytes(hh.revision_number as nat, 8)) by {
                assert(forall|i: int|
                    0 <= i < 8 ==> #[trigger] s.subrange(pos + 1, pos + 9)[i] == whole[i + 1]);
            }
            lemma_dec_le8(s, pos + 1, hh.revision_number);
            assert(s.subrange(pos + 9, pos + 17) =~= le_bytes(hh.revision_height as nat, 8)) by {
                assert(forall|i: int|
                    0 <= i < 8 ==> #[trigger] s.subrange(pos + 9, pos + 17)[i] == whole[i + 9]);
            }
            lemma_dec_le8(s, pos + 9, hh.revision_height);
        },
    }
}

/// Decoding inverts encoding: a stored inter-chain transfer payload reads
/// back as exactly the message it was made from.
#[verifier::rlimit(100)]
pub proof fn lemma_transfer_roundtrip(m: TransferView)
    requires
        transfer_fits(m),
    ensures
        dec_transfer(enc_transfer(m)) == Some(m),
{
    let s = enc_transfer(m);
    lemma_le_bytes_len(m.source_port.len(), 8);
    lemma_le_bytes_len(m.source_channel.len(), 8);
    lemma_le_bytes_len(m.sender.len(), 8);
    lemma_le_bytes_len(m.receiver.len(), 8);
    lemma_le_bytes_len(m.timeout_timestamp as nat, 8);
    let p1 = 8 + m.source_port.len() as int;
    let p2 = p1 + 8 + m.source_channel.len();
    let p3 = p2 + enc_coins(m.token).len();
    let p4 = p3 + 8 + m.sender.len();
    let p5 = p4 + 8 + m.receiver.len();
    let p6 = p5 + enc_opt_height(m.timeout_height).len();
    let p7 = p6 + 8;
    assert(s.len() == p7);
    assert(s.subrange(0, p1) =~= enc_bytes(m.source_port));
    lemma_dec_bytes(s, 0, m.source_port);
    assert(s.subrange(p1, p2 as int) =~= enc_bytes(m.source_channel));
    lemma_dec_bytes(s, p1, m.source_channel);
    assert(s.subrange(p2 as int, p3 as int) =~= enc_coins(m.token));
    lemma_dec_coins_at(s, p2 as int, m.token);
    assert(s.subrange(p3 as int, p4 as int) =~= enc_bytes(m.sender));
    lemma_dec_bytes(s, p3 as int, m.sender);
    assert(s.subrange(p4 as int, p5 as int) =~= enc_bytes(m.receiver));
    lemma_dec_bytes(s, p4 as int, m.receiver);
    assert(s.subrange(p5 as int, p6 as int) =~= enc_opt_height(m.timeout_height));
    lemma_dec_opt_height_at(s, p5 as int, m.timeout_height);
    assert(s.subrange(p6 as int, p7 as int) =~= le_bytes(m.timeout_timestamp as nat, 8));
    lemma_dec_le8(s, p6 as int, m.timeout_timestamp);
}

} // verus!
