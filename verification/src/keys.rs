//! The composite key schema of the store:
//! `{height:012d}:{messageType}:{timestamp}:{txHash}` as ASCII bytes.
//!
//! The height prefix is fixed-width and zero-padded, so byte-lexicographic
//! order of keys agrees with numeric order of heights.
use vstd::prelude::*;

use crate::digits::{
    all_digits, dec_digits, digits_val, lemma_dec_digits_val, lemma_lex_append,
    lemma_pad_digits_len, lemma_pad_digits_lt, lemma_pad_digits_val, lemma_pow10_12, lex_lt,
    pad_digits, parse_u64_dec, pow10, push_dec_u64, push_pad_digits, spec_parse_u64,
};
use crate::messages::MessageType;

verus! {

/// ASCII colon, the key's separator.
pub const SEP: u8 = 58;

/// ASCII minus sign.
pub const MINUS: u8 = 45;

/// Heights must stay below this for the 12-digit prefix to be faithful.
pub const MAX_KEY_HEIGHT: u64 = 1000_000_000_000;

/// The key segment naming a message type.
pub open spec fn type_tag(t: MessageType) -> Seq<u8> {
    match t {
        // "msgSendToEth"
        MessageType::SendToEth => seq![
            109u8, 115, 103, 83, 101, 110, 100, 84, 111, 69, 116, 104,
        ],
        // "msgIbcTransfer"
        MessageType::IbcTransfer => seq![
            109u8, 115, 103, 73, 98, 99, 84, 114, 97, 110, 115, 102, 101, 114,
        ],
        // "msgIbcRecv"
        MessageType::IbcRecv => seq![109u8, 115, 103, 73, 98, 99, 82, 101, 99, 118],
    }
}

/// The decimal rendering of a signed timestamp.
pub open spec fn dec_i64(ts: int) -> Seq<u8> {
    if ts >= 0 {
        dec_digits(ts as nat)
    } else {
        seq![MINUS] + dec_digits((-ts) as nat)
    }
}

/// The whole composite key.
pub open spec fn key_bytes(height: u64, t: MessageType, ts: i64, tx_hash: Seq<u8>) -> Seq<u8> {
    pad_digits(height as nat, 12) + seq![SEP] + type_tag(t) + seq![SEP] + dec_i64(ts as int)
        + seq![SEP] + tx_hash
}

/// No byte of `s` is the separator.
pub open spec fn sep_free(s: Seq<u8>) -> bool {
    forall|i: int| 0 <= i < s.len() ==> #[trigger] s[i] != SEP
}

/// Appends the key segment of `t` to `out`.
pub fn push_type_tag(t: MessageType, out: &mut Vec<u8>)
    ensures
        final(out)@ == old(out)@ + type_tag(t),
{
    match t {
        MessageType::SendToEth => {
            out.push(109);
            out.push(115);
            out.push(103);
            out.push(83);
            out.push(101);
            out.push(110);
            out.push(100);
            out.push(84);
            out.push(111);
            out.push(69);
            out.push(116);
            out.push(104);
        },
        MessageType::IbcTransfer => {
            out.push(109);
            out.push(115);
            out.push(103);
            out.push(73);
            out.push(98);
            out.push(99);
            out.push(84);
            out.push(114);
            out.push(97);
            out.push(110);
            out.push(115);
            out.push(102);
            out.push(101);
            out.push(114);
        },
        MessageType::IbcRecv => {
            out.push(109);
            out.push(115);
            out.push(103);
            out.push(73);
            out.push(98);
            out.push(99);
            out.push(82);
            out.push(101);
            out.push(99);
            out.push(118);
        },
    }
    assert(out@ =~= old(out)@ + type_tag(t));
}

/// Appends the decimal rendering of a signed timestamp to `out`.
pub fn push_dec_i64(ts: i64, out: &mut Vec<u8>)
    ensures
        final(out)@ == old(out)@ + dec_i64(ts as int),
{
    if ts >= 0 {
        push_dec_u64(ts as u64, out);
    } else {
        out.push(MINUS);
        let wide: i128 = -(ts as i128);
        assert(0 < wide <= 0x8000_0000_0000_0000);
        let mag: u64 = wide as u64;
        push_dec_u64(mag, out);
        assert(out@ =~= old(out)@ + dec_i64(ts as int));
    }
}

/// Builds the composite key for one persisted message.
pub fn make_key(height: u64, t: MessageType, ts: i64, tx_hash: &Vec<u8>) -> (r: Vec<u8>)
    requires
        height < MAX_KEY_HEIGHT,
    ensures
        r@ == key_bytes(height, t, ts, tx_hash@),
{
    let mut k: Vec<u8> = Vec::new();
    push_pad_digits(height, 12, &mut k);
    k.push(SEP);
    push_type_tag(t, &mut k);
    k.push(SEP);
    push_dec_i64(ts, &mut k);
    k.push(SEP);
    k.extend_from_slice(tx_hash.as_slice());
    assert(k@ =~= key_bytes(height, t, ts, tx_hash@));
    k
}

/// Keys order byte-lexicographically as their heights do, whatever the
/// remaining segments hold.
pub proof fn lemma_key_height_order(
    h1: u64,
    h2: u64,
    t1: MessageType,
    t2: MessageType,
    ts1: i64,
    ts2: i64,
    x1: Seq<u8>,
    x2: Seq<u8>,
)
    requires
        h1 < h2,
        h2 < MAX_KEY_HEIGHT,
    ensures
        lex_lt(key_bytes(h1, t1, ts1, x1), key_bytes(h2, t2, ts2, x2)),
{
    lemma_pow10_12();
    lemma_pad_digits_lt(h1 as nat, h2 as nat, 12);
    lemma_pad_digits_len(h1 as nat, 12);
    lemma_pad_digits_len(h2 as nat, 12);
    let rest1 = seq![SEP] + type_tag(t1) + dec_i64(ts1 as int) + seq![SEP] + x1;
    let rest2 = seq![SEP] + type_tag(t2) + dec_i64(ts2 as int) + seq![SEP] + x2;
    let tail1 = seq![SEP] + type_tag(t1) + seq![SEP] + dec_i64(ts1 as int) + seq![SEP] + x1;
    let tail2 = seq![SEP] + type_tag(t2) + seq![SEP] + dec_i64(ts2 as int) + seq![SEP] + x2;
    lemma_lex_append(pad_digits(h1 as nat, 12), pad_digits(h2 as nat, 12), tail1, tail2);
    assert(key_bytes(h1, t1, ts1, x1) =~= pad_digits(h1 as nat, 12) + tail1);
    assert(key_bytes(h2, t2, ts2, x2) =~= pad_digits(h2 as nat, 12) + tail2);
}

/// The smallest index of `b` in `s`, if any.
pub open spec fn find_byte(s: Seq<u8>, b: u8) -> Option<int>
    decreases s.len(),
{
    if s.len() == 0 {
        None
    } else if s[0] == b {
        Some(0)
    } else {
        match find_byte(s.drop_first(), b) {
            Some(i) => Some(i + 1),
            None => None,
        }
    }
}

pub proof fn lemma_find_byte_at(s: Seq<u8>, b: u8, i: int)
    requires
        0 <= i < s.len(),
        s[i] == b,
        forall|j: int| 0 <= j < i ==> #[trigger] s[j] != b,
    ensures
        find_byte(s, b) == Some(i),
    decreases i,
{
    if i > 0 {
        lemma_find_byte_at(s.drop_first(), b, i - 1);
    }
}

pub proof fn lemma_find_byte_none(s: Seq<u8>, b: u8)
    requires
        forall|j: int| 0 <= j < s.len() ==> #[trigger] s[j] != b,
    ensures
        find_byte(s, b) is None,
    decreases s.len(),
{
    if s.len() > 0 {
        lemma_find_byte_none(s.drop_first(), b);
    }
}

/// Finds the first separator at or after `from`.
pub fn find_sep(s: &[u8], from: usize) -> (r: Option<usize>)
    requires
        from <= s@.len(),
    ensures
        match r {
            Some(i) => from <= i < s@.len() && s@[i as int] == SEP && find_byte(
                s@.skip(from as int),
                SEP,
            ) == Some(i - from),
            None => find_byte(s@.skip(from as int), SEP) is None,
        },
{
    let mut i: usize = from;
    while i < s.len()
        invariant
            from <= i <= s@.len(),
            forall|j: int| from <= j < i ==> #[trigger] s@[j] != SEP,
        decreases s@.len() - i,
    {
        if s[i] == SEP {
            proof {
                let sk = s@.skip(from as int);
                assert(sk[i - from] == s@[i as int]);
                assert(forall|j: int|
                    0 <= j < i - from ==> #[trigger] sk[j] == s@[j + from] && s@[j + from] != SEP);
                lemma_find_byte_at(sk, SEP, i - from);
            }
            return Some(i);
        }
        i = i + 1;
    }
    proof {
        let sk = s@.skip(from as int);
        assert(forall|j: int| 0 <= j < sk.len() ==> #[trigger] sk[j] == s@[j + from]);
        lemma_find_byte_none(sk, SEP);
    }
    None
}

/// Splits a key into its four `:`-separated segments, if it has exactly four.
pub open spec fn spec_split4(k: Seq<u8>) -> Option<(Seq<u8>, Seq<u8>, Seq<u8>, Seq<u8>)> {
    match find_byte(k, SEP) {
        None => None,
        Some(p1) => {
            let r1 = k.skip(p1 + 1);
            match find_byte(r1, SEP) {
                None => None,
                Some(q2) => {
                    let r2 = r1.skip(q2 + 1);
                    match find_byte(r2, SEP) {
                        None => None,
                        Some(q3) => {
                            let r3 = r2.skip(q3 + 1);
                            if find_byte(r3, SEP) is Some {
                                None
                            } else {
                                Some((k.take(p1), r1.take(q2), r2.take(q3), r3))
                            }
                        },
                    }
                },
            }
        },
    }
}

/// What parsing a stored key yields: height, message type, timestamp, and
/// the transaction hash segment.
pub open spec fn spec_parse_key(k: Seq<u8>) -> Option<(u64, MessageType, i64, Seq<u8>)> {
    match spec_split4(k) {
        None => None,
        Some((a, b, c, d)) => match (spec_parse_u64(a), spec_tag_to_type(b), spec_parse_i64(c)) {
            (Some(h), Some(t), Some(ts)) => Some((h, t, ts, d)),
            _ => None,
        },
    }
}

/// Which message type a key segment names, if any.
pub open spec fn spec_tag_to_type(s: Seq<u8>) -> Option<MessageType> {
    if s == type_tag(MessageType::SendToEth) {
        Some(MessageType::SendToEth)
    } else if s == type_tag(MessageType::IbcTransfer) {
        Some(MessageType::IbcTransfer)
    } else if s == type_tag(MessageType::IbcRecv) {
        Some(MessageType::IbcRecv)
    } else {
        None
    }
}

/// What parsing a signed decimal timestamp yields.
pub open spec fn spec_parse_i64(s: Seq<u8>) -> Option<i64> {
    if s.len() == 0 {
        None
    } else if s[0] == MINUS {
        let rest = s.drop_first();
        if rest.len() > 0 && all_digits(rest) && digits_val(rest) <= 0x8000_0000_0000_0000 {
            Some((-(digits_val(rest) as int)) as i64)
        } else {
            None
        }
    } else {
        if all_digits(s) && digits_val(s) <= i64::MAX {
            Some(digits_val(s) as i64)
        } else {
            None
        }
    }
}

/// Copies `s[a..b]` into a fresh vector.
pub fn bytes_range(s: &[u8], a: usize, b: usize) -> (r: Vec<u8>)
    requires
        a <= b <= s@.len(),
    ensures
        r@ == s@.subrange(a as int, b as int),
{
    let mut out: Vec<u8> = Vec::new();
    let mut i: usize = a;
    while i < b
        invariant
            a <= i <= b <= s@.len(),
            out@ =~= s@.subrange(a as int, i as int),
        decreases b - i,
    {
        out.push(s[i]);
        assert(out@ =~= s@.subrange(a as int, i as int + 1));
        i = i + 1;
    }
    out
}

/// Do two byte strings hold the same bytes?
pub fn bytes_eq(a: &[u8], b: &[u8]) -> (r: bool)
    ensures
        r <==> a@ == b@,
{
    if a.len() != b.len() {
        return false;
    }
    let mut i: usize = 0;
    while i < a.len()
        invariant
            0 <= i <= a@.len(),
            a@.len() == b@.len(),
            forall|j: int| 0 <= j < i ==> #[trigger] a@[j] == b@[j],
        decreases a@.len() - i,
    {
        if a[i] != b[i] {
            return false;
        }
        i = i + 1;
    }
    proof {
        assert(a@ =~= b@);
    }
    true
}

/// The key segment of `t`, as a fresh vector.
pub fn type_tag_vec(t: MessageType) -> (r: Vec<u8>)
    ensures
        r@ == type_tag(t),
{
    let mut v: Vec<u8> = Vec::new();
    push_type_tag(t, &mut v);
    v
}

/// Which message type a key segment names, if any.
pub fn tag_to_type(s: &[u8]) -> (r: Option<MessageType>)
    ensures
        r == spec_tag_to_type(s@),
{
    let send_tag = type_tag_vec(MessageType::SendToEth);
    if bytes_eq(s, send_tag.as_slice()) {
        return Some(MessageType::SendToEth);
    }
    let transfer_tag = type_tag_vec(MessageType::IbcTransfer);
    if bytes_eq(s, transfer_tag.as_slice()) {
        return Some(MessageType::IbcTransfer);
    }
    let recv_tag = type_tag_vec(MessageType::IbcRecv);
    if bytes_eq(s, recv_tag.as_slice()) {
        return Some(MessageType::IbcRecv);
    }
    None
}

/// Parses a signed decimal timestamp.
pub fn parse_i64_dec(s: &[u8]) -> (r: Option<i64>)
    ensures
        r == spec_parse_i64(s@),
{
    if s.len() == 0 {
        return None;
    }
    if s[0] == MINUS {
        let rest = bytes_range(s, 1, s.len());
        proof {
            assert(rest@ =~= s@.drop_first());
        }
        match parse_u64_dec(rest.as_slice()) {
            None => None,
            Some(m) => {
                if m <= 0x8000_0000_0000_0000 {
                    if m == 0x8000_0000_0000_0000 {
                        Some(i64::MIN)
                    } else {
                        Some(-(m as i64))
                    }
                } else {
                    None
                }
            },
        }
    } else {
        match parse_u64_dec(s) {
            None => None,
            Some(v) => {
                if v <= i64::MAX as u64 {
                    Some(v as i64)
                } else {
                    None
                }
            },
        }
    }
}

/// Parses a stored key into height, message type, timestamp and hash segment.
pub fn parse_key(k: &[u8]) -> (r: Option<(u64, MessageType, i64, Vec<u8>)>)
    ensures
        match r {
            Some((h, t, ts, d)) => spec_parse_key(k@) == Some((h, t, ts, d@)),
            None => spec_parse_key(k@) is None,
        },
{
    let n = k.len();
    let p1 = match find_sep(k, 0) {
        Some(i) => i,
        None => {
            proof {
                assert(k@.skip(0) =~= k@);
            }
            return None;
        },
    };
    proof {
        assert(k@.skip(0) =~= k@);
    }
    assert(p1 < n);
    let p2 = match find_sep(k, p1 + 1) {
        Some(i) => i,
        None => {
            return None;
        },
    };
    proof {
        let r1 = k@.skip(p1 + 1);
        assert(find_byte(r1, SEP) == Some(p2 - (p1 + 1)));
    }
    assert(p2 < n);
    let p3 = match find_sep(k, p2 + 1) {
        Some(i) => i,
        None => {
            proof {
                let r1 = k@.skip(p1 + 1);
                let q2 = p2 - (p1 + 1);
                assert(r1.skip(q2 + 1) =~= k@.skip(p2 + 1));
            }
            return None;
        },
    };
    proof {
        let r1 = k@.skip(p1 + 1);
        let q2 = p2 - (p1 + 1);
        assert(r1.skip(q2 + 1) =~= k@.skip(p2 + 1));
    }
    assert(p3 < n);
    if let Some(_) = find_sep(k, p3 + 1) {
        proof {
            let r1 = k@.skip(p1 + 1);
            let q2 = p2 - (p1 + 1);
            let r2 = r1.skip(q2 + 1);
            let q3 = p3 - (p2 + 1);
            assert(r2 =~= k@.skip(p2 + 1));
            assert(r2.skip(q3 + 1) =~= k@.skip(p3 + 1));
        }
        return None;
    }
    proof {
        let r1 = k@.skip(p1 + 1);
        let q2 = p2 - (p1 + 1);
        let r2 = r1.skip(q2 + 1);
        let q3 = p3 - (p2 + 1);
        assert(r2 =~= k@.skip(p2 + 1));
        assert(r2.skip(q3 + 1) =~= k@.skip(p3 + 1));
        assert(k@.take(p1 as int) =~= k@.subrange(0, p1 as int));
        assert(r1.take(q2) =~= k@.subrange(p1 as int + 1, p2 as int));
        assert(r2.take(q3) =~= k@.subrange(p2 as int + 1, p3 as int));
        assert(k@.skip(p3 + 1) =~= k@.subrange(p3 as int + 1, k@.len() as int));
    }
    let part0 = bytes_range(k, 0, p1);
    let part1 = bytes_range(k, p1 + 1, p2);
    let part2 = bytes_range(k, p2 + 1, p3);
    let part3 = bytes_range(k, p3 + 1, k.len());
    let h = match parse_u64_dec(part0.as_slice()) {
        Some(h) => h,
        None => {
            return None;
        },
    };
    let t = match tag_to_type(part1.as_slice()) {
        Some(t) => t,
        None => {
            return None;
        },
    };
    let ts = match parse_i64_dec(part2.as_slice()) {
        Some(ts) => ts,
        None => {
            return None;
        },
    };
    Some((h, t, ts, part3))
}


/// A type tag never holds the separator.
pub proof fn lemma_type_tag_sep_free(t: MessageType)
    ensures
        sep_free(type_tag(t)),
{
    match t {
        MessageType::SendToEth => {
            assert(forall|i: int|
                0 <= i < type_tag(MessageType::SendToEth).len() ==> #[trigger] type_tag(
                    MessageType::SendToEth,
                )[i] != SEP);
        },
        MessageType::IbcTransfer => {
            assert(forall|i: int|
                0 <= i < type_tag(MessageType::IbcTransfer).len() ==> #[trigger] type_tag(
                    MessageType::IbcTransfer,
                )[i] != SEP);
        },
        MessageType::IbcRecv => {
            assert(forall|i: int|
                0 <= i < type_tag(MessageType::IbcRecv).len() ==> #[trigger] type_tag(
                    MessageType::IbcRecv,
                )[i] != SEP);
        },
    }
}

/// Putting a separator after a separator-free prefix makes it the first one.
proof fn lemma_find_sep_concat(a: Seq<u8>, rest: Seq<u8>)
    requires
        sep_free(a),
    ensures
        find_byte(a + seq![SEP] + rest, SEP) == Some(a.len() as int),
        (a + seq![SEP] + rest).skip(a.len() as int + 1) =~= rest,
        (a + seq![SEP] + rest).take(a.len() as int) =~= a,
{
    let s = a + seq![SEP] + rest;
    assert(s[a.len() as int] == SEP);
    assert(forall|j: int| 0 <= j < a.len() ==> #[trigger] s[j] == a[j]);
    lemma_find_byte_at(s, SEP, a.len() as int);
}

/// Parsing a key built by `key_bytes` gives back exactly its parts, as long
/// as the hash segment holds no separator.
#[verifier::rlimit(50)]
pub proof fn lemma_key_parse_roundtrip(h: u64, t: MessageType, ts: i64, hash: Seq<u8>)
    requires
        h < MAX_KEY_HEIGHT,
        sep_free(hash),
    ensures
        spec_parse_key(key_bytes(h, t, ts, hash)) == Some((h, t, ts, hash)),
{
    let a = pad_digits(h as nat, 12);
    let b = type_tag(t);
    let c = dec_i64(ts as int);
    let k = key_bytes(h, t, ts, hash);
    lemma_pow10_12();
    lemma_pad_digits_len(h as nat, 12);
    lemma_pad_digits_val(h as nat, 12);
    lemma_type_tag_sep_free(t);
    assert(sep_free(a));
    let rest2 = c + seq![SEP] + hash;
    let rest1 = b + seq![SEP] + rest2;
    assert(k =~= a + seq![SEP] + rest1);
    lemma_find_sep_concat(a, rest1);
    assert(sep_free(c)) by {
        if ts >= 0 {
            lemma_dec_digits_val(ts as nat);
        } else {
            lemma_dec_digits_val((-(ts as int)) as nat);
            assert(forall|i: int|
                0 <= i < c.len() ==> #[trigger] c[i] != SEP);
        }
    }
    lemma_find_sep_concat(b, rest2);
    lemma_find_sep_concat(c, hash);
    lemma_find_byte_none(hash, SEP);
    assert(spec_split4(k) == Some((a, b, c, hash)));
    // the height segment
    assert(spec_parse_u64(a) == Some(h));
    // the type segment
    assert(type_tag(MessageType::SendToEth).len() == 12);
    assert(type_tag(MessageType::IbcTransfer).len() == 14);
    assert(type_tag(MessageType::IbcRecv).len() == 10);
    assert(spec_tag_to_type(b) == Some(t));
    // the timestamp segment
    assert(spec_parse_i64(c) == Some(ts)) by {
        if ts >= 0 {
            lemma_dec_digits_val(ts as nat);
            assert(c[0] >= 48);
        } else {
            let m = (-(ts as int)) as nat;
            lemma_dec_digits_val(m);
            assert(c[0] == MINUS);
            assert(c.drop_first() =~= dec_digits(m));
        }
    }
}

} // verus!
