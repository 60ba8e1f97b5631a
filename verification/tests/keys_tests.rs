use gravity_indexer::digits::{bytes_lt, parse_u128_dec, parse_u64_dec};
use gravity_indexer::keys::{make_key, parse_i64_dec, parse_key, MAX_KEY_HEIGHT};
use gravity_indexer::messages::MessageType;

fn hash64() -> Vec<u8> {
    let mut v = Vec::new();
    for i in 0..64u8 {
        v.push(if i % 2 == 0 { b'A' } else { b'0' });
    }
    v
}

#[test]
fn key_has_padded_height_and_segments() {
    let key = make_key(100, MessageType::SendToEth, 1700000000, &hash64());
    let mut expected = b"000000000100:msgSendToEth:1700000000:".to_vec();
    expected.extend_from_slice(&hash64());
    assert_eq!(key, expected);
}

#[test]
fn key_uses_each_type_tag() {
    let h = hash64();
    let k1 = make_key(7, MessageType::IbcTransfer, 5, &h);
    assert!(k1.starts_with(b"000000000007:msgIbcTransfer:5:"));
    let k2 = make_key(7, MessageType::IbcRecv, 5, &h);
    assert!(k2.starts_with(b"000000000007:msgIbcRecv:5:"));
}

#[test]
fn keys_order_by_height_bytewise() {
    // lower heights give byte-lexicographically smaller keys, whatever the
    // other segments hold
    let h = hash64();
    let pairs = [
        (0u64, 1u64),
        (1, 2),
        (9, 10),
        (99, 100),
        (999999, 1000000),
        (MAX_KEY_HEIGHT - 2, MAX_KEY_HEIGHT - 1),
    ];
    for (a, b) in pairs {
        let ka = make_key(a, MessageType::IbcRecv, 9999999, &h);
        let kb = make_key(b, MessageType::SendToEth, 0, &h);
        assert!(ka < kb, "key({a}) should precede key({b})");
        assert!(bytes_lt(&ka, &kb));
    }
}

#[test]
fn key_parses_back_to_its_parts() {
    let h = hash64();
    let key = make_key(42, MessageType::IbcTransfer, -12345, &h);
    let parsed = parse_key(&key).expect("canonical key must parse");
    assert_eq!(parsed.0, 42);
    assert_eq!(parsed.1, MessageType::IbcTransfer);
    assert_eq!(parsed.2, -12345);
    assert_eq!(parsed.3, h);
}

#[test]
fn malformed_keys_do_not_parse() {
    assert!(parse_key(b"last_download_block").is_none());
    assert!(parse_key(b"").is_none());
    assert!(parse_key(b"000000000100:msgSendToEth:17").is_none());
    assert!(parse_key(b"000000000100:somethingElse:17:AB").is_none());
    assert!(parse_key(b"abc:msgSendToEth:17:AB").is_none());
    // a separator inside the hash segment makes five segments
    assert!(parse_key(b"000000000100:msgSendToEth:17:AB:CD").is_none());
}

#[test]
fn decimal_parsers_are_exact() {
    assert_eq!(parse_u64_dec(b"0"), Some(0));
    assert_eq!(parse_u64_dec(b"000123"), Some(123));
    assert_eq!(parse_u64_dec(b"18446744073709551615"), Some(u64::MAX));
    assert_eq!(parse_u64_dec(b"18446744073709551616"), None);
    assert_eq!(parse_u64_dec(b""), None);
    assert_eq!(parse_u64_dec(b"12a"), None);
    assert_eq!(
        parse_u128_dec(b"340282366920938463463374607431768211455"),
        Some(u128::MAX)
    );
    assert_eq!(parse_u128_dec(b"340282366920938463463374607431768211456"), None);
    assert_eq!(parse_i64_dec(b"-12345"), Some(-12345));
    assert_eq!(parse_i64_dec(b"-9223372036854775808"), Some(i64::MIN));
    assert_eq!(parse_i64_dec(b"9223372036854775807"), Some(i64::MAX));
    assert_eq!(parse_i64_dec(b"9223372036854775808"), None);
    assert_eq!(parse_i64_dec(b"-"), None);
}
