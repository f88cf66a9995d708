use respkv::decode::{decode, DecodeResult};
use respkv::resp::RespValue;

fn bulk(s: &[u8]) -> RespValue {
    RespValue::BulkString(Some(s.to_vec()))
}

fn assert_round_trip(v: RespValue, wire: &[u8]) {
    let enc = v.to_bytes();
    assert_eq!(enc, wire.to_vec());
    match decode(&enc) {
        DecodeResult::Complete(back, used) => {
            assert_eq!(back, v);
            assert_eq!(used, enc.len());
        }
        other => panic!("expected a complete value, got {:?}", other),
    }
}

#[test]
fn round_trip_simple_string() {
    assert_round_trip(
        RespValue::SimpleString(b"PONG".to_vec()),
        b"+PONG\r\n",
    );
    assert_round_trip(RespValue::SimpleString(Vec::new()), b"+\r\n");
}

#[test]
fn round_trip_error() {
    assert_round_trip(
        RespValue::Error(b"unknown command".to_vec()),
        b"-unknown command\r\n",
    );
}

#[test]
fn round_trip_integers() {
    assert_round_trip(RespValue::Integer(0), b":0\r\n");
    assert_round_trip(RespValue::Integer(1000), b":1000\r\n");
    assert_round_trip(RespValue::Integer(-42), b":-42\r\n");
    assert_round_trip(
        RespValue::Integer(i64::MAX),
        b":9223372036854775807\r\n",
    );
    assert_round_trip(
        RespValue::Integer(i64::MIN),
        b":-9223372036854775808\r\n",
    );
}

#[test]
fn round_trip_bulk() {
    assert_round_trip(bulk(b"bar"), b"$3\r\nbar\r\n");
    assert_round_trip(bulk(b""), b"$0\r\n\r\n");
    // Binary-safe: the payload may hold terminator bytes.
    assert_round_trip(bulk(b"a\r\nb\x00c"), b"$6\r\na\r\nb\x00c\r\n");
    assert_round_trip(RespValue::BulkString(None), b"$-1\r\n");
}

#[test]
fn round_trip_array() {
    assert_round_trip(RespValue::Array(vec![]), b"*0\r\n");
    assert_round_trip(
        RespValue::Array(vec![bulk(b"GET"), bulk(b"foo")]),
        b"*2\r\n$3\r\nGET\r\n$3\r\nfoo\r\n",
    );
    assert_round_trip(
        RespValue::Array(vec![
            RespValue::Integer(7),
            RespValue::Array(vec![RespValue::SimpleString(b"OK".to_vec())]),
            RespValue::BulkString(None),
        ]),
        b"*3\r\n:7\r\n*1\r\n+OK\r\n$-1\r\n",
    );
}

#[test]
fn null_array_decodes_to_empty_aggregate() {
    match decode(b"*-1\r\n") {
        DecodeResult::Complete(RespValue::Array(a), 5) => assert!(a.is_empty()),
        other => panic!("expected an empty aggregate, got {:?}", other),
    }
}

#[test]
fn every_strict_prefix_is_incomplete() {
    let samples: Vec<Vec<u8>> = vec![
        RespValue::SimpleString(b"PONG".to_vec()).to_bytes(),
        RespValue::Integer(-123).to_bytes(),
        bulk(b"bar").to_bytes(),
        RespValue::BulkString(None).to_bytes(),
        RespValue::Array(vec![bulk(b"SET"), bulk(b"k"), bulk(b"v")]).to_bytes(),
    ];
    for enc in samples {
        for k in 0..enc.len() {
            match decode(&enc[..k]) {
                DecodeResult::Incomplete => {}
                other => panic!(
                    "prefix of length {} of {:?} gave {:?}",
                    k, enc, other
                ),
            }
        }
    }
}

#[test]
fn incomplete_when_payload_missing() {
    assert!(matches!(decode(b"$10\r\nabc"), DecodeResult::Incomplete));
    assert!(matches!(decode(b"*2\r\n+OK\r\n"), DecodeResult::Incomplete));
    assert!(matches!(decode(b""), DecodeResult::Incomplete));
}

#[test]
fn malformed_inputs() {
    assert!(matches!(decode(b"xabc\r\n"), DecodeResult::Malformed));
    assert!(matches!(decode(b"$ab\r\n"), DecodeResult::Malformed));
    assert!(matches!(decode(b"$-2\r\n"), DecodeResult::Malformed));
    assert!(matches!(decode(b"*x\r\n"), DecodeResult::Malformed));
    assert!(matches!(decode(b":\r\n"), DecodeResult::Malformed));
    assert!(matches!(decode(b":12a\r\n"), DecodeResult::Malformed));
    // One past the largest signed 64-bit value.
    assert!(matches!(
        decode(b":9223372036854775808\r\n"),
        DecodeResult::Malformed
    ));
    // A malformed element poisons the whole aggregate.
    assert!(matches!(decode(b"*1\r\nxoops\r\n"), DecodeResult::Malformed));
}

#[test]
fn lenient_integer_forms() {
    match decode(b":+5\r\n") {
        DecodeResult::Complete(RespValue::Integer(5), 5) => {}
        other => panic!("expected 5, got {:?}", other),
    }
    match decode(b":007\r\n") {
        DecodeResult::Complete(RespValue::Integer(7), 6) => {}
        other => panic!("expected 7, got {:?}", other),
    }
}

#[test]
fn bulk_trailing_pair_is_skipped_unchecked() {
    // The two bytes after the payload are assumed to be the terminator and
    // skipped without being validated.
    match decode(b"$3\r\nfooXYrest") {
        DecodeResult::Complete(v, used) => {
            assert_eq!(v, bulk(b"foo"));
            assert_eq!(used, 9);
        }
        other => panic!("expected foo, got {:?}", other),
    }
}

#[test]
fn decode_leaves_following_bytes_alone() {
    match decode(b"+OK\r\n:1\r\n") {
        DecodeResult::Complete(v, used) => {
            assert_eq!(v, RespValue::SimpleString(b"OK".to_vec()));
            assert_eq!(used, 5);
        }
        other => panic!("expected OK, got {:?}", other),
    }
}
