use bittorrent::bencode::{decode, encode, Bvalue, DecodeError};

fn ival(n: i64) -> Bvalue {
    Bvalue::Int(n)
}

fn bytes(b: &[u8]) -> Bvalue {
    Bvalue::Bytes(b.to_vec())
}

#[test]
fn decode_integer() {
    match decode(b"i42e").unwrap() {
        Bvalue::Int(n) => assert_eq!(n, 42),
        _ => panic!("expected an integer"),
    }
}

#[test]
fn decode_negative_integer() {
    match decode(b"i-7e").unwrap() {
        Bvalue::Int(n) => assert_eq!(n, -7),
        _ => panic!("expected an integer"),
    }
}

#[test]
fn decode_zero() {
    match decode(b"i0e").unwrap() {
        Bvalue::Int(n) => assert_eq!(n, 0),
        _ => panic!("expected an integer"),
    }
}

#[test]
fn decode_extreme_integers() {
    match decode(b"i9223372036854775807e").unwrap() {
        Bvalue::Int(n) => assert_eq!(n, i64::MAX),
        _ => panic!("expected an integer"),
    }
    match decode(b"i-9223372036854775808e").unwrap() {
        Bvalue::Int(n) => assert_eq!(n, i64::MIN),
        _ => panic!("expected an integer"),
    }
}

#[test]
fn decode_integer_out_of_range() {
    assert_eq!(decode(b"i9223372036854775808e").unwrap_err(), DecodeError::OutOfRange);
    assert_eq!(decode(b"i-9223372036854775809e").unwrap_err(), DecodeError::OutOfRange);
}

#[test]
fn decode_rejects_noncanonical_integers() {
    assert_eq!(decode(b"i-0e").unwrap_err(), DecodeError::Malformed);
    assert_eq!(decode(b"i03e").unwrap_err(), DecodeError::Malformed);
    assert_eq!(decode(b"ie").unwrap_err(), DecodeError::ExpectedDigit);
    assert_eq!(decode(b"i12xe").unwrap_err(), DecodeError::Malformed);
}

#[test]
fn decode_byte_string() {
    match decode(b"4:spam").unwrap() {
        Bvalue::Bytes(b) => assert_eq!(b, b"spam".to_vec()),
        _ => panic!("expected bytes"),
    }
}

#[test]
fn decode_empty_byte_string() {
    match decode(b"0:").unwrap() {
        Bvalue::Bytes(b) => assert_eq!(b.len(), 0),
        _ => panic!("expected bytes"),
    }
}

#[test]
fn decode_truncated_inputs() {
    assert_eq!(decode(b"4:ab").unwrap_err(), DecodeError::Truncated);
    assert_eq!(decode(b"i42").unwrap_err(), DecodeError::Truncated);
    assert_eq!(decode(b"l").unwrap_err(), DecodeError::Truncated);
    assert_eq!(decode(b"d").unwrap_err(), DecodeError::Truncated);
    assert_eq!(decode(b"").unwrap_err(), DecodeError::Truncated);
}

#[test]
fn decode_rejects_trailing_data() {
    assert_eq!(decode(b"i1ei2e").unwrap_err(), DecodeError::TrailingData);
}

#[test]
fn decode_rejects_leading_zero_length() {
    assert_eq!(decode(b"01:a").unwrap_err(), DecodeError::Malformed);
}

#[test]
fn decode_list() {
    match decode(b"l4:spami7ee").unwrap() {
        Bvalue::List(items) => {
            assert_eq!(items.len(), 2);
            match &items[0] {
                Bvalue::Bytes(b) => assert_eq!(b, &b"spam".to_vec()),
                _ => panic!("expected bytes"),
            }
            match &items[1] {
                Bvalue::Int(n) => assert_eq!(*n, 7),
                _ => panic!("expected an integer"),
            }
        },
        _ => panic!("expected a list"),
    }
}

#[test]
fn decode_dict() {
    match decode(b"d3:cow3:moo4:spami3ee").unwrap() {
        Bvalue::Dict(entries) => {
            assert_eq!(entries.len(), 2);
            assert_eq!(entries[0].0, b"cow".to_vec());
            assert_eq!(entries[1].0, b"spam".to_vec());
        },
        _ => panic!("expected a dictionary"),
    }
}

#[test]
fn encode_decode_round_trip_value() {
    let v = Bvalue::Dict(vec![
        (b"a".to_vec(), ival(-12)),
        (b"b".to_vec(), Bvalue::List(vec![ival(1), bytes(b"xy")])),
        (b"c".to_vec(), bytes(b"")),
    ]);
    let e = encode(&v);
    assert_eq!(e, b"d1:ai-12e1:bli1e2:xye1:c0:e".to_vec());
    let d = decode(&e).unwrap();
    let e2 = encode(&d);
    assert_eq!(e, e2);
}

#[test]
fn decode_reencode_is_identity() {
    let original = b"d3:bar4:spam3:fooi42ee".to_vec();
    let v = decode(&original).unwrap();
    assert_eq!(encode(&v), original);
}
