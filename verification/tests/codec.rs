//! Tests of the wire codec: frames in, typed commands out, and back.

use kv_store::protocol::{
    decode, encode_request, is_valid_command, Command, CommandResponse, DecodeError,
};

#[test]
fn decode_get_frame() {
    let r = decode(b"0foo", 4);
    assert_eq!(r, Ok(Command::Get(String::from("foo"))));
}

#[test]
fn decode_set_frame_splits_on_first_space_only() {
    let r = decode(b"1key val ue", 11);
    assert_eq!(
        r,
        Ok(Command::Put(String::from("key"), String::from("val ue")))
    );
}

#[test]
fn decode_delete_frame() {
    let r = decode(b"2foo", 4);
    assert_eq!(r, Ok(Command::Delete(String::from("foo"))));
}

#[test]
fn decode_exists_frame() {
    let r = decode(b"3foo", 4);
    assert_eq!(r, Ok(Command::Exists(String::from("foo"))));
}

#[test]
fn decode_keys_frame() {
    let r = decode(b"4", 1);
    assert_eq!(r, Ok(Command::Keys));
}

#[test]
fn decode_unknown_opcode_is_invalid_command() {
    let r = decode(b"9foo", 4);
    assert_eq!(r, Err(DecodeError::InvalidCommand));
}

#[test]
fn decode_set_without_space_is_malformed() {
    let r = decode(b"1onlykey", 8);
    assert_eq!(r, Err(DecodeError::MalformedFrame));
}

#[test]
fn decode_keys_with_payload_is_malformed() {
    let r = decode(b"4x", 2);
    assert_eq!(r, Err(DecodeError::MalformedFrame));
}

#[test]
fn decode_get_without_key_is_malformed() {
    let r = decode(b"0", 1);
    assert_eq!(r, Err(DecodeError::MalformedFrame));
}

#[test]
fn decode_invalid_utf8_key_is_malformed() {
    let r = decode(&[b'0', 0xff, 0xfe], 3);
    assert_eq!(r, Err(DecodeError::MalformedFrame));
}

#[test]
fn decode_set_with_empty_key_or_value_is_malformed() {
    assert_eq!(decode(b"1 value", 7), Err(DecodeError::MalformedFrame));
    assert_eq!(decode(b"1key ", 5), Err(DecodeError::MalformedFrame));
}

#[test]
fn decode_uses_only_the_read_bytes() {
    let buffer = b"0foo____________";
    let r = decode(buffer, 4);
    assert_eq!(r, Ok(Command::Get(String::from("foo"))));
}

#[test]
fn decode_multibyte_utf8_key() {
    let frame = "0h\u{e9}llo".as_bytes();
    let r = decode(frame, frame.len());
    assert_eq!(r, Ok(Command::Get(String::from("h\u{e9}llo"))));
}

#[test]
fn round_trip_every_command_shape() {
    let commands = vec![
        Command::Get(String::from("foo")),
        Command::Put(String::from("key"), String::from("a value with spaces")),
        Command::Put(String::from("k\u{e9}y"), String::from("v\u{e4}lue")),
        Command::Delete(String::from("foo")),
        Command::Exists(String::from("foo")),
        Command::Keys,
    ];
    for c in commands {
        let frame = encode_request(&c);
        assert_eq!(decode(frame.as_slice(), frame.len()), Ok(c));
    }
}

#[test]
fn encode_request_frames() {
    assert_eq!(
        encode_request(&Command::Put(String::from("foo"), String::from("bar"))),
        b"1foo bar".to_vec()
    );
    assert_eq!(encode_request(&Command::Get(String::from("foo"))), b"0foo".to_vec());
    assert_eq!(encode_request(&Command::Keys), b"4".to_vec());
}

#[test]
fn is_valid_command_accepts_exactly_the_opcodes() {
    assert!(is_valid_command(b'0'));
    assert!(is_valid_command(b'1'));
    assert!(is_valid_command(b'2'));
    assert!(is_valid_command(b'3'));
    assert!(is_valid_command(b'4'));
    assert!(!is_valid_command(b'5'));
    assert!(!is_valid_command(b'9'));
    assert!(!is_valid_command(b'/'));
    assert!(!is_valid_command(0));
}

#[test]
fn response_into_bytes() {
    assert_eq!(
        CommandResponse::Success(b"bar".to_vec()).into_bytes(),
        b"0bar".to_vec()
    );
    assert_eq!(CommandResponse::Success(Vec::new()).into_bytes(), b"0".to_vec());
    assert_eq!(CommandResponse::NotFound.into_bytes(), b"2".to_vec());
    assert_eq!(
        CommandResponse::InternalError(b"oops".to_vec()).into_bytes(),
        b"1oops".to_vec()
    );
}
