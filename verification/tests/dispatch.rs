//! End-to-end tests: frames through the handler against one store.

use kv_store::handler::handle_command;
use kv_store::kv_store::KvStore;
use kv_store::protocol::CommandResponse;

fn send(store: &mut KvStore, frame: &[u8]) -> CommandResponse {
    handle_command(store, frame, frame.len())
}

#[test]
fn end_to_end_scenario() {
    let mut store = KvStore::new();
    assert_eq!(send(&mut store, b"1foo bar"), CommandResponse::Success(Vec::new()));
    assert_eq!(send(&mut store, b"0foo"), CommandResponse::Success(b"bar".to_vec()));
    assert_eq!(send(&mut store, b"3foo"), CommandResponse::Success(b"1".to_vec()));
    assert_eq!(send(&mut store, b"2foo"), CommandResponse::Success(b"bar".to_vec()));
    assert_eq!(send(&mut store, b"0foo"), CommandResponse::NotFound);
}

#[test]
fn keys_response_lists_both_keys_in_some_order() {
    let mut store = KvStore::new();
    assert_eq!(send(&mut store, b"1a 1"), CommandResponse::Success(Vec::new()));
    assert_eq!(send(&mut store, b"1b 2"), CommandResponse::Success(Vec::new()));
    let r = send(&mut store, b"4");
    assert!(
        r == CommandResponse::Success(b"a b".to_vec())
            || r == CommandResponse::Success(b"b a".to_vec())
    );
}

#[test]
fn delete_of_absent_key_is_not_found() {
    let mut store = KvStore::new();
    assert_eq!(send(&mut store, b"2nope"), CommandResponse::NotFound);
}

#[test]
fn exists_of_absent_key_is_success_zero() {
    let mut store = KvStore::new();
    assert_eq!(send(&mut store, b"3nope"), CommandResponse::Success(b"0".to_vec()));
}

#[test]
fn invalid_opcode_earns_internal_error_and_leaves_store_alone() {
    let mut store = KvStore::new();
    assert_eq!(send(&mut store, b"1foo bar"), CommandResponse::Success(Vec::new()));
    assert_eq!(
        send(&mut store, b"9foo"),
        CommandResponse::InternalError(b"invalid command".to_vec())
    );
    assert_eq!(send(&mut store, b"0foo"), CommandResponse::Success(b"bar".to_vec()));
}

#[test]
fn malformed_set_earns_internal_error() {
    let mut store = KvStore::new();
    assert_eq!(
        send(&mut store, b"1onlykey"),
        CommandResponse::InternalError(b"malformed frame".to_vec())
    );
    assert_eq!(send(&mut store, b"4"), CommandResponse::Success(Vec::new()));
}

#[test]
fn value_with_spaces_survives_the_wire() {
    let mut store = KvStore::new();
    assert_eq!(
        send(&mut store, b"1greeting hello there world"),
        CommandResponse::Success(Vec::new())
    );
    assert_eq!(
        send(&mut store, b"0greeting"),
        CommandResponse::Success(b"hello there world".to_vec())
    );
}

#[test]
fn multibyte_utf8_value_survives_the_wire() {
    let mut store = KvStore::new();
    let set_frame = "1name j\u{fc}rgen".as_bytes();
    assert_eq!(
        handle_command(&mut store, set_frame, set_frame.len()),
        CommandResponse::Success(Vec::new())
    );
    assert_eq!(
        send(&mut store, b"0name"),
        CommandResponse::Success("j\u{fc}rgen".as_bytes().to_vec())
    );
}
