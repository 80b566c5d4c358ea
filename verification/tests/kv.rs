//! Commands and the store.

use kurogane::kv::{Command, DecodeError};

#[test]
fn round_trips_set() {
    let command = Command::Put {
        key: vec![1, 2, 3],
        value: vec![9, 9],
    };

    assert_eq!(Command::decode(&command.encode()), Ok(command));
}

#[test]
fn round_trips_delete() {
    let command = Command::Delete { key: vec![7] };

    assert_eq!(Command::decode(&command.encode()), Ok(command));
}

#[test]
fn round_trips_get() {
    let command = Command::Get { key: vec![4, 5] };

    assert_eq!(Command::decode(&command.encode()), Ok(command));
}

#[test]
fn round_trips_empty_keys_and_values() {
    let command = Command::Put {
        key: Vec::new(),
        value: Vec::new(),
    };

    assert_eq!(Command::decode(&command.encode()), Ok(command));
}

#[test]
fn rejects_an_unknown_tag() {
    assert_eq!(Command::decode(&[99]), Err(DecodeError::UnknownTag(99)));
}

#[test]
fn rejects_empty_bytes() {
    assert_eq!(Command::decode(&[]), Err(DecodeError::Truncated));
}

#[test]
fn rejects_a_truncated_length_prefix() {
    assert_eq!(Command::decode(&[0, 0, 0]), Err(DecodeError::Truncated));
}

#[test]
fn rejects_a_truncated_value() {
    assert_eq!(
        Command::decode(&[0, 0, 0, 0, 5, 1, 2]),
        Err(DecodeError::Truncated)
    );
}
