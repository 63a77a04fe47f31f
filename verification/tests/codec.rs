//! Tests of the entry codec: the decode and view paths both restore exactly
//! what was encoded, and malformed bytes are rejected.

use kvwal::{WalEntry, WalEntryView, WalError};

#[test]
fn put_entry_round_trips() {
    let e = WalEntry::Put("hello".to_owned(), "world".to_owned());
    let bytes = e.serialize().unwrap();
    let back = WalEntry::deserialize(&bytes).unwrap();
    assert_eq!(back, WalEntry::Put("hello".to_owned(), "world".to_owned()));
}

#[test]
fn batch_entry_round_trips() {
    let pairs = vec![
        ("a".to_owned(), "1".to_owned()),
        ("b".to_owned(), "2".to_owned()),
        ("a".to_owned(), "3".to_owned()),
    ];
    let e = WalEntry::Batch(pairs.clone());
    let bytes = e.serialize().unwrap();
    let back = WalEntry::deserialize(&bytes).unwrap();
    assert_eq!(back, WalEntry::Batch(pairs));
}

#[test]
fn view_agrees_with_decode() {
    let e = WalEntry::Put("key".to_owned(), "value".to_owned());
    let bytes = e.serialize().unwrap();
    match WalEntry::zero_copy(&bytes).unwrap() {
        WalEntryView::Put(k, v) => {
            assert_eq!(k, "key");
            assert_eq!(v, "value");
        },
        _ => panic!("expected a put view"),
    }
    match WalEntry::deserialize(&bytes).unwrap() {
        WalEntry::Put(k, v) => {
            assert_eq!(k, "key");
            assert_eq!(v, "value");
        },
        _ => panic!("expected a put entry"),
    }
}

#[test]
fn empty_strings_round_trip() {
    let e = WalEntry::Put(String::new(), String::new());
    let bytes = e.serialize().unwrap();
    assert_eq!(bytes.len(), 9);
    let back = WalEntry::deserialize(&bytes).unwrap();
    assert_eq!(back, WalEntry::Put(String::new(), String::new()));
}

#[test]
fn unicode_contents_round_trip() {
    let e = WalEntry::Put("k\u{00e9}y".to_owned(), "v\u{2764}".to_owned());
    let bytes = e.serialize().unwrap();
    let back = WalEntry::deserialize(&bytes).unwrap();
    assert_eq!(back, e);
}

#[test]
fn empty_batch_round_trips() {
    let e = WalEntry::Batch(Vec::new());
    let bytes = e.serialize().unwrap();
    assert_eq!(bytes.len(), 5);
    let back = WalEntry::deserialize(&bytes).unwrap();
    assert_eq!(back, WalEntry::Batch(Vec::new()));
}

#[test]
fn bad_discriminant_is_rejected() {
    assert_eq!(WalEntry::deserialize(&[9u8]).err(), Some(WalError::Deserialization));
}

#[test]
fn truncated_field_is_rejected() {
    let e = WalEntry::Put("hello".to_owned(), "world".to_owned());
    let mut bytes = e.serialize().unwrap();
    bytes.pop();
    assert_eq!(WalEntry::deserialize(&bytes).err(), Some(WalError::Deserialization));
}

#[test]
fn trailing_bytes_are_rejected() {
    let e = WalEntry::Put("a".to_owned(), "b".to_owned());
    let mut bytes = e.serialize().unwrap();
    bytes.push(0);
    assert_eq!(WalEntry::deserialize(&bytes).err(), Some(WalError::Deserialization));
}

#[test]
fn invalid_utf8_is_rejected() {
    // tag: put; key of one byte that is no UTF-8 start; empty value
    let mut bytes = Vec::new();
    bytes.push(0u8);
    bytes.extend_from_slice(&1u32.to_le_bytes());
    bytes.push(0xff);
    bytes.extend_from_slice(&0u32.to_le_bytes());
    assert_eq!(WalEntry::deserialize(&bytes).err(), Some(WalError::Deserialization));
}
