//! The key and change codecs, exercised on concrete values.

use griddb::change_encoder::{Change, ChangeEncoder};
use griddb::db_key::{DbKey, DbKey2i32, DbKey3i32};
use griddb::Version;

use ilattice::prelude::{Morton2i32, Morton3i32};

fn key3(level: u8, x: i32, y: i32, z: i32) -> DbKey3i32 {
    DbKey3i32::new(level, Morton3i32::from([x, y, z]).0)
}

fn key2(level: u8, x: i32, y: i32) -> DbKey2i32 {
    DbKey2i32::new(level, Morton2i32::from([x, y]).0)
}

#[test]
fn deserialize_remove_bytes() {
    let remove_bytes = Change::serialize_remove();
    assert_eq!(Change::deserialize(&remove_bytes), Some(Change::Remove));
}

#[test]
fn deserialize_insert_bytes() {
    let original = Change::Insert(vec![0]);
    let serialized = original.serialize();
    let deserialized = Change::deserialize(&serialized).unwrap();
    assert_eq!(deserialized, original);
}

#[test]
fn deserialize_rejects_garbage() {
    assert_eq!(Change::deserialize(&vec![]), None);
    assert_eq!(Change::deserialize(&vec![7u8, 7u8]), None);
    assert_eq!(Change::deserialize(&vec![0u8, 0u8]), None);
}

#[test]
fn remove_serializes_to_one_fixed_byte() {
    assert_eq!(Change::serialize_remove().len(), 1);
    assert_eq!(Change::Remove.serialize(), Change::serialize_remove());
}

#[test]
fn key3_round_trip() {
    for &(level, x, y, z) in
        &[(0u8, 0, 0, 0), (1, 1, 1, 1), (7, -5, 12, 1 << 20), (255, i32::MAX, i32::MIN, -1)]
    {
        let k = key3(level, x, y, z);
        let bytes = k.as_sled_key();
        assert_eq!(bytes.len(), 13);
        assert_eq!(DbKey3i32::from_sled_key(&bytes), k);
    }
}

#[test]
fn key2_round_trip() {
    for &(level, x, y) in &[(0u8, 0, 0), (3, -1, 1), (255, i32::MIN, i32::MAX)] {
        let k = key2(level, x, y);
        let bytes = k.as_sled_key();
        assert_eq!(bytes.len(), 9);
        assert_eq!(DbKey2i32::from_sled_key(&bytes), k);
    }
}

#[test]
fn key3_encoding_orders_like_morton_within_level() {
    let mut keys = vec![
        key3(4, 0, 0, 0),
        key3(4, 1, 0, 0),
        key3(4, 0, 1, 0),
        key3(4, -1, -1, -1),
        key3(4, 5, -9, 100),
    ];
    keys.sort_by_key(|k| k.morton);
    let mut encoded: Vec<Vec<u8>> = keys.iter().map(|k| k.as_sled_key()).collect();
    let mut sorted = encoded.clone();
    sorted.sort();
    assert_eq!(encoded, sorted);
    encoded.dedup();
    assert_eq!(encoded.len(), keys.len());
}

#[test]
fn levels_are_disjoint_in_encoded_order() {
    let low = key3(1, i32::MAX, i32::MAX, i32::MAX);
    let high = key3(2, i32::MIN, i32::MIN, i32::MIN);
    assert!(low.as_sled_key() < high.as_sled_key());
}

#[test]
fn encoder_sorts_and_keeps_latest_change() {
    let a = key3(1, 0, 0, 0);
    let b = key3(1, 1, 0, 0);
    let mut encoder = ChangeEncoder::default();
    encoder.add_change(b, Change::Insert(vec![9]));
    encoder.add_change(a, Change::Insert(vec![1]));
    encoder.add_change(b, Change::Remove);
    let encoded = encoder.encode();
    assert_eq!(encoded.changes.len(), 2);
    assert_eq!(encoded.changes[0].0, a.as_sled_key());
    assert_eq!(encoded.changes[0].1, Change::Insert(vec![1]).serialize());
    assert_eq!(encoded.changes[1].0, b.as_sled_key());
    assert_eq!(encoded.changes[1].1, Change::Remove.serialize());
    assert!(encoded.changes[0].0 < encoded.changes[1].0);
}

#[test]
fn version_sled_key_is_big_endian() {
    assert_eq!(Version::new(0x0102030405060708).into_sled_key(), vec![1, 2, 3, 4, 5, 6, 7, 8]);
    assert_eq!(Version::new(0).into_sled_key(), vec![0; 8]);
}

#[test]
fn change_accessors() {
    let c = Change::Insert(vec![1, 2]);
    assert_eq!(c.get_insert_data(), Some(&vec![1, 2]));
    assert_eq!(Change::Remove.get_insert_data(), None);
    assert_eq!(c.clone().unwrap_insert(), vec![1, 2]);
    let mapped = c.map(|mut d| {
        d.push(3);
        d
    });
    assert_eq!(mapped, Change::Insert(vec![1, 2, 3]));
    assert_eq!(Change::Remove.map(|d| d), Change::Remove);
}

#[test]
fn min_and_max_keys_bound_a_level() {
    let min3 = DbKey3i32::min_key(3);
    let max3 = DbKey3i32::max_key(3);
    let mid = key3(3, -17, 4, 9000);
    assert!(min3.as_sled_key() <= mid.as_sled_key());
    assert!(mid.as_sled_key() <= max3.as_sled_key());
    let min2 = DbKey2i32::min_key(3);
    let max2 = DbKey2i32::max_key(3);
    let mid2 = key2(3, -17, 4);
    assert!(min2.as_sled_key() <= mid2.as_sled_key());
    assert!(mid2.as_sled_key() <= max2.as_sled_key());
}

#[test]
fn extent_range_spans_a_level() {
    let (lo3, hi3) = DbKey3i32::extent_range(2, 5, 900);
    assert_eq!(lo3, DbKey3i32::new(2, 5));
    assert_eq!(hi3, DbKey3i32::new(2, 900));
    assert!(lo3.as_sled_key() <= hi3.as_sled_key());
    let (lo2, hi2) = DbKey2i32::extent_range(2, 5, 900);
    assert_eq!(lo2, DbKey2i32::new(2, 5));
    assert_eq!(hi2, DbKey2i32::new(2, 900));
    assert!(lo2.as_sled_key() <= hi2.as_sled_key());
}
