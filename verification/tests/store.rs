//! End-to-end scenarios against a temporary engine: write, read, commit,
//! branch, and the failure paths.

use griddb::change_encoder::{Change, ChangeEncoder};
use griddb::db::{AbortReason, GridDb};
use griddb::db_key::DbKey3i32;
use griddb::meta_tree::GridDbMetadata;
use griddb::Version;

use ilattice::prelude::Morton3i32;

fn key3(level: u8, x: i32, y: i32, z: i32) -> DbKey3i32 {
    DbKey3i32::new(level, Morton3i32::from([x, y, z]).0)
}

fn insert_batch(key: DbKey3i32, change: Change) -> griddb::change_encoder::EncodedChanges {
    let mut encoder = ChangeEncoder::default();
    encoder.add_change(key, change);
    encoder.encode()
}

#[test]
fn write_and_read_changes_same_version() {
    let db = sled::Config::default().temporary(true).open().unwrap();
    let mut map = GridDb::open(&db, "mymap").unwrap();

    let chunk_key = key3(1, 0, 0, 0);
    map.write_working_version(insert_batch(chunk_key, Change::Insert(vec![0]))).unwrap();

    let read_back = map.read_working_version(chunk_key).unwrap().unwrap();
    assert_eq!(read_back, Change::Insert(vec![0]));
}

#[test]
fn commit_empty_working_version_does_nothing() {
    let db = sled::Config::default().temporary(true).open().unwrap();
    let mut map = GridDb::<DbKey3i32>::open(&db, "mymap").unwrap();

    assert_eq!(
        map.cached_meta(),
        &GridDbMetadata {
            grandparent_version: None,
            parent_version: None,
            working_version: Version::new(0),
        }
    );

    map.commit_working_version().unwrap();

    assert_eq!(
        map.cached_meta(),
        &GridDbMetadata {
            grandparent_version: None,
            parent_version: None,
            working_version: Version::new(0),
        }
    );
}

#[test]
fn commit_multiple_versions_with_changes_and_branch() {
    let db = sled::Config::default().temporary(true).open().unwrap();
    let mut map = GridDb::open(&db, "mymap").unwrap();

    let chunk_key1 = key3(1, 0, 0, 0);
    map.write_working_version(insert_batch(chunk_key1, Change::Insert(vec![0]))).unwrap();

    let v0 = map.cached_meta().working_version;
    map.commit_working_version().unwrap();

    // undo the previous change
    map.write_working_version(insert_batch(chunk_key1, Change::Remove)).unwrap();

    let v1 = map.cached_meta().working_version;
    map.commit_working_version().unwrap();

    assert_eq!(
        map.cached_meta(),
        &GridDbMetadata {
            working_version: Version::new(2),
            parent_version: Some(v1),
            grandparent_version: Some(v0),
        }
    );

    // the entry was removed in this version
    assert_eq!(map.read_working_version(chunk_key1).unwrap(), None);

    // but reverting to v0 brings it back
    map.branch_from_version(v0).unwrap();

    let expected_insert = Change::Insert(vec![0]);
    assert_eq!(map.read_working_version(chunk_key1).unwrap(), Some(expected_insert.clone()));

    // commit changes to the branch
    let chunk_key2 = key3(2, 0, 0, 0);
    map.write_working_version(insert_batch(chunk_key2, Change::Insert(vec![0]))).unwrap();
    let v2 = map.cached_meta().working_version;
    map.commit_working_version().unwrap();

    // branch from a sibling version
    map.branch_from_version(v1).unwrap();
    assert_eq!(map.read_working_version(chunk_key1).unwrap(), None);
    assert_eq!(map.read_working_version(chunk_key2).unwrap(), None);

    // and back
    map.branch_from_version(v2).unwrap();
    assert_eq!(map.read_working_version(chunk_key1).unwrap(), Some(expected_insert.clone()));
    assert_eq!(map.read_working_version(chunk_key2).unwrap(), Some(expected_insert));
}

#[test]
fn backup_keeps_oldest_value() {
    let db = sled::Config::default().temporary(true).open().unwrap();
    let mut map = GridDb::<DbKey3i32>::open(&db, "mymap").unwrap();

    let k1 = key3(1, 0, 0, 0);
    map.write_working_version(insert_batch(k1, Change::Insert(vec![0xA]))).unwrap();
    map.commit_working_version().unwrap();
    let parent = map.cached_meta().parent_version.unwrap();

    map.write_working_version(insert_batch(k1, Change::Insert(vec![0xB]))).unwrap();
    map.write_working_version(insert_batch(k1, Change::Insert(vec![0xC]))).unwrap();
    map.commit_working_version().unwrap();

    map.branch_from_version(parent).unwrap();
    assert_eq!(map.read_working_version(k1).unwrap(), Some(Change::Insert(vec![0xA])));
}

#[test]
fn branch_back_restores_parent_state() {
    let db = sled::Config::default().temporary(true).open().unwrap();
    let mut map = GridDb::<DbKey3i32>::open(&db, "mymap").unwrap();

    let k1 = key3(1, 0, 0, 0);
    let k2 = key3(1, 1, 0, 0);
    let k3 = key3(2, 0, 0, 0);
    let mut encoder = ChangeEncoder::default();
    encoder.add_change(k1, Change::Insert(vec![1]));
    encoder.add_change(k2, Change::Insert(vec![2]));
    map.write_working_version(encoder.encode()).unwrap();
    map.commit_working_version().unwrap();
    let parent = map.cached_meta().parent_version.unwrap();

    // remove one key, overwrite another, add a third
    let mut encoder = ChangeEncoder::default();
    encoder.add_change(k1, Change::Remove);
    encoder.add_change(k2, Change::Insert(vec![9]));
    encoder.add_change(k3, Change::Insert(vec![3]));
    map.write_working_version(encoder.encode()).unwrap();
    map.commit_working_version().unwrap();

    map.branch_from_version(parent).unwrap();
    assert_eq!(map.read_working_version(k1).unwrap(), Some(Change::Insert(vec![1])));
    assert_eq!(map.read_working_version(k2).unwrap(), Some(Change::Insert(vec![2])));
    assert_eq!(map.read_working_version(k3).unwrap(), None);
}

#[test]
fn missing_archive_aborts_cleanly() {
    let db = sled::Config::default().temporary(true).open().unwrap();
    let mut map = GridDb::open(&db, "mymap").unwrap();

    let k1 = key3(1, 0, 0, 0);
    map.write_working_version(insert_batch(k1, Change::Insert(vec![1]))).unwrap();
    let v0 = map.cached_meta().working_version;
    map.commit_working_version().unwrap();
    map.write_working_version(insert_batch(k1, Change::Insert(vec![2]))).unwrap();
    map.commit_working_version().unwrap();

    // remove the archived delta that the path back to v0 needs
    let archive = db.open_tree("mymap-version-changes").unwrap();
    archive.remove(&v0.number.to_be_bytes()).unwrap();

    let meta_before = *map.cached_meta();
    let err = map.branch_from_version(v0).unwrap_err();
    assert_eq!(err.abort_reason(), Some(AbortReason::MissingVersionChanges));
    assert_eq!(map.cached_meta(), &meta_before);
    assert_eq!(map.read_working_version(k1).unwrap(), Some(Change::Insert(vec![2])));
}

#[test]
fn reopen_rebuilds_backup_cache() {
    let db = sled::Config::default().temporary(true).open().unwrap();
    let k1 = key3(1, 0, 0, 0);
    let parent;
    {
        let mut map = GridDb::<DbKey3i32>::open(&db, "mymap").unwrap();
        map.write_working_version(insert_batch(k1, Change::Insert(vec![0xA]))).unwrap();
        map.commit_working_version().unwrap();
        parent = map.cached_meta().parent_version.unwrap();
        map.write_working_version(insert_batch(k1, Change::Insert(vec![0xB]))).unwrap();
    }
    // a new handle rebuilds the backup key cache from disk, so the next
    // write must not overwrite the oldest backed-up value
    let mut map = GridDb::open(&db, "mymap").unwrap();
    map.write_working_version(insert_batch(k1, Change::Insert(vec![0xC]))).unwrap();
    map.commit_working_version().unwrap();
    map.branch_from_version(parent).unwrap();
    assert_eq!(map.read_working_version(k1).unwrap(), Some(Change::Insert(vec![0xA])));
}

#[test]
fn empty_write_changes_nothing() {
    let db = sled::Config::default().temporary(true).open().unwrap();
    let mut map = GridDb::open(&db, "mymap").unwrap();

    let k1 = key3(1, 0, 0, 0);
    map.write_working_version(insert_batch(k1, Change::Insert(vec![5]))).unwrap();
    let meta_before = *map.cached_meta();

    let encoder: ChangeEncoder<DbKey3i32> = ChangeEncoder::default();
    map.write_working_version(encoder.encode()).unwrap();

    assert_eq!(map.cached_meta(), &meta_before);
    assert_eq!(map.read_working_version(k1).unwrap(), Some(Change::Insert(vec![5])));
}

#[test]
fn commit_ids_strictly_increase() {
    let db = sled::Config::default().temporary(true).open().unwrap();
    let mut map = GridDb::<DbKey3i32>::open(&db, "mymap").unwrap();

    let mut last = map.cached_meta().working_version.number;
    for round in 0u8..4 {
        let k = key3(1, round as i32, 0, 0);
        map.write_working_version(insert_batch(k, Change::Insert(vec![round]))).unwrap();
        map.commit_working_version().unwrap();
        let now = map.cached_meta().working_version.number;
        assert!(now > last);
        last = now;
    }
}

#[test]
fn branch_without_parent_is_a_no_op() {
    let db = sled::Config::default().temporary(true).open().unwrap();
    let mut map = GridDb::<DbKey3i32>::open(&db, "mymap").unwrap();
    let meta_before = *map.cached_meta();
    map.branch_from_version(Version::new(42)).unwrap();
    assert_eq!(map.cached_meta(), &meta_before);
}

#[test]
fn missing_archive_beyond_first_hop_aborts_cleanly() {
    let db = sled::Config::default().temporary(true).open().unwrap();
    let mut map = GridDb::<DbKey3i32>::open(&db, "mymap").unwrap();

    let k1 = key3(1, 0, 0, 0);
    map.write_working_version(insert_batch(k1, Change::Insert(vec![1]))).unwrap();
    let v0 = map.cached_meta().working_version;
    map.commit_working_version().unwrap();
    map.write_working_version(insert_batch(k1, Change::Insert(vec![2]))).unwrap();
    map.commit_working_version().unwrap();
    map.write_working_version(insert_batch(k1, Change::Insert(vec![3]))).unwrap();
    map.commit_working_version().unwrap();

    // the path back to v0 has two hops; remove the second hop's delta
    let archive = db.open_tree("mymap-version-changes").unwrap();
    archive.remove(&v0.number.to_be_bytes()).unwrap();

    let meta_before = *map.cached_meta();
    let err = map.branch_from_version(v0).unwrap_err();
    assert_eq!(err.abort_reason(), Some(AbortReason::MissingVersionChanges));
    // nothing was half-applied: metadata and the working state are untouched
    assert_eq!(map.cached_meta(), &meta_before);
    assert_eq!(map.read_working_version(k1).unwrap(), Some(Change::Insert(vec![3])));
    // and the surviving delta is still archived
    let mid = meta_before.grandparent_version.unwrap();
    assert!(archive.get(&mid.number.to_be_bytes()).unwrap().is_some());
}
