//! The individual trees: backup drain, the change archive, and path finding
//! through the version graph.

use griddb::backup_tree::{commit_backup, open_backup_tree, write_changes_to_backup_tree};
use griddb::change_encoder::{Change, ChangeEncoder};
use griddb::db::AbortReason;
use griddb::db_key::DbKey3i32;
use griddb::version_change_tree::{archive_version, remove_archived_version, VersionChanges};
use griddb::version_graph_tree::{
    find_path_between_versions, link_version, open_version_graph_tree, VersionNode,
};
use griddb::Version;

use ilattice::prelude::Morton3i32;

fn key3(level: u8, x: i32, y: i32, z: i32) -> DbKey3i32 {
    DbKey3i32::new(level, Morton3i32::from([x, y, z]).0)
}

#[test]
fn write_and_commit_backup() {
    let db = sled::Config::default().temporary(true).open().unwrap();
    let (tree, mut backup_keys) = open_backup_tree::<DbKey3i32>("mymap", &db).unwrap();
    let mut tree = tree;

    assert!(backup_keys.keys.is_empty());

    let key1 = key3(1, 0, 0, 0);
    let key2 = key3(2, 1, 1, 1);
    backup_keys.insert_key(key1);
    backup_keys.insert_key(key2);

    let mut encoder = ChangeEncoder::default();
    encoder.add_change(key1, Change::Remove);
    encoder.add_change(key2, Change::Insert(vec![0]));
    let encoded_changes = encoder.encode();

    write_changes_to_backup_tree(&mut tree, &encoded_changes).unwrap();
    let reverse_changes = commit_backup(&mut tree, &backup_keys).unwrap();
    assert_eq!(
        reverse_changes.changes,
        vec![(key1, Change::Remove), (key2, Change::Insert(vec![0]))]
    );
}

#[test]
fn open_archive_and_get() {
    let db = sled::Config::default().temporary(true).open().unwrap();
    let mut tree = db.open_tree("mymap-changes").unwrap();
    let v0 = Version::new(0);

    let original_changes = vec![
        (key3(1, 0, 0, 0), Change::Insert(vec![0])),
        (key3(2, 0, 0, 0), Change::Remove),
    ];
    let changes = VersionChanges::new(original_changes.clone());

    assert!(remove_archived_version::<DbKey3i32>(&mut tree, v0).unwrap().is_none());

    archive_version(&mut tree, v0, &changes).unwrap();

    let owned_archive = remove_archived_version::<DbKey3i32>(&mut tree, Version::new(0))
        .unwrap()
        .unwrap();
    assert_eq!(owned_archive.changes, original_changes);
}

#[test]
fn path_finding_walks_both_sides_of_the_fork() {
    let db = sled::Config::default().temporary(true).open().unwrap();
    let mut graph = open_version_graph_tree(&db, "mymap").unwrap();

    // 0 is the root; 1 and 2 are siblings under 0; 3 is under 2
    link_version(&mut graph, Version::new(0), VersionNode { parent_version: None }).unwrap();
    link_version(&mut graph, Version::new(1), VersionNode { parent_version: Some(Version::new(0)) })
        .unwrap();
    link_version(&mut graph, Version::new(2), VersionNode { parent_version: Some(Version::new(0)) })
        .unwrap();
    link_version(&mut graph, Version::new(3), VersionNode { parent_version: Some(Version::new(2)) })
        .unwrap();

    let path = find_path_between_versions(&graph, Version::new(1), Version::new(3)).unwrap();
    assert_eq!(
        path.path,
        vec![Version::new(1), Version::new(0), Version::new(2), Version::new(3)]
    );
    assert_eq!(path.end_parent, Some(Version::new(2)));

    let trivial = find_path_between_versions(&graph, Version::new(2), Version::new(2)).unwrap();
    assert_eq!(trivial.path, vec![Version::new(2)]);
    assert_eq!(trivial.end_parent, Some(Version::new(0)));
}

#[test]
fn missing_node_aborts_walk_to_root() {
    let db = sled::Config::default().temporary(true).open().unwrap();
    let mut graph = open_version_graph_tree(&db, "mymap").unwrap();

    link_version(&mut graph, Version::new(0), VersionNode { parent_version: None }).unwrap();
    // 5 points at a parent that has no node
    link_version(&mut graph, Version::new(5), VersionNode { parent_version: Some(Version::new(4)) })
        .unwrap();

    let err = find_path_between_versions(&graph, Version::new(5), Version::new(0)).unwrap_err();
    assert_eq!(err.abort_reason(), Some(AbortReason::NoPathExistsToRoot));
}

#[test]
fn disjoint_roots_have_no_path() {
    let db = sled::Config::default().temporary(true).open().unwrap();
    let mut graph = open_version_graph_tree(&db, "mymap").unwrap();

    link_version(&mut graph, Version::new(0), VersionNode { parent_version: None }).unwrap();
    link_version(&mut graph, Version::new(1), VersionNode { parent_version: None }).unwrap();

    let err = find_path_between_versions(&graph, Version::new(0), Version::new(1)).unwrap_err();
    assert_eq!(err.abort_reason(), Some(AbortReason::NoPathExists));
}

#[test]
fn garbage_graph_entry_is_corruption() {
    let db = sled::Config::default().temporary(true).open().unwrap();
    let graph = open_version_graph_tree(&db, "mymap").unwrap();
    db.open_tree("mymap-version-graph")
        .unwrap()
        .insert(&0u64.to_be_bytes(), &[9u8, 9u8][..])
        .unwrap();
    let err = find_path_between_versions(&graph, Version::new(0), Version::new(0)).unwrap_err();
    assert!(err.abort_reason().is_none());
    assert!(matches!(err, griddb::db::TransactionError::Corruption));
}

#[test]
fn version_changes_survive_the_encoded_form() {
    let k1 = key3(1, 2, 3, 4);
    let k2 = key3(1, 4, 3, 2);
    let mut encoder = ChangeEncoder::default();
    encoder.add_change(k2, Change::Insert(vec![2]));
    encoder.add_change(k1, Change::Insert(vec![1]));
    let encoded = encoder.encode();
    let vc = VersionChanges::<DbKey3i32>::from_encoded(&encoded);
    let mut expected = vec![(k1, Change::Insert(vec![1])), (k2, Change::Insert(vec![2]))];
    expected.sort_by_key(|e| e.0);
    assert_eq!(vc.changes, expected);
}
