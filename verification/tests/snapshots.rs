//! Names of saved states.
use matching_engine::types::ids::SeqNo;
use matching_engine::wal::snapshot::{parse_snapshot_name, snapshot_name, SnapshotStore};

fn store() -> SnapshotStore {
    SnapshotStore::new("snapshots".to_string())
}

fn names(seqs: &[u64]) -> Vec<String> {
    seqs.iter().map(|&s| snapshot_name(SeqNo(s))).collect()
}

#[test]
fn list_sorted_ascending() {
    let list = store().list(&names(&[3, 10, 1, 5]));
    assert_eq!(list.iter().map(|e| e.seq_no.0).collect::<Vec<_>>(), [1, 3, 5, 10]);
}

#[test]
fn latest_returns_max_seq() {
    let latest = store().latest(&names(&[1, 99, 5])).unwrap();
    assert_eq!(latest.seq_no, SeqNo(99));
}

#[test]
fn empty_store_returns_none() {
    assert!(store().latest(&Vec::new()).is_none());
    assert!(store().list(&Vec::new()).is_empty());
}

#[test]
fn names_hold_the_number() {
    assert_eq!(store().dir(), "snapshots");
    assert_eq!(snapshot_name(SeqNo(7)), "snapshot_7.bin");
    assert_eq!(parse_snapshot_name("snapshot_7.bin").unwrap().seq_no, SeqNo(7));
    assert_eq!(
        parse_snapshot_name("snapshot_18446744073709551615.bin").unwrap().seq_no,
        SeqNo(u64::MAX)
    );
}

#[test]
fn other_files_are_passed_over() {
    for name in [
        "snapshot_18446744073709551616.bin",
        "snapshot_.bin",
        "snapshot_7.bin.tmp",
        "snapshot_x.bin",
        "snap_7.bin",
        "",
    ] {
        assert!(parse_snapshot_name(name).is_none());
    }
    let mut files = names(&[4]);
    files.push("snapshot_9.bin.tmp".to_string());
    assert_eq!(store().latest(&files).unwrap().seq_no, SeqNo(4));
}
