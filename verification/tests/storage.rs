use anvildb::ordered::OrderedMap;
use anvildb::snapshot_codec::{PersistentRaftMeta, SnapshotData};
use anvildb::types::{Command, DbError, LogEntry};
use anvildb::wal::{recover_node_from_wal, recover_state_from_wal, Wal};

fn state(pairs: &[(&str, &str)]) -> OrderedMap<String> {
    let mut map = OrderedMap::new();
    for (key, value) in pairs {
        map.insert((*key).to_owned(), (*value).to_owned());
    }
    map
}

#[test]
fn wal_round_trip_records() {
    let mut wal = Wal::open("round-trip.bin".to_owned()).expect("wal should open");

    wal.append(&LogEntry {
        term: 1,
        index: 1,
        command: Command::Put {
            key: "k".to_owned(),
            value: "v".to_owned(),
        },
    })
    .expect("first entry should append");

    wal.append(&LogEntry {
        term: 1,
        index: 2,
        command: Command::Delete {
            key: "k".to_owned(),
        },
    })
    .expect("second entry should append");

    let entries = wal.load().expect("wal should load");
    assert_eq!(entries.len(), 2);
    assert!(matches!(
        entries[0].command,
        Command::Put {
            ref key,
            ref value
        } if key == "k" && value == "v"
    ));
    assert!(matches!(
        entries[1].command,
        Command::Delete { ref key } if key == "k"
    ));
}

#[test]
fn wal_truncate_and_recover_state() {
    let mut wal = Wal::open("truncate-recover.bin".to_owned()).expect("wal should open");

    wal.append_batch(&[
        LogEntry {
            term: 1,
            index: 1,
            command: Command::Put {
                key: "a".to_owned(),
                value: "1".to_owned(),
            },
        },
        LogEntry {
            term: 1,
            index: 2,
            command: Command::Put {
                key: "b".to_owned(),
                value: "2".to_owned(),
            },
        },
        LogEntry {
            term: 1,
            index: 3,
            command: Command::Delete {
                key: "a".to_owned(),
            },
        },
    ])
    .expect("entries should append");

    wal.truncate_to(2).expect("truncate should succeed");

    let (log, state_machine) = recover_state_from_wal(&wal).expect("recovery should succeed");

    assert_eq!(log.len(), 2);
    assert_eq!(state_machine.get("a"), Some("1"));
    assert_eq!(state_machine.get("b"), Some("2"));
}

#[test]
fn wal_detects_non_contiguous_indexes_on_load() {
    let mut wal = Wal::open("invalid-index.bin".to_owned()).expect("wal should open");

    wal.append_batch(&[
        LogEntry {
            term: 1,
            index: 1,
            command: Command::Put {
                key: "a".to_owned(),
                value: "1".to_owned(),
            },
        },
        LogEntry {
            term: 1,
            index: 3,
            command: Command::Put {
                key: "b".to_owned(),
                value: "2".to_owned(),
            },
        },
    ])
    .expect("entries should append");

    let result = wal.load();
    assert!(matches!(result, Err(DbError::CorruptWal(_))));
}

#[test]
fn recover_node_applies_only_committed_prefix() {
    let mut wal = Wal::open("commit-prefix.bin".to_owned()).expect("wal should open");

    wal.append_batch(&[
        LogEntry {
            term: 1,
            index: 1,
            command: Command::Put {
                key: "a".to_owned(),
                value: "1".to_owned(),
            },
        },
        LogEntry {
            term: 1,
            index: 2,
            command: Command::Put {
                key: "b".to_owned(),
                value: "2".to_owned(),
            },
        },
    ])
    .expect("entries should append");

    wal.persist_commit_index(1)
        .expect("commit-index metadata should persist");

    let (log, state_machine, commit_index) =
        recover_node_from_wal(&wal).expect("node recovery should succeed");

    assert_eq!(commit_index, 1);
    assert_eq!(log.len(), 2);
    assert_eq!(state_machine.get("a"), Some("1"));
    assert_eq!(state_machine.get("b"), None);
}

#[test]
fn recover_node_rejects_commit_index_beyond_log_end() {
    let mut wal = Wal::open("commit-out-of-range.bin".to_owned()).expect("wal should open");

    wal.append(&LogEntry {
        term: 1,
        index: 1,
        command: Command::Put {
            key: "a".to_owned(),
            value: "1".to_owned(),
        },
    })
    .expect("entry should append");

    wal.persist_commit_index(2)
        .expect("commit-index metadata should persist");

    let result = recover_node_from_wal(&wal);
    assert!(matches!(result, Err(DbError::CorruptWal(_))));
}

#[test]
fn raft_meta_round_trip_persists_term_and_vote() {
    let mut wal = Wal::open("raft-meta-round-trip.bin".to_owned()).expect("wal should open");

    assert_eq!(
        wal.load_raft_meta()
            .expect("default raft metadata should load"),
        PersistentRaftMeta::default()
    );

    wal.persist_raft_meta(7, Some(3))
        .expect("raft metadata should persist");
    assert_eq!(
        wal.load_raft_meta().expect("raft metadata should load"),
        PersistentRaftMeta {
            current_term: 7,
            voted_for: Some(3),
        }
    );

    wal.persist_raft_meta(8, None)
        .expect("raft metadata should overwrite");
    assert_eq!(
        wal.load_raft_meta().expect("raft metadata should load"),
        PersistentRaftMeta {
            current_term: 8,
            voted_for: None,
        }
    );
}

#[test]
fn raft_meta_rejects_invalid_length() {
    let mut wal = Wal::open("raft-meta-invalid-length.bin".to_owned()).expect("wal should open");

    wal.meta = vec![1_u8, 2, 3];

    let result = wal.load_raft_meta();
    assert!(matches!(result, Err(DbError::CorruptWal(_))));
}

#[test]
fn snapshot_round_trip_and_recovery_with_compacted_wal_prefix() {
    let mut wal = Wal::open("snapshot-round-trip.bin".to_owned()).expect("wal should open");

    wal.append_batch(&[
        LogEntry {
            term: 1,
            index: 1,
            command: Command::Put {
                key: "a".to_owned(),
                value: "1".to_owned(),
            },
        },
        LogEntry {
            term: 1,
            index: 2,
            command: Command::Put {
                key: "b".to_owned(),
                value: "2".to_owned(),
            },
        },
        LogEntry {
            term: 2,
            index: 3,
            command: Command::Put {
                key: "c".to_owned(),
                value: "3".to_owned(),
            },
        },
        LogEntry {
            term: 2,
            index: 4,
            command: Command::Delete {
                key: "b".to_owned(),
            },
        },
    ])
    .expect("entries should append");

    wal.persist_snapshot(&SnapshotData {
        last_included_index: 2,
        last_included_term: 1,
        state: state(&[("a", "1"), ("b", "2")]),
    })
    .expect("snapshot should persist");
    wal.truncate_prefix(2)
        .expect("snapshot compaction should rewrite WAL");
    wal.persist_commit_index(3)
        .expect("commit-index should persist");

    let (log, state_machine, commit_index) =
        recover_node_from_wal(&wal).expect("recovery should succeed");

    assert_eq!(commit_index, 3);
    assert_eq!(log.base_index(), 2);
    assert_eq!(log.base_term(), 1);
    assert_eq!(log.last_index(), 4);
    assert_eq!(log.len(), 2);
    assert_eq!(state_machine.get("a"), Some("1"));
    assert_eq!(state_machine.get("b"), Some("2"));
    assert_eq!(state_machine.get("c"), Some("3"));
}

#[test]
fn recover_rejects_wal_suffix_that_does_not_follow_snapshot_index() {
    let mut wal = Wal::open("snapshot-gap.bin".to_owned()).expect("wal should open");

    wal.persist_snapshot(&SnapshotData {
        last_included_index: 5,
        last_included_term: 2,
        state: state(&[]),
    })
    .expect("snapshot should persist");

    wal.append(&LogEntry {
        term: 3,
        index: 7,
        command: Command::Put {
            key: "x".to_owned(),
            value: "bad-gap".to_owned(),
        },
    })
    .expect("entry should append");
    wal.persist_commit_index(7)
        .expect("commit-index should persist");

    let result = recover_node_from_wal(&wal);
    assert!(matches!(result, Err(DbError::CorruptWal(_))));
}
