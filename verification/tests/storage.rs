//! The durable record of a node.

use kurogane::raft::{
    ClusterConfig, Effect, HardState, LogEntry, LogPayload, Message, NodeId, RequestVoteResponse,
    SnapshotMetadata,
};
use kurogane::runtime::Storage;

fn reopen(storage: &Storage) -> Storage {
    Storage::from_record(storage.to_record()).expect("reopen storage")
}

#[test]
fn opening_a_missing_file_yields_fresh_state() {
    let storage = Storage::new();

    assert_eq!(storage.hard_state(), HardState::default());
    assert!(storage.log().is_empty());
}

#[test]
fn persist_hard_state_survives_a_reopen() {
    let mut storage = Storage::new();
    assert!(storage.apply(&Effect::PersistHardState {
        term: 3,
        voted_for: Some(NodeId(2)),
    }));

    let reopened = reopen(&storage);
    assert_eq!(
        reopened.hard_state(),
        HardState {
            current_term: 3,
            voted_for: Some(NodeId(2)),
        }
    );
}

#[test]
fn persist_log_splices_and_survives_a_reopen() {
    let mut storage = Storage::new();
    assert!(storage.apply(&Effect::PersistLog {
        from_index: 1,
        entries: vec![
            LogEntry {
                term: 1,
                payload: LogPayload::Command(vec![1]),
            },
            LogEntry {
                term: 1,
                payload: LogPayload::Command(vec![2]),
            },
        ],
    }));

    let replacement = LogEntry {
        term: 2,
        payload: LogPayload::Command(vec![9]),
    };
    assert!(storage.apply(&Effect::PersistLog {
        from_index: 2,
        entries: vec![replacement.clone()],
    }));

    let reopened = reopen(&storage);
    assert_eq!(reopened.log().len(), 2);
    assert_eq!(reopened.log()[1], replacement);
}

#[test]
fn persist_snapshot_then_persist_log_uses_the_new_boundary_for_absolute_indexing() {
    let mut storage = Storage::new();
    assert!(storage.apply(&Effect::PersistLog {
        from_index: 1,
        entries: vec![
            LogEntry {
                term: 1,
                payload: LogPayload::Command(vec![1]),
            },
            LogEntry {
                term: 1,
                payload: LogPayload::Command(vec![2]),
            },
            LogEntry {
                term: 1,
                payload: LogPayload::Command(vec![3]),
            },
        ],
    }));

    assert!(storage.apply(&Effect::PersistSnapshot {
        last_included_index: 3,
        last_included_term: 1,
        data: vec![9, 9],
        config: ClusterConfig {
            voters: vec![NodeId(1)],
            old_voters: None,
        },
    }));
    assert!(storage.apply(&Effect::PersistLog {
        from_index: 4,
        entries: Vec::new(),
    }));

    assert!(storage.apply(&Effect::PersistLog {
        from_index: 4,
        entries: vec![LogEntry {
            term: 1,
            payload: LogPayload::Command(vec![4]),
        }],
    }));

    let reopened = reopen(&storage);
    assert_eq!(
        reopened.snapshot(),
        SnapshotMetadata {
            last_included_index: 3,
            last_included_term: 1,
        }
    );
    assert_eq!(reopened.snapshot_data(), &[9, 9]);
    assert_eq!(
        reopened.log(),
        &[LogEntry {
            term: 1,
            payload: LogPayload::Command(vec![4])
        }]
    );
}

#[test]
fn ignores_send_effects() {
    let mut storage = Storage::new();

    assert!(!storage.apply(&Effect::Send {
        to: NodeId(2),
        message: Message::RequestVoteResponse(RequestVoteResponse {
            term: 1,
            granted: true,
        }),
    }));

    assert_eq!(storage.hard_state(), HardState::default());
    assert!(storage.log().is_empty());
    assert!(storage.is_fresh());
}
