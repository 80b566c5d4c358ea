//! The store, and the replica around it.

use kurogane::kv::{ApplyResult, Command, DecodeError, Replica, StateMachine};
use kurogane::raft::{
    AppendEntries, ClusterConfig, Effect, Event, LogEntry, LogPayload, Message, Node, NodeId, Role,
};

fn put(key: &[u8], value: &[u8]) -> Command {
    Command::Put { key: key.to_vec(), value: value.to_vec() }
}

fn get(key: &[u8]) -> Command {
    Command::Get { key: key.to_vec() }
}

fn leader() -> Replica {
    let node = Node::new(NodeId(1), vec![NodeId(1)], 1, 1).expect("valid node");
    let mut replica = Replica::new(node);
    replica.step(Event::Tick { next_timeout: 5 });
    assert_eq!(replica.node().role(), Role::Leader);
    replica
}

#[test]
fn a_command_is_a_tag_and_framed_byte_strings() {
    assert_eq!(
        put(&[7], &[8, 9]).encode(),
        vec![0, 0, 0, 0, 1, 7, 0, 0, 0, 2, 8, 9]
    );
    assert_eq!(Command::Delete { key: vec![7] }.encode(), vec![1, 0, 0, 0, 1, 7]);
    assert_eq!(get(&[]).encode(), vec![2, 0, 0, 0, 0]);
}

#[test]
fn bytes_behind_a_command_are_ignored() {
    let mut bytes = put(b"k", b"v").encode();
    bytes.push(1);
    assert_eq!(Command::decode(&bytes), Ok(put(b"k", b"v")));
}

#[test]
fn decode_errors_say_what_is_wrong() {
    assert_eq!(
        DecodeError::Truncated.message(),
        "command bytes ended before a complete value was read"
    );
    assert_eq!(DecodeError::UnknownTag(99).message(), "unknown command tag 99");
}

#[test]
fn commands_report_what_was_there() {
    let mut store = StateMachine::new();
    assert_eq!(store.apply(&put(b"k", b"1")), ApplyResult::Put { previous: None });
    assert_eq!(
        store.apply(&put(b"k", b"2")),
        ApplyResult::Put { previous: Some(b"1".to_vec()) }
    );
    assert_eq!(store.apply(&get(b"k")), ApplyResult::Get { value: Some(b"2".to_vec()) });
    assert_eq!(
        store.apply(&Command::Delete { key: b"k".to_vec() }),
        ApplyResult::Delete { previous: Some(b"2".to_vec()) }
    );
    assert_eq!(
        store.apply(&Command::Delete { key: b"k".to_vec() }),
        ApplyResult::Delete { previous: None }
    );
    assert_eq!(store.apply(&get(b"k")), ApplyResult::Get { value: None });
    assert_eq!(store.last_applied(), 6);
    store.skip();
    assert_eq!(store.last_applied(), 7);
}

#[test]
fn a_snapshot_holds_the_entries_in_ascending_order_and_reads_back() {
    let mut store = StateMachine::new();
    store.apply(&put(b"b", b"2"));
    store.apply(&put(b"a", b"1"));
    let bytes = store.snapshot();
    assert_eq!(
        bytes,
        vec![
            0, 0, 0, 1, 97, 0, 0, 0, 1, 49, 0, 0, 0, 1, 98, 0, 0, 0, 1, 50
        ]
    );

    let mut restored = StateMachine::new();
    assert_eq!(restored.restore(9, &bytes), Ok(()));
    assert_eq!(restored.last_applied(), 9);
    assert!(restored.same_entries(&store));
    assert_eq!(restored.get(b"a"), Some(b"1".as_slice()));
}

#[test]
fn a_truncated_snapshot_changes_nothing() {
    let mut store = StateMachine::new();
    store.apply(&put(b"a", b"1"));
    assert_eq!(store.restore(9, &[0, 0, 0, 1]), Err(DecodeError::Truncated));
    assert_eq!(store.last_applied(), 1);
    assert_eq!(store.get(b"a"), Some(b"1".as_slice()));
}

#[test]
fn stores_with_the_same_entries_are_the_same_whatever_their_past() {
    let mut a = StateMachine::new();
    let mut b = StateMachine::new();
    a.apply(&put(b"x", b"1"));
    b.apply(&put(b"y", b"1"));
    assert!(!a.same_entries(&b));
    b.apply(&Command::Delete { key: b"y".to_vec() });
    b.apply(&put(b"x", b"1"));
    assert!(a.same_entries(&b));
}

#[test]
fn a_replica_applies_what_it_commits_and_keeps_the_results() {
    let mut replica = leader();
    let (index, _) = replica.propose(put(b"k", b"v")).expect("leader accepts");
    assert_eq!(index, 1);
    assert_eq!(replica.applied_result(1), Some(&ApplyResult::Put { previous: None }));
    let (index, _) = replica.propose(get(b"k")).expect("leader accepts");
    assert_eq!(
        replica.applied_result(index),
        Some(&ApplyResult::Get { value: Some(b"v".to_vec()) })
    );
    assert_eq!(replica.applied_result(3), None);
    assert_eq!(replica.state_machine().last_applied(), 2);
}

#[test]
fn a_follower_does_not_accept_proposals() {
    let peers = vec![NodeId(1), NodeId(2)];
    let node = Node::new(NodeId(1), peers, 5, 1).expect("valid node");
    let mut replica = Replica::new(node);
    assert_eq!(replica.propose(put(b"k", b"v")), None);
}

#[test]
fn an_entry_that_is_no_command_is_passed_over() {
    let peers = vec![NodeId(1), NodeId(2)];
    let node = Node::new(NodeId(1), peers.clone(), 5, 1).expect("valid node");
    let mut replica = Replica::new(node);
    replica.step(Event::Step {
        from: NodeId(2),
        message: Message::AppendEntries(AppendEntries {
            term: 1,
            leader_id: NodeId(2),
            prev_log_index: 0,
            prev_log_term: 0,
            entries: vec![
                LogEntry {
                    term: 1,
                    payload: LogPayload::Configuration(ClusterConfig {
                        voters: peers,
                        old_voters: None,
                    }),
                },
                LogEntry { term: 1, payload: LogPayload::Command(vec![99]) },
                LogEntry { term: 1, payload: LogPayload::Command(put(b"k", b"v").encode()) },
            ],
            leader_commit: 3,
        }),
    });
    assert_eq!(replica.state_machine().last_applied(), 3);
    assert_eq!(replica.applied_result(1), None);
    assert_eq!(replica.applied_result(2), None);
    assert_eq!(replica.applied_result(3), Some(&ApplyResult::Put { previous: None }));
}

#[test]
fn compaction_covers_all_but_the_entries_retained_and_lets_their_results_go() {
    let mut replica = leader();
    for n in 0..4u8 {
        replica.propose(put(&[n], &[n])).expect("leader accepts");
    }
    let effects = replica.compact(1).expect("something to compact");
    assert_eq!(replica.node().snapshot().last_included_index, 3);
    assert_eq!(replica.node().log().len(), 1);
    assert_eq!(replica.applied_result(3), None);
    assert_eq!(replica.applied_result(4), Some(&ApplyResult::Put { previous: None }));
    assert_eq!(replica.node().snapshot_data(), replica.state_machine().snapshot());
    assert!(matches!(
        effects[0],
        Effect::PersistSnapshot { last_included_index: 3, .. }
    ));
    assert_eq!(replica.compact(1), None, "nothing new to cover");
}

#[test]
fn a_recovered_replica_starts_from_its_snapshot() {
    let mut replica = leader();
    replica.propose(put(b"k", b"v")).expect("leader accepts");
    replica.compact(0).expect("something to compact");
    let node = replica.node();
    let recovered = Node::recover(
        NodeId(1),
        vec![NodeId(1)],
        1,
        1,
        kurogane::raft::HardState {
            current_term: node.current_term(),
            voted_for: node.voted_for(),
        },
        node.log().to_vec(),
        kurogane::raft::Snapshot {
            metadata: node.snapshot(),
            data: node.snapshot_data().to_vec(),
            config: node.snapshot_config().clone(),
        },
        Vec::new(),
    )
    .expect("valid node");
    let replica = Replica::recover(recovered);
    assert_eq!(replica.state_machine().last_applied(), 1);
    assert_eq!(replica.state_machine().get(b"k"), Some(b"v".as_slice()));
}
