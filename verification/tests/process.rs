//! How a process starts, what it ticks with, and what it answers.

use kurogane::kv::{ApplyResult, Command};
use kurogane::raft::{
    ClusterConfig, CompactError, ConfigError, Effect, Event, HardState, LogEntry, LogPayload,
    NodeId, Role,
};
use kurogane::runtime::auth::{token_metadata_key, Unauthenticated};
use kurogane::runtime::bootstrap::{replicated_state, start_node};
use kurogane::runtime::dto::{
    append_entries_from_proto, MissingApplyResultKind, MissingCommandKind, MissingLogEntryPayload,
};
use kurogane::runtime::peers::{parse_peers, PeersError};
use kurogane::runtime::replies::{
    add_learner_reply, propose_config_change_reply, propose_reply,
};
use kurogane::runtime::timer::random_tick;
use kurogane::runtime::{proto, AddLearnerOutcome, ProposeOutcome, Storage};

fn timeout_of(event: Event) -> u64 {
    match event {
        Event::Tick { next_timeout } => next_timeout,
        Event::Step { .. } => panic!("a tick"),
    }
}

#[test]
fn a_tick_draws_its_timeout_from_the_whole_range() {
    assert_eq!(timeout_of(random_tick(4, 4)), 4);
    let mut seen = [false; 3];
    for _ in 0..300 {
        let timeout = timeout_of(random_tick(5, 7));
        assert!((5..=7).contains(&timeout));
        seen[(timeout - 5) as usize] = true;
    }
    assert_eq!(seen, [true, true, true]);
}

#[test]
fn the_member_list_maps_ids_to_addresses() {
    let peers = parse_peers(b"2=b:1,1=a:1,2=c:1").expect("well formed");
    assert_eq!(peers.keys(), &[NodeId(1), NodeId(2)]);
    assert_eq!(peers.get(NodeId(1)), Some(&b"a:1".to_vec()));
    assert_eq!(peers.get(NodeId(2)), Some(&b"c:1".to_vec()), "a later entry wins");
    assert_eq!(peers.get(NodeId(3)), None);
}

#[test]
fn a_malformed_member_list_says_which_entry_is_wrong() {
    assert_eq!(
        parse_peers(b"1=a:1,b:1").err(),
        Some(PeersError::MissingSeparator { entry: b"b:1".to_vec() })
    );
    assert_eq!(
        parse_peers(b"x=a:1").err(),
        Some(PeersError::InvalidId { entry: b"x=a:1".to_vec() })
    );
    assert_eq!(
        parse_peers(b"").err(),
        Some(PeersError::MissingSeparator { entry: Vec::new() })
    );
}

#[test]
fn a_newcomer_starts_without_a_configuration_only_while_nothing_is_durable() {
    let members = vec![NodeId(1), NodeId(2)];
    let mut storage = Storage::new();
    assert!(storage.is_fresh());
    let node = start_node(true, NodeId(2), members.clone(), 5, 1, &storage).expect("valid");
    assert!(node.voters().is_empty());

    let node = start_node(false, NodeId(2), members.clone(), 5, 1, &storage).expect("valid");
    assert_eq!(node.voters(), members.as_slice());

    storage.apply(&Effect::PersistHardState { term: 3, voted_for: Some(NodeId(1)) });
    assert!(!storage.is_fresh());
    let node = start_node(true, NodeId(2), members.clone(), 5, 1, &storage).expect("valid");
    assert_eq!(node.voters(), members.as_slice());
    assert_eq!(node.current_term(), 3);
    assert_eq!(node.role(), Role::Follower);
}

#[test]
fn a_process_refuses_a_bad_configuration() {
    let storage = Storage::new();
    assert_eq!(
        start_node(true, NodeId(1), Vec::new(), 1, 2, &storage).err(),
        Some(ConfigError::HeartbeatIntervalExceedsElectionTimeout)
    );
    assert_eq!(
        start_node(false, NodeId(1), vec![NodeId(2)], 5, 1, &storage).err(),
        Some(ConfigError::LocalNodeMissing)
    );
}

#[test]
fn a_store_is_rebuilt_from_snapshot_and_log() {
    let mut storage = Storage::new();
    let command = Command::Put { key: b"k".to_vec(), value: b"v".to_vec() };
    storage.apply(&Effect::PersistSnapshot {
        last_included_index: 2,
        last_included_term: 1,
        data: vec![0, 0, 0, 1, 97, 0, 0, 0, 1, 49],
        config: ClusterConfig { voters: vec![NodeId(1)], old_voters: None },
    });
    storage.apply(&Effect::PersistLog {
        from_index: 3,
        entries: vec![
            LogEntry {
                term: 1,
                payload: LogPayload::Configuration(ClusterConfig {
                    voters: vec![NodeId(1)],
                    old_voters: None,
                }),
            },
            LogEntry { term: 1, payload: LogPayload::Command(command.encode()) },
        ],
    });
    let state = replicated_state(&storage).expect("well formed");
    assert_eq!(state.get(b"a"), Some(b"1".as_slice()));
    assert_eq!(state.get(b"k"), Some(b"v".as_slice()));

    storage.apply(&Effect::PersistLog {
        from_index: 5,
        entries: vec![LogEntry { term: 1, payload: LogPayload::Command(vec![9]) }],
    });
    assert!(replicated_state(&storage).is_none());
}

#[test]
fn storage_keeps_learners_and_configuration_through_a_record() {
    let mut storage = Storage::new();
    let config = ClusterConfig {
        voters: vec![NodeId(1), NodeId(3)],
        old_voters: Some(vec![NodeId(1), NodeId(2)]),
    };
    storage.apply(&Effect::PersistLearners { learners: vec![NodeId(4)] });
    storage.apply(&Effect::PersistSnapshot {
        last_included_index: 5,
        last_included_term: 2,
        data: vec![1],
        config: config.clone(),
    });
    let reopened = Storage::from_record(storage.to_record()).expect("well formed");
    assert_eq!(reopened.learners(), &[NodeId(4)]);
    assert_eq!(reopened.snapshot_config(), &config);
    assert_eq!(reopened.hard_state(), HardState::default());
}

#[test]
fn a_record_with_an_empty_entry_is_refused() {
    let mut record = Storage::new().to_record();
    record.log.push(proto::LogEntry { term: 1, payload: None });
    assert_eq!(Storage::from_record(record).err(), Some(MissingLogEntryPayload));
}

#[test]
fn entries_without_payload_are_refused() {
    let request = proto::AppendEntriesRequest {
        term: 1,
        leader_id: 1,
        prev_log_index: 0,
        prev_log_term: 0,
        entries: vec![proto::LogEntry { term: 1, payload: None }],
        leader_commit: 0,
    };
    assert_eq!(append_entries_from_proto(request), Err(MissingLogEntryPayload));
}

#[test]
fn errors_say_what_is_wrong() {
    assert_eq!(token_metadata_key(), "x-cluster-token");
    assert_eq!(Unauthenticated::MissingToken.message(), "missing cluster token");
    assert_eq!(Unauthenticated::InvalidToken.message(), "invalid cluster token");
    assert_eq!(CompactError::IndexNotCommitted.message(), "cannot compact past the commit index");
    assert_eq!(
        ConfigError::ZeroElectionTimeout.message(),
        "election timeout must be greater than zero"
    );
    assert!(!MissingLogEntryPayload.message().is_empty());
    assert!(!MissingCommandKind.message().is_empty());
    assert!(!MissingApplyResultKind.message().is_empty());
}

#[test]
fn a_proposal_is_answered_by_a_redirect_a_value_or_nothing_certain() {
    assert_eq!(
        propose_reply(ProposeOutcome::NotLeader(Some(NodeId(3))), None),
        proto::ProposeReply::NotLeader(proto::NotLeader { leader_id: Some(3) })
    );
    assert_eq!(
        propose_reply(ProposeOutcome::Accepted(4), None),
        proto::ProposeReply::Indeterminate
    );
    assert_eq!(
        propose_reply(ProposeOutcome::Accepted(4), Some(ApplyResult::Get { value: None })),
        proto::ProposeReply::Applied(proto::ProposeApplied {
            index: 4,
            result: Some(proto::ApplyResult {
                kind: Some(proto::ApplyResultKind::Get(proto::GetResult { value: None })),
            }),
        })
    );
}

#[test]
fn membership_requests_are_answered_by_acceptance_or_a_redirect() {
    assert_eq!(
        propose_config_change_reply(ProposeOutcome::Accepted(2)),
        proto::ProposeConfigChangeReply::Accepted { index: 2 }
    );
    assert_eq!(
        propose_config_change_reply(ProposeOutcome::NotLeader(None)),
        proto::ProposeConfigChangeReply::NotLeader(proto::NotLeader { leader_id: None })
    );
    assert_eq!(
        add_learner_reply(AddLearnerOutcome::Accepted),
        proto::AddLearnerReply::Accepted
    );
    assert_eq!(
        add_learner_reply(AddLearnerOutcome::NotLeader(Some(NodeId(1)))),
        proto::AddLearnerReply::NotLeader(proto::NotLeader { leader_id: Some(1) })
    );
}
