//! Conversions to and from the wire.

use kurogane::kv::{ApplyResult, Command};
use kurogane::raft::{
    AppendEntries, AppendEntriesResponse, ClusterConfig, InstallSnapshot, InstallSnapshotResponse,
    LogEntry, LogPayload, NodeId, RequestVote, RequestVoteResponse,
};
use kurogane::runtime::dto::{
    add_learner_from_proto, add_learner_to_proto, append_entries_from_proto,
    append_entries_response_from_proto, append_entries_response_to_proto, append_entries_to_proto,
    apply_result_from_proto, apply_result_to_proto, command_from_proto, command_to_proto,
    configuration_from_proto, configuration_to_proto, install_snapshot_from_proto,
    install_snapshot_response_from_proto, install_snapshot_response_to_proto,
    install_snapshot_to_proto, log_entry_from_proto, log_entry_to_proto,
    propose_config_change_from_proto, propose_config_change_to_proto, request_vote_from_proto,
    request_vote_response_from_proto, request_vote_response_to_proto, request_vote_to_proto,
};
use kurogane::runtime::proto;

#[test]
fn round_trips_request_vote() {
    let value = RequestVote {
        term: 3,
        candidate_id: NodeId(2),
        last_log_index: 7,
        last_log_term: 2,
    };

    assert_eq!(request_vote_from_proto(request_vote_to_proto(value)), value);
}

#[test]
fn round_trips_request_vote_response() {
    let value = RequestVoteResponse {
        term: 3,
        granted: true,
    };

    assert_eq!(
        request_vote_response_from_proto(request_vote_response_to_proto(value)),
        value
    );
}

#[test]
fn round_trips_append_entries_with_entries() {
    let value = AppendEntries {
        term: 4,
        leader_id: NodeId(1),
        prev_log_index: 2,
        prev_log_term: 3,
        entries: vec![
            LogEntry {
                term: 4,
                payload: LogPayload::Command(vec![1, 2, 3]),
            },
            LogEntry {
                term: 4,
                payload: LogPayload::Command(Vec::new()),
            },
        ],
        leader_commit: 1,
    };

    assert_eq!(
        append_entries_from_proto(append_entries_to_proto(value.clone()))
            .expect("every entry has a payload"),
        value
    );
}

#[test]
fn round_trips_append_entries_response() {
    let value = AppendEntriesResponse {
        term: 4,
        success: true,
        match_index: 9,
    };

    assert_eq!(
        append_entries_response_from_proto(append_entries_response_to_proto(value)),
        value
    );
}

#[test]
fn round_trips_install_snapshot() {
    let value = InstallSnapshot {
        term: 3,
        leader_id: NodeId(2),
        last_included_index: 7,
        last_included_term: 2,
        data: vec![9, 9, 9],
        config: ClusterConfig {
            voters: vec![NodeId(1), NodeId(2)],
            old_voters: Some(vec![NodeId(1), NodeId(3)]),
        },
    };

    assert_eq!(
        install_snapshot_from_proto(install_snapshot_to_proto(value.clone())),
        value
    );
}

#[test]
fn round_trips_install_snapshot_response() {
    let value = InstallSnapshotResponse {
        term: 3,
        last_included_index: 7,
    };

    assert_eq!(
        install_snapshot_response_from_proto(install_snapshot_response_to_proto(value)),
        value
    );
}

#[test]
fn round_trips_set_command() {
    let value = Command::Put {
        key: vec![1],
        value: vec![2, 3],
    };

    assert_eq!(
        command_from_proto(command_to_proto(value.clone())).expect("valid command"),
        value
    );
}

#[test]
fn round_trips_delete_command() {
    let value = Command::Delete { key: vec![9] };

    assert_eq!(
        command_from_proto(command_to_proto(value.clone())).expect("valid command"),
        value
    );
}

#[test]
fn round_trips_get_command() {
    let value = Command::Get { key: vec![4, 5] };

    assert_eq!(
        command_from_proto(command_to_proto(value.clone())).expect("valid command"),
        value
    );
}

#[test]
fn rejects_a_command_with_no_kind_set() {
    let proto = proto::Command { kind: None };

    assert!(command_from_proto(proto).is_err());
}

#[test]
fn round_trips_a_set_apply_result() {
    let value = ApplyResult::Put {
        previous: Some(vec![1, 2]),
    };

    assert_eq!(
        apply_result_from_proto(apply_result_to_proto(value.clone())).expect("valid result"),
        value
    );
}

#[test]
fn round_trips_a_delete_apply_result_with_no_previous_value() {
    let value = ApplyResult::Delete { previous: None };

    assert_eq!(
        apply_result_from_proto(apply_result_to_proto(value.clone())).expect("valid result"),
        value
    );
}

#[test]
fn round_trips_a_get_apply_result() {
    let value = ApplyResult::Get {
        value: Some(vec![9]),
    };

    assert_eq!(
        apply_result_from_proto(apply_result_to_proto(value.clone())).expect("valid result"),
        value
    );
}

#[test]
fn rejects_an_apply_result_with_no_kind_set() {
    let proto = proto::ApplyResult { kind: None };

    assert!(apply_result_from_proto(proto).is_err());
}

#[test]
fn round_trips_a_stable_configuration() {
    let value = ClusterConfig {
        voters: vec![NodeId(1), NodeId(2), NodeId(3)],
        old_voters: None,
    };

    assert_eq!(
        configuration_from_proto(configuration_to_proto(value.clone())),
        value
    );
}

#[test]
fn round_trips_a_joint_configuration() {
    let value = ClusterConfig {
        voters: vec![NodeId(1), NodeId(2), NodeId(4)],
        old_voters: Some(vec![NodeId(1), NodeId(2), NodeId(3)]),
    };

    assert_eq!(
        configuration_from_proto(configuration_to_proto(value.clone())),
        value
    );
}

#[test]
fn round_trips_a_configuration_log_entry() {
    let value = LogEntry {
        term: 6,
        payload: LogPayload::Configuration(ClusterConfig {
            voters: vec![NodeId(1), NodeId(2)],
            old_voters: Some(vec![NodeId(1), NodeId(2), NodeId(3)]),
        }),
    };

    assert_eq!(
        log_entry_from_proto(log_entry_to_proto(value.clone())).expect("payload is set"),
        value
    );
}

#[test]
fn round_trips_a_propose_config_change_request() {
    let value = vec![NodeId(1), NodeId(2), NodeId(4)];

    assert_eq!(
        propose_config_change_from_proto(propose_config_change_to_proto(value.clone())),
        value
    );
}

#[test]
fn round_trips_an_add_learner_request() {
    let id = NodeId(4);
    let address = "http://127.0.0.1:50054".to_string();

    assert_eq!(
        add_learner_from_proto(add_learner_to_proto(id, address.clone())),
        (id, address)
    );
}

#[test]
fn rejects_a_log_entry_with_no_payload_set() {
    let proto = proto::LogEntry {
        term: 1,
        payload: None,
    };

    assert!(log_entry_from_proto(proto).is_err());
}
