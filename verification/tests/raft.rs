//! The consensus core.

use kurogane::raft::{
    AppendEntries, AppendEntriesResponse, ClusterConfig, CompactError, ConfigError, Effect,
    Event, HardState, InstallSnapshot, InstallSnapshotResponse, LogEntry, LogPayload, Message,
    Node, NodeId, RequestVote, RequestVoteResponse, Role, Snapshot, SnapshotMetadata,
};

#[test]
fn constructs_initial_follower_state() {
    let peers = vec![NodeId(1), NodeId(2), NodeId(3)];
    let node = Node::new(NodeId(2), peers.clone(), 11, 4).expect("valid configuration");

    assert_eq!(node.id(), NodeId(2));
    assert_eq!(node.voters(), peers);
    assert_eq!(
        node.current_config(),
        &ClusterConfig {
            voters: peers.clone(),
            old_voters: None,
        }
    );
    assert_eq!(
        node.snapshot_config(),
        &ClusterConfig {
            voters: peers,
            old_voters: None,
        }
    );
    assert_eq!(node.role(), Role::Follower);
    assert_eq!(node.current_term(), 0);
    assert_eq!(node.voted_for(), None);
    assert_eq!(node.election_elapsed(), 0);
    assert_eq!(node.election_timeout(), 11);
    assert_eq!(node.heartbeat_elapsed(), 0);
    assert_eq!(node.heartbeat_interval(), 4);
    assert_eq!(node.last_log_index(), 0);
    assert_eq!(node.last_log_term(), 0);
    assert_eq!(node.commit_index(), 0);
    assert!(node.log().is_empty());
    assert!(node.votes_granted().is_empty());
}

#[test]
fn new_learner_constructs_a_node_that_is_a_voter_under_no_configuration() {
    let node = Node::new_learner(NodeId(4), 5, 1).expect("valid join-mode node");

    assert_eq!(node.id(), NodeId(4));
    assert_eq!(node.role(), Role::Follower);
    assert_eq!(node.current_term(), 0);
    assert_eq!(node.voted_for(), None);
    assert_eq!(
        node.current_config(),
        &ClusterConfig {
            voters: Vec::new(),
            old_voters: None,
        }
    );
    assert!(node.voters().is_empty());
    assert!(node.log().is_empty());
    assert_eq!(node.commit_index(), 0);
}

#[test]
fn new_learner_never_self_elects_even_after_many_ticks() {
    let mut node = Node::new_learner(NodeId(4), 3, 1).expect("valid join-mode node");

    for _ in 0..10 {
        let effects = node.step(Event::Tick { next_timeout: 3 });
        assert!(
            effects.is_empty(),
            "a node that is a voter under no configuration must never campaign"
        );
    }

    assert_eq!(node.role(), Role::Follower);
    assert_eq!(node.current_term(), 0);
}

#[test]
fn new_learner_rejects_the_same_degenerate_timeouts_as_new() {
    assert_eq!(
        Node::new_learner(NodeId(1), 0, 1).unwrap_err(),
        ConfigError::ZeroElectionTimeout
    );
    assert_eq!(
        Node::new_learner(NodeId(1), 1, 0).unwrap_err(),
        ConfigError::ZeroHeartbeatInterval
    );
    assert_eq!(
        Node::new_learner(NodeId(1), 1, 2).unwrap_err(),
        ConfigError::HeartbeatIntervalExceedsElectionTimeout
    );
}

#[test]
fn a_join_mode_node_accepts_its_first_append_entries_from_an_unrecognized_sender() {
    let mut node = Node::new_learner(NodeId(4), 5, 1).expect("valid join-mode node");

    let effects = node.step(Event::Step {
        from: NodeId(1),
        message: Message::AppendEntries(AppendEntries {
            term: 1,
            leader_id: NodeId(1),
            prev_log_index: 0,
            prev_log_term: 0,
            entries: vec![LogEntry {
                term: 1,
                payload: LogPayload::Configuration(ClusterConfig {
                    voters: vec![NodeId(1), NodeId(2), NodeId(3)],
                    old_voters: None,
                }),
            }],
            leader_commit: 0,
        }),
    });

    assert!(
        effects.iter().any(|effect| matches!(
            effect,
            Effect::Send {
                message: Message::AppendEntriesResponse(response),
                ..
            } if response.success
        )),
        "the join-mode node must accept a real leader's first AppendEntries, not silently \
         drop it via is_member, got {effects:?}"
    );
    assert_eq!(
        node.current_config(),
        &ClusterConfig {
            voters: vec![NodeId(1), NodeId(2), NodeId(3)],
            old_voters: None,
        },
        "the AppendEntries carried a Configuration entry admitting this node's cluster -- \
         current_config must reflect it immediately"
    );
}

#[test]
fn recover_always_yields_a_follower_with_the_given_hard_state_and_log() {
    let peers = vec![NodeId(1), NodeId(2), NodeId(3)];
    let hard_state = HardState {
        current_term: 5,
        voted_for: Some(NodeId(2)),
    };
    let log = vec![LogEntry {
        term: 3,
        payload: LogPayload::Command(vec![1]),
    }];

    let node = Node::recover(
        NodeId(1),
        peers,
        1,
        1,
        hard_state,
        log.clone(),
        Snapshot::default(),
        Vec::new(),
    )
    .expect("valid node");

    assert_eq!(node.role(), Role::Follower);
    assert_eq!(node.current_term(), 5);
    assert_eq!(node.voted_for(), Some(NodeId(2)));
    assert_eq!(node.log(), log.as_slice());
    assert_eq!(node.commit_index(), 0);
}

#[test]
fn recover_initializes_commit_index_from_the_snapshot_boundary_not_zero() {
    let peers = vec![NodeId(1), NodeId(2), NodeId(3)];
    let snapshot = SnapshotMetadata {
        last_included_index: 4,
        last_included_term: 2,
    };
    let log = vec![LogEntry {
        term: 2,
        payload: LogPayload::Command(vec![9]),
    }];

    let node = Node::recover(
        NodeId(1),
        peers.clone(),
        1,
        1,
        HardState::default(),
        log,
        Snapshot {
            metadata: snapshot,
            data: vec![7, 7, 7],
            config: ClusterConfig {
                voters: peers,
                old_voters: None,
            },
        },
        Vec::new(),
    )
    .expect("valid node");

    assert_eq!(node.commit_index(), 4);
    assert_eq!(node.snapshot(), snapshot);
    assert_eq!(node.snapshot_data(), &[7, 7, 7]);
    assert_eq!(node.last_log_index(), 5);
}

#[test]
fn recover_prefers_the_snapshots_own_config_over_the_peers_argument() {
    let peers = vec![NodeId(1), NodeId(2), NodeId(3), NodeId(9)];
    let snapshot_voters = vec![NodeId(1), NodeId(2), NodeId(3), NodeId(4)];

    let node = Node::recover(
        NodeId(1),
        peers,
        1,
        1,
        HardState::default(),
        Vec::new(),
        Snapshot {
            metadata: SnapshotMetadata {
                last_included_index: 4,
                last_included_term: 2,
            },
            data: vec![1, 2, 3],
            config: ClusterConfig {
                voters: snapshot_voters.clone(),
                old_voters: None,
            },
        },
        Vec::new(),
    )
    .expect("valid node");

    assert_eq!(node.current_config().voters, snapshot_voters);
    assert_eq!(node.snapshot_config().voters, snapshot_voters);
}

#[test]
fn recover_validates_configuration_the_same_way_as_new() {
    let result = Node::recover(
        NodeId(1),
        vec![],
        1,
        1,
        HardState::default(),
        Vec::new(),
        Snapshot::default(),
        Vec::new(),
    );

    assert_eq!(
        result.expect_err("configuration must fail"),
        ConfigError::EmptyConfiguration
    );
}

#[test]
fn rejects_invalid_configurations() {
    let cases = [
        (
            Node::new(NodeId(1), vec![], 1, 1),
            ConfigError::EmptyConfiguration,
        ),
        (
            Node::new(NodeId(1), vec![NodeId(1), NodeId(1)], 1, 1),
            ConfigError::MembersNotStrictlyOrdered,
        ),
        (
            Node::new(NodeId(1), vec![NodeId(2), NodeId(1)], 1, 1),
            ConfigError::MembersNotStrictlyOrdered,
        ),
        (
            Node::new(NodeId(1), vec![NodeId(2)], 1, 1),
            ConfigError::LocalNodeMissing,
        ),
        (
            Node::new(NodeId(1), vec![NodeId(1)], 0, 1),
            ConfigError::ZeroElectionTimeout,
        ),
        (
            Node::new(NodeId(1), vec![NodeId(1)], 1, 0),
            ConfigError::ZeroHeartbeatInterval,
        ),
        (
            Node::new(NodeId(1), vec![NodeId(1)], 1, 2),
            ConfigError::HeartbeatIntervalExceedsElectionTimeout,
        ),
    ];

    for (result, expected) in cases {
        assert_eq!(result.expect_err("configuration must fail"), expected);
    }
}

#[test]
fn tick_below_timeout_produces_no_effects() {
    let peers = vec![NodeId(1), NodeId(2), NodeId(3)];
    let mut node = Node::new(NodeId(1), peers, 3, 1).expect("valid node");

    let effects = node.step(Event::Tick { next_timeout: 5 });

    assert!(effects.is_empty());
    assert_eq!(node.role(), Role::Follower);
    assert_eq!(node.election_elapsed(), 1);
}

#[test]
fn tick_at_timeout_starts_election_and_requests_votes_from_peers() {
    let peers = vec![NodeId(1), NodeId(2), NodeId(3)];
    let mut node = Node::new(NodeId(1), peers, 1, 1).expect("valid node");

    let effects = node.step(Event::Tick { next_timeout: 7 });

    assert_eq!(node.role(), Role::Candidate);
    assert_eq!(node.current_term(), 1);
    assert_eq!(node.voted_for(), Some(NodeId(1)));
    assert_eq!(node.election_elapsed(), 0);
    assert_eq!(node.election_timeout(), 7);
    assert_eq!(node.votes_granted(), &[NodeId(1)]);

    let expected_request = RequestVote {
        term: 1,
        candidate_id: NodeId(1),
        last_log_index: 0,
        last_log_term: 0,
    };
    assert_eq!(
        effects,
        vec![
            Effect::PersistHardState {
                term: 1,
                voted_for: Some(NodeId(1)),
            },
            Effect::Send {
                to: NodeId(2),
                message: Message::RequestVote(expected_request),
            },
            Effect::Send {
                to: NodeId(3),
                message: Message::RequestVote(expected_request),
            },
        ]
    );
}

#[test]
fn single_node_cluster_wins_election_immediately() {
    let mut node = Node::new(NodeId(1), vec![NodeId(1)], 1, 1).expect("valid node");

    let effects = node.step(Event::Tick { next_timeout: 5 });

    assert_eq!(
        effects,
        vec![Effect::PersistHardState {
            term: 1,
            voted_for: Some(NodeId(1)),
        }]
    );
    assert_eq!(node.role(), Role::Leader);
    assert_eq!(node.current_term(), 1);
    assert_eq!(node.heartbeat_elapsed(), 0);
}

#[test]
fn grants_vote_and_resets_election_elapsed() {
    let peers = vec![NodeId(1), NodeId(2), NodeId(3)];
    let mut node = Node::new(NodeId(1), peers, 5, 2).expect("valid node");
    node.step(Event::Tick { next_timeout: 5 });

    let effects = node.step(Event::Step {
        from: NodeId(2),
        message: Message::RequestVote(RequestVote {
            term: 1,
            candidate_id: NodeId(2),
            last_log_index: 0,
            last_log_term: 0,
        }),
    });

    assert_eq!(node.voted_for(), Some(NodeId(2)));
    assert_eq!(node.election_elapsed(), 0);
    assert_eq!(node.current_term(), 1);
    assert_eq!(
        effects,
        vec![
            Effect::PersistHardState {
                term: 1,
                voted_for: Some(NodeId(2)),
            },
            Effect::Send {
                to: NodeId(2),
                message: Message::RequestVoteResponse(RequestVoteResponse {
                    term: 1,
                    granted: true,
                }),
            }
        ]
    );
}

#[test]
fn rejects_vote_when_already_voted_for_different_candidate() {
    let peers = vec![NodeId(1), NodeId(2), NodeId(3)];
    let mut node = Node::new(NodeId(1), peers, 5, 2).expect("valid node");
    node.step(Event::Step {
        from: NodeId(2),
        message: Message::RequestVote(RequestVote {
            term: 1,
            candidate_id: NodeId(2),
            last_log_index: 0,
            last_log_term: 0,
        }),
    });

    let effects = node.step(Event::Step {
        from: NodeId(3),
        message: Message::RequestVote(RequestVote {
            term: 1,
            candidate_id: NodeId(3),
            last_log_index: 0,
            last_log_term: 0,
        }),
    });

    assert_eq!(node.voted_for(), Some(NodeId(2)));
    assert_eq!(
        effects,
        vec![Effect::Send {
            to: NodeId(3),
            message: Message::RequestVoteResponse(RequestVoteResponse {
                term: 1,
                granted: false,
            }),
        }]
    );
}

#[test]
fn rejects_request_vote_with_stale_term() {
    let peers = vec![NodeId(1), NodeId(2), NodeId(3)];
    let mut node = Node::new(NodeId(1), peers, 1, 1).expect("valid node");
    node.step(Event::Tick { next_timeout: 5 });

    let effects = node.step(Event::Step {
        from: NodeId(2),
        message: Message::RequestVote(RequestVote {
            term: 0,
            candidate_id: NodeId(2),
            last_log_index: 0,
            last_log_term: 0,
        }),
    });

    assert_eq!(node.role(), Role::Candidate);
    assert_eq!(node.current_term(), 1);
    assert_eq!(node.voted_for(), Some(NodeId(1)));
    assert_eq!(
        effects,
        vec![Effect::Send {
            to: NodeId(2),
            message: Message::RequestVoteResponse(RequestVoteResponse {
                term: 1,
                granted: false,
            }),
        }]
    );
}

#[test]
fn leader_disregards_a_higher_term_request_vote_without_stepping_down() {
    let peers = vec![NodeId(1), NodeId(2), NodeId(3)];
    let mut node = Node::new(NodeId(1), peers, 1, 1).expect("valid node");
    node.step(Event::Tick { next_timeout: 5 });
    node.step(Event::Step {
        from: NodeId(2),
        message: Message::RequestVoteResponse(RequestVoteResponse {
            term: 1,
            granted: true,
        }),
    });
    assert_eq!(node.role(), Role::Leader);

    node.step(Event::Tick { next_timeout: 5 });
    node.step(Event::Tick { next_timeout: 5 });

    let effects = node.step(Event::Step {
        from: NodeId(3),
        message: Message::RequestVote(RequestVote {
            term: 2,
            candidate_id: NodeId(3),
            last_log_index: 0,
            last_log_term: 0,
        }),
    });

    assert_eq!(
        node.role(),
        Role::Leader,
        "a leader must not step down on an incoming RequestVote, however high its term"
    );
    assert_eq!(node.current_term(), 1);
    assert_eq!(node.voted_for(), Some(NodeId(1)));
    assert_eq!(
        effects,
        vec![Effect::Send {
            to: NodeId(3),
            message: Message::RequestVoteResponse(RequestVoteResponse {
                term: 1,
                granted: false,
            }),
        }]
    );
}

#[test]
fn a_freshly_constructed_node_does_not_spuriously_trigger_the_disruption_guard() {
    let node =
        Node::new(NodeId(1), vec![NodeId(1), NodeId(2), NodeId(3)], 5, 2).expect("valid node");
    assert_eq!(
        node.leader_contact_elapsed(),
        2,
        "a node that has never heard from any leader must not read as \
         though it just did -- it starts at heartbeat_interval, not 0"
    );
}

#[test]
fn a_follower_in_a_joint_transition_disregards_a_higher_term_request_vote_while_leader_contact_is_recent()
 {
    let joint_config = ClusterConfig {
        voters: vec![NodeId(1), NodeId(4), NodeId(5)],
        old_voters: Some(vec![NodeId(1), NodeId(2), NodeId(3)]),
    };
    let log = vec![LogEntry {
        term: 0,
        payload: LogPayload::Configuration(joint_config),
    }];
    let mut node = Node::recover(
        NodeId(2),
        vec![NodeId(1), NodeId(2), NodeId(3)],
        5,
        1,
        HardState::default(),
        log,
        Snapshot::default(),
        Vec::new(),
    )
    .expect("valid node");

    node.step(Event::Step {
        from: NodeId(1),
        message: Message::AppendEntries(AppendEntries {
            term: 1,
            leader_id: NodeId(1),
            prev_log_index: 1,
            prev_log_term: 0,
            entries: Vec::new(),
            leader_commit: 0,
        }),
    });
    assert_eq!(node.leader_contact_elapsed(), 0);

    let effects = node.step(Event::Step {
        from: NodeId(3),
        message: Message::RequestVote(RequestVote {
            term: 5,
            candidate_id: NodeId(3),
            last_log_index: 1,
            last_log_term: 0,
        }),
    });

    assert_eq!(
        node.current_term(),
        1,
        "a stray higher-term RequestVote must not move the term while \
         leader contact is recent and a joint transition is in flight"
    );
    assert_eq!(node.voted_for(), None);
    assert_eq!(
        effects,
        vec![Effect::Send {
            to: NodeId(3),
            message: Message::RequestVoteResponse(RequestVoteResponse {
                term: 1,
                granted: false,
            }),
        }]
    );
}

#[test]
fn a_follower_in_a_joint_transition_grants_a_higher_term_request_vote_once_leader_contact_is_stale()
 {
    let joint_config = ClusterConfig {
        voters: vec![NodeId(1), NodeId(4), NodeId(5)],
        old_voters: Some(vec![NodeId(1), NodeId(2), NodeId(3)]),
    };
    let log = vec![LogEntry {
        term: 0,
        payload: LogPayload::Configuration(joint_config),
    }];
    let mut node = Node::recover(
        NodeId(2),
        vec![NodeId(1), NodeId(2), NodeId(3)],
        5,
        1,
        HardState::default(),
        log,
        Snapshot::default(),
        Vec::new(),
    )
    .expect("valid node");

    node.step(Event::Step {
        from: NodeId(1),
        message: Message::AppendEntries(AppendEntries {
            term: 1,
            leader_id: NodeId(1),
            prev_log_index: 1,
            prev_log_term: 0,
            entries: Vec::new(),
            leader_commit: 0,
        }),
    });
    assert_eq!(node.leader_contact_elapsed(), 0);

    node.step(Event::Tick { next_timeout: 5 });
    assert_eq!(node.leader_contact_elapsed(), 1);

    let effects = node.step(Event::Step {
        from: NodeId(3),
        message: Message::RequestVote(RequestVote {
            term: 5,
            candidate_id: NodeId(3),
            last_log_index: 1,
            last_log_term: 0,
        }),
    });

    assert_eq!(
        node.current_term(),
        5,
        "once leader contact is stale, an ordinary higher-term \
         RequestVote is handled normally, joint transition or not"
    );
    assert_eq!(node.voted_for(), Some(NodeId(3)));
    assert_eq!(
        effects,
        vec![
            Effect::PersistHardState {
                term: 5,
                voted_for: Some(NodeId(3)),
            },
            Effect::Send {
                to: NodeId(3),
                message: Message::RequestVoteResponse(RequestVoteResponse {
                    term: 5,
                    granted: true,
                }),
            }
        ]
    );
}

#[test]
fn the_disruption_guard_does_not_apply_outside_a_joint_consensus_transition() {
    let mut node =
        Node::new(NodeId(2), vec![NodeId(1), NodeId(2), NodeId(3)], 5, 1).expect("valid node");

    node.step(Event::Step {
        from: NodeId(1),
        message: Message::AppendEntries(AppendEntries {
            term: 1,
            leader_id: NodeId(1),
            prev_log_index: 0,
            prev_log_term: 0,
            entries: Vec::new(),
            leader_commit: 0,
        }),
    });
    assert_eq!(node.leader_contact_elapsed(), 0);

    let effects = node.step(Event::Step {
        from: NodeId(3),
        message: Message::RequestVote(RequestVote {
            term: 5,
            candidate_id: NodeId(3),
            last_log_index: 0,
            last_log_term: 0,
        }),
    });

    assert_eq!(
        node.current_term(),
        5,
        "outside a joint transition, recent leader contact must not \
         block an ordinary higher-term RequestVote"
    );
    assert_eq!(node.voted_for(), Some(NodeId(3)));
    assert_eq!(
        effects,
        vec![
            Effect::PersistHardState {
                term: 5,
                voted_for: Some(NodeId(3)),
            },
            Effect::Send {
                to: NodeId(3),
                message: Message::RequestVoteResponse(RequestVoteResponse {
                    term: 5,
                    granted: true,
                }),
            }
        ]
    );
}

#[test]
fn granting_a_vote_does_not_arm_the_disruption_guard_for_a_later_legitimate_request_vote() {
    let joint_config = ClusterConfig {
        voters: vec![NodeId(1), NodeId(4), NodeId(5)],
        old_voters: Some(vec![NodeId(1), NodeId(2), NodeId(3)]),
    };
    let log = vec![LogEntry {
        term: 0,
        payload: LogPayload::Configuration(joint_config),
    }];
    let mut node = Node::recover(
        NodeId(2),
        vec![NodeId(1), NodeId(2), NodeId(3)],
        5,
        1,
        HardState::default(),
        log,
        Snapshot::default(),
        Vec::new(),
    )
    .expect("valid node");
    assert_eq!(node.leader_contact_elapsed(), 1);

    node.step(Event::Step {
        from: NodeId(1),
        message: Message::RequestVote(RequestVote {
            term: 5,
            candidate_id: NodeId(1),
            last_log_index: 1,
            last_log_term: 0,
        }),
    });
    assert_eq!(node.current_term(), 5);
    assert_eq!(node.voted_for(), Some(NodeId(1)));
    assert_eq!(node.leader_contact_elapsed(), 1);

    let effects = node.step(Event::Step {
        from: NodeId(3),
        message: Message::RequestVote(RequestVote {
            term: 6,
            candidate_id: NodeId(3),
            last_log_index: 1,
            last_log_term: 0,
        }),
    });

    assert_eq!(node.current_term(), 6);
    assert_eq!(node.voted_for(), Some(NodeId(3)));
    assert_eq!(
        effects,
        vec![
            Effect::PersistHardState {
                term: 6,
                voted_for: Some(NodeId(3)),
            },
            Effect::Send {
                to: NodeId(3),
                message: Message::RequestVoteResponse(RequestVoteResponse {
                    term: 6,
                    granted: true,
                }),
            }
        ]
    );
}

#[test]
fn becomes_leader_and_sends_an_immediate_heartbeat_once_quorum_is_granted() {
    let peers = vec![NodeId(1), NodeId(2), NodeId(3)];
    let mut node = Node::new(NodeId(1), peers, 3, 3).expect("valid node");
    node.step(Event::Tick { next_timeout: 5 });
    node.step(Event::Tick { next_timeout: 5 });
    node.step(Event::Tick { next_timeout: 5 });
    assert_eq!(node.role(), Role::Candidate);

    let effects = node.step(Event::Step {
        from: NodeId(2),
        message: Message::RequestVoteResponse(RequestVoteResponse {
            term: 1,
            granted: true,
        }),
    });

    assert_eq!(node.role(), Role::Leader);
    assert_eq!(node.heartbeat_elapsed(), 0);
    assert_eq!(
        node.votes_granted(),
        &[NodeId(1), NodeId(2)]
    );
    let expected_heartbeat = AppendEntries {
        term: 1,
        leader_id: NodeId(1),
        prev_log_index: 0,
        prev_log_term: 0,
        entries: Vec::new(),
        leader_commit: 0,
    };
    assert_eq!(
        effects,
        vec![
            Effect::Send {
                to: NodeId(2),
                message: Message::AppendEntries(expected_heartbeat.clone()),
            },
            Effect::Send {
                to: NodeId(3),
                message: Message::AppendEntries(expected_heartbeat),
            },
        ]
    );
}

#[test]
fn leader_sends_heartbeats_only_once_the_interval_elapses() {
    let peers = vec![NodeId(1), NodeId(2), NodeId(3)];
    let mut node = Node::new(NodeId(1), peers, 3, 3).expect("valid node");
    node.step(Event::Tick { next_timeout: 5 });
    node.step(Event::Tick { next_timeout: 5 });
    node.step(Event::Tick { next_timeout: 5 });
    node.step(Event::Step {
        from: NodeId(2),
        message: Message::RequestVoteResponse(RequestVoteResponse {
            term: 1,
            granted: true,
        }),
    });
    assert_eq!(node.role(), Role::Leader);

    assert!(node.step(Event::Tick { next_timeout: 5 }).is_empty());
    assert!(node.step(Event::Tick { next_timeout: 5 }).is_empty());

    let effects = node.step(Event::Tick { next_timeout: 5 });

    assert_eq!(node.heartbeat_elapsed(), 0);
    let expected_heartbeat = AppendEntries {
        term: 1,
        leader_id: NodeId(1),
        prev_log_index: 0,
        prev_log_term: 0,
        entries: Vec::new(),
        leader_commit: 0,
    };
    assert_eq!(
        effects,
        vec![
            Effect::Send {
                to: NodeId(2),
                message: Message::AppendEntries(expected_heartbeat.clone()),
            },
            Effect::Send {
                to: NodeId(3),
                message: Message::AppendEntries(expected_heartbeat),
            },
        ]
    );
}

#[test]
fn follower_resets_election_elapsed_on_valid_append_entries() {
    let peers = vec![NodeId(1), NodeId(2), NodeId(3)];
    let mut node = Node::new(NodeId(1), peers, 5, 2).expect("valid node");
    node.step(Event::Tick { next_timeout: 5 });
    assert_eq!(node.election_elapsed(), 1);

    let effects = node.step(Event::Step {
        from: NodeId(2),
        message: Message::AppendEntries(AppendEntries {
            term: 1,
            leader_id: NodeId(2),
            prev_log_index: 0,
            prev_log_term: 0,
            entries: Vec::new(),
            leader_commit: 0,
        }),
    });

    assert_eq!(node.role(), Role::Follower);
    assert_eq!(node.current_term(), 1);
    assert_eq!(node.election_elapsed(), 0);
    assert_eq!(
        effects,
        vec![
            Effect::PersistHardState {
                term: 1,
                voted_for: None,
            },
            Effect::Send {
                to: NodeId(2),
                message: Message::AppendEntriesResponse(AppendEntriesResponse {
                    term: 1,
                    success: true,
                    match_index: 0,
                }),
            }
        ]
    );
}

#[test]
fn candidate_steps_down_on_same_term_append_entries() {
    let peers = vec![NodeId(1), NodeId(2), NodeId(3)];
    let mut node = Node::new(NodeId(1), peers, 1, 1).expect("valid node");
    node.step(Event::Tick { next_timeout: 5 });
    assert_eq!(node.role(), Role::Candidate);

    let effects = node.step(Event::Step {
        from: NodeId(2),
        message: Message::AppendEntries(AppendEntries {
            term: 1,
            leader_id: NodeId(2),
            prev_log_index: 0,
            prev_log_term: 0,
            entries: Vec::new(),
            leader_commit: 0,
        }),
    });

    assert_eq!(node.role(), Role::Follower);
    assert_eq!(node.current_term(), 1);
    assert_eq!(node.election_elapsed(), 0);
    assert_eq!(
        effects,
        vec![Effect::Send {
            to: NodeId(2),
            message: Message::AppendEntriesResponse(AppendEntriesResponse {
                term: 1,
                success: true,
                match_index: 0,
            }),
        }]
    );
}

#[test]
fn rejects_stale_term_append_entries() {
    let peers = vec![NodeId(1), NodeId(2), NodeId(3)];
    let mut node = Node::new(NodeId(1), peers, 1, 1).expect("valid node");
    node.step(Event::Tick { next_timeout: 5 });
    assert_eq!(node.current_term(), 1);

    let effects = node.step(Event::Step {
        from: NodeId(2),
        message: Message::AppendEntries(AppendEntries {
            term: 0,
            leader_id: NodeId(2),
            prev_log_index: 0,
            prev_log_term: 0,
            entries: Vec::new(),
            leader_commit: 0,
        }),
    });

    assert_eq!(node.role(), Role::Candidate);
    assert_eq!(node.current_term(), 1);
    assert_eq!(
        effects,
        vec![Effect::Send {
            to: NodeId(2),
            message: Message::AppendEntriesResponse(AppendEntriesResponse {
                term: 1,
                success: false,
                match_index: 0,
            }),
        }]
    );
}

#[test]
fn rejects_append_entries_when_prev_log_does_not_match() {
    let peers = vec![NodeId(1), NodeId(2), NodeId(3)];
    let mut node = Node::new(NodeId(1), peers, 5, 2).expect("valid node");

    let effects = node.step(Event::Step {
        from: NodeId(2),
        message: Message::AppendEntries(AppendEntries {
            term: 1,
            leader_id: NodeId(2),
            prev_log_index: 3,
            prev_log_term: 1,
            entries: Vec::new(),
            leader_commit: 0,
        }),
    });

    assert!(node.log().is_empty());
    assert_eq!(
        effects,
        vec![
            Effect::PersistHardState {
                term: 1,
                voted_for: None,
            },
            Effect::Send {
                to: NodeId(2),
                message: Message::AppendEntriesResponse(AppendEntriesResponse {
                    term: 1,
                    success: false,
                    match_index: 0,
                }),
            }
        ]
    );
}

#[test]
fn appends_new_entries_when_prev_log_matches() {
    let peers = vec![NodeId(1), NodeId(2), NodeId(3)];
    let mut node = Node::new(NodeId(1), peers, 5, 2).expect("valid node");
    let entries = vec![
        LogEntry {
            term: 1,
            payload: LogPayload::Command(Vec::new()),
        },
        LogEntry {
            term: 1,
            payload: LogPayload::Command(Vec::new()),
        },
    ];

    let effects = node.step(Event::Step {
        from: NodeId(2),
        message: Message::AppendEntries(AppendEntries {
            term: 1,
            leader_id: NodeId(2),
            prev_log_index: 0,
            prev_log_term: 0,
            entries: entries.clone(),
            leader_commit: 0,
        }),
    });

    assert_eq!(node.log(), entries.as_slice());
    assert_eq!(node.last_log_index(), 2);
    assert_eq!(node.last_log_term(), 1);
    assert_eq!(
        effects,
        vec![
            Effect::PersistHardState {
                term: 1,
                voted_for: None,
            },
            Effect::PersistLog {
                from_index: 1,
                entries: entries.clone(),
            },
            Effect::Send {
                to: NodeId(2),
                message: Message::AppendEntriesResponse(AppendEntriesResponse {
                    term: 1,
                    success: true,
                    match_index: 2,
                }),
            }
        ]
    );
}

#[test]
fn truncates_conflicting_suffix_and_appends_leaders_entries() {
    let peers = vec![NodeId(1), NodeId(2), NodeId(3)];
    let mut node = Node::new(NodeId(1), peers, 5, 2).expect("valid node");
    node.step(Event::Step {
        from: NodeId(2),
        message: Message::AppendEntries(AppendEntries {
            term: 1,
            leader_id: NodeId(2),
            prev_log_index: 0,
            prev_log_term: 0,
            entries: vec![
                LogEntry {
                    term: 1,
                    payload: LogPayload::Command(vec![1]),
                },
                LogEntry {
                    term: 1,
                    payload: LogPayload::Command(vec![2]),
                },
            ],
            leader_commit: 0,
        }),
    });
    assert_eq!(node.last_log_index(), 2);

    let replacement = LogEntry {
        term: 2,
        payload: LogPayload::Command(vec![9]),
    };
    let effects = node.step(Event::Step {
        from: NodeId(2),
        message: Message::AppendEntries(AppendEntries {
            term: 2,
            leader_id: NodeId(2),
            prev_log_index: 1,
            prev_log_term: 1,
            entries: vec![replacement.clone()],
            leader_commit: 0,
        }),
    });

    assert_eq!(node.log().len(), 2);
    assert_eq!(node.log()[1], replacement);
    assert_eq!(
        effects,
        vec![
            Effect::PersistHardState {
                term: 2,
                voted_for: None,
            },
            Effect::PersistLog {
                from_index: 2,
                entries: vec![replacement],
            },
            Effect::Send {
                to: NodeId(2),
                message: Message::AppendEntriesResponse(AppendEntriesResponse {
                    term: 2,
                    success: true,
                    match_index: 2,
                }),
            }
        ]
    );
}

#[test]
fn advances_commit_index_from_leader_commit_on_a_heartbeat() {
    let peers = vec![NodeId(1), NodeId(2), NodeId(3)];
    let mut node = Node::new(NodeId(1), peers, 5, 2).expect("valid node");
    node.step(Event::Step {
        from: NodeId(2),
        message: Message::AppendEntries(AppendEntries {
            term: 1,
            leader_id: NodeId(2),
            prev_log_index: 0,
            prev_log_term: 0,
            entries: vec![LogEntry {
                term: 1,
                payload: LogPayload::Command(Vec::new()),
            }],
            leader_commit: 0,
        }),
    });
    assert_eq!(node.commit_index(), 0);

    node.step(Event::Step {
        from: NodeId(2),
        message: Message::AppendEntries(AppendEntries {
            term: 1,
            leader_id: NodeId(2),
            prev_log_index: 1,
            prev_log_term: 1,
            entries: Vec::new(),
            leader_commit: 1,
        }),
    });

    assert_eq!(node.commit_index(), 1);
}

#[test]
fn delivering_the_same_append_entries_twice_is_idempotent() {
    let peers = vec![NodeId(1), NodeId(2), NodeId(3)];
    let mut node = Node::new(NodeId(1), peers, 5, 2).expect("valid node");
    let request = AppendEntries {
        term: 1,
        leader_id: NodeId(2),
        prev_log_index: 0,
        prev_log_term: 0,
        entries: vec![LogEntry {
            term: 1,
            payload: LogPayload::Command(vec![7]),
        }],
        leader_commit: 0,
    };

    let first = node.step(Event::Step {
        from: NodeId(2),
        message: Message::AppendEntries(request.clone()),
    });
    let second = node.step(Event::Step {
        from: NodeId(2),
        message: Message::AppendEntries(request),
    });

    assert_eq!(node.log().len(), 1);

    let response = |effects: &[Effect]| {
        effects.iter().find_map(|effect| match effect {
            Effect::Send { message, .. } => Some(message.clone()),
            _ => None,
        })
    };
    assert_eq!(response(&first), response(&second));
    assert_eq!(
        response(&second),
        Some(Message::AppendEntriesResponse(AppendEntriesResponse {
            term: 1,
            success: true,
            match_index: 1,
        }))
    );
}

#[test]
fn leader_steps_down_on_higher_term_append_entries() {
    let peers = vec![NodeId(1), NodeId(2), NodeId(3)];
    let mut node = Node::new(NodeId(1), peers, 1, 1).expect("valid node");
    node.step(Event::Tick { next_timeout: 5 });
    node.step(Event::Step {
        from: NodeId(2),
        message: Message::RequestVoteResponse(RequestVoteResponse {
            term: 1,
            granted: true,
        }),
    });
    assert_eq!(node.role(), Role::Leader);

    let effects = node.step(Event::Step {
        from: NodeId(3),
        message: Message::AppendEntries(AppendEntries {
            term: 2,
            leader_id: NodeId(3),
            prev_log_index: 0,
            prev_log_term: 0,
            entries: Vec::new(),
            leader_commit: 0,
        }),
    });

    assert_eq!(node.role(), Role::Follower);
    assert_eq!(node.current_term(), 2);
    assert_eq!(node.voted_for(), None);
    assert_eq!(
        effects,
        vec![
            Effect::PersistHardState {
                term: 2,
                voted_for: None,
            },
            Effect::Send {
                to: NodeId(3),
                message: Message::AppendEntriesResponse(AppendEntriesResponse {
                    term: 2,
                    success: true,
                    match_index: 0,
                }),
            }
        ]
    );
}

#[test]
fn leader_steps_down_on_higher_term_append_entries_response() {
    let peers = vec![NodeId(1), NodeId(2), NodeId(3)];
    let mut node = Node::new(NodeId(1), peers, 1, 1).expect("valid node");
    node.step(Event::Tick { next_timeout: 5 });
    node.step(Event::Step {
        from: NodeId(2),
        message: Message::RequestVoteResponse(RequestVoteResponse {
            term: 1,
            granted: true,
        }),
    });
    assert_eq!(node.role(), Role::Leader);

    let effects = node.step(Event::Step {
        from: NodeId(3),
        message: Message::AppendEntriesResponse(AppendEntriesResponse {
            term: 4,
            success: false,
            match_index: 0,
        }),
    });

    assert_eq!(
        effects,
        vec![Effect::PersistHardState {
            term: 4,
            voted_for: None,
        }]
    );
    assert_eq!(node.role(), Role::Follower);
    assert_eq!(node.current_term(), 4);
    assert_eq!(node.voted_for(), None);
}

#[test]
fn ignores_append_entries_whose_leader_id_does_not_match_the_sender() {
    let peers = vec![NodeId(1), NodeId(2), NodeId(3)];
    let mut node = Node::new(NodeId(1), peers, 5, 2).expect("valid node");

    let effects = node.step(Event::Step {
        from: NodeId(2),
        message: Message::AppendEntries(AppendEntries {
            term: 1,
            leader_id: NodeId(3),
            prev_log_index: 0,
            prev_log_term: 0,
            entries: Vec::new(),
            leader_commit: 0,
        }),
    });

    assert!(effects.is_empty());
    assert_eq!(node.current_term(), 0);
    assert_eq!(node.role(), Role::Follower);
}

#[test]
fn on_append_entries_treats_prev_log_index_at_the_snapshot_boundary_as_satisfied() {
    let peers = vec![NodeId(1), NodeId(2), NodeId(3)];
    let mut node = Node::new(NodeId(1), peers, 5, 2).expect("valid node");
    node.step(Event::Step {
        from: NodeId(2),
        message: Message::AppendEntries(AppendEntries {
            term: 1,
            leader_id: NodeId(2),
            prev_log_index: 0,
            prev_log_term: 0,
            entries: vec![
                LogEntry {
                    term: 1,
                    payload: LogPayload::Command(vec![1]),
                },
                LogEntry {
                    term: 1,
                    payload: LogPayload::Command(vec![2]),
                },
            ],
            leader_commit: 2,
        }),
    });
    assert_eq!(node.commit_index(), 2);
    node.compact(2, vec![9]).expect("index 2 is committed");
    assert!(node.log().is_empty());

    let effects = node.step(Event::Step {
        from: NodeId(2),
        message: Message::AppendEntries(AppendEntries {
            term: 1,
            leader_id: NodeId(2),
            prev_log_index: 2,
            prev_log_term: 1,
            entries: vec![LogEntry {
                term: 1,
                payload: LogPayload::Command(vec![3]),
            }],
            leader_commit: 3,
        }),
    });

    assert_eq!(
        node.log(),
        &[LogEntry {
            term: 1,
            payload: LogPayload::Command(vec![3])
        }]
    );
    assert_eq!(node.last_log_index(), 3);
    assert_eq!(
        effects,
        vec![
            Effect::PersistLog {
                from_index: 3,
                entries: vec![LogEntry {
                    term: 1,
                    payload: LogPayload::Command(vec![3])
                }],
            },
            Effect::Send {
                to: NodeId(2),
                message: Message::AppendEntriesResponse(AppendEntriesResponse {
                    term: 1,
                    success: true,
                    match_index: 3,
                }),
            },
        ]
    );
}

#[test]
fn on_append_entries_skips_entries_at_or_before_the_snapshot_boundary() {
    let peers = vec![NodeId(1), NodeId(2), NodeId(3)];
    let mut node = Node::new(NodeId(1), peers, 5, 2).expect("valid node");
    let seed_entries = vec![
        LogEntry {
            term: 1,
            payload: LogPayload::Command(vec![1]),
        },
        LogEntry {
            term: 1,
            payload: LogPayload::Command(vec![2]),
        },
        LogEntry {
            term: 1,
            payload: LogPayload::Command(vec![3]),
        },
    ];
    node.step(Event::Step {
        from: NodeId(2),
        message: Message::AppendEntries(AppendEntries {
            term: 1,
            leader_id: NodeId(2),
            prev_log_index: 0,
            prev_log_term: 0,
            entries: seed_entries.clone(),
            leader_commit: 3,
        }),
    });
    node.compact(2, vec![9]).expect("index 2 is committed");
    assert_eq!(
        node.log(),
        &[LogEntry {
            term: 1,
            payload: LogPayload::Command(vec![3])
        }]
    );

    let effects = node.step(Event::Step {
        from: NodeId(3),
        message: Message::AppendEntries(AppendEntries {
            term: 2,
            leader_id: NodeId(3),
            prev_log_index: 0,
            prev_log_term: 0,
            entries: seed_entries,
            leader_commit: 3,
        }),
    });

    assert_eq!(node.role(), Role::Follower);
    assert_eq!(node.current_term(), 2);
    assert_eq!(
        node.log(),
        &[LogEntry {
            term: 1,
            payload: LogPayload::Command(vec![3])
        }]
    );
    assert_eq!(node.commit_index(), 3);
    assert_eq!(
        effects,
        vec![
            Effect::PersistHardState {
                term: 2,
                voted_for: None,
            },
            Effect::Send {
                to: NodeId(3),
                message: Message::AppendEntriesResponse(AppendEntriesResponse {
                    term: 2,
                    success: true,
                    match_index: 3,
                }),
            },
        ]
    );
}

#[test]
fn rejects_stale_term_install_snapshot() {
    let peers = vec![NodeId(1), NodeId(2), NodeId(3)];
    let mut node = Node::new(NodeId(1), peers, 1, 1).expect("valid node");
    node.step(Event::Tick { next_timeout: 5 });
    assert_eq!(node.current_term(), 1);

    let effects = node.step(Event::Step {
        from: NodeId(2),
        message: Message::InstallSnapshot(InstallSnapshot {
            term: 0,
            leader_id: NodeId(2),
            last_included_index: 5,
            last_included_term: 0,
            data: vec![9],
            config: ClusterConfig {
                voters: vec![NodeId(1), NodeId(2), NodeId(3)],
                old_voters: None,
            },
        }),
    });

    assert_eq!(node.role(), Role::Candidate);
    assert_eq!(node.current_term(), 1);
    assert!(node.log().is_empty());
    assert_eq!(
        effects,
        vec![Effect::Send {
            to: NodeId(2),
            message: Message::InstallSnapshotResponse(InstallSnapshotResponse {
                term: 1,
                last_included_index: 0,
            }),
        }]
    );
}

#[test]
fn ignores_install_snapshot_whose_leader_id_does_not_match_the_sender() {
    let peers = vec![NodeId(1), NodeId(2), NodeId(3)];
    let mut node = Node::new(NodeId(1), peers, 5, 2).expect("valid node");

    let effects = node.step(Event::Step {
        from: NodeId(2),
        message: Message::InstallSnapshot(InstallSnapshot {
            term: 1,
            leader_id: NodeId(3),
            last_included_index: 5,
            last_included_term: 1,
            data: vec![9],
            config: ClusterConfig {
                voters: vec![NodeId(1), NodeId(2), NodeId(3)],
                old_voters: None,
            },
        }),
    });

    assert!(effects.is_empty());
    assert_eq!(node.current_term(), 0);
}

#[test]
fn on_install_snapshot_installs_and_discards_any_existing_log() {
    let peers = vec![NodeId(1), NodeId(2), NodeId(3)];
    let mut node = Node::new(NodeId(1), peers, 5, 2).expect("valid node");
    node.step(Event::Step {
        from: NodeId(2),
        message: Message::AppendEntries(AppendEntries {
            term: 1,
            leader_id: NodeId(2),
            prev_log_index: 0,
            prev_log_term: 0,
            entries: vec![LogEntry {
                term: 1,
                payload: LogPayload::Command(vec![1]),
            }],
            leader_commit: 0,
        }),
    });
    assert_eq!(node.log().len(), 1);

    let installed_config = ClusterConfig {
        voters: vec![NodeId(1), NodeId(2), NodeId(4)],
        old_voters: None,
    };

    let effects = node.step(Event::Step {
        from: NodeId(2),
        message: Message::InstallSnapshot(InstallSnapshot {
            term: 1,
            leader_id: NodeId(2),
            last_included_index: 5,
            last_included_term: 1,
            data: vec![9, 9],
            config: installed_config.clone(),
        }),
    });

    assert_eq!(
        node.snapshot(),
        SnapshotMetadata {
            last_included_index: 5,
            last_included_term: 1,
        }
    );
    assert_eq!(node.snapshot_data(), &[9, 9]);
    assert!(node.log().is_empty());
    assert_eq!(node.commit_index(), 5);
    assert_eq!(node.last_log_index(), 5);
    assert_eq!(node.current_config(), &installed_config);
    assert_eq!(
        effects,
        vec![
            Effect::PersistSnapshot {
                last_included_index: 5,
                last_included_term: 1,
                data: vec![9, 9],
                config: installed_config,
            },
            Effect::PersistLog {
                from_index: 6,
                entries: Vec::new(),
            },
            Effect::Send {
                to: NodeId(2),
                message: Message::InstallSnapshotResponse(InstallSnapshotResponse {
                    term: 1,
                    last_included_index: 5,
                }),
            },
        ]
    );
}

#[test]
fn on_install_snapshot_steps_down_on_higher_term() {
    let peers = vec![NodeId(1), NodeId(2), NodeId(3)];
    let mut node = Node::new(NodeId(1), peers, 1, 1).expect("valid node");
    node.step(Event::Tick { next_timeout: 5 });
    assert_eq!(node.role(), Role::Candidate);

    let effects = node.step(Event::Step {
        from: NodeId(2),
        message: Message::InstallSnapshot(InstallSnapshot {
            term: 2,
            leader_id: NodeId(2),
            last_included_index: 3,
            last_included_term: 2,
            data: vec![1],
            config: ClusterConfig {
                voters: vec![NodeId(1), NodeId(2), NodeId(3)],
                old_voters: None,
            },
        }),
    });

    assert_eq!(node.role(), Role::Follower);
    assert_eq!(node.current_term(), 2);
    assert_eq!(node.voted_for(), None);
    assert_eq!(
        effects,
        vec![
            Effect::PersistHardState {
                term: 2,
                voted_for: None,
            },
            Effect::PersistSnapshot {
                last_included_index: 3,
                last_included_term: 2,
                data: vec![1],
                config: ClusterConfig {
                    voters: vec![NodeId(1), NodeId(2), NodeId(3)],
                    old_voters: None,
                },
            },
            Effect::PersistLog {
                from_index: 4,
                entries: Vec::new(),
            },
            Effect::Send {
                to: NodeId(2),
                message: Message::InstallSnapshotResponse(InstallSnapshotResponse {
                    term: 2,
                    last_included_index: 3,
                }),
            },
        ]
    );
}

#[test]
fn on_install_snapshot_is_a_no_op_when_the_receiver_already_covers_that_point() {
    let peers = vec![NodeId(1), NodeId(2), NodeId(3)];
    let mut node = Node::new(NodeId(1), peers, 5, 2).expect("valid node");
    node.step(Event::Step {
        from: NodeId(2),
        message: Message::AppendEntries(AppendEntries {
            term: 1,
            leader_id: NodeId(2),
            prev_log_index: 0,
            prev_log_term: 0,
            entries: vec![
                LogEntry {
                    term: 1,
                    payload: LogPayload::Command(vec![1]),
                },
                LogEntry {
                    term: 1,
                    payload: LogPayload::Command(vec![2]),
                },
            ],
            leader_commit: 2,
        }),
    });
    assert_eq!(node.log().len(), 2);
    assert_eq!(node.commit_index(), 2);

    let effects = node.step(Event::Step {
        from: NodeId(2),
        message: Message::InstallSnapshot(InstallSnapshot {
            term: 1,
            leader_id: NodeId(2),
            last_included_index: 1,
            last_included_term: 1,
            data: vec![9, 9],
            config: ClusterConfig {
                voters: vec![NodeId(1), NodeId(2), NodeId(9)],
                old_voters: None,
            },
        }),
    });

    assert_eq!(node.log().len(), 2);
    assert_eq!(node.snapshot(), SnapshotMetadata::default());
    assert!(node.snapshot_data().is_empty());
    assert_eq!(
        node.current_config(),
        &ClusterConfig {
            voters: vec![NodeId(1), NodeId(2), NodeId(3)],
            old_voters: None,
        }
    );
    assert_eq!(
        effects,
        vec![Effect::Send {
            to: NodeId(2),
            message: Message::InstallSnapshotResponse(InstallSnapshotResponse {
                term: 1,
                last_included_index: 1,
            }),
        }]
    );
}

#[test]
fn grants_vote_when_candidate_log_is_at_least_as_up_to_date() {
    let peers = vec![NodeId(1), NodeId(2), NodeId(3)];
    let mut node = Node::new(NodeId(1), peers, 5, 2).expect("valid node");
    let seed_entries = vec![1, 1, 1, 2]
        .into_iter()
        .map(|term| LogEntry {
            term,
            payload: LogPayload::Command(Vec::new()),
        })
        .collect::<Vec<_>>();
    node.step(Event::Step {
        from: NodeId(2),
        message: Message::AppendEntries(AppendEntries {
            term: 1,
            leader_id: NodeId(2),
            prev_log_index: 0,
            prev_log_term: 0,
            entries: seed_entries,
            leader_commit: 0,
        }),
    });
    assert_eq!(node.last_log_index(), 4);
    assert_eq!(node.last_log_term(), 2);

    let effects = node.step(Event::Step {
        from: NodeId(2),
        message: Message::RequestVote(RequestVote {
            term: 1,
            candidate_id: NodeId(2),
            last_log_index: 4,
            last_log_term: 2,
        }),
    });

    assert_eq!(node.voted_for(), Some(NodeId(2)));
    assert_eq!(
        effects,
        vec![
            Effect::PersistHardState {
                term: 1,
                voted_for: Some(NodeId(2)),
            },
            Effect::Send {
                to: NodeId(2),
                message: Message::RequestVoteResponse(RequestVoteResponse {
                    term: 1,
                    granted: true,
                }),
            }
        ]
    );
}

#[test]
fn rejects_vote_when_candidate_log_is_behind_even_after_stepping_down_on_a_higher_term() {
    let peers = vec![NodeId(1), NodeId(2), NodeId(3)];
    let mut node = Node::new(NodeId(1), peers, 5, 2).expect("valid node");
    let seed_entries = vec![1, 2, 3, 3]
        .into_iter()
        .map(|term| LogEntry {
            term,
            payload: LogPayload::Command(Vec::new()),
        })
        .collect::<Vec<_>>();
    node.step(Event::Step {
        from: NodeId(2),
        message: Message::AppendEntries(AppendEntries {
            term: 3,
            leader_id: NodeId(2),
            prev_log_index: 0,
            prev_log_term: 0,
            entries: seed_entries,
            leader_commit: 0,
        }),
    });
    assert_eq!(node.last_log_index(), 4);
    assert_eq!(node.last_log_term(), 3);

    let effects = node.step(Event::Step {
        from: NodeId(2),
        message: Message::RequestVote(RequestVote {
            term: 9,
            candidate_id: NodeId(2),
            last_log_index: 1,
            last_log_term: 2,
        }),
    });

    assert_eq!(node.role(), Role::Follower);
    assert_eq!(node.current_term(), 9);
    assert_eq!(node.voted_for(), None);
    assert_eq!(
        effects,
        vec![
            Effect::PersistHardState {
                term: 9,
                voted_for: None,
            },
            Effect::Send {
                to: NodeId(2),
                message: Message::RequestVoteResponse(RequestVoteResponse {
                    term: 9,
                    granted: false,
                }),
            }
        ]
    );
}

#[test]
fn steps_down_on_higher_term_vote_response() {
    let peers = vec![NodeId(1), NodeId(2), NodeId(3)];
    let mut node = Node::new(NodeId(1), peers, 1, 1).expect("valid node");
    node.step(Event::Tick { next_timeout: 5 });

    let effects = node.step(Event::Step {
        from: NodeId(2),
        message: Message::RequestVoteResponse(RequestVoteResponse {
            term: 5,
            granted: false,
        }),
    });

    assert_eq!(
        effects,
        vec![Effect::PersistHardState {
            term: 5,
            voted_for: None,
        }]
    );
    assert_eq!(node.role(), Role::Follower);
    assert_eq!(node.current_term(), 5);
    assert_eq!(node.voted_for(), None);
    assert!(node.votes_granted().is_empty());
}

#[test]
fn ignores_stale_term_vote_response() {
    let peers = vec![NodeId(1), NodeId(2), NodeId(3)];
    let mut node = Node::new(NodeId(1), peers, 1, 1).expect("valid node");
    node.step(Event::Tick { next_timeout: 1 });
    node.step(Event::Tick { next_timeout: 1 });
    assert_eq!(node.current_term(), 2);

    let effects = node.step(Event::Step {
        from: NodeId(2),
        message: Message::RequestVoteResponse(RequestVoteResponse {
            term: 1,
            granted: true,
        }),
    });

    assert!(effects.is_empty());
    assert_eq!(node.role(), Role::Candidate);
    assert_eq!(node.current_term(), 2);
    assert_eq!(node.votes_granted(), &[NodeId(1)]);
}

#[test]
fn ignores_request_vote_from_a_nonmember_node_id() {
    let peers = vec![NodeId(1), NodeId(2), NodeId(3)];
    let mut node = Node::new(NodeId(1), peers, 5, 2).expect("valid node");

    let effects = node.step(Event::Step {
        from: NodeId(9),
        message: Message::RequestVote(RequestVote {
            term: 1,
            candidate_id: NodeId(9),
            last_log_index: 0,
            last_log_term: 0,
        }),
    });

    assert!(effects.is_empty());
    assert_eq!(node.current_term(), 0);
    assert_eq!(node.voted_for(), None);
}

#[test]
fn ignores_request_vote_whose_candidate_id_does_not_match_the_sender() {
    let peers = vec![NodeId(1), NodeId(2), NodeId(3)];
    let mut node = Node::new(NodeId(1), peers, 5, 2).expect("valid node");

    let effects = node.step(Event::Step {
        from: NodeId(2),
        message: Message::RequestVote(RequestVote {
            term: 1,
            candidate_id: NodeId(3),
            last_log_index: 0,
            last_log_term: 0,
        }),
    });

    assert!(effects.is_empty());
    assert_eq!(node.current_term(), 0);
    assert_eq!(node.voted_for(), None);
}

#[test]
fn a_nonmember_vote_response_never_counts_toward_quorum() {
    let peers = vec![NodeId(1), NodeId(2), NodeId(3)];
    let mut node = Node::new(NodeId(1), peers, 1, 1).expect("valid node");
    node.step(Event::Tick { next_timeout: 5 });
    assert_eq!(node.role(), Role::Candidate);

    let effects = node.step(Event::Step {
        from: NodeId(9),
        message: Message::RequestVoteResponse(RequestVoteResponse {
            term: 1,
            granted: true,
        }),
    });

    assert!(effects.is_empty());
    assert_eq!(node.role(), Role::Candidate);
    assert_eq!(node.votes_granted(), &[NodeId(1)]);
}

#[test]
fn leader_ignores_tick_events() {
    let mut node = Node::new(NodeId(1), vec![NodeId(1)], 1, 1).expect("valid node");
    node.step(Event::Tick { next_timeout: 5 });
    assert_eq!(node.role(), Role::Leader);

    let effects = node.step(Event::Tick { next_timeout: 9 });

    assert!(effects.is_empty());
    assert_eq!(node.role(), Role::Leader);
    assert_eq!(node.election_elapsed(), 0);
    assert_eq!(node.election_timeout(), 5);
}

fn established_leader() -> Node {
    let peers = vec![NodeId(1), NodeId(2), NodeId(3)];
    let mut node = Node::new(NodeId(1), peers, 1, 1).expect("valid node");
    node.step(Event::Tick { next_timeout: 1 });
    node.step(Event::Step {
        from: NodeId(2),
        message: Message::RequestVoteResponse(RequestVoteResponse {
            term: 1,
            granted: true,
        }),
    });
    assert_eq!(node.role(), Role::Leader);
    node
}

#[test]
fn propose_returns_none_when_not_leader() {
    let peers = vec![NodeId(1), NodeId(2), NodeId(3)];
    let mut node = Node::new(NodeId(1), peers, 5, 2).expect("valid node");

    let result = node.propose(vec![1, 2, 3]);

    assert_eq!(result, None);
    assert!(node.log().is_empty());
}

#[test]
fn propose_appends_entry_and_returns_index_for_leader() {
    let mut node = established_leader();

    let (index, effects) = node.propose(vec![9]).expect("leader accepts propose");

    assert_eq!(index, 1);
    assert_eq!(
        effects,
        vec![Effect::PersistLog {
            from_index: 1,
            entries: vec![LogEntry {
                term: 1,
                payload: LogPayload::Command(vec![9]),
            }],
        }]
    );
    assert_eq!(
        node.log(),
        &[LogEntry {
            term: 1,
            payload: LogPayload::Command(vec![9]),
        }]
    );
}

#[test]
fn propose_commits_immediately_in_a_single_node_cluster() {
    let mut node = Node::new(NodeId(1), vec![NodeId(1)], 1, 1).expect("valid node");
    node.step(Event::Tick { next_timeout: 5 });
    assert_eq!(node.role(), Role::Leader);

    let (index, _effects) = node.propose(vec![1]).expect("leader accepts propose");

    assert_eq!(index, 1);
    assert_eq!(node.commit_index(), 1);
}

#[test]
fn propose_config_change_on_a_single_node_cluster_completes_the_full_joint_to_plain_lifecycle()
{
    let mut node = Node::new(NodeId(1), vec![NodeId(1)], 1, 1).expect("valid node");
    node.step(Event::Tick { next_timeout: 5 });
    assert_eq!(node.role(), Role::Leader);
    assert_eq!(
        node.current_config(),
        &ClusterConfig {
            voters: vec![NodeId(1)],
            old_voters: None,
        }
    );

    let (index, effects) = node
        .propose_config_change(vec![NodeId(1)])
        .expect("leader accepts a config change");

    assert_eq!(
        index, 1,
        "the joint entry is index 1 -- there is no bootstrap log entry"
    );
    assert_eq!(
        effects,
        vec![
            Effect::PersistLog {
                from_index: 1,
                entries: vec![LogEntry {
                    term: 1,
                    payload: LogPayload::Configuration(ClusterConfig {
                        voters: vec![NodeId(1)],
                        old_voters: Some(vec![NodeId(1)]),
                    }),
                }],
            },
            Effect::PersistLog {
                from_index: 2,
                entries: vec![LogEntry {
                    term: 1,
                    payload: LogPayload::Configuration(ClusterConfig {
                        voters: vec![NodeId(1)],
                        old_voters: None,
                    }),
                }],
            },
        ]
    );
    assert_eq!(node.commit_index(), 2);
    assert_eq!(
        node.current_config(),
        &ClusterConfig {
            voters: vec![NodeId(1)],
            old_voters: None,
        },
        "the automatic C_new follow-up committed too, clearing old_voters again"
    );
    assert_eq!(
        node.role(),
        Role::Leader,
        "self is still a voter under C_new, so no step-down fires"
    );
}

#[test]
fn promoting_a_learner_via_config_change_removes_it_from_learners_and_persists_the_change() {
    let mut node = Node::new(NodeId(1), vec![NodeId(1)], 1, 1).expect("valid node");
    node.step(Event::Tick { next_timeout: 5 });
    assert_eq!(node.role(), Role::Leader);

    let add_effects = node.add_learner(NodeId(2));
    assert!(
        add_effects
            .iter()
            .any(|effect| matches!(effect, Effect::PersistLearners { learners } if learners == &[NodeId(2)]))
    );
    assert_eq!(node.learners(), &[NodeId(2)]);

    let (_, effects) = node
        .propose_config_change(vec![NodeId(1), NodeId(2)])
        .expect("leader accepts a config change promoting its learner");

    assert!(
        node.learners().is_empty(),
        "a promoted learner must not still be tracked as one"
    );
    assert!(
        effects
            .iter()
            .any(|effect| matches!(effect, Effect::PersistLearners { learners } if learners.is_empty())),
        "the now-empty learner set must be persisted, not just changed in memory"
    );
}

#[test]
fn a_leader_excluded_from_c_new_steps_down_only_once_c_new_commits_not_c_old_new() {
    let mut node = established_leader();
    assert_eq!(node.current_term(), 1);
    assert_eq!(node.voted_for(), Some(NodeId(1)));

    node.propose_config_change(vec![NodeId(2), NodeId(3)])
        .expect("leader accepts a config change that excludes itself");
    assert_eq!(
        node.current_config(),
        &ClusterConfig {
            voters: vec![NodeId(2), NodeId(3)],
            old_voters: Some(vec![NodeId(1), NodeId(2), NodeId(3)]),
        },
        "the joint config takes effect immediately, even before it commits"
    );

    node.step(Event::Step {
        from: NodeId(2),
        message: Message::AppendEntriesResponse(AppendEntriesResponse {
            term: 1,
            success: true,
            match_index: 1,
        }),
    });
    assert_eq!(
        node.commit_index(),
        0,
        "the new set alone (only node 2 of the new voters) has not reached its own majority"
    );
    assert_eq!(node.role(), Role::Leader);

    node.step(Event::Step {
        from: NodeId(3),
        message: Message::AppendEntriesResponse(AppendEntriesResponse {
            term: 1,
            success: true,
            match_index: 1,
        }),
    });
    assert_eq!(node.commit_index(), 1, "the joint entry has now committed");
    assert_eq!(
        node.current_config(),
        &ClusterConfig {
            voters: vec![NodeId(2), NodeId(3)],
            old_voters: None,
        },
        "C_new takes effect immediately, before it has itself committed"
    );
    assert_eq!(
        node.role(),
        Role::Leader,
        "excluding self from C_new only matters once C_new itself commits"
    );

    node.step(Event::Step {
        from: NodeId(2),
        message: Message::AppendEntriesResponse(AppendEntriesResponse {
            term: 1,
            success: true,
            match_index: 2,
        }),
    });
    assert_eq!(node.commit_index(), 1);
    assert_eq!(node.role(), Role::Leader);

    let effects = node.step(Event::Step {
        from: NodeId(3),
        message: Message::AppendEntriesResponse(AppendEntriesResponse {
            term: 1,
            success: true,
            match_index: 2,
        }),
    });

    assert_eq!(node.commit_index(), 2);
    assert_eq!(
        node.role(),
        Role::Follower,
        "C_new commits and excludes self -- step down"
    );
    assert_eq!(
        node.current_term(),
        1,
        "this step-down is config-triggered, not term-driven -- the term is unchanged"
    );
    assert_eq!(
        node.voted_for(),
        Some(NodeId(1)),
        "retire_from_leadership must not touch voted_for, unlike step_down"
    );
    assert!(
        effects.is_empty(),
        "no leader-replication Send may appear in the batch that produced the step-down"
    );
}

#[test]
fn proposing_a_config_change_that_adds_a_never_seeded_voter_does_not_panic_or_commit_early() {
    let mut node = established_leader();

    let (index, _effects) = node
        .propose_config_change(vec![NodeId(1), NodeId(2), NodeId(3), NodeId(4)])
        .expect("leader accepts a config change that adds a new voter");

    assert_eq!(
        node.current_config(),
        &ClusterConfig {
            voters: vec![NodeId(1), NodeId(2), NodeId(3), NodeId(4)],
            old_voters: Some(vec![NodeId(1), NodeId(2), NodeId(3)]),
        }
    );
    assert_eq!(node.commit_index(), 0);
    assert_eq!(
        node.role(),
        Role::Leader,
        "no panic, no premature step-down"
    );
    assert_eq!(index, 1);
}

#[test]
fn add_learner_is_a_no_op_when_not_leader() {
    let peers = vec![NodeId(1), NodeId(2), NodeId(3)];
    let mut node = Node::new(NodeId(1), peers, 5, 2).expect("valid node");

    let effects = node.add_learner(NodeId(4));

    assert!(effects.is_empty());
    assert!(node.learners().is_empty());
}

#[test]
fn add_learner_is_a_no_op_for_an_existing_voter() {
    let mut node = established_leader();

    let effects = node.add_learner(NodeId(2));

    assert!(
        effects.is_empty(),
        "a voter doesn't need learner tracking too -- the two states must not coexist"
    );
    assert!(node.learners().is_empty());
}

#[test]
fn remove_learner_is_a_no_op_when_not_tracked() {
    let mut node = established_leader();

    let effects = node.remove_learner(NodeId(4));

    assert!(effects.is_empty());
}

#[test]
fn remove_learner_untracks_and_persists_the_updated_set() {
    let mut node = established_leader();
    node.add_learner(NodeId(4));

    let effects = node.remove_learner(NodeId(4));

    assert_eq!(
        effects,
        vec![Effect::PersistLearners {
            learners: Vec::new()
        }]
    );
    assert!(node.learners().is_empty());
}

#[test]
fn a_learner_is_replicated_to_but_never_counted_toward_quorum() {
    let mut node = established_leader();

    let effects = node.add_learner(NodeId(4));
    assert_eq!(
        effects,
        vec![Effect::PersistLearners {
            learners: vec![NodeId(4)],
        }]
    );
    assert_eq!(node.learners(), &[NodeId(4)]);

    let effects = node.step(Event::Tick { next_timeout: 5 });
    assert!(
        effects
            .iter()
            .any(|effect| matches!(effect, Effect::Send { to: NodeId(4), .. })),
        "a tracked learner must receive ordinary replication"
    );

    node.step(Event::Step {
        from: NodeId(4),
        message: Message::AppendEntriesResponse(AppendEntriesResponse {
            term: node.current_term(),
            success: true,
            match_index: 1000,
        }),
    });
    assert_eq!(node.commit_index(), 0);
    assert_eq!(
        node.current_config(),
        &ClusterConfig {
            voters: vec![NodeId(1), NodeId(2), NodeId(3)],
            old_voters: None,
        },
        "the learner's response must not have touched membership either"
    );
}

#[test]
fn add_learner_then_promote_via_config_change_then_tick_replicates_without_panicking() {
    let mut node = established_leader();

    node.add_learner(NodeId(4));

    node.propose_config_change(vec![NodeId(1), NodeId(2), NodeId(3), NodeId(4)])
        .expect("leader accepts a config change promoting an existing learner");
    assert_eq!(
        node.current_config(),
        &ClusterConfig {
            voters: vec![NodeId(1), NodeId(2), NodeId(3), NodeId(4)],
            old_voters: Some(vec![NodeId(1), NodeId(2), NodeId(3)]),
        }
    );

    let effects = node.step(Event::Tick { next_timeout: 5 });

    assert!(
        effects
            .iter()
            .any(|effect| matches!(effect, Effect::Send { to: NodeId(4), .. })),
        "the newly promoted member must actually be replicated to, not just committed to config"
    );
}

#[test]
fn a_node_excluded_from_current_config_never_calls_its_own_election() {
    let peers = vec![NodeId(1), NodeId(2), NodeId(3)];
    let mut node = Node::new(NodeId(1), peers, 3, 1).expect("valid node");

    node.step(Event::Step {
        from: NodeId(2),
        message: Message::AppendEntries(AppendEntries {
            term: 1,
            leader_id: NodeId(2),
            prev_log_index: 0,
            prev_log_term: 0,
            entries: vec![LogEntry {
                term: 1,
                payload: LogPayload::Configuration(ClusterConfig {
                    voters: vec![NodeId(2), NodeId(3)],
                    old_voters: None,
                }),
            }],
            leader_commit: 0,
        }),
    });
    assert!(!node.current_config().is_voter(NodeId(1)));

    for _ in 0..20 {
        node.step(Event::Tick { next_timeout: 3 });
    }

    assert_eq!(
        node.role(),
        Role::Follower,
        "an excluded node must never self-elect"
    );
    assert_eq!(
        node.current_term(),
        1,
        "no election attempt was ever made, so the term never bumped past what the AppendEntries carried"
    );
}

#[test]
fn a_leader_that_just_retired_never_re_campaigns() {
    let mut node = established_leader();
    node.propose_config_change(vec![NodeId(2), NodeId(3)])
        .expect("leader accepts a config change that excludes itself");

    for match_index in [1, 2] {
        node.step(Event::Step {
            from: NodeId(2),
            message: Message::AppendEntriesResponse(AppendEntriesResponse {
                term: node.current_term(),
                success: true,
                match_index,
            }),
        });
        node.step(Event::Step {
            from: NodeId(3),
            message: Message::AppendEntriesResponse(AppendEntriesResponse {
                term: node.current_term(),
                success: true,
                match_index,
            }),
        });
    }
    assert_eq!(node.role(), Role::Follower, "retired once C_new committed");
    let term_after_retirement = node.current_term();

    for _ in 0..20 {
        node.step(Event::Tick { next_timeout: 3 });
    }

    assert_eq!(
        node.role(),
        Role::Follower,
        "a retired leader must never re-campaign on its own"
    );
    assert_eq!(
        node.current_term(),
        term_after_retirement,
        "no election attempt means no term bump"
    );
}

#[test]
fn compact_discards_the_committed_prefix_and_persists_the_snapshot() {
    let mut node = Node::new(NodeId(1), vec![NodeId(1)], 1, 1).expect("valid node");
    node.step(Event::Tick { next_timeout: 5 });
    node.propose(vec![1]);
    node.propose(vec![2]);
    node.propose(vec![3]);
    assert_eq!(node.commit_index(), 3);

    let effects = node.compact(2, vec![9, 9]).expect("2 is committed");

    assert_eq!(
        effects,
        vec![
            Effect::PersistSnapshot {
                last_included_index: 2,
                last_included_term: 1,
                data: vec![9, 9],
                config: ClusterConfig {
                    voters: vec![NodeId(1)],
                    old_voters: None,
                },
            },
            Effect::PersistLog {
                from_index: 3,
                entries: vec![LogEntry {
                    term: 1,
                    payload: LogPayload::Command(vec![3]),
                }],
            },
        ]
    );
    assert_eq!(
        node.snapshot(),
        SnapshotMetadata {
            last_included_index: 2,
            last_included_term: 1,
        }
    );
    assert_eq!(node.snapshot_data(), &[9, 9]);
    assert_eq!(
        node.log(),
        &[LogEntry {
            term: 1,
            payload: LogPayload::Command(vec![3])
        }]
    );
    assert_eq!(node.last_log_index(), 3);
    assert_eq!(node.entry_at(2), None);
    assert_eq!(
        node.entry_at(3),
        Some(&LogEntry {
            term: 1,
            payload: LogPayload::Command(vec![3])
        })
    );
}

#[test]
fn compact_through_the_entire_log_persists_an_empty_retained_suffix() {
    let mut node = Node::new(NodeId(1), vec![NodeId(1)], 1, 1).expect("valid node");
    node.step(Event::Tick { next_timeout: 5 });
    node.propose(vec![1]);
    node.propose(vec![2]);

    let effects = node.compact(2, vec![9]).expect("2 is committed");

    assert_eq!(
        effects,
        vec![
            Effect::PersistSnapshot {
                last_included_index: 2,
                last_included_term: 1,
                data: vec![9],
                config: ClusterConfig {
                    voters: vec![NodeId(1)],
                    old_voters: None,
                },
            },
            Effect::PersistLog {
                from_index: 3,
                entries: Vec::new(),
            },
        ]
    );
    assert!(node.log().is_empty());
}

#[test]
fn compact_leaves_snapshot_config_untouched_when_the_active_config_entry_is_above_the_boundary()
{
    let mut node = Node::new(NodeId(1), vec![NodeId(1)], 1, 1).expect("valid node");
    node.step(Event::Tick { next_timeout: 5 });
    node.propose(vec![1]);
    assert_eq!(node.commit_index(), 1);

    let joint_config = ClusterConfig {
        voters: vec![NodeId(1), NodeId(2)],
        old_voters: Some(vec![NodeId(1)]),
    };
    node.propose_config_change(vec![NodeId(1), NodeId(2)])
        .expect("leader accepts propose_config_change");
    assert_eq!(node.current_config(), &joint_config);
    assert_eq!(node.commit_index(), 1);

    let bootstrap_config = ClusterConfig {
        voters: vec![NodeId(1)],
        old_voters: None,
    };
    let effects = node.compact(1, vec![9]).expect("1 is committed");

    assert_eq!(
        effects,
        vec![
            Effect::PersistSnapshot {
                last_included_index: 1,
                last_included_term: 1,
                data: vec![9],
                config: bootstrap_config,
            },
            Effect::PersistLog {
                from_index: 2,
                entries: vec![LogEntry {
                    term: 1,
                    payload: LogPayload::Configuration(joint_config.clone()),
                }],
            },
        ]
    );
    assert_eq!(node.current_config(), &joint_config);
}

#[test]
fn a_config_entry_truncated_after_compaction_falls_back_to_the_boundarys_real_config_not_the_discarded_one()
 {
    let mut node = Node::new(NodeId(1), vec![NodeId(1)], 1, 1).expect("valid node");
    node.step(Event::Tick { next_timeout: 5 });
    node.propose(vec![1]);
    assert_eq!(node.commit_index(), 1);

    node.propose_config_change(vec![NodeId(1), NodeId(2)])
        .expect("leader accepts propose_config_change");
    assert_eq!(node.commit_index(), 1);

    node.compact(1, vec![9]).expect("1 is committed");
    assert_eq!(
        node.current_config(),
        &ClusterConfig {
            voters: vec![NodeId(1), NodeId(2)],
            old_voters: Some(vec![NodeId(1)]),
        },
        "the uncommitted config entry survives the drain, so it's still current"
    );

    node.step(Event::Step {
        from: NodeId(2),
        message: Message::AppendEntries(AppendEntries {
            term: 2,
            leader_id: NodeId(2),
            prev_log_index: 1,
            prev_log_term: 1,
            entries: vec![LogEntry {
                term: 2,
                payload: LogPayload::Command(vec![2]),
            }],
            leader_commit: 1,
        }),
    });

    assert_eq!(
        node.current_config(),
        &ClusterConfig {
            voters: vec![NodeId(1)],
            old_voters: None,
        },
        "falling back to snapshot_config after truncation must land on the \
         boundary's real config, not the discarded entry's"
    );
}

#[test]
fn compact_past_commit_index_is_rejected() {
    let mut node = established_leader();
    node.propose(vec![1]);
    assert_eq!(node.commit_index(), 0);

    let error = node
        .compact(1, Vec::new())
        .expect_err("index 1 is not committed yet");

    assert_eq!(error, CompactError::IndexNotCommitted);
}

#[test]
fn compact_at_or_before_the_current_boundary_is_a_no_op() {
    let mut node = Node::new(NodeId(1), vec![NodeId(1)], 1, 1).expect("valid node");
    node.step(Event::Tick { next_timeout: 5 });
    node.propose(vec![1]);
    node.propose(vec![2]);
    node.compact(1, vec![1]).expect("1 is committed");

    let effects = node
        .compact(1, vec![9])
        .expect("already-compacted index is a no-op");

    assert!(effects.is_empty());
    assert_eq!(
        node.snapshot(),
        SnapshotMetadata {
            last_included_index: 1,
            last_included_term: 1,
        }
    );
    assert_eq!(node.snapshot_data(), &[1]);
}

#[test]
fn on_install_snapshot_response_advances_match_and_next_index_and_retries() {
    let mut node = established_leader();
    node.propose(vec![1]);
    node.propose(vec![2]);

    let effects = node.step(Event::Step {
        from: NodeId(2),
        message: Message::InstallSnapshotResponse(InstallSnapshotResponse {
            term: 1,
            last_included_index: 1,
        }),
    });

    assert_eq!(node.commit_index(), 1);
    assert_eq!(
        effects,
        vec![Effect::Send {
            to: NodeId(2),
            message: Message::AppendEntries(AppendEntries {
                term: 1,
                leader_id: NodeId(1),
                prev_log_index: 1,
                prev_log_term: 1,
                entries: vec![LogEntry {
                    term: 1,
                    payload: LogPayload::Command(vec![2]),
                }],
                leader_commit: 1,
            }),
        }]
    );
}

#[test]
fn on_install_snapshot_response_steps_down_on_higher_term() {
    let mut node = established_leader();

    let effects = node.step(Event::Step {
        from: NodeId(3),
        message: Message::InstallSnapshotResponse(InstallSnapshotResponse {
            term: 5,
            last_included_index: 0,
        }),
    });

    assert_eq!(
        effects,
        vec![Effect::PersistHardState {
            term: 5,
            voted_for: None,
        }]
    );
    assert_eq!(node.role(), Role::Follower);
    assert_eq!(node.current_term(), 5);
}

#[test]
fn on_append_entries_response_advances_match_and_next_index_on_success() {
    let mut node = established_leader();
    node.propose(vec![1]);

    let effects = node.step(Event::Step {
        from: NodeId(2),
        message: Message::AppendEntriesResponse(AppendEntriesResponse {
            term: 1,
            success: true,
            match_index: 1,
        }),
    });

    assert_eq!(node.commit_index(), 1);
    assert!(effects.is_empty());
}

#[test]
fn on_append_entries_response_backs_off_next_index_and_retries_on_failure() {
    let mut node = established_leader();
    node.propose(vec![1]);
    node.propose(vec![2]);

    let effects = node.step(Event::Step {
        from: NodeId(2),
        message: Message::AppendEntriesResponse(AppendEntriesResponse {
            term: 1,
            success: false,
            match_index: 0,
        }),
    });

    assert_eq!(
        effects,
        vec![Effect::Send {
            to: NodeId(2),
            message: Message::AppendEntries(AppendEntries {
                term: 1,
                leader_id: NodeId(1),
                prev_log_index: 0,
                prev_log_term: 0,
                entries: vec![
                    LogEntry {
                        term: 1,
                        payload: LogPayload::Command(vec![1]),
                    },
                    LogEntry {
                        term: 1,
                        payload: LogPayload::Command(vec![2]),
                    },
                ],
                leader_commit: 0,
            }),
        }]
    );
}

#[test]
fn leader_sends_install_snapshot_instead_of_append_entries_once_a_peers_next_index_falls_to_or_below_the_boundary()
 {
    let mut node = established_leader();
    node.propose(vec![1]);
    node.propose(vec![2]);
    node.propose(vec![3]);

    node.step(Event::Step {
        from: NodeId(2),
        message: Message::AppendEntriesResponse(AppendEntriesResponse {
            term: 1,
            success: true,
            match_index: 3,
        }),
    });
    assert_eq!(node.commit_index(), 3);

    node.compact(3, vec![9, 9]).expect("index 3 is committed");

    let effects = node.step(Event::Tick { next_timeout: 5 });

    assert_eq!(
        effects,
        vec![
            Effect::Send {
                to: NodeId(2),
                message: Message::AppendEntries(AppendEntries {
                    term: 1,
                    leader_id: NodeId(1),
                    prev_log_index: 3,
                    prev_log_term: 1,
                    entries: Vec::new(),
                    leader_commit: 3,
                }),
            },
            Effect::Send {
                to: NodeId(3),
                message: Message::InstallSnapshot(InstallSnapshot {
                    term: 1,
                    leader_id: NodeId(1),
                    last_included_index: 3,
                    last_included_term: 1,
                    data: vec![9, 9],
                    config: ClusterConfig {
                        voters: vec![NodeId(1), NodeId(2), NodeId(3)],
                        old_voters: None,
                    },
                }),
            },
        ]
    );
}

#[test]
fn leader_does_not_commit_a_prior_term_entry_by_replica_count_alone() {
    let mut node = established_leader();
    node.propose(vec![1]);
    assert_eq!(node.commit_index(), 0);

    node.step(Event::Step {
        from: NodeId(2),
        message: Message::AppendEntries(AppendEntries {
            term: 2,
            leader_id: NodeId(2),
            prev_log_index: 1,
            prev_log_term: 1,
            entries: Vec::new(),
            leader_commit: 0,
        }),
    });
    assert_eq!(node.role(), Role::Follower);
    assert_eq!(node.log().len(), 1);

    node.step(Event::Tick { next_timeout: 5 });
    assert_eq!(node.current_term(), 3);
    node.step(Event::Step {
        from: NodeId(2),
        message: Message::RequestVoteResponse(RequestVoteResponse {
            term: 3,
            granted: true,
        }),
    });
    assert_eq!(node.role(), Role::Leader);

    node.propose(vec![2]);

    node.step(Event::Step {
        from: NodeId(2),
        message: Message::AppendEntriesResponse(AppendEntriesResponse {
            term: 3,
            success: true,
            match_index: 1,
        }),
    });
    assert_eq!(node.commit_index(), 0);

    node.step(Event::Step {
        from: NodeId(2),
        message: Message::AppendEntriesResponse(AppendEntriesResponse {
            term: 3,
            success: true,
            match_index: 2,
        }),
    });
    assert_eq!(node.commit_index(), 2);
}

#[test]
fn a_joint_election_requires_a_majority_of_both_the_old_and_new_voters() {
    let joint_config = ClusterConfig {
        voters: vec![NodeId(1), NodeId(4), NodeId(5)],
        old_voters: Some(vec![NodeId(1), NodeId(2), NodeId(3)]),
    };
    let log = vec![LogEntry {
        term: 0,
        payload: LogPayload::Configuration(joint_config.clone()),
    }];
    let mut node = Node::recover(
        NodeId(1),
        vec![NodeId(1)],
        3,
        3,
        HardState::default(),
        log,
        Snapshot::default(),
        Vec::new(),
    )
    .expect("valid node");
    assert_eq!(node.current_config(), &joint_config);

    node.step(Event::Tick { next_timeout: 5 });
    node.step(Event::Tick { next_timeout: 5 });
    let effects = node.step(Event::Tick { next_timeout: 5 });
    assert_eq!(node.role(), Role::Candidate);
    assert!(
        effects
            .iter()
            .any(|effect| matches!(effect, Effect::Send { to: NodeId(4), .. }))
    );

    node.step(Event::Step {
        from: NodeId(4),
        message: Message::RequestVoteResponse(RequestVoteResponse {
            term: node.current_term(),
            granted: true,
        }),
    });
    assert_eq!(
        node.role(),
        Role::Candidate,
        "new-set majority alone must not win a joint election"
    );

    let effects = node.step(Event::Step {
        from: NodeId(2),
        message: Message::RequestVoteResponse(RequestVoteResponse {
            term: node.current_term(),
            granted: true,
        }),
    });

    assert_eq!(node.role(), Role::Leader);
    assert!(!effects.is_empty());
}

#[test]
fn a_joint_commit_requires_match_progress_on_both_the_old_and_new_voters() {
    let joint_config = ClusterConfig {
        voters: vec![NodeId(1), NodeId(4), NodeId(5)],
        old_voters: Some(vec![NodeId(1), NodeId(4)]),
    };
    let log = vec![LogEntry {
        term: 0,
        payload: LogPayload::Configuration(joint_config.clone()),
    }];
    let mut node = Node::recover(
        NodeId(1),
        vec![NodeId(1)],
        3,
        3,
        HardState::default(),
        log,
        Snapshot::default(),
        Vec::new(),
    )
    .expect("valid node");

    node.step(Event::Tick { next_timeout: 5 });
    node.step(Event::Tick { next_timeout: 5 });
    node.step(Event::Tick { next_timeout: 5 });
    node.step(Event::Step {
        from: NodeId(4),
        message: Message::RequestVoteResponse(RequestVoteResponse {
            term: node.current_term(),
            granted: true,
        }),
    });
    assert_eq!(node.role(), Role::Leader);

    let (index, _effects) = node.propose(vec![9]).expect("leader accepts propose");
    assert_eq!(index, 2, "index 1 is the joint config entry itself");
    assert_eq!(node.commit_index(), 0);

    node.step(Event::Step {
        from: NodeId(5),
        message: Message::AppendEntriesResponse(AppendEntriesResponse {
            term: node.current_term(),
            success: true,
            match_index: index,
        }),
    });
    assert_eq!(
        node.commit_index(),
        0,
        "new-set majority alone must not commit a joint entry"
    );

    node.step(Event::Step {
        from: NodeId(4),
        message: Message::AppendEntriesResponse(AppendEntriesResponse {
            term: node.current_term(),
            success: true,
            match_index: index,
        }),
    });
    assert_eq!(node.commit_index(), index);
}
