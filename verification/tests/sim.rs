//! Clusters, simulated disks and simulations.

use std::collections::BTreeMap;

use kurogane::raft::{
    AppendEntries, AppendEntriesResponse, ClusterConfig, Effect, Event, HardState,
    InstallSnapshot, InstallSnapshotResponse, LogEntry, LogPayload, Message, Node, NodeId,
    RequestVote, RequestVoteResponse, Role, Snapshot, SnapshotMetadata,
};
use kurogane::sim::{Cluster, ClusterError, DurableState, Simulation};

fn node(id: u64, peers: &[NodeId]) -> Node {
    Node::new(NodeId(id), peers.to_vec(), 10 + id, 1).expect("valid node")
}

#[test]
fn iterates_nodes_in_canonical_order() {
    let peers = [NodeId(1), NodeId(2), NodeId(3)];
    let cluster = Cluster::new(vec![node(3, &peers), node(1, &peers), node(2, &peers)])
        .expect("valid cluster");

    assert_eq!(cluster.len(), 3);
    assert_eq!(
        cluster.node_ids().to_vec(),
        vec![NodeId(1), NodeId(2), NodeId(3)]
    );
}

#[test]
fn rejects_duplicate_nodes() {
    let peers = [NodeId(1)];
    let result = Cluster::new(vec![node(1, &peers), node(1, &peers)]);

    assert_eq!(
        result.expect_err("duplicate node must fail"),
        ClusterError::DuplicateNode(NodeId(1))
    );
}

#[test]
fn allows_divergent_or_incomplete_membership_views() {
    let shared = [NodeId(1), NodeId(2)];
    let different = [NodeId(1), NodeId(2), NodeId(3)];
    let divergent = Cluster::new(vec![
        node(1, &shared),
        node(2, &different),
        node(3, &different),
    ]);
    assert!(
        divergent.is_ok(),
        "divergent membership views must be accepted, not rejected"
    );

    let incomplete = Cluster::new(vec![node(1, &shared)]);
    assert!(
        incomplete.is_ok(),
        "a node whose own voter list names an absent member must be accepted -- \
         Cluster::new doesn't consult any node's config at all"
    );
}

#[test]
fn replace_node_swaps_a_member_in_place() {
    let peers = [NodeId(1), NodeId(2)];
    let mut cluster =
        Cluster::new(vec![node(1, &peers), node(2, &peers)]).expect("valid cluster");

    let recovered = Node::recover(
        NodeId(1),
        peers.to_vec(),
        11,
        1,
        HardState {
            current_term: 7,
            voted_for: Some(NodeId(2)),
        },
        Vec::new(),
        Snapshot::default(),
        Vec::new(),
    )
    .expect("valid node");
    cluster.replace_node(recovered);

    assert_eq!(cluster.len(), 2);
    assert_eq!(
        cluster.node(NodeId(1)).expect("known node").current_term(),
        7
    );
    assert_eq!(
        cluster.node(NodeId(1)).expect("known node").voted_for(),
        Some(NodeId(2))
    );
}

#[test]
fn durable_state_accumulates_hard_state_and_splices_the_log() {
    let mut durable = DurableState::default();

    durable.apply(&Effect::PersistHardState {
        term: 1,
        voted_for: Some(NodeId(2)),
    });
    durable.apply(&Effect::PersistLog {
        from_index: 1,
        entries: vec![
            LogEntry {
                term: 1,
                payload: LogPayload::Command(vec![1]),
            },
            LogEntry {
                term: 1,
                payload: LogPayload::Command(vec![2]),
            },
        ],
    });

    assert_eq!(
        durable.hard_state(),
        HardState {
            current_term: 1,
            voted_for: Some(NodeId(2)),
        }
    );
    assert_eq!(durable.log().len(), 2);

    let replacement = LogEntry {
        term: 2,
        payload: LogPayload::Command(vec![9]),
    };
    durable.apply(&Effect::PersistHardState {
        term: 2,
        voted_for: None,
    });
    durable.apply(&Effect::PersistLog {
        from_index: 2,
        entries: vec![replacement.clone()],
    });

    assert_eq!(
        durable.hard_state(),
        HardState {
            current_term: 2,
            voted_for: None,
        }
    );
    assert_eq!(durable.log().len(), 2);
    assert_eq!(durable.log()[1], replacement);
}

#[test]
fn durable_state_persist_snapshot_then_persist_log_uses_the_new_boundary() {
    let mut durable = DurableState::default();
    durable.apply(&Effect::PersistLog {
        from_index: 1,
        entries: vec![
            LogEntry {
                term: 1,
                payload: LogPayload::Command(vec![1]),
            },
            LogEntry {
                term: 1,
                payload: LogPayload::Command(vec![2]),
            },
            LogEntry {
                term: 1,
                payload: LogPayload::Command(vec![3]),
            },
        ],
    });

    durable.apply(&Effect::PersistSnapshot {
        last_included_index: 3,
        last_included_term: 1,
        data: vec![9, 9],
        config: ClusterConfig {
            voters: vec![NodeId(1)],
            old_voters: None,
        },
    });
    durable.apply(&Effect::PersistLog {
        from_index: 4,
        entries: Vec::new(),
    });

    durable.apply(&Effect::PersistLog {
        from_index: 4,
        entries: vec![LogEntry {
            term: 1,
            payload: LogPayload::Command(vec![4]),
        }],
    });

    assert_eq!(
        durable.snapshot(),
        SnapshotMetadata {
            last_included_index: 3,
            last_included_term: 1,
        }
    );
    assert_eq!(durable.snapshot_data(), &[9, 9]);
    assert_eq!(
        durable.log(),
        &[LogEntry {
            term: 1,
            payload: LogPayload::Command(vec![4])
        }]
    );
    assert_eq!(
        durable.snapshot_config(),
        &ClusterConfig {
            voters: vec![NodeId(1)],
            old_voters: None,
        }
    );
}

#[test]
fn durable_state_persists_learners_and_a_recovered_node_prefers_the_snapshots_own_config() {
    let mut durable = DurableState::default();

    durable.apply(&Effect::PersistLearners {
        learners: vec![NodeId(4)],
    });
    assert_eq!(durable.learners(), &[NodeId(4)]);

    let real_config = ClusterConfig {
        voters: vec![NodeId(1), NodeId(2), NodeId(4)],
        old_voters: Some(vec![NodeId(1), NodeId(2)]),
    };
    durable.apply(&Effect::PersistSnapshot {
        last_included_index: 5,
        last_included_term: 1,
        data: vec![1, 2, 3],
        config: real_config.clone(),
    });
    assert_eq!(durable.snapshot_config(), &real_config);

    let stale_peers = vec![NodeId(1), NodeId(2)];
    let recovered = Node::recover(
        NodeId(1),
        stale_peers,
        1,
        1,
        durable.hard_state(),
        durable.log().to_vec(),
        Snapshot {
            metadata: durable.snapshot(),
            data: durable.snapshot_data().to_vec(),
            config: durable.snapshot_config().clone(),
        },
        durable.learners().to_vec(),
    )
    .expect("valid node");

    assert_eq!(recovered.current_config(), &real_config);
}

#[test]
fn durable_state_ignores_send_effects() {
    let mut durable = DurableState::default();

    durable.apply(&Effect::Send {
        to: NodeId(2),
        message: Message::RequestVoteResponse(RequestVoteResponse {
            term: 1,
            granted: true,
        }),
    });

    assert_eq!(durable.hard_state(), HardState::default());
    assert!(durable.log().is_empty());
}

fn three_node_cluster(election_timeout: u64, heartbeat_interval: u64) -> Cluster {
    let peers = [NodeId(1), NodeId(2), NodeId(3)];
    Cluster::new(
        peers
            .iter()
            .map(|&id| {
                Node::new(id, peers.to_vec(), election_timeout, heartbeat_interval)
                    .expect("valid node")
            })
            .collect(),
    )
    .expect("valid cluster")
}

fn run_until_leader_checking_invariants(simulation: &mut Simulation, max_ticks: u64) -> NodeId {
    let mut leader_by_term: BTreeMap<u64, NodeId> = BTreeMap::new();

    for _ in 0..max_ticks {
        simulation.step();

        let leaders = simulation.leaders();
        assert!(
            leaders.len() <= 1,
            "no more than one leader may exist at once, saw {leaders:?}"
        );

        for &(id, term) in &leaders {
            match leader_by_term.get(&term) {
                Some(&existing) if existing != id => {
                    panic!(
                        "two different leaders observed in term {term}: {existing:?} and {id:?}"
                    );
                }
                _ => {
                    leader_by_term.insert(term, id);
                }
            }
        }

        if let Some(&(id, _)) = leaders.first() {
            return id;
        }
    }

    panic!("cluster failed to elect a leader within {max_ticks} ticks");
}

fn sends(from: NodeId, effects: Vec<Effect>, isolated: &[NodeId]) -> Vec<(NodeId, NodeId, Message)> {
    effects
        .into_iter()
        .filter_map(|effect| match effect {
            Effect::Send { to, message } if !isolated.contains(&to) => Some((from, to, message)),
            _ => None,
        })
        .collect()
}

fn deliver_until_quiescent(
    cluster: &mut Cluster,
    isolated: &[NodeId],
    from: NodeId,
    effects: Vec<Effect>,
) {
    let mut pending: Vec<(NodeId, NodeId, Message)> = sends(from, effects, isolated);

    let mut guard = 0;
    while let Some((from, to, message)) = pending.pop() {
        guard += 1;
        assert!(guard < 10_000, "deliver_until_quiescent did not converge");

        let response = cluster
            .node_mut(to)
            .expect("known node")
            .step(Event::Step { from, message });
        pending.extend(sends(to, response, isolated));
    }
}

fn message_to(effects: &[Effect], to: NodeId) -> Option<Message> {
    let mut found = None;
    for effect in effects {
        if let Effect::Send {
            to: target,
            message,
        } = effect
        {
            if *target == to {
                assert!(found.is_none(), "expected at most one message to {to:?}");
                found = Some(message.clone());
            }
        }
    }
    found
}

fn assert_at_most_one_leader(cluster: &Cluster) {
    let leaders: Vec<(NodeId, u64)> = cluster
        .node_ids()
        .iter()
        .filter_map(|&id| {
            let node = cluster.node(id).expect("known node");
            (node.role() == Role::Leader).then_some((id, node.current_term()))
        })
        .collect();
    assert!(
        leaders.len() <= 1,
        "no more than one leader may exist at once, saw {leaders:?}"
    );
}

#[test]
fn elects_a_single_leader_and_never_two_in_the_same_term() {
    let mut simulation = Simulation::new(three_node_cluster(3, 1), 42, 3, 6, 1, 2);

    run_until_leader_checking_invariants(&mut simulation, 200);
}

#[test]
fn same_seed_and_schedule_reproduces_an_identical_trace() {
    let mut first = Simulation::new(three_node_cluster(3, 1), 7, 3, 6, 1, 2);
    let mut second = Simulation::new(three_node_cluster(3, 1), 7, 3, 6, 1, 2);

    for _ in 0..50 {
        first.step();
        second.step();
    }

    assert_eq!(first.trace(), second.trace());
}

#[test]
fn stable_leadership_prevents_unnecessary_elections_under_delivered_heartbeats() {
    let mut simulation = Simulation::new(three_node_cluster(4, 1), 99, 4, 6, 1, 1);

    let leader = run_until_leader_checking_invariants(&mut simulation, 200);
    let leader_term = simulation
        .leaders()
        .into_iter()
        .find(|&(id, _)| id == leader)
        .map(|(_, term)| term)
        .expect("elected leader must report a term");

    for _ in 0..100 {
        simulation.step();
        assert_eq!(simulation.leaders(), vec![(leader, leader_term)]);
    }
}

#[test]
fn an_isolated_old_leader_steps_down_once_a_higher_term_message_reaches_it() {
    let peers = [NodeId(1), NodeId(2), NodeId(3)];
    let mut cluster = Cluster::new(
        peers
            .iter()
            .map(|&id| Node::new(id, peers.to_vec(), 1, 1).expect("valid node"))
            .collect(),
    )
    .expect("valid cluster");

    let requests = cluster
        .node_mut(NodeId(1))
        .expect("known node")
        .step(Event::Tick { next_timeout: 10 });
    for effect in requests {
        let Effect::Send { to, message } = effect else {
            continue;
        };
        let responses = cluster.node_mut(to).expect("known node").step(Event::Step {
            from: NodeId(1),
            message,
        });
        for effect in responses {
            let Effect::Send {
                to: respond_to,
                message,
            } = effect
            else {
                continue;
            };
            cluster
                .node_mut(respond_to)
                .expect("known node")
                .step(Event::Step { from: to, message });
        }
    }
    assert_eq!(
        cluster.node(NodeId(1)).expect("known node").role(),
        Role::Leader
    );
    assert_eq!(
        cluster.node(NodeId(1)).expect("known node").current_term(),
        1
    );

    let node2_requests = cluster
        .node_mut(NodeId(2))
        .expect("known node")
        .step(Event::Tick { next_timeout: 10 });
    for effect in node2_requests {
        let Effect::Send { to, message } = effect else {
            continue;
        };
        if to != NodeId(3) {
            continue;
        }
        let responses = cluster.node_mut(to).expect("known node").step(Event::Step {
            from: NodeId(2),
            message,
        });
        for effect in responses {
            let Effect::Send {
                to: respond_to,
                message,
            } = effect
            else {
                continue;
            };
            cluster
                .node_mut(respond_to)
                .expect("known node")
                .step(Event::Step { from: to, message });
        }
    }
    assert_eq!(
        cluster.node(NodeId(2)).expect("known node").role(),
        Role::Leader
    );
    assert_eq!(
        cluster.node(NodeId(2)).expect("known node").current_term(),
        2
    );
    assert_eq!(
        cluster.node(NodeId(1)).expect("known node").role(),
        Role::Leader
    );
    assert_eq!(
        cluster.node(NodeId(1)).expect("known node").current_term(),
        1
    );

    let effects = cluster
        .node_mut(NodeId(1))
        .expect("known node")
        .step(Event::Step {
            from: NodeId(2),
            message: Message::AppendEntries(AppendEntries {
                term: 2,
                leader_id: NodeId(2),
                prev_log_index: 0,
                prev_log_term: 0,
                entries: Vec::new(),
                leader_commit: 0,
            }),
        });

    assert_eq!(
        cluster.node(NodeId(1)).expect("known node").role(),
        Role::Follower
    );
    assert_eq!(
        cluster.node(NodeId(1)).expect("known node").current_term(),
        2
    );
    assert_eq!(
        effects,
        vec![
            Effect::PersistHardState {
                term: 2,
                voted_for: None,
            },
            Effect::Send {
                to: NodeId(2),
                message: Message::AppendEntriesResponse(AppendEntriesResponse {
                    term: 2,
                    success: true,
                    match_index: 0,
                }),
            }
        ]
    );
}

#[test]
fn recovers_from_a_simultaneous_split_vote_via_a_later_timeout() {
    let peers = [NodeId(1), NodeId(2), NodeId(3)];
    let mut cluster = Cluster::new(
        peers
            .iter()
            .map(|&id| Node::new(id, peers.to_vec(), 1, 1).expect("valid node"))
            .collect(),
    )
    .expect("valid cluster");

    let mut requests = Vec::new();
    for &id in &peers {
        let effects = cluster
            .node_mut(id)
            .expect("known node")
            .step(Event::Tick { next_timeout: 2 });
        requests.extend(effects.into_iter().filter_map(|effect| match effect {
            Effect::Send { to, message } => Some((id, to, message)),
            _ => None,
        }));
    }
    for &id in &peers {
        let node = cluster.node(id).expect("known node");
        assert_eq!(node.role(), Role::Candidate);
        assert_eq!(node.current_term(), 1);
    }

    for (from, to, message) in requests {
        let responses = cluster
            .node_mut(to)
            .expect("known node")
            .step(Event::Step { from, message });
        for effect in responses {
            let Effect::Send {
                to: respond_to,
                message,
            } = effect
            else {
                continue;
            };
            cluster
                .node_mut(respond_to)
                .expect("known node")
                .step(Event::Step { from: to, message });
        }
    }
    for &id in &peers {
        let node = cluster.node(id).expect("known node");
        assert_eq!(node.role(), Role::Candidate);
        assert_eq!(node.votes_granted().len(), 1);
    }

    cluster
        .node_mut(NodeId(1))
        .expect("known node")
        .step(Event::Tick { next_timeout: 2 });
    let retry_effects = cluster
        .node_mut(NodeId(1))
        .expect("known node")
        .step(Event::Tick { next_timeout: 2 });
    assert_eq!(
        cluster.node(NodeId(1)).expect("known node").current_term(),
        2
    );

    for effect in retry_effects {
        let Effect::Send { to, message } = effect else {
            continue;
        };
        let responses = cluster.node_mut(to).expect("known node").step(Event::Step {
            from: NodeId(1),
            message,
        });
        for effect in responses {
            let Effect::Send {
                to: respond_to,
                message,
            } = effect
            else {
                continue;
            };
            cluster
                .node_mut(respond_to)
                .expect("known node")
                .step(Event::Step { from: to, message });
        }
    }

    assert_eq!(
        cluster.node(NodeId(1)).expect("known node").role(),
        Role::Leader
    );
    for &id in &[NodeId(2), NodeId(3)] {
        let node = cluster.node(id).expect("known node");
        assert_eq!(node.role(), Role::Follower);
        assert_eq!(node.current_term(), 2);
    }
}

#[test]
fn rejects_a_stale_term_request_vote_once_a_leader_is_established() {
    let mut cluster = three_node_cluster(1, 1);

    let requests = cluster
        .node_mut(NodeId(1))
        .expect("known node")
        .step(Event::Tick { next_timeout: 10 });
    for effect in requests {
        let Effect::Send { to, message } = effect else {
            continue;
        };
        let responses = cluster.node_mut(to).expect("known node").step(Event::Step {
            from: NodeId(1),
            message,
        });
        for effect in responses {
            let Effect::Send {
                to: respond_to,
                message,
            } = effect
            else {
                continue;
            };
            cluster
                .node_mut(respond_to)
                .expect("known node")
                .step(Event::Step { from: to, message });
        }
    }
    assert_eq!(
        cluster.node(NodeId(1)).expect("known node").role(),
        Role::Leader
    );
    assert_eq!(
        cluster.node(NodeId(1)).expect("known node").current_term(),
        1
    );

    let stale_request = RequestVote {
        term: 0,
        candidate_id: NodeId(2),
        last_log_index: 0,
        last_log_term: 0,
    };
    let effects = cluster
        .node_mut(NodeId(1))
        .expect("known node")
        .step(Event::Step {
            from: NodeId(2),
            message: Message::RequestVote(stale_request),
        });

    assert_eq!(
        cluster.node(NodeId(1)).expect("known node").role(),
        Role::Leader
    );
    assert_eq!(
        cluster.node(NodeId(1)).expect("known node").current_term(),
        1
    );
    assert_eq!(
        effects,
        vec![Effect::Send {
            to: NodeId(2),
            message: Message::RequestVoteResponse(RequestVoteResponse {
                term: 1,
                granted: false,
            }),
        }]
    );
}

#[test]
fn a_follower_that_missed_early_replication_catches_up_on_the_next_heartbeat() {
    let peers = [NodeId(1), NodeId(2), NodeId(3)];
    let mut cluster = Cluster::new(
        peers
            .iter()
            .map(|&id| Node::new(id, peers.to_vec(), 1, 1).expect("valid node"))
            .collect(),
    )
    .expect("valid cluster");

    let requests = cluster
        .node_mut(NodeId(1))
        .expect("known node")
        .step(Event::Tick { next_timeout: 10 });
    deliver_until_quiescent(&mut cluster, &[], NodeId(1), requests);
    assert_eq!(
        cluster.node(NodeId(1)).expect("known node").role(),
        Role::Leader
    );

    for command in [vec![1u8], vec![2], vec![3]] {
        cluster
            .node_mut(NodeId(1))
            .expect("known node")
            .propose(command);
    }
    assert_eq!(
        cluster
            .node(NodeId(3))
            .expect("known node")
            .last_log_index(),
        0
    );

    let heartbeat = cluster
        .node_mut(NodeId(1))
        .expect("known node")
        .step(Event::Tick { next_timeout: 10 });
    deliver_until_quiescent(&mut cluster, &[], NodeId(1), heartbeat);

    let leaders_log = cluster.node(NodeId(1)).expect("known node").log().to_vec();
    assert_eq!(
        cluster.node(NodeId(3)).expect("known node").log(),
        leaders_log.as_slice()
    );
    assert_eq!(
        cluster.node(NodeId(1)).expect("known node").commit_index(),
        3
    );
}

#[test]
fn an_isolated_follower_catches_up_via_install_snapshot_once_the_leader_has_compacted_past_it()
{
    let peers = [NodeId(1), NodeId(2), NodeId(3)];
    let mut cluster = Cluster::new(
        peers
            .iter()
            .map(|&id| Node::new(id, peers.to_vec(), 1, 1).expect("valid node"))
            .collect(),
    )
    .expect("valid cluster");

    let requests = cluster
        .node_mut(NodeId(1))
        .expect("known node")
        .step(Event::Tick { next_timeout: 10 });
    deliver_until_quiescent(&mut cluster, &[NodeId(3)], NodeId(1), requests);
    assert_eq!(
        cluster.node(NodeId(1)).expect("known node").role(),
        Role::Leader
    );

    for command in [vec![1u8], vec![2], vec![3]] {
        cluster
            .node_mut(NodeId(1))
            .expect("known node")
            .propose(command);
    }
    let heartbeat = cluster
        .node_mut(NodeId(1))
        .expect("known node")
        .step(Event::Tick { next_timeout: 10 });
    deliver_until_quiescent(&mut cluster, &[NodeId(3)], NodeId(1), heartbeat);
    assert_eq!(
        cluster.node(NodeId(1)).expect("known node").commit_index(),
        3
    );

    let leader = cluster.node_mut(NodeId(1)).expect("known node");
    leader.compact(3, vec![9, 9]).expect("3 is committed");
    assert!(leader.log().is_empty());

    let healing = cluster
        .node_mut(NodeId(1))
        .expect("known node")
        .step(Event::Tick { next_timeout: 10 });
    deliver_until_quiescent(&mut cluster, &[], NodeId(1), healing);

    let node3 = cluster.node(NodeId(3)).expect("known node");
    assert_eq!(
        node3.snapshot(),
        SnapshotMetadata {
            last_included_index: 3,
            last_included_term: 1,
        }
    );
    assert_eq!(node3.snapshot_data(), &[9, 9]);
    assert_eq!(node3.commit_index(), 3);
    assert_eq!(node3.last_log_index(), 3);
    assert!(node3.log().is_empty());
}

#[test]
fn a_delayed_or_duplicate_install_snapshot_does_not_regress_a_node_that_already_caught_up() {
    let mut cluster = three_node_cluster(1, 1);

    let requests = cluster
        .node_mut(NodeId(1))
        .expect("known node")
        .step(Event::Tick { next_timeout: 10 });
    deliver_until_quiescent(&mut cluster, &[], NodeId(1), requests);
    assert_eq!(
        cluster.node(NodeId(1)).expect("known node").role(),
        Role::Leader
    );

    for command in [vec![1u8], vec![2]] {
        cluster
            .node_mut(NodeId(1))
            .expect("known node")
            .propose(command);
    }
    for _ in 0..2 {
        let heartbeat = cluster
            .node_mut(NodeId(1))
            .expect("known node")
            .step(Event::Tick { next_timeout: 10 });
        deliver_until_quiescent(&mut cluster, &[], NodeId(1), heartbeat);
    }
    assert_eq!(cluster.node(NodeId(2)).expect("known node").log().len(), 2);
    assert_eq!(
        cluster.node(NodeId(2)).expect("known node").commit_index(),
        2
    );

    let node2_log_before = cluster.node(NodeId(2)).expect("known node").log().to_vec();
    let effects = cluster
        .node_mut(NodeId(2))
        .expect("known node")
        .step(Event::Step {
            from: NodeId(1),
            message: Message::InstallSnapshot(InstallSnapshot {
                term: 1,
                leader_id: NodeId(1),
                last_included_index: 1,
                last_included_term: 1,
                data: vec![0xFF],
                config: ClusterConfig {
                    voters: vec![NodeId(1), NodeId(2), NodeId(3)],
                    old_voters: None,
                },
            }),
        });

    let node2 = cluster.node(NodeId(2)).expect("known node");
    assert_eq!(node2.log(), node2_log_before.as_slice());
    assert_eq!(node2.commit_index(), 2);
    assert_eq!(node2.snapshot(), SnapshotMetadata::default());
    assert_eq!(
        effects,
        vec![Effect::Send {
            to: NodeId(1),
            message: Message::InstallSnapshotResponse(InstallSnapshotResponse {
                term: 1,
                last_included_index: 1,
            }),
        }]
    );

    cluster
        .node_mut(NodeId(1))
        .expect("known node")
        .propose(vec![3]);
    let final_heartbeat = cluster
        .node_mut(NodeId(1))
        .expect("known node")
        .step(Event::Tick { next_timeout: 10 });
    deliver_until_quiescent(&mut cluster, &[], NodeId(1), final_heartbeat);

    assert_eq!(
        cluster.node(NodeId(1)).expect("known node").commit_index(),
        3
    );
    assert_eq!(
        cluster.node(NodeId(2)).expect("known node").log(),
        cluster.node(NodeId(1)).expect("known node").log()
    );
}

#[test]
fn leader_replacement_preserves_committed_entries_and_converges_diverged_logs() {
    let peers = [NodeId(1), NodeId(2), NodeId(3)];
    let mut cluster = Cluster::new(
        peers
            .iter()
            .map(|&id| Node::new(id, peers.to_vec(), 1, 1).expect("valid node"))
            .collect(),
    )
    .expect("valid cluster");

    let requests = cluster
        .node_mut(NodeId(1))
        .expect("known node")
        .step(Event::Tick { next_timeout: 10 });
    deliver_until_quiescent(&mut cluster, &[], NodeId(1), requests);
    assert_eq!(
        cluster.node(NodeId(1)).expect("known node").role(),
        Role::Leader
    );

    cluster
        .node_mut(NodeId(1))
        .expect("known node")
        .propose(vec![b'A']);
    let heartbeat = cluster
        .node_mut(NodeId(1))
        .expect("known node")
        .step(Event::Tick { next_timeout: 10 });
    deliver_until_quiescent(&mut cluster, &[], NodeId(1), heartbeat);
    assert_eq!(
        cluster.node(NodeId(1)).expect("known node").commit_index(),
        1
    );

    cluster
        .node_mut(NodeId(1))
        .expect("known node")
        .propose(vec![b'C']);
    assert_eq!(
        cluster
            .node(NodeId(1))
            .expect("known node")
            .last_log_index(),
        2
    );

    let node2_requests = cluster
        .node_mut(NodeId(2))
        .expect("known node")
        .step(Event::Tick { next_timeout: 10 });
    deliver_until_quiescent(&mut cluster, &[NodeId(1)], NodeId(2), node2_requests);
    assert_eq!(
        cluster.node(NodeId(2)).expect("known node").role(),
        Role::Leader
    );
    assert_eq!(
        cluster.node(NodeId(2)).expect("known node").current_term(),
        2
    );

    cluster
        .node_mut(NodeId(2))
        .expect("known node")
        .propose(vec![b'B']);
    let node2_heartbeat = cluster
        .node_mut(NodeId(2))
        .expect("known node")
        .step(Event::Tick { next_timeout: 10 });
    deliver_until_quiescent(&mut cluster, &[NodeId(1)], NodeId(2), node2_heartbeat);
    assert_eq!(
        cluster.node(NodeId(2)).expect("known node").commit_index(),
        2
    );
    assert_eq!(
        cluster
            .node(NodeId(3))
            .expect("known node")
            .last_log_index(),
        2
    );

    let healing = cluster
        .node_mut(NodeId(2))
        .expect("known node")
        .step(Event::Tick { next_timeout: 10 });
    deliver_until_quiescent(&mut cluster, &[], NodeId(2), healing);

    assert_eq!(
        cluster.node(NodeId(1)).expect("known node").role(),
        Role::Follower
    );
    assert_eq!(
        cluster.node(NodeId(1)).expect("known node").current_term(),
        2
    );

    let committed_log = cluster.node(NodeId(2)).expect("known node").log().to_vec();
    assert_eq!(
        cluster.node(NodeId(1)).expect("known node").log(),
        committed_log.as_slice()
    );
    assert_eq!(
        cluster.node(NodeId(3)).expect("known node").log(),
        committed_log.as_slice()
    );
    assert!(
        committed_log.iter().all(|entry| !matches!(
            &entry.payload,
            LogPayload::Command(command) if command == &vec![b'C']
        )),
        "an uncommitted entry from a deposed leader must not survive"
    );
}

#[test]
fn a_node_that_granted_a_vote_refuses_to_double_vote_after_a_simulated_crash() {
    let peers = vec![NodeId(1), NodeId(2), NodeId(3)];
    let mut node = Node::new(NodeId(1), peers.clone(), 5, 2).expect("valid node");

    let mut durable = DurableState::default();
    for effect in &node.step(Event::Step {
        from: NodeId(2),
        message: Message::RequestVote(RequestVote {
            term: 1,
            candidate_id: NodeId(2),
            last_log_index: 0,
            last_log_term: 0,
        }),
    }) {
        durable.apply(effect);
    }
    assert_eq!(node.voted_for(), Some(NodeId(2)));

    let mut recovered = Node::recover(
        NodeId(1),
        peers,
        5,
        2,
        durable.hard_state(),
        durable.log().to_vec(),
        Snapshot {
            metadata: durable.snapshot(),
            data: durable.snapshot_data().to_vec(),
            config: ClusterConfig::default(),
        },
        Vec::new(),
    )
    .expect("valid node");
    assert_eq!(recovered.role(), Role::Follower);
    assert_eq!(recovered.current_term(), 1);
    assert_eq!(recovered.voted_for(), Some(NodeId(2)));

    let effects = recovered.step(Event::Step {
        from: NodeId(3),
        message: Message::RequestVote(RequestVote {
            term: 1,
            candidate_id: NodeId(3),
            last_log_index: 0,
            last_log_term: 0,
        }),
    });

    assert_eq!(recovered.voted_for(), Some(NodeId(2)));
    assert_eq!(
        effects,
        vec![Effect::Send {
            to: NodeId(3),
            message: Message::RequestVoteResponse(RequestVoteResponse {
                term: 1,
                granted: false,
            }),
        }]
    );
}

#[test]
fn a_followers_accepted_entries_survive_a_simulated_crash() {
    let peers = vec![NodeId(1), NodeId(2), NodeId(3)];
    let mut node = Node::new(NodeId(1), peers.clone(), 5, 2).expect("valid node");

    let mut durable = DurableState::default();
    for effect in &node.step(Event::Step {
        from: NodeId(2),
        message: Message::AppendEntries(AppendEntries {
            term: 1,
            leader_id: NodeId(2),
            prev_log_index: 0,
            prev_log_term: 0,
            entries: vec![LogEntry {
                term: 1,
                payload: LogPayload::Command(vec![7]),
            }],
            leader_commit: 0,
        }),
    }) {
        durable.apply(effect);
    }
    assert_eq!(node.log().len(), 1);

    let recovered = Node::recover(
        NodeId(1),
        peers,
        5,
        2,
        durable.hard_state(),
        durable.log().to_vec(),
        Snapshot {
            metadata: durable.snapshot(),
            data: durable.snapshot_data().to_vec(),
            config: ClusterConfig::default(),
        },
        Vec::new(),
    )
    .expect("valid node");

    assert_eq!(recovered.role(), Role::Follower);
    assert_eq!(recovered.current_term(), 1);
    assert_eq!(
        recovered.log(),
        &[LogEntry {
            term: 1,
            payload: LogPayload::Command(vec![7]),
        }]
    );
}

#[test]
fn a_leaders_proposed_entry_survives_a_simulated_crash_and_recovers_as_a_follower() {
    let peers = vec![NodeId(1), NodeId(2), NodeId(3)];
    let mut node = Node::new(NodeId(1), peers.clone(), 1, 1).expect("valid node");

    let mut durable = DurableState::default();
    for effect in &node.step(Event::Tick { next_timeout: 5 }) {
        durable.apply(effect);
    }
    for effect in &node.step(Event::Step {
        from: NodeId(2),
        message: Message::RequestVoteResponse(RequestVoteResponse {
            term: 1,
            granted: true,
        }),
    }) {
        durable.apply(effect);
    }
    assert_eq!(node.role(), Role::Leader);

    let (_, effects) = node.propose(vec![9]).expect("leader accepts propose");
    for effect in &effects {
        durable.apply(effect);
    }

    let recovered = Node::recover(
        NodeId(1),
        peers,
        1,
        1,
        durable.hard_state(),
        durable.log().to_vec(),
        Snapshot {
            metadata: durable.snapshot(),
            data: durable.snapshot_data().to_vec(),
            config: ClusterConfig::default(),
        },
        Vec::new(),
    )
    .expect("valid node");

    assert_eq!(recovered.role(), Role::Follower);
    assert_eq!(recovered.current_term(), 1);
    assert_eq!(
        recovered.log(),
        &[LogEntry {
            term: 1,
            payload: LogPayload::Command(vec![9]),
        }]
    );
}
#[test]
fn add_a_voter_to_a_three_node_cluster_requires_old_and_new_majority_through_real_delivery() {
    let mut cluster = Cluster::new(vec![
        Node::new(NodeId(1), vec![NodeId(1), NodeId(2), NodeId(3)], 1, 1).expect("valid node"),
        Node::new(NodeId(2), vec![NodeId(1), NodeId(2), NodeId(3)], 1, 1).expect("valid node"),
        Node::new(NodeId(3), vec![NodeId(1), NodeId(2), NodeId(3)], 1, 1).expect("valid node"),
        Node::new(
            NodeId(4),
            vec![NodeId(1), NodeId(2), NodeId(3), NodeId(4)],
            1_000_000,
            1,
        )
        .expect("valid node"),
    ])
    .expect("valid cluster");

    let requests = cluster
        .node_mut(NodeId(1))
        .expect("known node")
        .step(Event::Tick { next_timeout: 10 });
    deliver_until_quiescent(&mut cluster, &[], NodeId(1), requests);
    assert_eq!(
        cluster.node(NodeId(1)).expect("known node").role(),
        Role::Leader
    );

    cluster
        .node_mut(NodeId(1))
        .expect("known node")
        .add_learner(NodeId(4));
    let (index, _effects) = cluster
        .node_mut(NodeId(1))
        .expect("known node")
        .propose_config_change(vec![NodeId(1), NodeId(2), NodeId(3), NodeId(4)])
        .expect("leader accepts config change");

    let heartbeat = cluster
        .node_mut(NodeId(1))
        .expect("known node")
        .step(Event::Tick { next_timeout: 10 });

    let node2_message = message_to(&heartbeat, NodeId(2)).expect("leader replicates to node 2");
    let node2_response = cluster
        .node_mut(NodeId(2))
        .expect("known node")
        .step(Event::Step {
            from: NodeId(1),
            message: node2_message,
        });
    cluster
        .node_mut(NodeId(1))
        .expect("known node")
        .step(Event::Step {
            from: NodeId(2),
            message: message_to(&node2_response, NodeId(1)).expect("node 2 acks"),
        });
    assert_eq!(
        cluster.node(NodeId(1)).expect("known node").commit_index(),
        0,
        "old-set majority alone (self + node 2, of 3), before the new voter has caught \
         up at all, must not commit"
    );

    let node4_message = message_to(&heartbeat, NodeId(4)).expect("leader replicates to node 4");
    let node4_response = cluster
        .node_mut(NodeId(4))
        .expect("known node")
        .step(Event::Step {
            from: NodeId(1),
            message: node4_message,
        });
    cluster
        .node_mut(NodeId(1))
        .expect("known node")
        .step(Event::Step {
            from: NodeId(4),
            message: message_to(&node4_response, NodeId(1)).expect("node 4 acks"),
        });
    assert_eq!(
        cluster.node(NodeId(1)).expect("known node").commit_index(),
        index
    );
}

#[test]
fn a_follower_partitioned_across_a_membership_change_rejoins_once_healed_even_under_a_new_leader()
 {
    let mut cluster = Cluster::new(vec![
        Node::new(NodeId(1), vec![NodeId(1), NodeId(2), NodeId(3)], 1, 1).expect("valid node"),
        Node::new(NodeId(2), vec![NodeId(1), NodeId(2), NodeId(3)], 1, 1).expect("valid node"),
        Node::new(NodeId(3), vec![NodeId(1), NodeId(2), NodeId(3)], 1, 1).expect("valid node"),
        Node::new(
            NodeId(4),
            vec![NodeId(1), NodeId(2), NodeId(3), NodeId(4)],
            1,
            1,
        )
        .expect("valid node"),
    ])
    .expect("valid cluster");

    let requests = cluster
        .node_mut(NodeId(1))
        .expect("known node")
        .step(Event::Tick { next_timeout: 10 });
    deliver_until_quiescent(&mut cluster, &[], NodeId(1), requests);
    assert_eq!(
        cluster.node(NodeId(1)).expect("known node").role(),
        Role::Leader
    );

    let isolated = [NodeId(3)];

    cluster
        .node_mut(NodeId(1))
        .expect("known node")
        .add_learner(NodeId(4));
    cluster
        .node_mut(NodeId(1))
        .expect("known node")
        .propose_config_change(vec![NodeId(1), NodeId(2), NodeId(3), NodeId(4)])
        .expect("leader accepts config change");

    for _ in 0..10 {
        let heartbeat = cluster
            .node_mut(NodeId(1))
            .expect("known node")
            .step(Event::Tick { next_timeout: 10 });
        deliver_until_quiescent(&mut cluster, &isolated, NodeId(1), heartbeat);
    }

    let expected_voters = vec![NodeId(1), NodeId(2), NodeId(3), NodeId(4)];
    for id in [NodeId(1), NodeId(2), NodeId(4)] {
        let node = cluster.node(id).expect("known node");
        assert_eq!(
            node.current_config().voters,
            expected_voters,
            "node {id:?} should have committed the plain C_new configuration"
        );
        assert!(
            node.current_config().old_voters.is_none(),
            "node {id:?} should be past the joint phase"
        );
    }
    assert_eq!(
        cluster
            .node(NodeId(3))
            .expect("known node")
            .current_config()
            .voters,
        vec![NodeId(1), NodeId(2), NodeId(3)],
        "node 3 was partitioned for the entire membership change and must still be on C_old"
    );

    let old_leader = cluster.node(NodeId(1)).expect("known node");
    let recovered = Node::recover(
        NodeId(1),
        vec![NodeId(1), NodeId(2), NodeId(3)],
        1,
        1,
        HardState {
            current_term: old_leader.current_term(),
            voted_for: None,
        },
        old_leader.log().to_vec(),
        Snapshot {
            metadata: old_leader.snapshot(),
            data: old_leader.snapshot_data().to_vec(),
            config: old_leader.snapshot_config().clone(),
        },
        old_leader.learners().iter().copied().collect(),
    )
    .expect("valid recovered node");
    cluster.replace_node(recovered);
    assert_eq!(
        cluster.node(NodeId(1)).expect("known node").role(),
        Role::Follower
    );

    let campaign = cluster
        .node_mut(NodeId(4))
        .expect("known node")
        .step(Event::Tick { next_timeout: 10 });
    deliver_until_quiescent(&mut cluster, &isolated, NodeId(4), campaign);
    assert_eq!(
        cluster.node(NodeId(4)).expect("known node").role(),
        Role::Leader,
        "node 4 should win with votes from 1, 2, and itself -- a real majority of C_new \
         that doesn't need node 3 at all"
    );

    let heartbeat = cluster
        .node_mut(NodeId(4))
        .expect("known node")
        .step(Event::Tick { next_timeout: 10 });
    deliver_until_quiescent(&mut cluster, &[], NodeId(4), heartbeat);

    assert_eq!(
        cluster
            .node(NodeId(3))
            .expect("known node")
            .current_config()
            .voters,
        expected_voters,
        "node 3 must catch up once the partition heals, even though the leader reaching it \
         (node 4) is not a member of node 3's own stale, pre-partition view of the cluster"
    );
}

#[test]
fn add_a_voter_new_set_majority_alone_does_not_commit_without_the_old_set_too() {
    let mut cluster = Cluster::new(vec![
        Node::new(NodeId(1), vec![NodeId(1), NodeId(2)], 1, 1).expect("valid node"),
        Node::new(NodeId(2), vec![NodeId(1), NodeId(2)], 1, 1).expect("valid node"),
        Node::new(
            NodeId(3),
            vec![NodeId(1), NodeId(2), NodeId(3)],
            1_000_000,
            1,
        )
        .expect("valid node"),
    ])
    .expect("valid cluster");

    let requests = cluster
        .node_mut(NodeId(1))
        .expect("known node")
        .step(Event::Tick { next_timeout: 10 });
    deliver_until_quiescent(&mut cluster, &[], NodeId(1), requests);
    assert_eq!(
        cluster.node(NodeId(1)).expect("known node").role(),
        Role::Leader
    );

    cluster
        .node_mut(NodeId(1))
        .expect("known node")
        .add_learner(NodeId(3));
    let (index, _effects) = cluster
        .node_mut(NodeId(1))
        .expect("known node")
        .propose_config_change(vec![NodeId(1), NodeId(2), NodeId(3)])
        .expect("leader accepts config change");

    let heartbeat = cluster
        .node_mut(NodeId(1))
        .expect("known node")
        .step(Event::Tick { next_timeout: 10 });

    let node3_message = message_to(&heartbeat, NodeId(3)).expect("leader replicates to node 3");
    let node3_response = cluster
        .node_mut(NodeId(3))
        .expect("known node")
        .step(Event::Step {
            from: NodeId(1),
            message: node3_message,
        });
    cluster
        .node_mut(NodeId(1))
        .expect("known node")
        .step(Event::Step {
            from: NodeId(3),
            message: message_to(&node3_response, NodeId(1)).expect("node 3 acks"),
        });
    assert_eq!(
        cluster.node(NodeId(1)).expect("known node").commit_index(),
        0,
        "new-set majority alone, without old-set majority, must not commit"
    );

    let node2_message = message_to(&heartbeat, NodeId(2)).expect("leader replicates to node 2");
    let node2_response = cluster
        .node_mut(NodeId(2))
        .expect("known node")
        .step(Event::Step {
            from: NodeId(1),
            message: node2_message,
        });
    cluster
        .node_mut(NodeId(1))
        .expect("known node")
        .step(Event::Step {
            from: NodeId(2),
            message: message_to(&node2_response, NodeId(1)).expect("node 2 acks"),
        });
    assert_eq!(
        cluster.node(NodeId(1)).expect("known node").commit_index(),
        index
    );
}

#[test]
fn remove_a_voter_including_leader_removal_steps_down_only_once_the_plain_config_commits() {
    let peers = [NodeId(1), NodeId(2), NodeId(3)];
    let mut cluster = Cluster::new(
        peers
            .iter()
            .map(|&id| Node::new(id, peers.to_vec(), 1, 1).expect("valid node"))
            .collect(),
    )
    .expect("valid cluster");

    let requests = cluster
        .node_mut(NodeId(1))
        .expect("known node")
        .step(Event::Tick { next_timeout: 10 });
    deliver_until_quiescent(&mut cluster, &[], NodeId(1), requests);
    assert_eq!(
        cluster.node(NodeId(1)).expect("known node").role(),
        Role::Leader
    );
    assert_at_most_one_leader(&cluster);

    let (joint_index, _effects) = cluster
        .node_mut(NodeId(1))
        .expect("known node")
        .propose_config_change(vec![NodeId(2), NodeId(3)])
        .expect("leader accepts config change");

    let heartbeat = cluster
        .node_mut(NodeId(1))
        .expect("known node")
        .step(Event::Tick { next_timeout: 10 });
    deliver_until_quiescent(&mut cluster, &[], NodeId(1), heartbeat);

    assert_eq!(
        cluster.node(NodeId(1)).expect("known node").commit_index(),
        joint_index,
        "the joint config must have committed"
    );
    assert_eq!(
        cluster.node(NodeId(1)).expect("known node").role(),
        Role::Leader,
        "the leader must not step down on the joint config committing -- only on the \
         plain C_new"
    );
    assert_at_most_one_leader(&cluster);

    let heartbeat2 = cluster
        .node_mut(NodeId(1))
        .expect("known node")
        .step(Event::Tick { next_timeout: 10 });
    deliver_until_quiescent(&mut cluster, &[], NodeId(1), heartbeat2);

    assert_eq!(
        cluster.node(NodeId(1)).expect("known node").commit_index(),
        joint_index + 1,
        "the plain C_new follow-up must have committed too"
    );
    assert_eq!(
        cluster.node(NodeId(1)).expect("known node").role(),
        Role::Follower,
        "the leader must step down once (and only once) C_new itself commits"
    );
    assert_at_most_one_leader(&cluster);
}

#[test]
fn a_learners_match_index_never_affects_commit_index_until_it_is_promoted() {
    let mut cluster = Cluster::new(vec![
        Node::new(NodeId(1), vec![NodeId(1), NodeId(2)], 1, 1).expect("valid node"),
        Node::new(NodeId(2), vec![NodeId(1), NodeId(2)], 1, 1).expect("valid node"),
        Node::new(
            NodeId(3),
            vec![NodeId(1), NodeId(2), NodeId(3)],
            1_000_000,
            1,
        )
        .expect("valid node"),
    ])
    .expect("valid cluster");

    let requests = cluster
        .node_mut(NodeId(1))
        .expect("known node")
        .step(Event::Tick { next_timeout: 10 });
    deliver_until_quiescent(&mut cluster, &[], NodeId(1), requests);
    assert_eq!(
        cluster.node(NodeId(1)).expect("known node").role(),
        Role::Leader
    );

    cluster
        .node_mut(NodeId(1))
        .expect("known node")
        .add_learner(NodeId(3));

    let (index, _effects) = cluster
        .node_mut(NodeId(1))
        .expect("known node")
        .propose(vec![9])
        .expect("leader accepts propose");

    let heartbeat = cluster
        .node_mut(NodeId(1))
        .expect("known node")
        .step(Event::Tick { next_timeout: 10 });

    let learner_message =
        message_to(&heartbeat, NodeId(3)).expect("the leader replicates to learners too");
    let learner_response = cluster
        .node_mut(NodeId(3))
        .expect("known node")
        .step(Event::Step {
            from: NodeId(1),
            message: learner_message,
        });
    assert_eq!(
        cluster.node(NodeId(3)).expect("known node").log().len(),
        1,
        "the learner must actually receive and apply the entry"
    );
    cluster
        .node_mut(NodeId(1))
        .expect("known node")
        .step(Event::Step {
            from: NodeId(3),
            message: message_to(&learner_response, NodeId(1)).expect("the learner acks"),
        });
    assert_eq!(
        cluster.node(NodeId(1)).expect("known node").commit_index(),
        0,
        "self + the learner alone must not commit -- advance_commit_index only ever \
         consults voters ({{1, 2}} here), never learners, so node 2's own progress (still \
         0) is what actually gates this, no matter how caught up the learner claims to be"
    );

    let voter_message =
        message_to(&heartbeat, NodeId(2)).expect("the leader replicates to node 2");
    let voter_response = cluster
        .node_mut(NodeId(2))
        .expect("known node")
        .step(Event::Step {
            from: NodeId(1),
            message: voter_message,
        });
    cluster
        .node_mut(NodeId(1))
        .expect("known node")
        .step(Event::Step {
            from: NodeId(2),
            message: message_to(&voter_response, NodeId(1)).expect("node 2 acks"),
        });
    assert_eq!(
        cluster.node(NodeId(1)).expect("known node").commit_index(),
        index
    );

    let (promote_index, _effects) = cluster
        .node_mut(NodeId(1))
        .expect("known node")
        .propose_config_change(vec![NodeId(1), NodeId(2), NodeId(3)])
        .expect("leader accepts config change");
    let promote_round1 = cluster
        .node_mut(NodeId(1))
        .expect("known node")
        .step(Event::Tick { next_timeout: 10 });
    deliver_until_quiescent(&mut cluster, &[], NodeId(1), promote_round1);
    let promote_round2 = cluster
        .node_mut(NodeId(1))
        .expect("known node")
        .step(Event::Tick { next_timeout: 10 });
    deliver_until_quiescent(&mut cluster, &[], NodeId(1), promote_round2);

    assert!(
        cluster.node(NodeId(1)).expect("known node").commit_index() > promote_index,
        "the promotion's automatic C_new follow-up must have committed too"
    );
    assert!(
        cluster
            .node(NodeId(1))
            .expect("known node")
            .voters()
            .contains(&NodeId(3)),
        "node 3 must now be a real voter"
    );

    let (final_index, _effects) = cluster
        .node_mut(NodeId(1))
        .expect("known node")
        .propose(vec![10])
        .expect("leader accepts propose");
    let final_heartbeat = cluster
        .node_mut(NodeId(1))
        .expect("known node")
        .step(Event::Tick { next_timeout: 10 });

    let message = message_to(&final_heartbeat, NodeId(3)).expect("leader replicates to node 3");
    let response = cluster
        .node_mut(NodeId(3))
        .expect("known node")
        .step(Event::Step {
            from: NodeId(1),
            message,
        });
    cluster
        .node_mut(NodeId(1))
        .expect("known node")
        .step(Event::Step {
            from: NodeId(3),
            message: message_to(&response, NodeId(1)).expect("node 3 acks"),
        });
    assert_eq!(
        cluster.node(NodeId(1)).expect("known node").commit_index(),
        final_index,
        "self + node 3 alone must now be enough -- node 3 is a real voter, not a learner, \
         so its ack alone (without node 2) completes the quorum"
    );
}

#[test]
fn a_removed_servers_stale_request_vote_does_not_depose_anyone_during_the_joint_window() {
    let peers = [NodeId(1), NodeId(2), NodeId(3)];
    let mut cluster = Cluster::new(
        peers
            .iter()
            .map(|&id| Node::new(id, peers.to_vec(), 1, 1).expect("valid node"))
            .collect(),
    )
    .expect("valid cluster");

    let requests = cluster
        .node_mut(NodeId(1))
        .expect("known node")
        .step(Event::Tick { next_timeout: 10 });
    deliver_until_quiescent(&mut cluster, &[], NodeId(1), requests);
    assert_eq!(
        cluster.node(NodeId(1)).expect("known node").role(),
        Role::Leader
    );

    cluster
        .node_mut(NodeId(1))
        .expect("known node")
        .propose_config_change(vec![NodeId(1), NodeId(2)])
        .expect("leader accepts config change");
    assert!(
        cluster
            .node(NodeId(1))
            .expect("known node")
            .current_config()
            .is_joint(),
        "the joint config must be active on the leader immediately"
    );

    let mut node3_campaign = Vec::new();
    for _ in 0..5 {
        node3_campaign = cluster
            .node_mut(NodeId(3))
            .expect("known node")
            .step(Event::Tick { next_timeout: 5 });
        if !node3_campaign.is_empty() {
            break;
        }
    }
    let stale_term = cluster.node(NodeId(3)).expect("known node").current_term();
    assert!(
        stale_term > 1,
        "node 3 must have started a new, higher-term election"
    );

    let leader_message =
        message_to(&node3_campaign, NodeId(1)).expect("node 3 requests node 1's vote");
    let leader_response = cluster
        .node_mut(NodeId(1))
        .expect("known node")
        .step(Event::Step {
            from: NodeId(3),
            message: leader_message,
        });
    assert_eq!(
        cluster.node(NodeId(1)).expect("known node").role(),
        Role::Leader,
        "the leader must not step down on a RequestVote, even a higher-term one"
    );
    assert_eq!(
        cluster.node(NodeId(1)).expect("known node").current_term(),
        1
    );
    assert_eq!(
        leader_response,
        vec![Effect::Send {
            to: NodeId(3),
            message: Message::RequestVoteResponse(RequestVoteResponse {
                term: 1,
                granted: false,
            }),
        }]
    );

    let heartbeat = cluster
        .node_mut(NodeId(1))
        .expect("known node")
        .step(Event::Tick { next_timeout: 5 });
    let node2_message = message_to(&heartbeat, NodeId(2)).expect("leader replicates to node 2");
    let node2_response = cluster
        .node_mut(NodeId(2))
        .expect("known node")
        .step(Event::Step {
            from: NodeId(1),
            message: node2_message,
        });
    cluster
        .node_mut(NodeId(1))
        .expect("known node")
        .step(Event::Step {
            from: NodeId(2),
            message: message_to(&node2_response, NodeId(1)).expect("node 2 acks"),
        });
    assert!(
        cluster
            .node(NodeId(2))
            .expect("known node")
            .current_config()
            .is_joint(),
        "node 2 must still be in the joint window -- it hasn't received the C_new \
         follow-up yet"
    );

    let node2_message =
        message_to(&node3_campaign, NodeId(2)).expect("node 3 requests node 2's vote");
    let node2_guard_response =
        cluster
            .node_mut(NodeId(2))
            .expect("known node")
            .step(Event::Step {
                from: NodeId(3),
                message: node2_message,
            });
    assert_eq!(
        cluster.node(NodeId(2)).expect("known node").role(),
        Role::Follower
    );
    assert_eq!(
        cluster.node(NodeId(2)).expect("known node").current_term(),
        1
    );
    assert_eq!(
        node2_guard_response,
        vec![Effect::Send {
            to: NodeId(3),
            message: Message::RequestVoteResponse(RequestVoteResponse {
                term: 1,
                granted: false,
            }),
        }]
    );

    assert_at_most_one_leader(&cluster);
}

#[test]
fn full_quorum_overlap_sweep_never_shows_two_leaders_in_the_same_term() {
    let cluster = Cluster::new(vec![
        Node::new(NodeId(1), vec![NodeId(1), NodeId(2), NodeId(3)], 5, 1).expect("valid node"),
        Node::new(NodeId(2), vec![NodeId(1), NodeId(2), NodeId(3)], 5, 1).expect("valid node"),
        Node::new(NodeId(3), vec![NodeId(1), NodeId(2), NodeId(3)], 5, 1).expect("valid node"),
        Node::new(
            NodeId(4),
            vec![NodeId(1), NodeId(2), NodeId(3), NodeId(4)],
            1_000_000,
            1,
        )
        .expect("valid node"),
        Node::new(
            NodeId(5),
            vec![NodeId(1), NodeId(2), NodeId(3), NodeId(4), NodeId(5)],
            1_000_000,
            1,
        )
        .expect("valid node"),
    ])
    .expect("valid cluster");

    let mut simulation = Simulation::new(cluster, 20260820, 3, 6, 1, 2);

    let mut leader_by_term: BTreeMap<u64, NodeId> = BTreeMap::new();
    let mut added_4 = false;
    let mut added_5 = false;
    let mut removed_2 = false;

    for tick in 0..1_000u64 {
        simulation.step();

        let leaders = simulation.leaders();
        assert!(
            leaders.len() <= 1,
            "no more than one leader may exist at once, saw {leaders:?} at tick {tick}"
        );
        for &(id, term) in &leaders {
            match leader_by_term.get(&term) {
                Some(&existing) if existing != id => {
                    panic!(
                        "two different leaders observed in term {term}: {existing:?} \
                         and {id:?} at tick {tick}"
                    );
                }
                _ => {
                    leader_by_term.insert(term, id);
                }
            }
        }

        let Some(&(leader_id, _)) = leaders.first() else {
            continue;
        };
        let voters = simulation
            .node(leader_id)
            .expect("leader is a known node")
            .voters()
            .to_vec();

        if !added_4 && tick > 50 && !voters.contains(&NodeId(4)) {
            simulation.add_learner(leader_id, NodeId(4));
            let mut new_voters = voters.clone();
            new_voters.push(NodeId(4));
            new_voters.sort();
            if simulation
                .propose_config_change(leader_id, new_voters)
                .is_some()
            {
                added_4 = true;
            }
        } else if added_4 && !added_5 && tick > 150 && !voters.contains(&NodeId(5)) {
            simulation.add_learner(leader_id, NodeId(5));
            let mut new_voters = voters.clone();
            new_voters.push(NodeId(5));
            new_voters.sort();
            if simulation
                .propose_config_change(leader_id, new_voters)
                .is_some()
            {
                added_5 = true;
            }
        } else if added_5 && !removed_2 && tick > 250 && voters.contains(&NodeId(2)) {
            let new_voters: Vec<NodeId> =
                voters.into_iter().filter(|&id| id != NodeId(2)).collect();
            if simulation
                .propose_config_change(leader_id, new_voters)
                .is_some()
            {
                removed_2 = true;
            }
        }
    }

    assert!(
        added_4 && added_5 && removed_2,
        "the sweep must actually exercise all three config-change operations, not just \
         ticks"
    );

    let final_config = simulation
        .node(NodeId(1))
        .expect("node 1 is a known node")
        .current_config()
        .clone();
    assert_eq!(
        final_config.voters,
        vec![NodeId(1), NodeId(3), NodeId(4), NodeId(5)],
        "the sweep must actually converge to the final voter set"
    );
    assert!(
        final_config.old_voters.is_none(),
        "the final config change (removing node 2) must have fully committed -- past its \
         joint phase, not just proposed"
    );
}
