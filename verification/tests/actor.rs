//! The actor that owns one replica.

use kurogane::kv::{ApplyResult, Command, Replica};
use kurogane::raft::{
    AppendEntries, Event, Message, Node, NodeId, RequestVote, RequestVoteResponse, Role,
};
use kurogane::runtime::{Actor, PeerTransport, ProposeOutcome, Storage};

fn reopen(storage: &Storage) -> Storage {
    Storage::from_record(storage.to_record()).expect("reopen storage")
}

struct RecordingTransport {
    sent: Vec<(NodeId, Message)>,
}

impl RecordingTransport {
    fn new() -> Self {
        Self { sent: Vec::new() }
    }
}

impl PeerTransport for RecordingTransport {
    fn send(&mut self, to: NodeId, message: Message) {
        self.sent.push((to, message));
    }
}

fn actor(
    id: NodeId,
    peers: Vec<NodeId>,
    election_timeout: u64,
    heartbeat_interval: u64,
) -> Actor<RecordingTransport> {
    let node = Node::new(id, peers, election_timeout, heartbeat_interval)
        .expect("valid node");
    let storage = Storage::new();
    Actor::new(
        Replica::new(node),
        storage,
        RecordingTransport::new(),
        u64::MAX,
    )
}

#[test]
fn tick_that_starts_an_election_persists_and_sends_request_votes() {
    let peers = vec![NodeId(1), NodeId(2), NodeId(3)];
    let mut actor = actor(NodeId(1), peers, 1, 1);

    actor.handle_event(Event::Tick { next_timeout: 5 });
    actor.release();

    assert_eq!(actor.node().role(), Role::Candidate);
    assert_eq!(actor.node().current_term(), 1);
    assert_eq!(
        actor.transport().sent,
        vec![
            (
                NodeId(2),
                Message::RequestVote(RequestVote {
                    term: 1,
                    candidate_id: NodeId(1),
                    last_log_index: 0,
                    last_log_term: 0,
                })
            ),
            (
                NodeId(3),
                Message::RequestVote(RequestVote {
                    term: 1,
                    candidate_id: NodeId(1),
                    last_log_index: 0,
                    last_log_term: 0,
                })
            ),
        ]
    );
}

#[test]
fn propose_on_a_single_node_cluster_commits_and_applies_immediately() {
    let mut actor = actor(NodeId(1), vec![NodeId(1)], 1, 1);
    actor.handle_event(Event::Tick { next_timeout: 5 });
    actor.release();
    assert_eq!(actor.node().role(), Role::Leader);

    let outcome = actor.propose(Command::Put {
        key: vec![1],
        value: vec![9],
    }).0;
    let ProposeOutcome::Accepted(index) = outcome else {
        panic!("leader must accept propose, got {outcome:?}");
    };

    assert_eq!(
        actor.applied_result(index),
        Some(&ApplyResult::Put { previous: None })
    );
    assert_eq!(actor.state_machine().get(&[1]), Some(&[9][..]));
}

#[test]
fn maybe_compact_fires_once_the_threshold_is_crossed_and_persists_the_snapshot() {
    let node =
        Node::new(NodeId(1), vec![NodeId(1)], 1, 1).expect("valid node");
    let storage = Storage::new();
    let mut actor = Actor::new(Replica::new(node), storage, RecordingTransport::new(), 2);

    actor.handle_event(Event::Tick { next_timeout: 5 });
    actor.release();
    assert_eq!(actor.node().role(), Role::Leader);

    for key in 0..3u8 {
        actor.propose(Command::Put {
            key: vec![key],
            value: vec![key],
        });
    }

    let boundary = actor.node().snapshot().last_included_index;
    assert!(boundary > 0, "compaction should have fired by now");

    let reopened = reopen(actor.storage());
    assert_eq!(reopened.snapshot().last_included_index, boundary);
    assert_eq!(reopened.snapshot_data(), actor.node().snapshot_data());
    assert_eq!(reopened.log().len() as u64, 3 - boundary);
}

#[test]
fn propose_on_a_follower_returns_the_leader_hint() {
    let mut actor = actor(
        NodeId(1),
        vec![NodeId(1), NodeId(2), NodeId(3)],
        5,
        2,
    );

    let outcome = actor.propose(Command::Put {
        key: vec![1],
        value: vec![2],
    }).0;

    assert_eq!(outcome, ProposeOutcome::NotLeader(None));
}

#[test]
fn valid_append_entries_updates_the_leader_hint() {
    let mut actor = actor(
        NodeId(1),
        vec![NodeId(1), NodeId(2), NodeId(3)],
        5,
        2,
    );
    assert_eq!(actor.leader_hint(), None);

    actor.handle_event(Event::Step {
        from: NodeId(2),
        message: Message::AppendEntries(AppendEntries {
            term: 1,
            leader_id: NodeId(2),
            prev_log_index: 0,
            prev_log_term: 0,
            entries: Vec::new(),
            leader_commit: 0,
        }),
    });
    actor.release();

    assert_eq!(actor.leader_hint(), Some(NodeId(2)));
}

#[test]
fn a_stale_term_append_entries_does_not_update_the_leader_hint() {
    let mut actor = actor(
        NodeId(1),
        vec![NodeId(1), NodeId(2), NodeId(3)],
        1,
        1,
    );
    actor.handle_event(Event::Tick { next_timeout: 5 });
    actor.release();
    assert_eq!(actor.node().current_term(), 1);

    actor.handle_event(Event::Step {
        from: NodeId(3),
        message: Message::AppendEntries(AppendEntries {
            term: 0,
            leader_id: NodeId(3),
            prev_log_index: 0,
            prev_log_term: 0,
            entries: Vec::new(),
            leader_commit: 0,
        }),
    });
    actor.release();

    assert_eq!(actor.leader_hint(), None);
}

#[test]
fn granting_a_vote_persists_hard_state_durably() {
    let peers = vec![NodeId(1), NodeId(2), NodeId(3)];
    let node = Node::new(NodeId(1), peers, 5, 2).expect("valid node");
    let storage = Storage::new();
    let mut actor = Actor::new(
        Replica::new(node),
        storage,
        RecordingTransport::new(),
        u64::MAX,
    );

    actor.handle_event(Event::Step {
        from: NodeId(2),
        message: Message::RequestVote(RequestVote {
            term: 1,
            candidate_id: NodeId(2),
            last_log_index: 0,
            last_log_term: 0,
        }),
    });
    actor.release();

    assert_eq!(
        actor.transport().sent,
        vec![(
            NodeId(2),
            Message::RequestVoteResponse(RequestVoteResponse {
                term: 1,
                granted: true,
            })
        )]
    );

    let reopened = reopen(actor.storage());
    assert_eq!(reopened.hard_state().current_term, 1);
    assert_eq!(reopened.hard_state().voted_for, Some(NodeId(2)));
}

#[test]
fn handle_peer_request_returns_the_reply_directly_without_double_sending() {
    let peers = vec![NodeId(1), NodeId(2), NodeId(3)];
    let mut actor = actor(NodeId(1), peers, 5, 2);

    let reply = actor
        .handle_peer_request(
            NodeId(2),
            Message::RequestVote(RequestVote {
                term: 1,
                candidate_id: NodeId(2),
                last_log_index: 0,
                last_log_term: 0,
            }),
        )
        .0
        .expect("recognized member, request produces a reply");

    assert_eq!(
        reply,
        Message::RequestVoteResponse(RequestVoteResponse {
            term: 1,
            granted: true,
        })
    );
    assert!(actor.transport().sent.is_empty());
}

#[test]
fn handle_peer_request_from_a_nonmember_returns_none_without_panicking() {
    let peers = vec![NodeId(1), NodeId(2), NodeId(3)];
    let mut actor = actor(NodeId(1), peers, 5, 2);

    let reply = actor
        .handle_peer_request(
            NodeId(9),
            Message::RequestVote(RequestVote {
                term: 1,
                candidate_id: NodeId(9),
                last_log_index: 0,
                last_log_term: 0,
            }),
        )
        .0;

    assert_eq!(reply, None);
    assert_eq!(actor.node().current_term(), 0);
}

#[test]
fn propose_on_a_follower_carries_a_known_leader_hint() {
    let mut actor = actor(
        NodeId(1),
        vec![NodeId(1), NodeId(2), NodeId(3)],
        5,
        2,
    );
    actor.handle_event(Event::Step {
        from: NodeId(2),
        message: Message::AppendEntries(AppendEntries {
            term: 1,
            leader_id: NodeId(2),
            prev_log_index: 0,
            prev_log_term: 0,
            entries: Vec::new(),
            leader_commit: 0,
        }),
    });
    actor.release();

    let outcome = actor.propose(Command::Put {
        key: vec![1],
        value: vec![2],
    }).0;

    assert_eq!(outcome, ProposeOutcome::NotLeader(Some(NodeId(2))));
}
