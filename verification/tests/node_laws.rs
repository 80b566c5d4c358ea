//! What holds of every transition of a node, on concrete values.

use kurogane::raft::{
    AppendEntries, Effect, Event, LogEntry, LogPayload, Message, Node, NodeId, RequestVote, Role,
};

fn leader_of_three() -> Node {
    let peers = vec![NodeId(1), NodeId(2), NodeId(3)];
    let mut node = Node::new(NodeId(1), peers, 1, 1).expect("valid node");
    node.step(Event::Tick { next_timeout: 5 });
    let response = kurogane::raft::RequestVoteResponse { term: 1, granted: true };
    node.step(Event::Step {
        from: NodeId(2),
        message: Message::RequestVoteResponse(response),
    });
    assert_eq!(node.role(), Role::Leader);
    node
}

fn first_persists(node: &Node, effects: &[Effect]) {
    assert_eq!(
        effects[0],
        Effect::PersistHardState { term: node.current_term(), voted_for: node.voted_for() }
    );
    let sent = effects.iter().position(|effect| matches!(effect, Effect::Send { .. }));
    if let Some(first) = sent {
        assert!(effects[first..].iter().all(|effect| matches!(effect, Effect::Send { .. })));
    }
}

#[test]
fn a_new_term_or_vote_is_the_first_thing_made_durable() {
    let peers = vec![NodeId(1), NodeId(2), NodeId(3)];
    let mut node = Node::new(NodeId(1), peers, 1, 1).expect("valid node");
    let effects = node.step(Event::Tick { next_timeout: 5 });
    assert_eq!((node.current_term(), node.voted_for()), (1, Some(NodeId(1))));
    first_persists(&node, &effects);

    let request = RequestVote {
        term: 4,
        candidate_id: NodeId(3),
        last_log_index: 0,
        last_log_term: 0,
    };
    let effects =
        node.step(Event::Step { from: NodeId(3), message: Message::RequestVote(request) });
    assert_eq!((node.current_term(), node.voted_for()), (4, Some(NodeId(3))));
    first_persists(&node, &effects);

    let request = AppendEntries {
        term: 6,
        leader_id: NodeId(2),
        prev_log_index: 0,
        prev_log_term: 0,
        entries: vec![LogEntry { term: 6, payload: LogPayload::Command(vec![1]) }],
        leader_commit: 0,
    };
    let effects =
        node.step(Event::Step { from: NodeId(2), message: Message::AppendEntries(request) });
    assert_eq!((node.current_term(), node.voted_for()), (6, None));
    assert_eq!(effects.len(), 3);
    first_persists(&node, &effects);
}

#[test]
fn compaction_keeps_the_end_of_the_log_and_its_term() {
    for up_to in 1..=3u64 {
        let mut node = Node::new(NodeId(1), vec![NodeId(1)], 1, 1).expect("valid node");
        node.step(Event::Tick { next_timeout: 5 });
        for n in 0..3u8 {
            node.propose(vec![n]).expect("a leader accepts");
        }
        let before = (node.last_log_index(), node.last_log_term(), node.commit_index());
        assert_eq!(before, (3, 1, 3));
        node.compact(up_to, vec![9]).expect("what is compacted is committed");
        assert_eq!(node.log().len() as u64, 3 - up_to);
        let after = (node.last_log_index(), node.last_log_term(), node.commit_index());
        assert_eq!(after, before);
        assert_eq!(
            node.last_log_index(),
            node.snapshot().last_included_index + node.log().len() as u64
        );
    }
}

#[test]
fn removing_a_learner_undoes_adding_it() {
    let mut plain = leader_of_three();
    let mut node = leader_of_three();
    node.add_learner(NodeId(8));
    plain.add_learner(NodeId(8));
    assert_eq!(
        node.add_learner(NodeId(9)),
        vec![Effect::PersistLearners { learners: vec![NodeId(8), NodeId(9)] }]
    );
    assert_eq!(
        node.remove_learner(NodeId(9)),
        vec![Effect::PersistLearners { learners: vec![NodeId(8)] }]
    );
    assert_eq!(node.remove_learner(NodeId(9)), Vec::new());
    assert_eq!(node.learners(), plain.learners());
    let heartbeat = node.step(Event::Tick { next_timeout: 5 });
    assert_eq!(heartbeat.len(), 3);
    assert_eq!(heartbeat, plain.step(Event::Tick { next_timeout: 5 }));
}
