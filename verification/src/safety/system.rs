//! Any number of nodes that exchange messages, and what holds of them whatever
//! happens: messages are lost, repeated, delayed and reordered, nodes restart,
//! compact their logs and change who votes.

use vstd::prelude::*;

use crate::raft::model;
use crate::raft::model::NodeState;
use crate::raft::node::Node;
use crate::raft::types::{
    EffectView, EventView, HardState, LogEntryView, LogPayloadView, MessageView, NodeId, Role,
    SnapshotMetadata,
};
use crate::safety::facts;
use crate::safety::growth;
use crate::safety::leading;
use crate::safety::membership;
use crate::safety::record;
use crate::safety::record::Record;
use crate::safety::steps;

verus! {

/// A message that has been sent.
#[verifier::ext_equal]
pub struct Sent {
    pub from: NodeId,
    pub to: NodeId,
    pub message: MessageView,
}

/// The nodes, and every message ever sent among them.
#[verifier::ext_equal]
pub struct System {
    pub nodes: Map<NodeId, NodeState>,
    pub sent: Set<Sent>,
}

/// Something that happens to one node.
pub enum Move {
    Tick { id: NodeId, next_timeout: u64 },
    /// A message is delivered, perhaps not for the first time.
    Deliver { sent: Sent },
    Propose { id: NodeId, command: Seq<u8> },
    ChangeConfig { id: NodeId, new_voters: Seq<NodeId> },
    AddLearner { id: NodeId, learner: NodeId },
    RemoveLearner { id: NodeId, learner: NodeId },
    Compact { id: NodeId, up_to: u64, data: Seq<u8> },
    /// The node stops, and starts again from what it has made durable.
    Restart { id: NodeId, election_timeout: u64, heartbeat_interval: u64 },
}

impl Move {
    /// Whom it happens to.
    pub open spec fn node(self) -> NodeId {
        match self {
            Move::Tick { id, .. } => id,
            Move::Deliver { sent } => sent.to,
            Move::Propose { id, .. } => id,
            Move::ChangeConfig { id, .. } => id,
            Move::AddLearner { id, .. } => id,
            Move::RemoveLearner { id, .. } => id,
            Move::Compact { id, .. } => id,
            Move::Restart { id, .. } => id,
        }
    }

    /// Whether it can happen to a node in state `s`.
    pub open spec fn fits(self, s: NodeState) -> bool {
        match self {
            Move::Tick { next_timeout, .. } => s.can_step(EventView::Tick { next_timeout }),
            Move::Deliver { sent } => s.can_step(
                EventView::Step { from: sent.from, message: sent.message },
            ),
            Move::Propose { .. } => s.role == Role::Leader && s.can_propose(),
            Move::ChangeConfig { new_voters, .. } => s.role == Role::Leader && new_voters.len() > 0
                && s.can_change_config(new_voters),
            Move::AddLearner { learner, .. } => s.takes_learner(learner) && s.can_extend(),
            Move::RemoveLearner { .. } => s.role == Role::Leader,
            Move::Compact { up_to, .. } => s.boundary() < up_to <= s.commit_index,
            Move::Restart { .. } => true,
        }
    }

    /// What it makes of a node in state `s`, and what that owes.
    pub open spec fn outcome(self, s: NodeState) -> (NodeState, Seq<EffectView>) {
        match self {
            Move::Tick { next_timeout, .. } => s.step(EventView::Tick { next_timeout }),
            Move::Deliver { sent } => s.step(
                EventView::Step { from: sent.from, message: sent.message },
            ),
            Move::Propose { command, .. } => s.append_and_advance(LogPayloadView::Command(command)),
            Move::ChangeConfig { new_voters, .. } => s.change_config(new_voters),
            Move::AddLearner { learner, .. } => {
                let after = s.add_learner(learner);
                (after, seq![after.persist_learners()])
            },
            Move::RemoveLearner { learner, .. } => {
                let after = s.remove_learner(learner);
                (after, seq![after.persist_learners()])
            },
            Move::Compact { up_to, data, .. } => {
                let after = s.compact(up_to as int, data);
                (after, after.persist_compacted())
            },
            Move::Restart { election_timeout, heartbeat_interval, .. } => (
                Node::initial(
                    s.id,
                    election_timeout,
                    heartbeat_interval,
                    HardState { current_term: s.current_term, voted_for: s.voted_for },
                    s.log,
                    s.snapshot,
                    s.snapshot_data,
                    s.snapshot_config,
                    s.learners,
                ),
                Seq::empty(),
            ),
        }
    }
}

/// Whether a node has just come into being: as one of the first voters, or as
/// one that does not know of any.
pub open spec fn is_fresh(genesis: Seq<NodeId>, s: NodeState) -> bool {
    s == Node::initial(
        s.id,
        s.election_timeout,
        s.heartbeat_interval,
        HardState { current_term: 0, voted_for: None },
        Seq::empty(),
        SnapshotMetadata { last_included_index: 0, last_included_term: 0 },
        Seq::empty(),
        s.snapshot_config,
        Set::empty(),
    ) && (s.snapshot_config == record::stable(genesis) || s.snapshot_config == record::stable(
        Seq::empty(),
    ))
}

impl System {
    /// Whether nothing has happened yet in a cluster whose first voters are
    /// `genesis`.
    pub open spec fn is_new(self, genesis: Seq<NodeId>) -> bool {
        &&& self.sent == Set::<Sent>::empty()
        &&& forall|id: NodeId| #[trigger]
            self.nodes.contains_key(id) ==> self.nodes[id].id == id && is_fresh(
                genesis,
                self.nodes[id],
            )
    }

    /// Whether something can happen now. Only what was sent is delivered.
    pub open spec fn allows(self, m: Move) -> bool {
        &&& self.nodes.contains_key(m.node())
        &&& m.fits(self.nodes[m.node()])
        &&& m matches Move::Deliver { sent } ==> self.sent.contains(sent)
    }

    pub open spec fn after(self, m: Move) -> System {
        let id = m.node();
        let (after, effects) = m.outcome(self.nodes[id]);
        System {
            nodes: self.nodes.insert(id, after),
            sent: self.sent.union(
                Set::new(
                    |sent: Sent|
                        sent.from == id && effects.contains(
                            EffectView::Send { to: sent.to, message: sent.message },
                        ),
                ),
            ),
        }
    }

    /// Where a sequence of moves leads, if each can happen in its turn.
    pub open spec fn run(self, moves: Seq<Move>) -> Option<System>
        decreases moves.len(),
    {
        if moves.len() == 0 {
            Some(self)
        } else {
            match self.run(moves.drop_last()) {
                Some(before) => if before.allows(moves.last()) {
                    Some(before.after(moves.last()))
                } else {
                    None
                },
                None => None,
            }
        }
    }

    /// Whether no leader begins a transition while it is in another.
    pub open spec fn takes_turns(self, moves: Seq<Move>) -> bool
        decreases moves.len(),
    {
        moves.len() > 0 ==> {
            &&& self.takes_turns(moves.drop_last())
            &&& self.run(moves.drop_last()) matches Some(before) ==> (
            moves.last() matches Move::ChangeConfig { id, .. }
                ==> !before.nodes[id].config().is_joint())
        }
    }
}

/// Whether every node and every message is as recorded.
pub open spec fn in_accord(genesis: Seq<NodeId>, c: System, r: Record) -> bool {
    &&& r.consistent(genesis)
    &&& forall|id: NodeId| #[trigger]
        c.nodes.contains_key(id) ==> c.nodes[id].id == id && record::node_matches(
            genesis,
            r,
            c.nodes[id],
        )
    &&& forall|sent: Sent| #[trigger]
        c.sent.contains(sent) ==> record::message_matches(
            genesis,
            r,
            sent.from,
            sent.to,
            sent.message,
        )
}

/// At the start all nodes are in accord with a blank record.
pub proof fn lemma_new(genesis: Seq<NodeId>, c: System)
    requires
        c.is_new(genesis),
    ensures
        in_accord(genesis, c, Record::blank()),
{
    assert forall|id: NodeId| #[trigger] c.nodes.contains_key(id) implies record::node_matches(
        genesis,
        Record::blank(),
        c.nodes[id],
    ) by {
        membership::lemma_fresh(genesis, Record::blank(), c.nodes[id]);
    }
}

/// How the record grows with a move of a node in state `s`: by the entry a
/// leader is given, and by the end of a transition that it commits.
pub open spec fn noted(r: Record, next: Record, s: NodeState, m: Move) -> bool {
    match m {
        Move::Propose { command, .. } => noted_entry(
            r,
            next,
            s,
            LogPayloadView::Command(command),
        ),
        Move::ChangeConfig { new_voters, .. } => noted_entry(
            r,
            next,
            s,
            LogPayloadView::Configuration(s.joint_config(new_voters)),
        ),
        _ => r.adds_no_entry(next) || (s.role == Role::Leader && s.config().is_joint() && next
            == r.with_end(s)),
    }
}

/// Whether the record grows by an entry a leader is given, and perhaps by the
/// end of the transition that the leader is then in.
pub open spec fn noted_entry(
    r: Record,
    next: Record,
    s: NodeState,
    payload: LogPayloadView,
) -> bool {
    let appended = r.with_entry(s.current_term, LogEntryView { term: s.current_term, payload });
    let grown = s.append(payload);
    next == appended || (grown.config().is_joint() && next == appended.with_end(grown))
}

/// What one node does leaves it, the record and what it sends in accord.
proof fn lemma_outcome(genesis: Seq<NodeId>, r: Record, s: NodeState, m: Move) -> (next: Record)
    requires
        r.consistent(genesis),
        record::node_matches(genesis, r, s),
        m.fits(s),
        m matches Move::ChangeConfig { .. } ==> !s.config().is_joint(),
        m matches Move::Deliver { sent } ==> record::message_matches(
            genesis,
            r,
            sent.from,
            s.id,
            sent.message,
        ),
    ensures
        next.consistent(genesis),
        r.grows_to(next),
        r.adds_only(next, s.id),
        m.outcome(s).0.id == s.id,
        record::node_matches(genesis, next, m.outcome(s).0),
        steps::sends_match(genesis, next, s.id, m.outcome(s).1),
        noted(r, next, s, m),
{
    match m {
        Move::Tick { next_timeout, .. } => {
            membership::lemma_step(genesis, r, s, EventView::Tick { next_timeout })
        },
        Move::Deliver { sent } => membership::lemma_step(
            genesis,
            r,
            s,
            EventView::Step { from: sent.from, message: sent.message },
        ),
        Move::Propose { command, .. } => {
            model::lemma_can_propose(s, command);
            leading::lemma_append_and_advance(genesis, r, s, LogPayloadView::Command(command))
        },
        Move::ChangeConfig { new_voters, .. } => {
            let payload = LogPayloadView::Configuration(s.joint_config(new_voters));
            model::lemma_latest_push(s.log, s.append(payload).log.last());
            membership::lemma_config_change(genesis, r, s, new_voters)
        },
        Move::AddLearner { learner, .. } => {
            membership::lemma_add_learner(genesis, r, s, learner);
            r
        },
        Move::RemoveLearner { learner, .. } => {
            membership::lemma_remove_learner(genesis, r, s, learner);
            r
        },
        Move::Compact { up_to, data, .. } => membership::lemma_compact(
            genesis,
            r,
            s,
            up_to as int,
            data,
        ),
        Move::Restart { .. } => {
            membership::lemma_recovered(genesis, r, s, m.outcome(s).0);
            r
        },
    }
}

/// A node stays as recorded while another acts.
pub proof fn lemma_bystander(
    genesis: Seq<NodeId>,
    r: Record,
    next: Record,
    actor: NodeId,
    s: NodeState,
)
    requires
        r.consistent(genesis),
        next.consistent(genesis),
        r.grows_to(next),
        r.adds_only(next, actor),
        s.id != actor,
        record::node_matches(genesis, r, s),
    ensures
        record::node_matches(genesis, next, s),
{
    if s.role == Role::Candidate && next.led(s.current_term) && next.leaders[s.current_term]
        == s.id {
        assert(r.led(s.current_term));
    }
    if s.role == Role::Leader {
        assert(r.led(s.current_term));
        assert(next.led(s.current_term));
    }
    growth::lemma_unaffected(genesis, r, next, s);
}

/// One move keeps everything in accord.
pub proof fn lemma_move(genesis: Seq<NodeId>, c: System, r: Record, m: Move) -> (next: Record)
    requires
        in_accord(genesis, c, r),
        c.allows(m),
        m matches Move::ChangeConfig { id, .. } ==> !c.nodes[id].config().is_joint(),
    ensures
        in_accord(genesis, c.after(m), next),
        r.grows_to(next),
        noted(r, next, c.nodes[m.node()], m),
        m.outcome(c.nodes[m.node()]).0.id == m.node(),
{
    let id = m.node();
    let s = c.nodes[id];
    let next = lemma_outcome(genesis, r, s, m);
    let after = c.after(m);
    let effects = m.outcome(s).1;
    assert forall|other: NodeId| #[trigger] after.nodes.contains_key(
        other,
    ) implies after.nodes[other].id == other && record::node_matches(
        genesis,
        next,
        after.nodes[other],
    ) by {
        if other != id {
            assert(c.nodes.contains_key(other));
            lemma_bystander(genesis, r, next, id, c.nodes[other]);
        }
    }
    assert forall|sent: Sent| #[trigger] after.sent.contains(sent) implies record::message_matches(
        genesis,
        next,
        sent.from,
        sent.to,
        sent.message,
    ) by {
        if c.sent.contains(sent) {
            growth::lemma_message_stays(genesis, r, next, sent.from, sent.to, sent.message);
        } else {
            let effect = EffectView::Send { to: sent.to, message: sent.message };
            let i = choose|i: int| 0 <= i < effects.len() && effects[i] == effect;
            assert(effects[i] == effect);
        }
    }
    next
}

/// Any sequence of moves keeps everything in accord.
proof fn lemma_run(genesis: Seq<NodeId>, c: System, r: Record, moves: Seq<Move>) -> (next: Record)
    requires
        in_accord(genesis, c, r),
        c.run(moves) is Some,
        c.takes_turns(moves),
    ensures
        in_accord(genesis, c.run(moves)->0, next),
        r.grows_to(next),
    decreases moves.len(),
{
    if moves.len() == 0 {
        r
    } else {
        let mid = lemma_run(genesis, c, r, moves.drop_last());
        let before = c.run(moves.drop_last())->0;
        let next = lemma_move(genesis, before, mid, moves.last());
        growth::lemma_grows(r, mid, next);
        next
    }
}

/// Election safety: no term has two leaders, at one time or at two, in whatever
/// configurations they were elected. `a` is looked at after `moves`, `b` after
/// `more` have followed.
pub proof fn terms_have_one_leader(
    genesis: Seq<NodeId>,
    start: System,
    moves: Seq<Move>,
    more: Seq<Move>,
    a: NodeId,
    b: NodeId,
)
    requires
        start.is_new(genesis),
        start.run(moves) is Some,
        start.takes_turns(moves),
        (start.run(moves)->0).run(more) is Some,
        (start.run(moves)->0).takes_turns(more),
        (start.run(moves)->0).nodes.contains_key(a),
        ((start.run(moves)->0).run(more)->0).nodes.contains_key(b),
        (start.run(moves)->0).nodes[a].role == Role::Leader,
        ((start.run(moves)->0).run(more)->0).nodes[b].role == Role::Leader,
        (start.run(moves)->0).nodes[a].current_term == ((start.run(moves)->0).run(
            more,
        )->0).nodes[b].current_term,
    ensures
        a == b,
{
    lemma_new(genesis, start);
    let r = lemma_run(genesis, start, Record::blank(), moves);
    let mid = start.run(moves)->0;
    let next = lemma_run(genesis, mid, r, more);
    assert(record::node_matches(genesis, r, mid.nodes[a]));
    assert(record::node_matches(genesis, next, (mid.run(more)->0).nodes[b]));
    assert(r.led(mid.nodes[a].current_term));
}

/// An entry a node holds is that of its log from the beginning.
proof fn lemma_entry_at(genesis: Seq<NodeId>, r: Record, s: NodeState, index: int)
    requires
        record::snapshot_matches(genesis, r, s),
        s.entry_at(index) is Some,
    ensures
        0 < index <= r.full(s).len(),
        s.entry_at(index) == Some(r.full(s)[index - 1]),
{
}

/// Log matching: where two nodes hold an entry of the same term at the same
/// index, they hold the same entries up to there, as far as both still hold
/// them.
pub proof fn logs_match(
    genesis: Seq<NodeId>,
    start: System,
    moves: Seq<Move>,
    a: NodeId,
    b: NodeId,
    index: int,
    earlier: int,
)
    requires
        start.is_new(genesis),
        start.run(moves) is Some,
        start.takes_turns(moves),
        (start.run(moves)->0).nodes.contains_key(a),
        (start.run(moves)->0).nodes.contains_key(b),
        (start.run(moves)->0).nodes[a].entry_at(index) is Some,
        (start.run(moves)->0).nodes[b].entry_at(index) is Some,
        ((start.run(moves)->0).nodes[a].entry_at(index)->0).term == ((start.run(
            moves,
        )->0).nodes[b].entry_at(index)->0).term,
        earlier <= index,
        (start.run(moves)->0).nodes[a].entry_at(earlier) is Some,
        (start.run(moves)->0).nodes[b].entry_at(earlier) is Some,
    ensures
        (start.run(moves)->0).nodes[a].entry_at(earlier) == (start.run(
            moves,
        )->0).nodes[b].entry_at(earlier),
{
    lemma_new(genesis, start);
    let r = lemma_run(genesis, start, Record::blank(), moves);
    let end = start.run(moves)->0;
    let s = end.nodes[a];
    let t = end.nodes[b];
    assert(record::node_matches(genesis, r, s) && record::node_matches(genesis, r, t));
    lemma_entry_at(genesis, r, s, index);
    lemma_entry_at(genesis, r, t, index);
    lemma_entry_at(genesis, r, s, earlier);
    lemma_entry_at(genesis, r, t, earlier);
    facts::same_entry_same_history(r, r.full(s), r.full(t), index - 1);
}

/// State machine safety: what a node has committed at an index is what any
/// node ever commits there. `a` is looked at after `moves`, `b` after `more`
/// have followed.
pub proof fn commits_are_forever(
    genesis: Seq<NodeId>,
    start: System,
    moves: Seq<Move>,
    more: Seq<Move>,
    a: NodeId,
    b: NodeId,
    index: int,
)
    requires
        start.is_new(genesis),
        start.run(moves) is Some,
        start.takes_turns(moves),
        (start.run(moves)->0).run(more) is Some,
        (start.run(moves)->0).takes_turns(more),
        (start.run(moves)->0).nodes.contains_key(a),
        ((start.run(moves)->0).run(more)->0).nodes.contains_key(b),
        index <= (start.run(moves)->0).nodes[a].commit_index,
        index <= ((start.run(moves)->0).run(more)->0).nodes[b].commit_index,
        (start.run(moves)->0).nodes[a].entry_at(index) is Some,
        ((start.run(moves)->0).run(more)->0).nodes[b].entry_at(index) is Some,
    ensures
        (start.run(moves)->0).nodes[a].entry_at(index) == ((start.run(moves)->0).run(
            more,
        )->0).nodes[b].entry_at(index),
{
    lemma_new(genesis, start);
    let r = lemma_run(genesis, start, Record::blank(), moves);
    let mid = start.run(moves)->0;
    let next = lemma_run(genesis, mid, r, more);
    let end = mid.run(more)->0;
    let s = mid.nodes[a];
    let t = end.nodes[b];
    assert(record::node_matches(genesis, r, s) && record::node_matches(genesis, next, t));
    lemma_entry_at(genesis, r, s, index);
    lemma_entry_at(genesis, next, t, index);
    growth::lemma_committed_part(
        genesis,
        r,
        s.current_term,
        s.commit_index as int,
        r.full(s),
        index,
    );
    growth::lemma_committed_grows(
        genesis,
        r,
        next,
        s.current_term,
        index,
        r.full(s),
        s.current_term,
    );
    growth::lemma_committed_part(
        genesis,
        next,
        t.current_term,
        t.commit_index as int,
        next.full(t),
        index,
    );
    facts::committed_entries_agree(
        genesis,
        next,
        s.current_term,
        index,
        r.full(s),
        t.current_term,
        index,
        next.full(t),
    );
}

/// Leader completeness: what a node has committed is held by every leader of
/// its term or a later one, now and later, unless that leader has compacted
/// it.
pub proof fn leaders_have_every_commit(
    genesis: Seq<NodeId>,
    start: System,
    moves: Seq<Move>,
    more: Seq<Move>,
    a: NodeId,
    leader: NodeId,
    index: int,
)
    requires
        start.is_new(genesis),
        start.run(moves) is Some,
        start.takes_turns(moves),
        (start.run(moves)->0).run(more) is Some,
        (start.run(moves)->0).takes_turns(more),
        (start.run(moves)->0).nodes.contains_key(a),
        ((start.run(moves)->0).run(more)->0).nodes.contains_key(leader),
        ((start.run(moves)->0).run(more)->0).nodes[leader].role == Role::Leader,
        (start.run(moves)->0).nodes[a].current_term <= ((start.run(moves)->0).run(
            more,
        )->0).nodes[leader].current_term,
        index <= (start.run(moves)->0).nodes[a].commit_index,
        (start.run(moves)->0).nodes[a].entry_at(index) is Some,
    ensures
        index <= ((start.run(moves)->0).run(more)->0).nodes[leader].boundary() || ((start.run(
            moves,
        )->0).run(more)->0).nodes[leader].entry_at(index) == (start.run(
            moves,
        )->0).nodes[a].entry_at(index),
{
    lemma_new(genesis, start);
    let r = lemma_run(genesis, start, Record::blank(), moves);
    let mid = start.run(moves)->0;
    let next = lemma_run(genesis, mid, r, more);
    let end = mid.run(more)->0;
    let s = mid.nodes[a];
    let t = end.nodes[leader];
    assert(record::node_matches(genesis, r, s) && record::node_matches(genesis, next, t));
    lemma_entry_at(genesis, r, s, index);
    growth::lemma_committed_part(
        genesis,
        r,
        s.current_term,
        s.commit_index as int,
        r.full(s),
        index,
    );
    growth::lemma_committed_grows(
        genesis,
        r,
        next,
        s.current_term,
        index,
        r.full(s),
        s.current_term,
    );
    facts::lemma_committed_in_leader(
        genesis,
        next,
        s.current_term,
        index,
        r.full(s),
        t.current_term,
    );
    assert(r.full(s)[index - 1] == next.full(t)[index - 1]);
}

} // verus!
