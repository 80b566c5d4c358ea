//! A system never gets stuck: its nodes can tick and take whatever was sent to
//! them, until a counter or an index reaches its limit.

use vstd::prelude::*;

use crate::raft::model;
use crate::raft::model::NodeState;
use crate::raft::types::{EffectView, EventView, LogPayloadView, NodeId};
use crate::safety::bounds;
use crate::safety::progress;
use crate::safety::record;
use crate::safety::record::Record;
use crate::safety::system;
use crate::safety::system::{Move, Sent, System};

verus! {

impl Move {
    /// How much further it may take a log.
    pub open spec fn demand(self) -> int {
        match self {
            Move::Propose { .. } => 1,
            Move::ChangeConfig { .. } => 2,
            _ => 0,
        }
    }
}

/// How far a sequence of moves may take a log.
pub open spec fn demand_of(moves: Seq<Move>) -> int
    decreases moves.len(),
{
    if moves.len() == 0 {
        0
    } else {
        demand_of(moves.drop_last()) + moves.last().demand()
    }
}

impl System {
    /// Whether a change of membership is one to nodes of the system, and its
    /// leader tracks whom it makes voters.
    pub open spec fn knows(self, m: Move) -> bool {
        match m {
            Move::ChangeConfig { id, new_voters } => forall|voter: NodeId| #[trigger]
                new_voters.contains(voter) ==> self.nodes.contains_key(voter) && (voter == id || (
                self.nodes[id].next_index.contains_key(voter)
                    && self.nodes[id].match_index.contains_key(voter))),
            Move::AddLearner { learner, .. } => self.nodes.contains_key(learner),
            _ => true,
        }
    }

    /// Whether every change of membership along the way is such a one.
    pub open spec fn knows_all(self, moves: Seq<Move>) -> bool
        decreases moves.len(),
    {
        moves.len() > 0 ==> {
            &&& self.knows_all(moves.drop_last())
            &&& self.run(moves.drop_last()) matches Some(before) ==> before.knows(moves.last())
        }
    }
}

/// Whether all is in accord, with no log going beyond `cap`, and everyone
/// involved known.
pub open spec fn holds_together(genesis: Seq<NodeId>, c: System, r: Record, cap: int) -> bool {
    let known = c.nodes.dom();
    &&& system::in_accord(genesis, c, r)
    &&& r.within(genesis, cap, known)
    &&& genesis.to_set().subset_of(known)
    &&& forall|id: NodeId| #[trigger]
        c.nodes.contains_key(id) ==> progress::tracks_targets(c.nodes[id])
            && c.nodes[id].learners.subset_of(known)
    &&& forall|sent: Sent| #[trigger]
        c.sent.contains(sent) ==> known.contains(sent.from) && known.contains(sent.to)
}

/// A move keeps everyone whom a node replicates to tracked, and its learners
/// and whatever it sends among the known.
proof fn lemma_outcome(genesis: Seq<NodeId>, c: System, r: Record, cap: int, m: Move)
    requires
        holds_together(genesis, c, r, cap),
        0 <= cap,
        c.allows(m),
        c.knows(m),
    ensures
        ({
            let (after, effects) = m.outcome(c.nodes[m.node()]);
            &&& progress::tracks_targets(after)
            &&& after.learners.subset_of(c.nodes.dom())
            &&& progress::sends_to(effects, c.nodes.dom())
        }),
{
    let id = m.node();
    let s = c.nodes[id];
    let known = c.nodes.dom();
    assert(record::node_matches(genesis, r, s));
    bounds::lemma_config_known(genesis, r, s, cap, known);
    match m {
        Move::Tick { next_timeout, .. } => {
            let event = EventView::Tick { next_timeout };
            progress::lemma_event_tracks(genesis, r, s, event);
            progress::lemma_event_sends_to(s, event, known);
        },
        Move::Deliver { sent } => {
            let event = EventView::Step { from: sent.from, message: sent.message };
            assert(c.sent.contains(sent));
            progress::lemma_event_tracks(genesis, r, s, event);
            progress::lemma_event_sends_to(s, event, known);
        },
        Move::Propose { command, .. } => {
            let payload = LogPayloadView::Command(command);
            lemma_given(s, payload);
            let grown = s.append(payload);
            model::lemma_latest_push(s.log, grown.log.last());
            assert(grown.replication_targets() =~= s.replication_targets());
            progress::lemma_advance_tracks(grown);
        },
        Move::ChangeConfig { new_voters, .. } => {
            let kept = s.without_promoted(new_voters);
            let payload = LogPayloadView::Configuration(s.joint_config(new_voters));
            lemma_given(kept, payload);
            let grown = kept.append(payload);
            model::lemma_latest_push(kept.log, grown.log.last());
            assert(grown.config() == s.joint_config(new_voters));
            assert forall|peer: NodeId| #[trigger]
                grown.replication_targets().contains(peer) implies grown.next_index.contains_key(
                peer,
            ) && grown.match_index.contains_key(peer) by {
                if new_voters.contains(peer) {
                    assert(c.knows(m));
                } else {
                    assert(s.replication_targets().contains(peer));
                }
            }
            progress::lemma_advance_tracks(grown);
        },
        Move::AddLearner { learner, .. } => {
            let after = s.add_learner(learner);
            assert(after.config() == s.config());
            assert forall|peer: NodeId| #[trigger]
                after.replication_targets().contains(peer) implies after.next_index.contains_key(
                peer,
            ) && after.match_index.contains_key(peer) by {
                if peer != learner {
                    assert(s.replication_targets().contains(peer));
                }
            }
        },
        Move::RemoveLearner { learner, .. } => {
            let after = s.remove_learner(learner);
            assert(after.config() == s.config());
            assert forall|peer: NodeId| #[trigger]
                after.replication_targets().contains(peer) implies after.next_index.contains_key(
                peer,
            ) && after.match_index.contains_key(peer) by {
                assert(s.replication_targets().contains(peer));
            }
        },
        Move::Compact { up_to, data, .. } => {
            let after = s.compact(up_to as int, data);
            model::lemma_compact_config(s, up_to as int, data);
            assert(after.replication_targets() =~= s.replication_targets());
        },
        Move::Restart { .. } => {},
    }
}

/// A leader that is given an entry sends nothing by itself, and keeps its
/// learners.
proof fn lemma_given(s: NodeState, payload: LogPayloadView)
    ensures
        ({
            let (after, effects) = s.append_and_advance(payload);
            &&& forall|i: int| 0 <= i < effects.len() ==> !((#[trigger] effects[i]) is Send)
            &&& after.learners == s.learners
        }),
{
    let effects = s.append_and_advance(payload).1;
    let more = s.append(payload).advance_commit().1;
    assert forall|i: int| 0 <= i < effects.len() implies !((#[trigger] effects[i]) is Send) by {
        if i > 0 {
            assert(effects[i] == more[i - 1]);
        }
    }
}

/// The record stays within bounds that a move extends by what it demands.
proof fn lemma_noted(
    genesis: Seq<NodeId>,
    c: System,
    r: Record,
    next: Record,
    cap: int,
    m: Move,
)
    requires
        holds_together(genesis, c, r, cap),
        0 <= cap,
        c.allows(m),
        c.knows(m),
        next.consistent(genesis),
        system::noted(r, next, c.nodes[m.node()], m),
    ensures
        next.within(genesis, cap + m.demand(), c.nodes.dom()),
{
    let s = c.nodes[m.node()];
    let known = c.nodes.dom();
    assert(record::node_matches(genesis, r, s));
    match m {
        Move::Propose { command, .. } => {
            let payload = LogPayloadView::Command(command);
            bounds::lemma_appended(genesis, r, next, s, payload, cap, known);
        },
        Move::ChangeConfig { new_voters, .. } => {
            let config = s.joint_config(new_voters);
            bounds::lemma_config_known(genesis, r, s, cap, known);
            assert(config.members().subset_of(known));
            bounds::lemma_appended(
                genesis,
                r,
                next,
                s,
                LogPayloadView::Configuration(config),
                cap,
                known,
            );
        },
        _ => {
            bounds::lemma_event(genesis, r, next, s, cap, known);
        },
    }
}

proof fn lemma_move(genesis: Seq<NodeId>, c: System, r: Record, cap: int, m: Move) -> (next: Record)
    requires
        holds_together(genesis, c, r, cap),
        0 <= cap,
        c.allows(m),
        c.knows(m),
        m matches Move::ChangeConfig { id, .. } ==> !c.nodes[id].config().is_joint(),
    ensures
        holds_together(genesis, c.after(m), next, cap + m.demand()),
        c.after(m).nodes.dom() == c.nodes.dom(),
{
    let id = m.node();
    let known = c.nodes.dom();
    let after = c.after(m);
    let next = system::lemma_move(genesis, c, r, m);
    lemma_outcome(genesis, c, r, cap, m);
    lemma_noted(genesis, c, r, next, cap, m);
    assert(after.nodes.dom() =~= known);
    assert forall|other: NodeId| #[trigger] after.nodes.contains_key(
        other,
    ) implies progress::tracks_targets(after.nodes[other]) && after.nodes[other].learners.subset_of(
        known,
    ) by {
        if other != id {
            assert(c.nodes.contains_key(other));
        }
    }
    let effects = m.outcome(c.nodes[id]).1;
    assert forall|sent: Sent| #[trigger] after.sent.contains(sent) implies known.contains(sent.from)
        && known.contains(sent.to) by {
        if !c.sent.contains(sent) {
            let effect = EffectView::Send { to: sent.to, message: sent.message };
            let i = choose|i: int| 0 <= i < effects.len() && effects[i] == effect;
            assert(effects[i] == effect);
        }
    }
    next
}

proof fn lemma_run(genesis: Seq<NodeId>, start: System, moves: Seq<Move>) -> (r: Record)
    requires
        start.is_new(genesis),
        genesis.to_set().subset_of(start.nodes.dom()),
        start.run(moves) is Some,
        start.takes_turns(moves),
        start.knows_all(moves),
    ensures
        holds_together(genesis, start.run(moves)->0, r, demand_of(moves)),
        (start.run(moves)->0).nodes.dom() == start.nodes.dom(),
        0 <= demand_of(moves),
    decreases moves.len(),
{
    if moves.len() == 0 {
        system::lemma_new(genesis, start);
        Record::blank()
    } else {
        let earlier = moves.drop_last();
        let r = lemma_run(genesis, start, earlier);
        lemma_move(genesis, start.run(earlier)->0, r, demand_of(earlier), moves.last())
    }
}

/// Whatever was sent is addressed to a node of the system, which can take it.
pub proof fn messages_can_be_taken(
    genesis: Seq<NodeId>,
    start: System,
    moves: Seq<Move>,
    sent: Sent,
)
    requires
        start.is_new(genesis),
        genesis.to_set().subset_of(start.nodes.dom()),
        start.run(moves) is Some,
        start.takes_turns(moves),
        start.knows_all(moves),
        demand_of(moves) < u64::MAX,
        (start.run(moves)->0).sent.contains(sent),
    ensures
        (start.run(moves)->0).nodes.contains_key(sent.to),
        (start.run(moves)->0).nodes.contains_key(sent.from),
        (start.run(moves)->0).allows(Move::Deliver { sent }),
{
    let r = lemma_run(genesis, start, moves);
    let c = start.run(moves)->0;
    assert(c.nodes.dom().contains(sent.to));
    let s = c.nodes[sent.to];
    assert(record::node_matches(genesis, r, s));
    let event = EventView::Step { from: sent.from, message: sent.message };
    progress::lemma_possible(genesis, r, s, event, demand_of(moves), c.nodes.dom());
}

/// Every node can tick, until a counter of its own reaches its limit.
pub proof fn nodes_can_tick(
    genesis: Seq<NodeId>,
    start: System,
    moves: Seq<Move>,
    id: NodeId,
    next_timeout: u64,
)
    requires
        start.is_new(genesis),
        genesis.to_set().subset_of(start.nodes.dom()),
        start.run(moves) is Some,
        start.takes_turns(moves),
        start.knows_all(moves),
        demand_of(moves) < u64::MAX,
        start.nodes.contains_key(id),
        progress::counts_on((start.run(moves)->0).nodes[id]),
    ensures
        (start.run(moves)->0).allows(Move::Tick { id, next_timeout }),
{
    let r = lemma_run(genesis, start, moves);
    let c = start.run(moves)->0;
    assert(c.nodes.dom().contains(id));
    let s = c.nodes[id];
    assert(record::node_matches(genesis, r, s));
    let event = EventView::Tick { next_timeout };
    progress::lemma_possible(genesis, r, s, event, demand_of(moves), c.nodes.dom());
}

} // verus!
