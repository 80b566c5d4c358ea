//! Drives a cluster through logical time.

use vstd::prelude::*;

use crate::raft::ids;
use crate::raft::model::NodeState;
use crate::raft::node::Node;
use crate::raft::types::{Event, EventView, NodeId, Role};
use crate::sim::cluster::Cluster;
use crate::sim::network;
use crate::sim::network::{Network, NetworkState};
use crate::sim::trace;
use crate::sim::trace::{EnvelopeView, TraceEvent};

verus! {

/// The state of a [`Simulation`].
#[verifier::ext_equal]
pub struct SimState {
    pub nodes: Map<NodeId, NodeState>,
    pub net: NetworkState,
}

impl SimState {
    /// One node takes one event, and what it sends is on its way. Not possible
    /// where there is no such node, or it cannot take the event.
    pub open spec fn transition(self, id: NodeId, event: EventView) -> Option<SimState> {
        if self.nodes.contains_key(id) && self.nodes[id].can_step(event) {
            let (node, effects) = self.nodes[id].step(event);
            match self.net.route(id, effects, Set::empty()) {
                Some(net) => Some(SimState { nodes: self.nodes.insert(id, node), net }),
                None => None,
            }
        } else {
            None
        }
    }

    /// Delivers messages one after the other.
    pub open spec fn deliver_all(self, due: Seq<EnvelopeView>) -> Option<SimState>
        decreases due.len(),
    {
        if due.len() == 0 {
            Some(self)
        } else {
            let recorded = SimState { net: self.net.delivered(due[0]), ..self };
            match recorded.transition(
                due[0].to,
                EventView::Step { from: due[0].from, message: due[0].message },
            ) {
                Some(next) => next.deliver_all(due.drop_first()),
                None => None,
            }
        }
    }

    /// Lets nodes tick one after the other.
    pub open spec fn tick_all(self, order: Seq<NodeId>) -> Option<SimState>
        decreases order.len(),
    {
        if order.len() == 0 {
            Some(self)
        } else {
            match self.net.ticked(order[0]) {
                Some(net) => match (SimState { net, ..self }).transition(
                    order[0],
                    EventView::Tick { next_timeout: self.net.timeout() },
                ) {
                    Some(next) => next.tick_all(order.drop_first()),
                    None => None,
                },
                None => None,
            }
        }
    }

    /// One tick of the whole cluster: the messages due arrive, then every node
    /// ticks, in ascending order. Nothing where some transition is not
    /// possible.
    pub open spec fn step(self) -> Option<SimState> {
        match self.net.advance() {
            Some(net) => {
                let taken = SimState { net: net.without_due(), ..self };
                match taken.deliver_all(net.due()) {
                    Some(delivered) => delivered.tick_all(
                        ids::sorted_ids(delivered.nodes.dom()),
                    ),
                    None => None,
                }
            },
            None => None,
        }
    }

    /// `n` ticks.
    pub open spec fn run(self, n: nat) -> Option<SimState>
        decreases n,
    {
        if n == 0 {
            Some(self)
        } else {
            match self.step() {
                Some(next) => next.run((n - 1) as nat),
                None => None,
            }
        }
    }

    /// The leaders, in ascending order, each with its term.
    pub open spec fn leaders(self) -> Seq<(NodeId, u64)> {
        ids::sorted_ids(self.nodes.dom()).filter(
            |id: NodeId| self.nodes[id].role == Role::Leader,
        ).map_values(|id: NodeId| (id, self.nodes[id].current_term))
    }
}

/// A transition keeps the members.
pub proof fn transition_keeps_members(s: SimState, id: NodeId, event: EventView)
    ensures
        s.transition(id, event) matches Some(next) ==> next.nodes.dom() == s.nodes.dom(),
{
    match s.transition(id, event) {
        Some(next) => {
            assert(next.nodes.dom() =~= s.nodes.dom());
        },
        None => {},
    }
}

proof fn lemma_transition_trace(s: SimState, id: NodeId, event: EventView)
    ensures
        s.transition(id, event) matches Some(next) ==> s.net.trace.is_prefix_of(next.net.trace),
{
    if s.nodes.contains_key(id) {
        let effects = s.nodes[id].step(event).1;
        network::routing_only_adds_to_the_trace(s.net, id, effects, Set::empty());
    }
}

proof fn lemma_deliver_trace(s: SimState, due: Seq<EnvelopeView>)
    ensures
        s.deliver_all(due) matches Some(next) ==> s.net.trace.is_prefix_of(next.net.trace),
    decreases due.len(),
{
    if due.len() > 0 {
        let noted = SimState { net: s.net.delivered(due[0]), ..s };
        let event = EventView::Step { from: due[0].from, message: due[0].message };
        lemma_transition_trace(noted, due[0].to, event);
        if let Some(next) = noted.transition(due[0].to, event) {
            lemma_deliver_trace(next, due.drop_first());
            trace::lemma_continued(s.net.trace, noted.net.trace, next.net.trace);
            if let Some(last) = next.deliver_all(due.drop_first()) {
                trace::lemma_continued(s.net.trace, next.net.trace, last.net.trace);
            }
        }
    }
}

proof fn lemma_tick_trace(s: SimState, order: Seq<NodeId>)
    ensures
        s.tick_all(order) matches Some(next) ==> s.net.trace.is_prefix_of(next.net.trace),
    decreases order.len(),
{
    if order.len() > 0 {
        if let Some(net) = s.net.ticked(order[0]) {
            let noted = SimState { net, ..s };
            let event = EventView::Tick { next_timeout: s.net.timeout() };
            lemma_transition_trace(noted, order[0], event);
            if let Some(next) = noted.transition(order[0], event) {
                lemma_tick_trace(next, order.drop_first());
                trace::lemma_continued(s.net.trace, net.trace, next.net.trace);
                if let Some(last) = next.tick_all(order.drop_first()) {
                    trace::lemma_continued(s.net.trace, next.net.trace, last.net.trace);
                }
            }
        }
    }
}

/// A tick only adds to the trace.
pub proof fn trace_only_grows(s: SimState)
    ensures
        s.step() matches Some(next) ==> s.net.trace.is_prefix_of(next.net.trace),
{
    if let Some(net) = s.net.advance() {
        let taken = SimState { net: net.without_due(), ..s };
        lemma_deliver_trace(taken, net.due());
        if let Some(delivered) = taken.deliver_all(net.due()) {
            lemma_tick_trace(delivered, ids::sorted_ids(delivered.nodes.dom()));
        }
    }
}

/// A run can be cut anywhere: running on from where the first part ended is
/// running the whole. What a run leaves, its trace included, depends on
/// nothing but the state it starts from.
pub proof fn runs_compose(s: SimState, m: nat, n: nat)
    ensures
        s.run(m + n) == match s.run(m) {
            Some(middle) => middle.run(n),
            None => None,
        },
    decreases m,
{
    if m > 0 {
        match s.step() {
            Some(next) => {
                runs_compose(next, (m - 1) as nat, n);
                assert((m + n - 1) as nat == (m - 1) as nat + n);
            },
            None => {},
        }
    }
}

/// Drives a [`Cluster`] through logical time with randomized-but-seeded
/// election timeouts and message delivery delays, recording a full trace for
/// replay checks.
pub struct Simulation {
    cluster: Cluster,
    net: Network,
}

impl View for Simulation {
    type V = SimState;

    closed spec fn view(&self) -> SimState {
        SimState { nodes: self.cluster@, net: self.net@ }
    }
}

impl Simulation {
    pub closed spec fn wf(&self) -> bool {
        self.cluster.wf()
    }

    pub fn new(
        cluster: Cluster,
        seed: u64,
        min_timeout: u64,
        max_timeout: u64,
        min_delay: u64,
        max_delay: u64,
    ) -> (simulation: Self)
        requires
            cluster.wf(),
        ensures
            simulation.wf(),
            simulation@ == (SimState {
                nodes: cluster@,
                net: NetworkState::initial(seed, min_timeout, max_timeout, min_delay, max_delay),
            }),
    {
        Simulation {
            cluster,
            net: Network::new(seed, min_timeout, max_timeout, min_delay, max_delay),
        }
    }

    pub fn clock(&self) -> (clock: u64)
        ensures
            clock == self@.net.clock,
    {
        self.net.clock()
    }

    pub fn trace(&self) -> (events: &[TraceEvent])
        ensures
            events@.len() == self@.net.trace.len(),
            forall|i: int|
                0 <= i < events@.len() ==> (#[trigger] events@[i]).deep_view() == self@.net.trace[i],
    {
        self.net.trace()
    }

    /// Nodes currently leading, paired with their current term.
    pub fn leaders(&self) -> (leaders: Vec<(NodeId, u64)>)
        requires
            self.wf(),
        ensures
            leaders@ == self@.leaders(),
    {
        let ids = self.cluster.node_ids();
        let ghost leads = |id: NodeId| self@.nodes[id].role == Role::Leader;
        let ghost entry = |id: NodeId| (id, self@.nodes[id].current_term);
        let mut leaders: Vec<(NodeId, u64)> = Vec::new();
        let mut i: usize = 0;
        proof {
            reveal(Seq::filter);
            assert(ids@.take(0) =~= Seq::empty());
            assert(leaders@ =~= ids@.take(0).filter(leads).map_values(entry));
        }
        while i < ids.len()
            invariant
                i <= ids@.len(),
                self.wf(),
                ids@.to_set() == self@.nodes.dom(),
                leads == |id: NodeId| self@.nodes[id].role == Role::Leader,
                entry == |id: NodeId| (id, self@.nodes[id].current_term),
                leaders@ == ids@.take(i as int).filter(leads).map_values(entry),
            decreases ids.len() - i,
        {
            proof {
                reveal(Seq::filter);
                assert(ids@.take(i + 1).drop_last() =~= ids@.take(i as int));
                assert(ids@.to_set().contains(ids@[i as int]));
            }
            match self.cluster.node(ids[i]) {
                Some(node) => {
                    if node.role() == Role::Leader {
                        leaders.push((ids[i], node.current_term()));
                    }
                },
                None => {},
            }
            assert(leaders@ =~= ids@.take(i + 1).filter(leads).map_values(entry));
            i += 1;
        }
        assert(ids@.take(ids@.len() as int) =~= ids@);
        leaders
    }

    /// Reads one node's current state.
    pub fn node(&self, id: NodeId) -> (node: Option<&Node>)
        requires
            self.wf(),
        ensures
            match node {
                Some(node) => self@.nodes.contains_key(id) && node@ == self@.nodes[id] && node.wf(),
                None => !self@.nodes.contains_key(id),
            },
    {
        self.cluster.node(id)
    }

    /// Drives `leader`'s [`Node::add_learner`]. A no-op if `leader` isn't a
    /// known node.
    pub fn add_learner(&mut self, leader: NodeId, id: NodeId)
        requires
            old(self).wf(),
            old(self)@.nodes.contains_key(leader) && old(self)@.nodes[leader].takes_learner(id)
                ==> old(self)@.nodes[leader].can_extend(),
        ensures
            final(self).wf(),
            final(self)@ == if old(self)@.nodes.contains_key(leader)
                && old(self)@.nodes[leader].takes_learner(id) {
                SimState {
                    nodes: old(self)@.nodes.insert(leader, old(self)@.nodes[leader].add_learner(id)),
                    ..old(self)@
                }
            } else {
                old(self)@
            },
    {
        match self.cluster.node_mut(leader) {
            Some(node) => {
                let _ = node.add_learner(id);
            },
            None => {},
        }
        assert(old(self)@.nodes.contains_key(leader) ==> old(self)@.nodes.insert(
            leader,
            old(self)@.nodes[leader],
        ) =~= old(self)@.nodes);
    }

    /// Drives `leader`'s [`Node::propose_config_change`]. The new entry's
    /// index, or `None` if `leader` isn't a known node, isn't the leader, or
    /// `new_voters` is empty.
    pub fn propose_config_change(&mut self, leader: NodeId, new_voters: Vec<NodeId>) -> (outcome: Option<
        u64,
    >)
        requires
            old(self).wf(),
            old(self)@.nodes.contains_key(leader) && old(self)@.nodes[leader].role == Role::Leader
                && new_voters@.len() > 0 ==> old(self)@.nodes[leader].can_change_config(new_voters@),
        ensures
            final(self).wf(),
            match outcome {
                Some(index) => {
                    let node = old(self)@.nodes[leader];
                    &&& old(self)@.nodes.contains_key(leader)
                    &&& node.role == Role::Leader
                    &&& new_voters@.len() > 0
                    &&& index == node.last_log_index() + 1
                    &&& final(self)@ == (SimState {
                        nodes: old(self)@.nodes.insert(leader, node.change_config(new_voters@).0),
                        ..old(self)@
                    })
                },
                None => {
                    &&& !old(self)@.nodes.contains_key(leader) || old(self)@.nodes[leader].role
                        != Role::Leader || new_voters@.len() == 0
                    &&& final(self)@ == old(self)@
                },
            },
    {
        assert(old(self)@.nodes.contains_key(leader) ==> old(self)@.nodes.insert(
            leader,
            old(self)@.nodes[leader],
        ) =~= old(self)@.nodes);
        match self.cluster.node_mut(leader) {
            Some(node) => match node.propose_config_change(new_voters) {
                Some((index, _)) => Some(index),
                None => None,
            },
            None => None,
        }
    }

    /// One node takes one event, and what it sends is on its way.
    fn transition(&mut self, id: NodeId, event: Event) -> (done: bool)
        requires
            old(self).wf(),
        ensures
            final(self).wf(),
            done == (old(self)@.transition(id, event.deep_view()) is Some),
            done ==> old(self)@.transition(id, event.deep_view()) == Some(final(self)@),
    {
        let effects = match self.cluster.node_mut(id) {
            Some(node) => {
                if !node.can_step(&event) {
                    return false;
                }
                node.step(event)
            },
            None => {
                return false;
            },
        };
        let none: Vec<NodeId> = Vec::new();
        proof {
            assert(network::view_effects(effects@) =~= effects.deep_view());
            assert(none@.to_set() =~= Set::<NodeId>::empty());
        }
        self.net.route(id, &effects, &none)
    }

    /// Advances logical time by one tick: delivers due messages, then ticks
    /// every node in canonical order.
    pub fn step(&mut self)
        requires
            old(self).wf(),
            old(self)@.step() is Some,
        ensures
            final(self).wf(),
            old(self)@.step() == Some(final(self)@),
    {
        let _ = self.try_step();
    }

    /// [`Simulation::step`] for a caller that cannot tell whether every
    /// transition of the tick is possible: false where one is not, and the
    /// tick then stops short of it.
    pub fn try_step(&mut self) -> (done: bool)
        requires
            old(self).wf(),
        ensures
            final(self).wf(),
            done == (old(self)@.step() is Some),
            done ==> old(self)@.step() == Some(final(self)@),
    {
        if !self.net.advance() {
            return false;
        }
        let due = self.net.take_due();
        let ghost all = due.deep_view();
        let ghost start = self@;
        let mut i: usize = 0;
        assert(all.skip(0) =~= all);
        while i < due.len()
            invariant
                i <= due@.len(),
                self.wf(),
                all == due.deep_view(),
                start.deliver_all(all) == self@.deliver_all(all.skip(i as int)),
                old(self)@.step() == match start.deliver_all(all) {
                    Some(delivered) => delivered.tick_all(ids::sorted_ids(delivered.nodes.dom())),
                    None => None,
                },
            decreases due.len() - i,
        {
            let ghost envelope = all.skip(i as int)[0];
            proof {
                assert(all.skip(i as int).drop_first() =~= all.skip(i + 1));
                assert(envelope == due@[i as int].deep_view());
            }
            let ghost before = self@;
            self.net.record_delivery(&due[i]);
            assert(self@ =~= (SimState { net: before.net.delivered(envelope), ..before }));
            let event = Event::Step { from: due[i].from, message: due[i].message.clone() };
            if !self.transition(due[i].to, event) {
                return false;
            }
            i += 1;
        }
        assert(all.skip(i as int) =~= Seq::empty());
        let order: Vec<NodeId> = vstd::slice::slice_to_vec(self.cluster.node_ids());
        let ghost delivered = self@;
        let mut j: usize = 0;
        assert(order@.skip(0) =~= order@);
        while j < order.len()
            invariant
                j <= order@.len(),
                self.wf(),
                old(self)@.step() == self@.tick_all(order@.skip(j as int)),
            decreases order.len() - j,
        {
            let ghost before = self@;
            proof {
                assert(order@.skip(j as int).drop_first() =~= order@.skip(j + 1));
                assert(order@.skip(j as int)[0] == order@[j as int]);
            }
            match self.net.record_tick(order[j]) {
                Some(next_timeout) => {
                    assert(self@ =~= (SimState { net: self@.net, ..before }));
                    if !self.transition(order[j], Event::Tick { next_timeout }) {
                        return false;
                    }
                },
                None => {
                    return false;
                },
            }
            j += 1;
        }
        assert(order@.skip(j as int) =~= Seq::empty());
        true
    }
}

} // verus!
