//! Drives replicas through logical time, with client operations and injected
//! faults.

use vstd::prelude::*;

use crate::kv::command::{Command, CommandView};
use crate::kv::replica;
use crate::kv::replica::{Replica, ReplicaState};
use crate::kv::state_machine::{ApplyResult, ApplyResultView};
use crate::raft::ids;
use crate::raft::ids::{NodeMap, NodeSet};
use crate::raft::laws;
use crate::raft::model;
use crate::raft::model::NodeState;
use crate::raft::node::Node;
use crate::raft::types::{
    clone_entries, contains_id, Effect, EffectView, Event, EventView,
    LogPayloadView, NodeId, Role, Snapshot,
};
use crate::sim::durable;
use crate::sim::durable::{DurableState, DurableView};
use crate::sim::network;
use crate::sim::network::{Network, NetworkState};
use crate::sim::trace;
use crate::sim::trace::{EnvelopeView, TraceEvent};
use crate::verify::history;
use crate::verify::history::{
    ClientId, FaultEvent, FaultKind, HistoryEntry, HistoryEntryView, Outcome, OutcomeView,
};

verus! {

/// One client operation still waited on. `term` is that of the entry proposed
/// for it: where the entry at `index` has another term, it was replaced.
#[verifier::ext_equal]
pub struct PendingView {
    pub client: ClientId,
    pub invoke_tick: u64,
    pub target: NodeId,
    pub index: u64,
    pub term: u64,
    pub command: CommandView,
    pub deadline: u64,
}

/// The state of a [`Harness`].
#[verifier::ext_equal]
pub struct HarnessState {
    /// The nodes that are up.
    pub replicas: Map<NodeId, ReplicaState>,
    pub durable: Map<NodeId, DurableView>,
    pub isolated: Set<NodeId>,
    pub peers: Seq<NodeId>,
    pub election_timeout: u64,
    pub heartbeat_interval: u64,
    pub net: NetworkState,
    pub apply_timeout_ticks: u64,
    pub pending: Seq<PendingView>,
    pub history: Seq<HistoryEntryView>,
    pub faults: Seq<FaultEvent>,
}

impl HarnessState {
    /// All nodes up, nothing durable, nothing sent.
    pub open spec fn initial(
        peers: Seq<NodeId>,
        election_timeout: u64,
        heartbeat_interval: u64,
        net: NetworkState,
        apply_timeout_ticks: u64,
    ) -> HarnessState {
        HarnessState {
            replicas: Map::new(
                |id: NodeId| peers.contains(id),
                |id: NodeId|
                    ReplicaState::fresh(
                        durable::recovered(
                            DurableView::blank(),
                            id,
                            peers,
                            election_timeout,
                            heartbeat_interval,
                        ),
                    ).caught_up(),
            ),
            durable: Map::new(|id: NodeId| peers.contains(id), |id: NodeId| DurableView::blank()),
            isolated: Set::empty(),
            peers,
            election_timeout,
            heartbeat_interval,
            net,
            apply_timeout_ticks,
            pending: Seq::empty(),
            history: Seq::empty(),
            faults: Seq::empty(),
        }
    }

    /// Makes `effects` durable at `from` and sends the messages among them.
    pub open spec fn apply_effects(self, from: NodeId, effects: Seq<EffectView>) -> Option<
        HarnessState,
    > {
        match self.net.route(from, effects, self.isolated) {
            Some(net) => Some(
                HarnessState {
                    durable: if self.durable.contains_key(from) {
                        self.durable.insert(from, self.durable[from].apply_all(effects))
                    } else {
                        self.durable
                    },
                    net,
                    ..self
                },
            ),
            None => None,
        }
    }

    /// One node that is up takes one event.
    pub open spec fn transition(self, id: NodeId, event: EventView) -> Option<HarnessState> {
        if self.replicas.contains_key(id) && self.replicas[id].node.can_step(event) {
            let (replica, effects) = self.replicas[id].step(event);
            (HarnessState { replicas: self.replicas.insert(id, replica), ..self }).apply_effects(
                id,
                effects,
            )
        } else {
            None
        }
    }

    /// Whether a message reaches its target: neither end is partitioned off,
    /// and the target is up.
    pub open spec fn reaches(self, envelope: EnvelopeView) -> bool {
        &&& !self.isolated.contains(envelope.from)
        &&& !self.isolated.contains(envelope.to)
        &&& self.replicas.contains_key(envelope.to)
    }

    /// Delivers messages one after the other; those that do not reach their
    /// target are lost.
    pub open spec fn deliver_all(self, due: Seq<EnvelopeView>) -> Option<HarnessState>
        decreases due.len(),
    {
        if due.len() == 0 {
            Some(self)
        } else if !self.reaches(due[0]) {
            self.deliver_all(due.drop_first())
        } else {
            match (HarnessState { net: self.net.delivered(due[0]), ..self }).transition(
                due[0].to,
                EventView::Step { from: due[0].from, message: due[0].message },
            ) {
                Some(next) => next.deliver_all(due.drop_first()),
                None => None,
            }
        }
    }

    /// Lets nodes tick one after the other.
    pub open spec fn tick_all(self, order: Seq<NodeId>) -> Option<HarnessState>
        decreases order.len(),
    {
        if order.len() == 0 {
            Some(self)
        } else {
            match self.net.ticked(order[0]) {
                Some(net) => match (HarnessState { net, ..self }).transition(
                    order[0],
                    EventView::Tick { next_timeout: self.net.timeout() },
                ) {
                    Some(next) => next.tick_all(order.drop_first()),
                    None => None,
                },
                None => None,
            }
        }
    }

    /// What the command of a pending operation reported, if its own entry has
    /// been applied at its target.
    pub open spec fn result_of(self, op: PendingView) -> Option<ApplyResultView> {
        if self.replicas.contains_key(op.target) {
            let replica = self.replicas[op.target];
            match replica.node.entry_at(op.index as int) {
                Some(entry) => if replica.store.last_applied >= op.index && entry.term == op.term
                    && replica.results.contains_key(op.index) {
                    Some(replica.results[op.index])
                } else {
                    None
                },
                None => None,
            }
        } else {
            None
        }
    }

    /// The history entry of an operation.
    pub open spec fn entry_of(op: PendingView, return_tick: Option<u64>, outcome: OutcomeView) -> HistoryEntryView {
        HistoryEntryView {
            client: op.client,
            invoke_tick: op.invoke_tick,
            return_tick,
            command: op.command,
            outcome,
        }
    }

    /// An operation is resolved if it applied or timed out, else it stays
    /// pending.
    pub open spec fn resolve(self, op: PendingView) -> HarnessState {
        let now = Some(self.net.clock);
        match self.result_of(op) {
            Some(result) => HarnessState {
                history: self.history.push(
                    HarnessState::entry_of(op, now, OutcomeView::Applied(result)),
                ),
                ..self
            },
            None => if self.net.clock >= op.deadline {
                HarnessState {
                    history: self.history.push(
                        HarnessState::entry_of(op, now, OutcomeView::Indeterminate),
                    ),
                    ..self
                }
            } else {
                HarnessState { pending: self.pending.push(op), ..self }
            },
        }
    }

    /// Resolves operations one after the other.
    pub open spec fn resolve_all(self, ops: Seq<PendingView>) -> HarnessState
        decreases ops.len(),
    {
        if ops.len() == 0 {
            self
        } else {
            self.resolve(ops[0]).resolve_all(ops.drop_first())
        }
    }

    pub open spec fn resolve_pending(self) -> HarnessState {
        (HarnessState { pending: Seq::empty(), ..self }).resolve_all(self.pending)
    }

    /// One tick: the messages due arrive, every node that is up ticks, in
    /// ascending order, and pending operations are resolved. Nothing where
    /// some transition is not possible.
    pub open spec fn step(self) -> Option<HarnessState> {
        match self.net.advance() {
            Some(net) => {
                let taken = HarnessState { net: net.without_due(), ..self };
                match taken.deliver_all(net.due()) {
                    Some(delivered) => match delivered.tick_all(
                        ids::sorted_ids(delivered.replicas.dom()),
                    ) {
                        Some(ticked) => Some(ticked.resolve_pending()),
                        None => None,
                    },
                    None => None,
                }
            },
            None => None,
        }
    }

    /// An operation is turned down at once.
    pub open spec fn reject(self, client: ClientId, command: CommandView) -> HarnessState {
        HarnessState {
            history: self.history.push(
                HistoryEntryView {
                    client,
                    invoke_tick: self.net.clock,
                    return_tick: Some(self.net.clock),
                    command,
                    outcome: OutcomeView::Rejected,
                },
            ),
            ..self
        }
    }

    /// Whether a submission gets an entry proposed for it.
    pub open spec fn accepts(self, target: NodeId) -> bool {
        self.replicas.contains_key(target) && self.replicas[target].node.role == Role::Leader
    }

    /// A client submits a command to `target`.
    pub open spec fn submit(self, client: ClientId, target: NodeId, command: CommandView) -> Option<
        HarnessState,
    > {
        if !self.accepts(target) {
            Some(self.reject(client, command))
        } else {
            let before = self.replicas[target];
            if before.node.can_propose() && self.net.clock + self.apply_timeout_ticks
                <= u64::MAX {
                let (replica, effects) = before.propose(command);
                match (HarnessState {
                    replicas: self.replicas.insert(target, replica),
                    ..self
                }).apply_effects(target, effects) {
                    Some(next) => Some(
                        HarnessState {
                            pending: self.pending.push(
                                PendingView {
                                    client,
                                    invoke_tick: self.net.clock,
                                    target,
                                    index: (before.node.last_log_index() + 1) as u64,
                                    term: before.node.current_term,
                                    command,
                                    deadline: (self.net.clock + self.apply_timeout_ticks) as u64,
                                },
                            ),
                            ..next
                        },
                    ),
                    None => None,
                }
            } else {
                None
            }
        }
    }

    pub open spec fn with_fault(self, node: NodeId, kind: FaultKind) -> HarnessState {
        HarnessState {
            faults: self.faults.push(FaultEvent { tick: self.net.clock, node, kind }),
            ..self
        }
    }

    pub open spec fn isolate(self, id: NodeId) -> HarnessState {
        if self.isolated.contains(id) {
            self
        } else {
            (HarnessState { isolated: self.isolated.insert(id), ..self }).with_fault(
                id,
                FaultKind::Isolated,
            )
        }
    }

    pub open spec fn heal(self, id: NodeId) -> HarnessState {
        if self.isolated.contains(id) {
            (HarnessState { isolated: self.isolated.remove(id), ..self }).with_fault(
                id,
                FaultKind::Healed,
            )
        } else {
            self
        }
    }

    pub open spec fn crash(self, id: NodeId) -> HarnessState {
        if self.replicas.contains_key(id) {
            (HarnessState { replicas: self.replicas.remove(id), ..self }).with_fault(
                id,
                FaultKind::Crashed,
            )
        } else {
            self
        }
    }

    /// A node comes back from what it made durable.
    pub open spec fn restart(self, id: NodeId) -> HarnessState {
        if self.replicas.contains_key(id) || !self.peers.contains(id) {
            self
        } else {
            let node = durable::recovered(
                self.durable[id],
                id,
                self.peers,
                self.election_timeout,
                self.heartbeat_interval,
            );
            (HarnessState {
                replicas: self.replicas.insert(id, ReplicaState::fresh(node).caught_up()),
                ..self
            }).with_fault(id, FaultKind::Restarted)
        }
    }

    /// Whether `leader` is the first leader, in ascending order.
    pub open spec fn is_current_leader(self, leader: Option<NodeId>) -> bool {
        match leader {
            Some(id) => {
                &&& self.replicas.contains_key(id)
                &&& self.replicas[id].node.role == Role::Leader
                &&& forall|other: NodeId| #[trigger]
                    self.replicas.contains_key(other) && other.0 < id.0
                        ==> self.replicas[other].node.role != Role::Leader
            },
            None => forall|other: NodeId| #[trigger]
                self.replicas.contains_key(other) ==> self.replicas[other].node.role != Role::Leader,
        }
    }

    /// The first leader, in ascending order.
    pub open spec fn current_leader(self) -> Option<NodeId> {
        choose|leader: Option<NodeId>| self.is_current_leader(leader)
    }

    /// There is only one first leader.
    pub proof fn lemma_current_leader(self, leader: Option<NodeId>)
        requires
            self.is_current_leader(leader),
        ensures
            self.current_leader() == leader,
    {
        let chosen = self.current_leader();
        assert(self.is_current_leader(chosen));
        match (leader, chosen) {
            (Some(a), Some(b)) => {
                if a.0 < b.0 {
                    assert(self.replicas.contains_key(a));
                } else if b.0 < a.0 {
                    assert(self.replicas.contains_key(b));
                }
            },
            (Some(a), None) => {
                assert(self.replicas.contains_key(a));
            },
            (None, Some(b)) => {
                assert(self.replicas.contains_key(b));
            },
            (None, None) => {},
        }
    }

    /// The history with every operation still pending left undecided.
    pub open spec fn finished(self) -> Seq<HistoryEntryView> {
        self.history + self.pending.map_values(
            |op: PendingView| HarnessState::entry_of(op, None, OutcomeView::Indeterminate),
        )
    }

    /// What holds of every node throughout: one that is up is well formed, and
    /// exactly what must survive its crash is durable.
    pub open spec fn wf(self) -> bool {
        &&& self.isolated.finite()
        &&& self.durable.dom() == self.peers.to_set()
        &&& self.replicas.dom().subset_of(self.peers.to_set())
        &&& forall|id: NodeId| #[trigger]
            self.replicas.contains_key(id) ==> self.tracks(id, self.replicas[id].node)
        &&& forall|id: NodeId| #[trigger]
            self.durable.contains_key(id) ==> self.durable[id].snapshot.last_included_index
                + self.durable[id].log.len() <= u64::MAX
        &&& self.peers.len() > 0 ==> ids::ascending(self.peers) && Node::timing_error(
            self.election_timeout,
            self.heartbeat_interval,
        ) is None
    }

    /// Whether what is durable at `id` is what `node` must not lose.
    pub open spec fn tracks(self, id: NodeId, node: NodeState) -> bool {
        &&& node.wf()
        &&& node.id == id
        &&& self.durable[id].holds(node)
    }
}

/// A transition keeps a node's id.
proof fn lemma_step_keeps_id(s: NodeState, event: EventView)
    requires
        s.can_step(event),
    ensures
        s.step(event).0.id == s.id,
{
}

proof fn lemma_transition_trace(s: HarnessState, id: NodeId, event: EventView)
    ensures
        s.transition(id, event) matches Some(next) ==> s.net.trace.is_prefix_of(next.net.trace),
{
    if s.replicas.contains_key(id) {
        let effects = s.replicas[id].step(event).1;
        network::routing_only_adds_to_the_trace(s.net, id, effects, s.isolated);
    }
}

proof fn lemma_deliver_trace(s: HarnessState, due: Seq<EnvelopeView>)
    ensures
        s.deliver_all(due) matches Some(next) ==> s.net.trace.is_prefix_of(next.net.trace),
    decreases due.len(),
{
    if due.len() > 0 {
        let noted = HarnessState { net: s.net.delivered(due[0]), ..s };
        let event = EventView::Step { from: due[0].from, message: due[0].message };
        lemma_transition_trace(noted, due[0].to, event);
        lemma_deliver_trace(s, due.drop_first());
        if let Some(next) = noted.transition(due[0].to, event) {
            lemma_deliver_trace(next, due.drop_first());
            trace::lemma_continued(s.net.trace, noted.net.trace, next.net.trace);
            if let Some(last) = next.deliver_all(due.drop_first()) {
                trace::lemma_continued(s.net.trace, next.net.trace, last.net.trace);
            }
        }
    }
}

proof fn lemma_tick_trace(s: HarnessState, order: Seq<NodeId>)
    ensures
        s.tick_all(order) matches Some(next) ==> s.net.trace.is_prefix_of(next.net.trace),
    decreases order.len(),
{
    if order.len() > 0 {
        if let Some(net) = s.net.ticked(order[0]) {
            let noted = HarnessState { net, ..s };
            let event = EventView::Tick { next_timeout: s.net.timeout() };
            lemma_transition_trace(noted, order[0], event);
            if let Some(next) = noted.transition(order[0], event) {
                lemma_tick_trace(next, order.drop_first());
                trace::lemma_continued(s.net.trace, net.trace, next.net.trace);
                if let Some(last) = next.tick_all(order.drop_first()) {
                    trace::lemma_continued(s.net.trace, next.net.trace, last.net.trace);
                }
            }
        }
    }
}

/// A tick only adds to the trace.
pub proof fn trace_only_grows(s: HarnessState)
    ensures
        s.step() matches Some(next) ==> s.net.trace.is_prefix_of(next.net.trace),
{
    if let Some(net) = s.net.advance() {
        let taken = HarnessState { net: net.without_due(), ..s };
        lemma_deliver_trace(taken, net.due());
        if let Some(delivered) = taken.deliver_all(net.due()) {
            let order = ids::sorted_ids(delivered.replicas.dom());
            lemma_tick_trace(delivered, order);
            if let Some(ticked) = delivered.tick_all(order) {
                resolving_leaves_the_rest(
                    HarnessState { pending: Seq::empty(), ..ticked },
                    ticked.pending,
                );
            }
        }
    }
}

/// Resolving operations changes what is pending and the history, and nothing
/// else.
pub proof fn resolving_leaves_the_rest(s: HarnessState, ops: Seq<PendingView>)
    ensures
        s.resolve_all(ops) == (HarnessState {
            pending: s.resolve_all(ops).pending,
            history: s.resolve_all(ops).history,
            ..s
        }),
    decreases ops.len(),
{
    if ops.len() > 0 {
        resolving_leaves_the_rest(s.resolve(ops[0]), ops.drop_first());
    }
}

/// A submission only adds to the trace.
pub proof fn submitting_only_adds_to_the_trace(
    s: HarnessState,
    client: ClientId,
    target: NodeId,
    command: CommandView,
)
    ensures
        s.submit(client, target, command) matches Some(next) ==> s.net.trace.is_prefix_of(
            next.net.trace,
        ),
{
    if s.accepts(target) {
        let effects = s.replicas[target].propose(command).1;
        network::routing_only_adds_to_the_trace(s.net, target, effects, s.isolated);
    }
}

/// Whatever a node's transition does, what it must not lose is durable once
/// its effects are applied.
pub proof fn transition_keeps_pace(h: HarnessState, id: NodeId, event: EventView)
    requires
        h.wf(),
    ensures
        h.transition(id, event) matches Some(next) ==> next.wf() && next.durable[id].holds(
            next.replicas[id].node,
        ),
{
    match h.transition(id, event) {
        Some(next) => {
            let before = h.replicas[id].node;
            assert(h.tracks(id, before));
            let (node, effects) = before.step(event);
            laws::step_keeps_wf(before, event);
            lemma_step_keeps_id(before, event);
            durable::step_is_durable(h.durable[id], before, event);
            replica::catching_up_keeps_the_node(h.replicas[id].with_node(node));
            assert(next.replicas.dom() =~= h.replicas.dom());
            lemma_replaced_keeps_wf(h, id, node, effects, next);
        },
        None => {},
    }
}

/// Replacing one replica and applying the effects owed for it.
proof fn lemma_replaced_keeps_wf(
    h: HarnessState,
    id: NodeId,
    node: NodeState,
    effects: Seq<EffectView>,
    next: HarnessState,
)
    requires
        h.wf(),
        h.replicas.contains_key(id),
        node.wf(),
        node.id == id,
        durable::keeps_pace(h.durable[id], node, effects),
        next.replicas.dom() == h.replicas.dom(),
        next.replicas[id].node == node,
        forall|other: NodeId| other != id && #[trigger] h.replicas.contains_key(other)
            ==> next.replicas[other] == h.replicas[other],
        next.durable == h.durable.insert(id, h.durable[id].apply_all(effects)),
        next.isolated == h.isolated,
        next.peers == h.peers,
        next.election_timeout == h.election_timeout,
        next.heartbeat_interval == h.heartbeat_interval,
    ensures
        next.wf(),
{
    assert(h.peers.to_set().contains(id));
    assert(next.durable.dom() =~= h.durable.dom());
    assert forall|other: NodeId| #[trigger] next.replicas.contains_key(other) implies next.tracks(
        other,
        next.replicas[other].node,
    ) by {
        assert(h.replicas.contains_key(other));
        assert(h.tracks(other, h.replicas[other].node));
    }
    assert forall|other: NodeId| #[trigger] next.durable.contains_key(other) implies next.durable[other].snapshot.last_included_index
        + next.durable[other].log.len() <= u64::MAX by {
        assert(h.durable.contains_key(other));
    }
}

/// Whatever a submission does, what its target must not lose is durable.
pub proof fn submission_keeps_pace(
    h: HarnessState,
    client: ClientId,
    target: NodeId,
    command: CommandView,
)
    requires
        h.wf(),
    ensures
        h.submit(client, target, command) matches Some(next) ==> next.wf(),
        h.submit(client, target, command) is Some && h.accepts(target) ==> {
            let payload = LogPayloadView::Command(command.encoded());
            let next = h.submit(client, target, command)->0;
            &&& h.replicas[target].node.can_append_and_advance(payload)
            &&& next.replicas[target].node == h.replicas[target].node.append_and_advance(payload).0
            &&& next.replicas.dom() == h.replicas.dom()
        },
{
    if h.submit(client, target, command) is Some && h.accepts(target) {
        let next = h.submit(client, target, command)->0;
        let before = h.replicas[target];
        let payload = LogPayloadView::Command(command.encoded());
        assert(h.tracks(target, before.node));
        assert(h.peers.to_set().contains(target));
        model::lemma_can_propose(before.node, command.encoded());
        durable::proposal_is_durable(h.durable[target], before.node, payload);
        laws::proposal_keeps_wf(before.node, payload);
        let (node, effects) = before.node.append_and_advance(payload);
        replica::catching_up_keeps_the_node(before.with_node(node));
        assert(next.replicas.dom() =~= h.replicas.dom());
        assert(node.id == target);
        lemma_replaced_keeps_wf(h, target, node, effects, next);
    } else if h.submit(client, target, command) is Some {
        let next = h.submit(client, target, command)->0;
        assert forall|id: NodeId| #[trigger] next.replicas.contains_key(id) implies next.tracks(
            id,
            next.replicas[id].node,
        ) by {
            assert(h.tracks(id, h.replicas[id].node));
        }
    }
}

/// A harness at the start is as it must be.
pub proof fn initial_is_wf(
    peers: Seq<NodeId>,
    election_timeout: u64,
    heartbeat_interval: u64,
    net: NetworkState,
    apply_timeout_ticks: u64,
)
    requires
        peers.len() > 0 ==> ids::ascending(peers) && Node::timing_error(
            election_timeout,
            heartbeat_interval,
        ) is None,
    ensures
        HarnessState::initial(
            peers,
            election_timeout,
            heartbeat_interval,
            net,
            apply_timeout_ticks,
        ).wf(),
{
    let h = HarnessState::initial(
        peers,
        election_timeout,
        heartbeat_interval,
        net,
        apply_timeout_ticks,
    );
    assert(h.durable.dom() =~= peers.to_set());
    assert(h.replicas.dom() =~= peers.to_set());
    assert forall|id: NodeId| #[trigger] h.replicas.contains_key(id) implies h.tracks(
        id,
        h.replicas[id].node,
    ) by {
        let node = durable::recovered(
            DurableView::blank(),
            id,
            peers,
            election_timeout,
            heartbeat_interval,
        );
        replica::catching_up_keeps_the_node(ReplicaState::fresh(node));
    }
}

struct PendingOp {
    client: ClientId,
    invoke_tick: u64,
    target: NodeId,
    index: u64,
    term: u64,
    command: Command,
    deadline: u64,
}

impl DeepView for PendingOp {
    type V = PendingView;

    closed spec fn deep_view(&self) -> PendingView {
        PendingView {
            client: self.client,
            invoke_tick: self.invoke_tick,
            target: self.target,
            index: self.index,
            term: self.term,
            command: self.command.deep_view(),
            deadline: self.deadline,
        }
    }
}

impl PendingOp {
    fn copy(&self) -> (copy: Self)
        ensures
            copy.deep_view() == self.deep_view(),
    {
        PendingOp {
            client: self.client,
            invoke_tick: self.invoke_tick,
            target: self.target,
            index: self.index,
            term: self.term,
            command: self.command.clone(),
            deadline: self.deadline,
        }
    }

    fn entry(&self, return_tick: Option<u64>, outcome: Outcome) -> (entry: HistoryEntry)
        ensures
            entry.deep_view() == HarnessState::entry_of(
                self.deep_view(),
                return_tick,
                outcome.deep_view(),
            ),
    {
        HistoryEntry {
            client: self.client,
            invoke_tick: self.invoke_tick,
            return_tick,
            command: self.command.clone(),
            outcome,
        }
    }
}

/// Drives a set of replicas through logical time -- seeded message delays,
/// seeded election timeouts, a full trace -- with client operations and fault
/// injection.
pub struct Harness {
    replicas: NodeMap<Replica>,
    durable: NodeMap<DurableState>,
    isolated: NodeSet,
    peers: Vec<NodeId>,
    election_timeout: u64,
    heartbeat_interval: u64,
    net: Network,
    apply_timeout_ticks: u64,
    pending: Vec<PendingOp>,
    history: Vec<HistoryEntry>,
    faults: Vec<FaultEvent>,
}

spec fn view_replicas(replicas: Map<NodeId, Replica>) -> Map<NodeId, ReplicaState> {
    Map::new(|id: NodeId| replicas.contains_key(id), |id: NodeId| replicas[id]@)
}

spec fn view_durable(durable: Map<NodeId, DurableState>) -> Map<NodeId, DurableView> {
    Map::new(|id: NodeId| durable.contains_key(id), |id: NodeId| durable[id]@)
}

impl View for Harness {
    type V = HarnessState;

    closed spec fn view(&self) -> HarnessState {
        HarnessState {
            replicas: view_replicas(self.replicas@),
            durable: view_durable(self.durable@),
            isolated: self.isolated@,
            peers: self.peers@,
            election_timeout: self.election_timeout,
            heartbeat_interval: self.heartbeat_interval,
            net: self.net@,
            apply_timeout_ticks: self.apply_timeout_ticks,
            pending: self.pending.deep_view(),
            history: self.history.deep_view(),
            faults: self.faults@,
        }
    }
}

impl Harness {
    /// What every harness keeps, see [`HarnessState::wf`].
    pub open spec fn wf(&self) -> bool {
        self@.wf() && self.inv()
    }

    pub closed spec fn inv(&self) -> bool {
        &&& self.replicas.wf()
        &&& self.durable.wf()
        &&& self.isolated.wf()
        &&& forall|id: NodeId| #[trigger] self.replicas@.contains_key(id) ==> self.replicas@[id].wf()
    }

    pub fn new(
        peers: Vec<NodeId>,
        election_timeout: u64,
        heartbeat_interval: u64,
        seed: u64,
        min_timeout: u64,
        max_timeout: u64,
        min_delay: u64,
        max_delay: u64,
        apply_timeout_ticks: u64,
    ) -> (harness: Self)
        requires
            peers@.len() > 0 ==> ids::ascending(peers@) && Node::timing_error(
                election_timeout,
                heartbeat_interval,
            ) is None,
        ensures
            harness.wf(),
            harness@ == HarnessState::initial(
                peers@,
                election_timeout,
                heartbeat_interval,
                NetworkState::initial(seed, min_timeout, max_timeout, min_delay, max_delay),
                apply_timeout_ticks,
            ),
    {
        let mut harness = Harness {
            replicas: NodeMap::new(),
            durable: NodeMap::new(),
            isolated: NodeSet::new(),
            peers: peers.clone(),
            election_timeout,
            heartbeat_interval,
            net: Network::new(seed, min_timeout, max_timeout, min_delay, max_delay),
            apply_timeout_ticks,
            pending: Vec::new(),
            history: Vec::new(),
            faults: Vec::new(),
        };
        let ghost goal = HarnessState::initial(
            peers@,
            election_timeout,
            heartbeat_interval,
            harness.net@,
            apply_timeout_ticks,
        );
        proof {
            assert(harness.peers@ =~= peers@);
            assert(harness@.pending =~= Seq::empty());
            assert(harness@.history =~= Seq::empty());
            assert(peers@.take(0).to_set() =~= Set::empty());
            assert(harness.replicas@.dom() =~= peers@.take(0).to_set());
            assert(harness.durable@.dom() =~= peers@.take(0).to_set());
        }
        let mut i: usize = 0;
        while i < peers.len()
            invariant
                i <= peers@.len(),
                peers@.len() > 0 ==> ids::ascending(peers@) && Node::timing_error(
                    election_timeout,
                    heartbeat_interval,
                ) is None,
                harness.inv(),
                goal == HarnessState::initial(
                    peers@,
                    election_timeout,
                    heartbeat_interval,
                    harness.net@,
                    apply_timeout_ticks,
                ),
                harness@ == (HarnessState {
                    replicas: harness@.replicas,
                    durable: harness@.durable,
                    ..goal
                }),
                harness.replicas@.dom() == peers@.take(i as int).to_set(),
                harness.durable@.dom() == peers@.take(i as int).to_set(),
                forall|id: NodeId| #[trigger]
                    harness.replicas@.contains_key(id) ==> harness.replicas@[id]@
                        == goal.replicas[id],
                forall|id: NodeId| #[trigger]
                    harness.durable@.contains_key(id) ==> harness.durable@[id]@
                        == DurableView::blank(),
            decreases peers.len() - i,
        {
            let id = peers[i];
            proof {
                assert(peers@.contains(id));
                assert(peers@.take(i + 1) =~= peers@.take(i as int).push(id));
                peers@.take(i as int).lemma_push_to_set_commute(id);
            }
            let members = peers.clone();
            assert(members@ =~= peers@);
            match Node::new(id, members, election_timeout, heartbeat_interval) {
                Ok(node) => {
                    proof {
                        assert(DurableView::blank().learners.to_set() =~= Set::<NodeId>::empty());
                        assert(node@ =~= durable::recovered(
                            DurableView::blank(),
                            id,
                            peers@,
                            election_timeout,
                            heartbeat_interval,
                        ));
                    }
                    harness.replicas.insert(id, Replica::new(node));
                    harness.durable.insert(id, DurableState::default());
                },
                Err(_) => {},
            }
            proof {
                assert(harness.replicas@.dom() =~= peers@.take(i + 1).to_set());
                assert(harness.durable@.dom() =~= peers@.take(i + 1).to_set());
                assert(harness@ =~= (HarnessState {
                    replicas: harness@.replicas,
                    durable: harness@.durable,
                    ..goal
                }));
            }
            i += 1;
        }
        proof {
            assert(peers@.take(peers@.len() as int) =~= peers@);
            assert(harness@.replicas =~= goal.replicas);
            assert(harness@.durable =~= goal.durable);
            assert(harness@ =~= goal);
            initial_is_wf(
                peers@,
                election_timeout,
                heartbeat_interval,
                harness.net@,
                apply_timeout_ticks,
            );
        }
        harness
    }

    pub fn clock(&self) -> (clock: u64)
        ensures
            clock == self@.net.clock,
    {
        self.net.clock()
    }

    pub fn trace(&self) -> (events: &[TraceEvent])
        ensures
            events@.len() == self@.net.trace.len(),
            forall|i: int|
                0 <= i < events@.len() ==> (#[trigger] events@[i]).deep_view() == self@.net.trace[i],
    {
        self.net.trace()
    }

    pub fn history(&self) -> (entries: &[HistoryEntry])
        ensures
            history::view_history(entries@) == self@.history,
    {
        assert(history::view_history(self.history@) =~= self.history.deep_view());
        &self.history
    }

    /// Every fault that changed something, in the order it happened.
    pub fn faults(&self) -> (faults: &[FaultEvent])
        ensures
            faults@ == self@.faults,
    {
        &self.faults
    }

    /// Any node currently leading -- best-effort, like a client's cached
    /// leader hint.
    pub fn current_leader(&self) -> (leader: Option<NodeId>)
        requires
            self.wf(),
        ensures
            self@.is_current_leader(leader),
    {
        let ids = self.replicas.keys();
        let mut i: usize = 0;
        while i < ids.len()
            invariant
                i <= ids@.len(),
                self.wf(),
                ids::ascending(ids@),
                ids@.to_set() == self.replicas@.dom(),
                forall|j: int|
                    0 <= j < i ==> self@.replicas[#[trigger] ids@[j]].node.role != Role::Leader,
            decreases ids.len() - i,
        {
            assert(ids@.to_set().contains(ids@[i as int]));
            match self.replicas.get(ids[i]) {
                Some(replica) => {
                    if replica.node().role() == Role::Leader {
                        assert forall|other: NodeId| #[trigger] self@.replicas.contains_key(other) && other.0
                            < ids@[i as int].0 implies self@.replicas[other].node.role
                            != Role::Leader by {
                            assert(ids@.to_set().contains(other));
                            let j = choose|j: int| 0 <= j < ids@.len() && ids@[j] == other;
                            if j > i {
                                assert(ids@[i as int].0 < ids@[j].0);
                            }
                        }
                        return Some(ids[i]);
                    }
                },
                None => {},
            }
            i += 1;
        }
        assert forall|other: NodeId| #[trigger] self@.replicas.contains_key(other) implies self@.replicas[other].node.role
            != Role::Leader by {
            assert(ids@.to_set().contains(other));
        }
        None
    }

    /// Reads a node's own replica directly. `None` if it is down.
    pub fn replica(&self, id: NodeId) -> (replica: Option<&Replica>)
        requires
            self.wf(),
        ensures
            match replica {
                Some(replica) => self@.replicas.contains_key(id) && replica@ == self@.replicas[id]
                    && replica.wf(),
                None => !self@.replicas.contains_key(id),
            },
    {
        self.replicas.get(id)
    }

    fn record_fault(&mut self, node: NodeId, kind: FaultKind)
        requires
            old(self).wf(),
        ensures
            final(self).wf(),
            final(self)@ == old(self)@.with_fault(node, kind),
    {
        self.faults.push(FaultEvent { tick: self.net.clock(), node, kind });
        assert(self@ =~= old(self)@.with_fault(node, kind));
    }

    /// Partitions `id` from every other node: messages to or from it are
    /// dropped.
    pub fn isolate(&mut self, id: NodeId)
        requires
            old(self).wf(),
        ensures
            final(self).wf(),
            final(self)@ == old(self)@.isolate(id),
    {
        if self.isolated.insert(id) {
            let ghost cut = self@;
            assert(cut =~= (HarnessState {
                isolated: old(self)@.isolated.insert(id),
                ..old(self)@
            }));
            self.record_fault(id, FaultKind::Isolated);
        } else {
            assert(self@.isolated =~= old(self)@.isolated);
        }
    }

    pub fn heal(&mut self, id: NodeId)
        requires
            old(self).wf(),
        ensures
            final(self).wf(),
            final(self)@ == old(self)@.heal(id),
    {
        if self.isolated.remove(id) {
            let ghost healed = self@;
            assert(healed =~= (HarnessState {
                isolated: old(self)@.isolated.remove(id),
                ..old(self)@
            }));
            self.record_fault(id, FaultKind::Healed);
        } else {
            assert(self@.isolated =~= old(self)@.isolated);
        }
    }

    pub fn is_isolated(&self, id: NodeId) -> (isolated: bool)
        requires
            self.wf(),
        ensures
            isolated == self@.isolated.contains(id),
    {
        self.isolated.contains(id)
    }

    /// Simulates a process crash: the replica is gone, what it made durable is
    /// untouched. A no-op if `id` is already down.
    pub fn crash(&mut self, id: NodeId)
        requires
            old(self).wf(),
        ensures
            final(self).wf(),
            final(self)@ == old(self)@.crash(id),
    {
        match self.replicas.remove(id) {
            Some(_) => {
                assert(self@ =~= (HarnessState {
                    replicas: old(self)@.replicas.remove(id),
                    ..old(self)@
                }));
                assert forall|other: NodeId| #[trigger] self@.replicas.contains_key(other) implies self@.tracks(
                    other,
                    self@.replicas[other].node,
                ) by {
                    assert(old(self)@.replicas.contains_key(other));
                    assert(old(self)@.tracks(other, old(self)@.replicas[other].node));
                }
                self.record_fault(id, FaultKind::Crashed);
            },
            None => {
                assert(self@.replicas =~= old(self)@.replicas);
                assert(self@ =~= old(self)@);
            },
        }
    }

    /// Reconstructs `id` from what it made durable, as a follower. A no-op if
    /// `id` is up or isn't a known peer.
    pub fn restart(&mut self, id: NodeId)
        requires
            old(self).wf(),
        ensures
            final(self).wf(),
            final(self)@ == old(self)@.restart(id),
    {
        if self.replicas.contains_key(id) || !contains_id(&self.peers, id) {
            return;
        }
        assert(self@.durable.dom().contains(id));
        let members = self.peers.clone();
        assert(members@ =~= self.peers@);
        let node = match self.durable.get(id) {
            Some(durable) => {
                assert(durable@ == self@.durable[id]);
                let log = clone_entries(durable.log(), 0);
                assert(log.deep_view() =~= durable@.log);
                Node::recover(
                    id,
                    members,
                    self.election_timeout,
                    self.heartbeat_interval,
                    durable.hard_state(),
                    log,
                    Snapshot {
                        metadata: durable.snapshot(),
                        data: vstd::slice::slice_to_vec(durable.snapshot_data()),
                        config: durable.snapshot_config().clone(),
                    },
                    vstd::slice::slice_to_vec(durable.learners()),
                )
            },
            None => {
                return;
            },
        };
        match node {
            Ok(node) => {
                let ghost back = durable::recovered(
                    old(self)@.durable[id],
                    id,
                    old(self)@.peers,
                    old(self)@.election_timeout,
                    old(self)@.heartbeat_interval,
                );
                proof {
                    assert(node@ =~= back);
                    replica::catching_up_keeps_the_node(ReplicaState::fresh(back));
                }
                self.replicas.insert(id, Replica::recover(node));
                assert(self@ =~= (HarnessState {
                    replicas: old(self)@.replicas.insert(id, ReplicaState::fresh(back).caught_up()),
                    ..old(self)@
                }));
                assert forall|other: NodeId| #[trigger] self@.replicas.contains_key(other) implies self@.tracks(
                    other,
                    self@.replicas[other].node,
                ) by {
                    if other != id {
                        assert(old(self)@.replicas.contains_key(other));
                        assert(old(self)@.tracks(other, old(self)@.replicas[other].node));
                    }
                }
                self.record_fault(id, FaultKind::Restarted);
            },
            Err(_) => {},
        }
    }

    /// Makes `effects` durable and sends the messages among them.
    fn apply_effects(&mut self, from: NodeId, effects: Vec<Effect>) -> (done: bool)
        requires
            old(self).inv(),
            old(self)@.durable.contains_key(from),
            old(self)@.durable[from].can_apply_all(effects.deep_view()),
        ensures
            final(self).inv(),
            done == (old(self)@.apply_effects(from, effects.deep_view()) is Some),
            done ==> old(self)@.apply_effects(from, effects.deep_view()) == Some(final(self)@),
    {
        let ghost all = effects.deep_view();
        let ghost start = self@.durable[from];
        match self.durable.remove(from) {
            Some(durable) => {
                let mut durable = durable;
                let mut i: usize = 0;
                assert(all.skip(0) =~= all);
                while i < effects.len()
                    invariant
                        i <= effects@.len(),
                        all == effects.deep_view(),
                        durable@.can_apply_all(all.skip(i as int)),
                        start.apply_all(all) == durable@.apply_all(all.skip(i as int)),
                    decreases effects.len() - i,
                {
                    proof {
                        assert(all.skip(i as int).drop_first() =~= all.skip(i + 1));
                        assert(all.skip(i as int)[0] == effects@[i as int].deep_view());
                    }
                    durable.apply(&effects[i]);
                    i += 1;
                }
                assert(all.skip(i as int) =~= Seq::empty());
                self.durable.insert(from, durable);
            },
            None => {},
        }
        proof {
            assert(self@.durable =~= old(self)@.durable.insert(from, start.apply_all(all)));
            assert(self@ =~= (HarnessState {
                durable: old(self)@.durable.insert(from, start.apply_all(all)),
                ..old(self)@
            }));
            assert(network::view_effects(effects@) =~= all);
        }
        let ghost applied = self@;
        let done = self.net.route(from, &effects, self.isolated.as_slice());
        assert(self@ =~= (HarnessState { net: self@.net, ..applied }));
        done
    }

    /// One node that is up takes one event.
    fn transition(&mut self, id: NodeId, event: Event) -> (done: bool)
        requires
            old(self).wf(),
            old(self)@.replicas.contains_key(id),
        ensures
            done ==> final(self).wf(),
            done == (old(self)@.transition(id, event.deep_view()) is Some),
            done ==> old(self)@.transition(id, event.deep_view()) == Some(final(self)@),
    {
        let ghost input = event.deep_view();
        proof {
            transition_keeps_pace(old(self)@, id, input);
            assert(old(self)@.tracks(id, old(self)@.replicas[id].node));
        }
        let effects = match self.replicas.get_mut(id) {
            Some(replica) => {
                if !replica.can_step(&event) {
                    return false;
                }
                replica.step(event)
            },
            None => {
                return false;
            },
        };
        proof {
            let before = old(self)@.replicas[id];
            durable::step_is_durable(old(self)@.durable[id], before.node, input);
            assert(self@ =~= (HarnessState {
                replicas: old(self)@.replicas.insert(id, before.step(input).0),
                ..old(self)@
            }));
            assert(old(self)@.peers.to_set().contains(id));
        }
        self.apply_effects(id, effects)
    }

    /// Submits `command` to `target` on behalf of `client`: rejected at once
    /// if `target` is down or isn't the leader, otherwise resolved by a later
    /// tick.
    pub fn submit(&mut self, client: ClientId, target: NodeId, command: Command)
        requires
            old(self).wf(),
            old(self)@.submit(client, target, command.deep_view()) is Some,
        ensures
            final(self).wf(),
            old(self)@.submit(client, target, command.deep_view()) == Some(final(self)@),
    {
        let _ = self.try_submit(client, target, command);
    }

    /// [`Harness::submit`] for a caller that cannot tell whether the
    /// submission is possible: false where it is not.
    pub fn try_submit(&mut self, client: ClientId, target: NodeId, command: Command) -> (done: bool)
        requires
            old(self).wf(),
        ensures
            done ==> final(self).wf(),
            done == (old(self)@.submit(client, target, command.deep_view()) is Some),
            done ==> old(self)@.submit(client, target, command.deep_view()) == Some(final(self)@),
    {
        let ghost c = command.deep_view();
        let clock: u64 = self.net.clock();
        let leads = match self.replicas.get(target) {
            Some(replica) => replica.node().role() == Role::Leader,
            None => false,
        };
        assert(leads == self@.accepts(target));
        if !leads {
            self.history.push(
                HistoryEntry {
                    client,
                    invoke_tick: clock,
                    return_tick: Some(clock),
                    command,
                    outcome: Outcome::Rejected,
                },
            );
            assert(self@.history =~= old(self)@.reject(client, c).history);
            assert(self@ =~= old(self)@.reject(client, c));
            return true;
        }
        if self.apply_timeout_ticks > u64::MAX - clock {
            return false;
        }
        let ghost before = old(self)@.replicas[target];
        assert(old(self)@.tracks(target, before.node));
        let kept = command.clone();
        let (index, term, effects) = match self.replicas.get_mut(target) {
            Some(replica) => {
                if !replica.can_propose() {
                    return false;
                }
                let term: u64 = replica.node().current_term();
                match replica.propose(command) {
                    Some((index, effects)) => (index, term, effects),
                    None => {
                        return false;
                    },
                }
            },
            None => {
                return false;
            },
        };
        let ghost payload = LogPayloadView::Command(c.encoded());
        let ghost proposed = (HarnessState {
            replicas: old(self)@.replicas.insert(target, before.propose(c).0),
            ..old(self)@
        });
        proof {
            model::lemma_can_propose(before.node, c.encoded());
            durable::proposal_is_durable(old(self)@.durable[target], before.node, payload);
            laws::proposal_keeps_wf(before.node, payload);
            replica::catching_up_keeps_the_node(before.with_node(before.node.append_and_advance(payload).0));
            assert(self@ =~= proposed);
            assert(old(self)@.peers.to_set().contains(target));
        }
        if !self.apply_effects(target, effects) {
            return false;
        }
        let ghost sent = self@;
        self.pending.push(
            PendingOp {
                client,
                invoke_tick: clock,
                target,
                index,
                term,
                command: kept,
                deadline: clock + self.apply_timeout_ticks,
            },
        );
        proof {
            let next = old(self)@.submit(client, target, c)->0;
            assert(self@.pending =~= next.pending);
            assert(self@ =~= next);
            submission_keeps_pace(old(self)@, client, target, c);
        }
        true
    }

    /// Advances logical time by one tick: delivers due messages, then ticks
    /// every node that is up, then resolves pending operations.
    pub fn step(&mut self)
        requires
            old(self).wf(),
            old(self)@.step() is Some,
        ensures
            final(self).wf(),
            old(self)@.step() == Some(final(self)@),
    {
        let _ = self.try_step();
    }

    /// [`Harness::step`] for a caller that cannot tell whether every
    /// transition of the tick is possible: false where one is not.
    pub fn try_step(&mut self) -> (done: bool)
        requires
            old(self).wf(),
        ensures
            done ==> final(self).wf(),
            done == (old(self)@.step() is Some),
            done ==> old(self)@.step() == Some(final(self)@),
    {
        if !self.net.advance() {
            return false;
        }
        let ghost advanced = self@.net;
        let due = self.net.take_due();
        let ghost all = due.deep_view();
        let ghost start = self@;
        assert(start =~= (HarnessState { net: advanced.without_due(), ..old(self)@ }));
        let mut i: usize = 0;
        assert(all.skip(0) =~= all);
        while i < due.len()
            invariant
                i <= due@.len(),
                self.wf(),
                all == due.deep_view(),
                start.deliver_all(all) == self@.deliver_all(all.skip(i as int)),
                old(self)@.step() == match start.deliver_all(all) {
                    Some(delivered) => match delivered.tick_all(
                        ids::sorted_ids(delivered.replicas.dom()),
                    ) {
                        Some(ticked) => Some(ticked.resolve_pending()),
                        None => None,
                    },
                    None => None,
                },
            decreases due.len() - i,
        {
            let ghost envelope = all.skip(i as int)[0];
            proof {
                assert(all.skip(i as int).drop_first() =~= all.skip(i + 1));
                assert(envelope == due@[i as int].deep_view());
            }
            let from = due[i].from;
            let to = due[i].to;
            if !self.isolated.contains(from) && !self.isolated.contains(to)
                && self.replicas.contains_key(to) {
                let ghost before = self@;
                assert(before.reaches(envelope));
                self.net.record_delivery(&due[i]);
                assert(self@ =~= (HarnessState { net: before.net.delivered(envelope), ..before }));
                assert(self@.wf());
                let event = Event::Step { from, message: due[i].message.clone() };
                if !self.transition(to, event) {
                    return false;
                }
            } else {
                assert(!self@.reaches(envelope));
            }
            i += 1;
        }
        assert(all.skip(i as int) =~= Seq::empty());
        let order: Vec<NodeId> = vstd::slice::slice_to_vec(self.replicas.keys());
        let mut j: usize = 0;
        assert(order@.skip(0) =~= order@);
        assert(self@.replicas.dom() =~= self.replicas@.dom());
        let ghost up = self@.replicas.dom();
        while j < order.len()
            invariant
                j <= order@.len(),
                self.wf(),
                self@.replicas.dom() == up,
                order@.to_set() == up,
                old(self)@.step() == match self@.tick_all(order@.skip(j as int)) {
                    Some(ticked) => Some(ticked.resolve_pending()),
                    None => None,
                },
            decreases order.len() - j,
        {
            let ghost before = self@;
            proof {
                assert(order@.skip(j as int).drop_first() =~= order@.skip(j + 1));
                assert(order@.skip(j as int)[0] == order@[j as int]);
                assert(order@.to_set().contains(order@[j as int]));
            }
            match self.net.record_tick(order[j]) {
                Some(next_timeout) => {
                    assert(self@ =~= (HarnessState { net: self@.net, ..before }));
                    assert(self@.wf());
                    let ghost ticking = self@;
                    if !self.transition(order[j], Event::Tick { next_timeout }) {
                        return false;
                    }
                    assert(self@.replicas.dom() =~= up);
                },
                None => {
                    return false;
                },
            }
            j += 1;
        }
        assert(order@.skip(j as int) =~= Seq::empty());
        self.resolve_pending();
        true
    }

    /// What a pending operation reported, if its own entry was applied.
    fn result_of(&self, op: &PendingOp) -> (result: Option<ApplyResult>)
        requires
            self.wf(),
        ensures
            match result {
                Some(result) => self@.result_of(op.deep_view()) == Some(result.deep_view()),
                None => self@.result_of(op.deep_view()) is None,
            },
    {
        match self.replicas.get(op.target) {
            Some(replica) => {
                if replica.state_machine().last_applied() < op.index {
                    return None;
                }
                match replica.node().entry_at(op.index) {
                    Some(entry) => {
                        if entry.term != op.term {
                            return None;
                        }
                    },
                    None => {
                        return None;
                    },
                }
                match replica.applied_result(op.index) {
                    Some(result) => Some(result.clone()),
                    None => None,
                }
            },
            None => None,
        }
    }

    fn resolve_pending(&mut self)
        requires
            old(self).wf(),
        ensures
            final(self).wf(),
            final(self)@ == old(self)@.resolve_pending(),
    {
        let clock: u64 = self.net.clock();
        let mut pending: Vec<PendingOp> = Vec::new();
        std::mem::swap(&mut pending, &mut self.pending);
        let ghost all = pending.deep_view();
        assert(self@.pending =~= Seq::empty());
        assert(self@ =~= (HarnessState { pending: Seq::empty(), ..old(self)@ }));
        let ghost start = self@;
        let mut i: usize = 0;
        assert(all.skip(0) =~= all);
        while i < pending.len()
            invariant
                i <= pending@.len(),
                self.wf(),
                all == pending.deep_view(),
                clock == self@.net.clock,
                start.resolve_all(all) == self@.resolve_all(all.skip(i as int)),
            decreases pending.len() - i,
        {
            let ghost before = self@;
            let ghost op = all.skip(i as int)[0];
            proof {
                assert(all.skip(i as int).drop_first() =~= all.skip(i + 1));
                assert(op == pending@[i as int].deep_view());
            }
            match self.result_of(&pending[i]) {
                Some(result) => {
                    self.history.push(pending[i].entry(Some(clock), Outcome::Applied(result)));
                    assert(self@.history =~= before.resolve(op).history);
                },
                None => {
                    if clock >= pending[i].deadline {
                        self.history.push(pending[i].entry(Some(clock), Outcome::Indeterminate));
                        assert(self@.history =~= before.resolve(op).history);
                    } else {
                        self.pending.push(pending[i].copy());
                        assert(self@.pending =~= before.resolve(op).pending);
                    }
                },
            }
            assert(self@ =~= before.resolve(op));
            i += 1;
        }
        assert(all.skip(i as int) =~= Seq::empty());
    }

    /// Flushes any operation still outstanding, as indeterminate with no
    /// return: observation simply stopped.
    pub fn finish(self) -> (entries: Vec<HistoryEntry>)
        ensures
            entries.deep_view() == self@.finished(),
    {
        self.into_parts().1
    }

    /// The trace, and the history with what is outstanding flushed.
    pub fn into_parts(self) -> (parts: (Vec<TraceEvent>, Vec<HistoryEntry>))
        ensures
            parts.0.deep_view() == self@.net.trace,
            parts.1.deep_view() == self@.finished(),
    {
        let ghost recorded = self.history.deep_view();
        let ghost ops = self.pending.deep_view();
        let mut entries = self.history;
        let pending = self.pending;
        let mut i: usize = 0;
        while i < pending.len()
            invariant
                i <= pending@.len(),
                ops == pending.deep_view(),
                entries@.len() == recorded.len() + i,
                forall|j: int|
                    0 <= j < recorded.len() ==> (#[trigger] entries@[j]).deep_view() == recorded[j],
                forall|j: int|
                    recorded.len() <= j < entries@.len() ==> (#[trigger] entries@[j]).deep_view()
                        == HarnessState::entry_of(
                        ops[j - recorded.len()],
                        None,
                        OutcomeView::Indeterminate,
                    ),
            decreases pending.len() - i,
        {
            entries.push(pending[i].entry(None, Outcome::Indeterminate));
            i += 1;
        }
        assert(entries.deep_view() =~= self@.finished());
        (self.net.into_trace(), entries)
    }
}

} // verus!
