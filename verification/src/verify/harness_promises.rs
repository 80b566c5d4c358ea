//! What the harness promises: what comes of an operation, what a fault does,
//! and what goes on from tick to tick.

use vstd::prelude::*;

use crate::kv::command::CommandView;
use crate::kv::replica;
use crate::kv::replica::ReplicaState;
use crate::raft::ids;
use crate::raft::model::NodeState;
use crate::raft::promises;
use crate::raft::types::{EffectView, EventView, LogPayloadView, NodeId, Role};
use crate::sim::durable;
use crate::sim::network::NetworkState;
use crate::sim::trace::EnvelopeView;
use crate::verify::harness::{HarnessState, PendingView};
use crate::verify::history::{ClientId, FaultEvent, FaultKind, HistoryEntryView, OutcomeView};

verus! {

/// Whether a node is up and leads.
pub open spec fn leads(h: HarnessState, id: NodeId) -> bool {
    h.replicas.dom().contains(id) && h.replicas[id].node.role == Role::Leader
}

/// An operation sent to anyone but a leader that is up is rejected: it begins
/// and ends now, and nothing else comes of it.
pub proof fn only_leaders_accept(
    h: HarnessState,
    client: ClientId,
    target: NodeId,
    command: CommandView,
)
    requires
        !leads(h, target),
    ensures
        h.submit(client, target, command) == Some(
            (HarnessState {
                history: h.history.push(
                    HistoryEntryView {
                        client,
                        invoke_tick: h.net.clock,
                        return_tick: Some(h.net.clock),
                        command,
                        outcome: OutcomeView::Rejected,
                    },
                ),
                ..h
            }),
        ),
        !h.accepts(target),
{
}

/// A leader that is up takes an operation on: an entry for it goes behind the
/// leader's log, in its term, and from then on the operation is waited for, as
/// long as operations are. What is to be durable of it is made so at the
/// leader, and what is to be sent is, unless the leader is cut off.
pub proof fn leaders_take_operations_on(
    h: HarnessState,
    client: ClientId,
    target: NodeId,
    command: CommandView,
    other: NodeId,
)
    requires
        leads(h, target),
    ensures
        ({
            let before = h.replicas[target];
            let (replica, effects) = before.propose(command);
            let node = before.node.append_and_advance(
                LogPayloadView::Command(command.encoded()),
            ).0;
            &&& h.accepts(target)
            &&& h.submit(client, target, command) matches Some(next) ==> {
                &&& next.pending == h.pending.push(
                    PendingView {
                        client,
                        invoke_tick: h.net.clock,
                        target,
                        index: (promises::end_of(before.node) + 1) as u64,
                        term: before.node.current_term,
                        command,
                        deadline: (h.net.clock + h.apply_timeout_ticks) as u64,
                    },
                )
                &&& h.net.clock + h.apply_timeout_ticks <= u64::MAX
                &&& next.replicas.dom() == h.replicas.dom()
                &&& next.replicas[target] == replica
                &&& next.replicas[target].node == node
                &&& other != target ==> next.replicas[other] == h.replicas[other]
                &&& h.net.route(target, effects, h.isolated) == Some(next.net)
                &&& h.durable.dom().contains(target) ==> next.durable[target]
                    == h.durable[target].apply_all(effects)
                &&& other != target ==> next.durable[other] == h.durable[other]
                &&& next.history == h.history
                &&& next.faults == h.faults
                &&& next.isolated == h.isolated
            }
            &&& h.submit(client, target, command) is None ==> !before.node.can_propose()
                || h.net.clock + h.apply_timeout_ticks > u64::MAX || h.net.route(
                target,
                effects,
                h.isolated,
            ) is None
        }),
{
    let before = h.replicas[target];
    let node = before.node.append_and_advance(LogPayloadView::Command(command.encoded())).0;
    replica::catching_up_keeps_the_node(before.with_node(node));
    if let Some(next) = h.submit(client, target, command) {
        assert(next.replicas.dom() =~= h.replicas.dom());
    }
}

/// Whether the entry made for an operation has been applied where it was sent:
/// its target is up, holds an entry of the operation's term at its index, has
/// applied that far, and has what the command reported.
pub open spec fn was_applied(h: HarnessState, op: PendingView) -> bool {
    let replica = h.replicas[op.target];
    &&& h.replicas.dom().contains(op.target)
    &&& promises::held(replica.node, op.index as int)
    &&& promises::entry(replica.node, op.index as int).term == op.term
    &&& op.index <= replica.store.last_applied
    &&& replica.results.dom().contains(op.index)
}

/// The history entry of an operation.
pub open spec fn told(op: PendingView, return_tick: Option<u64>, outcome: OutcomeView) -> HistoryEntryView {
    HistoryEntryView {
        client: op.client,
        invoke_tick: op.invoke_tick,
        return_tick,
        command: op.command,
        outcome,
    }
}

/// A client is told what its command reported as soon as that has been
/// applied, that its fate is unknown when its time is over, and goes on waiting
/// until then.
pub proof fn clients_are_told(h: HarnessState, op: PendingView)
    ensures
        ({
            let next = h.resolve(op);
            if was_applied(h, op) {
                next == (HarnessState {
                    history: h.history.push(
                        told(
                            op,
                            Some(h.net.clock),
                            OutcomeView::Applied(h.replicas[op.target].results[op.index]),
                        ),
                    ),
                    ..h
                })
            } else if op.deadline <= h.net.clock {
                next == (HarnessState {
                    history: h.history.push(
                        told(op, Some(h.net.clock), OutcomeView::Indeterminate),
                    ),
                    ..h
                })
            } else {
                next == (HarnessState { pending: h.pending.push(op), ..h })
            }
        }),
{
    if h.replicas.contains_key(op.target) {
        promises::log_is_indexed_from_the_snapshot(h.replicas[op.target].node, op.index as int);
    }
}

/// Operations waited for are looked at one after the other.
pub proof fn operations_are_looked_at_in_turn(
    h: HarnessState,
    first: PendingView,
    rest: Seq<PendingView>,
)
    ensures
        h.resolve_all(Seq::empty()) == h,
        h.resolve_all(seq![first] + rest) == h.resolve(first).resolve_all(rest),
        h.resolve_pending() == (HarnessState { pending: Seq::empty(), ..h }).resolve_all(h.pending),
{
    assert((seq![first] + rest).drop_first() =~= rest);
}

/// An observation ends with every operation still waited for told as of
/// unknown fate, and not returned.
pub proof fn observations_end_with_what_is_open(h: HarnessState)
    ensures
        h.finished().len() == h.history.len() + h.pending.len(),
        forall|i: int| 0 <= i < h.history.len() ==> #[trigger] h.finished()[i] == h.history[i],
        forall|i: int|
            0 <= i < h.pending.len() ==> h.finished()[h.history.len() + i] == told(
                #[trigger] h.pending[i],
                None,
                OutcomeView::Indeterminate,
            ),
{
}

/// The state with a fault on record, as of now.
pub open spec fn noted(h: HarnessState, node: NodeId, kind: FaultKind) -> HarnessState {
    HarnessState { faults: h.faults.push(FaultEvent { tick: h.net.clock, node, kind }), ..h }
}

/// Cutting a node off, and taking it back, changes who is cut off by that node,
/// if it changes anything, and is then on record.
pub proof fn nodes_are_cut_off_and_taken_back(h: HarnessState, id: NodeId)
    ensures
        h.isolated.contains(id) ==> h.isolate(id) == h,
        !h.isolated.contains(id) ==> h.isolate(id) == noted(
            HarnessState { isolated: h.isolated.insert(id), ..h },
            id,
            FaultKind::Isolated,
        ),
        !h.isolated.contains(id) ==> h.heal(id) == h,
        h.isolated.contains(id) ==> h.heal(id) == noted(
            HarnessState { isolated: h.isolated.remove(id), ..h },
            id,
            FaultKind::Healed,
        ),
{
}

/// A crash takes a node down and leaves what it made durable. A node that was
/// down comes back as a follower with its term, its vote and its log as made
/// durable, and a store with nothing in it but what its snapshot holds.
pub proof fn crashes_leave_what_is_durable(h: HarnessState, id: NodeId, other: NodeId)
    ensures
        !h.replicas.dom().contains(id) ==> h.crash(id) == h,
        h.replicas.dom().contains(id) ==> {
            let down = h.crash(id);
            &&& down == noted(
                HarnessState { replicas: down.replicas, ..h },
                id,
                FaultKind::Crashed,
            )
            &&& !down.replicas.dom().contains(id)
            &&& other != id ==> down.replicas.dom().contains(other)
                == h.replicas.dom().contains(other) && down.replicas[other] == h.replicas[other]
        },
        h.replicas.dom().contains(id) || !h.peers.contains(id) ==> h.restart(id) == h,
        !h.replicas.dom().contains(id) && h.peers.contains(id) ==> {
            let up = h.restart(id);
            let node = durable::recovered(
                h.durable[id],
                id,
                h.peers,
                h.election_timeout,
                h.heartbeat_interval,
            );
            &&& up == noted(HarnessState { replicas: up.replicas, ..h }, id, FaultKind::Restarted)
            &&& up.replicas.dom() == h.replicas.dom().insert(id)
            &&& other != id ==> up.replicas[other] == h.replicas[other]
            &&& up.replicas[id].node == node
            &&& up.replicas[id] == ReplicaState::fresh(node).caught_up()
            &&& node.role == Role::Follower
            &&& node.current_term == h.durable[id].hard_state.current_term
            &&& node.voted_for == h.durable[id].hard_state.voted_for
            &&& node.log == h.durable[id].log
            &&& node.snapshot == h.durable[id].snapshot
        },
{
    let node = durable::recovered(
        h.durable[id],
        id,
        h.peers,
        h.election_timeout,
        h.heartbeat_interval,
    );
    replica::catching_up_keeps_the_node(ReplicaState::fresh(node));
    assert(h.restart(id).replicas.dom() =~= if h.replicas.contains_key(id) || !h.peers.contains(
        id,
    ) {
        h.replicas.dom()
    } else {
        h.replicas.dom().insert(id)
    });
}

/// A replica that is made anew of a node has an empty store and no results.
pub proof fn fresh_replicas_are_empty(node: NodeState)
    ensures
        ({
            let r = ReplicaState::fresh(node);
            &&& r.node == node
            &&& r.store.entries.dom() =~= Set::<Seq<u8>>::empty()
            &&& r.store.last_applied == 0
            &&& r.results.dom() =~= Set::<u64>::empty()
        }),
{
}

/// What a node brings about is made durable at that node, and sent unless
/// either end is cut off; an event happens to one node.
pub proof fn events_happen_to_one_replica(
    h: HarnessState,
    id: NodeId,
    event: EventView,
    effects: Seq<EffectView>,
    other: NodeId,
)
    ensures
        h.apply_effects(id, effects) matches Some(next) ==> {
            &&& h.net.route(id, effects, h.isolated) == Some(next.net)
            &&& h.durable.dom().contains(id) ==> next.durable[id] == h.durable[id].apply_all(effects)
            &&& other != id ==> next.durable[other] == h.durable[other]
            &&& next == (HarnessState { durable: next.durable, net: next.net, ..h })
        },
        h.apply_effects(id, effects) is None <==> h.net.route(id, effects, h.isolated) is None,
        h.transition(id, event) matches Some(next) ==> {
            &&& h.replicas.dom().contains(id)
            &&& next.replicas[id] == h.replicas[id].step(event).0
            &&& next.replicas.dom() == h.replicas.dom()
            &&& other != id ==> next.replicas[other] == h.replicas[other]
            &&& (HarnessState { replicas: next.replicas, ..h }).apply_effects(
                id,
                h.replicas[id].step(event).1,
            ) == Some(next)
        },
        h.transition(id, event) is None ==> !h.replicas.dom().contains(id)
            || !h.replicas[id].node.can_step(event) || h.net.route(
            id,
            h.replicas[id].step(event).1,
            h.isolated,
        ) is None,
{
    if let Some(next) = h.transition(id, event) {
        assert(next.replicas.dom() =~= h.replicas.dom());
    }
}

/// A message arrives if neither who sent it nor whom it is for is cut off, and
/// the latter is up; then it is on record and acted on. Else it is lost.
pub proof fn messages_arrive_or_are_lost(
    h: HarnessState,
    first: EnvelopeView,
    rest: Seq<EnvelopeView>,
)
    ensures
        h.deliver_all(Seq::empty()) == Some(h),
        ({
            let done = h.deliver_all(seq![first] + rest);
            if h.isolated.contains(first.from) || h.isolated.contains(first.to)
                || !h.replicas.dom().contains(first.to) {
                done == h.deliver_all(rest)
            } else {
                match (HarnessState { net: h.net.delivered(first), ..h }).transition(
                    first.to,
                    EventView::Step { from: first.from, message: first.message },
                ) {
                    Some(next) => done == next.deliver_all(rest),
                    None => done is None,
                }
            }
        }),
{
    assert((seq![first] + rest).drop_first() =~= rest);
}

/// Nodes that are up tick one after the other, each with a timeout of its own.
pub proof fn replicas_tick_one_by_one(h: HarnessState, first: NodeId, rest: Seq<NodeId>)
    ensures
        h.tick_all(Seq::empty()) == Some(h),
        ({
            let done = h.tick_all(seq![first] + rest);
            match h.net.ticked(first) {
                None => done is None,
                Some(net) => match (HarnessState { net, ..h }).transition(
                    first,
                    EventView::Tick { next_timeout: h.net.timeout() },
                ) {
                    Some(next) => done == next.tick_all(rest),
                    None => done is None,
                },
            }
        }),
{
    assert((seq![first] + rest).drop_first() =~= rest);
}

/// A tick: what is due arrives, then every node that is up ticks, in the order
/// of their ids, and then clients are told.
pub proof fn a_tick_delivers_ticks_and_tells(h: HarnessState, net: NetworkState)
    requires
        h.net.advance() == Some(net),
    ensures
        ({
            let open = HarnessState { net: net.without_due(), ..h };
            match open.deliver_all(net.due()) {
                None => h.step() is None,
                Some(delivered) => match delivered.tick_all(
                    ids::sorted_ids(delivered.replicas.dom()),
                ) {
                    None => h.step() is None,
                    Some(ticked) => h.step() == Some(ticked.resolve_pending()),
                },
            }
        }),
{
}

/// The leader that clients turn to is the one of the least id among those that
/// lead; there is none only if nobody does.
pub proof fn the_first_leader_is_turned_to(h: HarnessState)
    requires
        h.replicas.dom().finite(),
    ensures
        match h.current_leader() {
            Some(id) => leads(h, id) && forall|other: NodeId| #[trigger]
                leads(h, other) ==> id.0 <= other.0,
            None => forall|other: NodeId| !#[trigger] leads(h, other),
        },
{
    let up = h.replicas.dom();
    lemma_first_leader(h, up);
    let first = choose|first: Option<NodeId>| is_first(h, up, first);
    assert forall|other: NodeId| #[trigger] h.replicas.contains_key(other) implies up.contains(
        other,
    ) by {}
    match first {
        Some(id) => {
            assert(leads(h, id));
            assert forall|other: NodeId| #[trigger]
                h.replicas.contains_key(other) && other.0 < id.0 implies h.replicas[other].node.role
                != Role::Leader by {
                assert(leads(h, other) ==> id.0 <= other.0);
            }
        },
        None => {
            assert forall|other: NodeId| #[trigger]
                h.replicas.contains_key(other) implies h.replicas[other].node.role
                != Role::Leader by {
                assert(!leads(h, other));
            }
        },
    }
    assert(h.is_current_leader(first));
    h.lemma_current_leader(first);
}

/// Whether `first` is the least of those in `up` that lead.
spec fn is_first(h: HarnessState, up: Set<NodeId>, first: Option<NodeId>) -> bool {
    match first {
        Some(id) => up.contains(id) && leads(h, id) && forall|other: NodeId|
            up.contains(other) && #[trigger] leads(h, other) ==> id.0 <= other.0,
        None => forall|other: NodeId| up.contains(other) ==> !#[trigger] leads(h, other),
    }
}

proof fn lemma_first_leader(h: HarnessState, up: Set<NodeId>)
    requires
        up.finite(),
    ensures
        exists|first: Option<NodeId>| is_first(h, up, first),
    decreases up.len(),
{
    if up.len() == 0 {
        assert(is_first(h, up, None));
    } else {
        let one = up.choose();
        let rest = up.remove(one);
        lemma_first_leader(h, rest);
        let first = choose|first: Option<NodeId>| is_first(h, rest, first);
        let next = if !leads(h, one) {
            first
        } else {
            match first {
                Some(id) => if id.0 < one.0 {
                    first
                } else {
                    Some(one)
                },
                None => Some(one),
            }
        };
        assert forall|other: NodeId| up.contains(other) && #[trigger] leads(h, other) implies (
        next matches Some(id) && id.0 <= other.0) by {
            if other != one {
                assert(rest.contains(other));
            }
        }
        assert(is_first(h, up, next));
    }
}

/// A harness starts with every node up, as a follower with nothing in its log,
/// and nothing durable, cut off, waited for or on record.
pub proof fn harnesses_start_with_everyone_up(
    peers: Seq<NodeId>,
    election_timeout: u64,
    heartbeat_interval: u64,
    net: NetworkState,
    apply_timeout_ticks: u64,
    id: NodeId,
)
    ensures
        ({
            let h = HarnessState::initial(
                peers,
                election_timeout,
                heartbeat_interval,
                net,
                apply_timeout_ticks,
            );
            let node = h.replicas[id].node;
            &&& h.replicas.dom().contains(id) == peers.contains(id)
            &&& h.durable.dom().contains(id) == peers.contains(id)
            &&& peers.contains(id) ==> {
                &&& node.id == id
                &&& node.role == Role::Follower
                &&& node.current_term == 0
                &&& node.voted_for is None
                &&& node.log.len() == 0
                &&& node.snapshot_config.voters == peers
                &&& node.snapshot_config.old_voters is None
                &&& node.election_timeout == election_timeout
                &&& node.heartbeat_interval == heartbeat_interval
                &&& h.replicas[id].store.entries.dom() =~= Set::<Seq<u8>>::empty()
                &&& h.durable[id].log.len() == 0
                &&& h.durable[id].hard_state.current_term == 0
            }
            &&& h.isolated =~= Set::<NodeId>::empty()
            &&& h.peers == peers
            &&& h.election_timeout == election_timeout
            &&& h.heartbeat_interval == heartbeat_interval
            &&& h.net == net
            &&& h.apply_timeout_ticks == apply_timeout_ticks
            &&& h.pending.len() == 0
            &&& h.history.len() == 0
            &&& h.faults.len() == 0
        }),
{
    let node = durable::recovered(
        durable::DurableView::blank(),
        id,
        peers,
        election_timeout,
        heartbeat_interval,
    );
    let fresh = ReplicaState::fresh(node);
    assert(fresh.caught_up() == fresh);
}

} // verus!
