//! Whatever a harness does, its nodes stay in accord with one record of what
//! they have decided, and so with each other.

use vstd::prelude::*;

use crate::kv::command::CommandView;
use crate::kv::replica;
use crate::kv::replica::ReplicaState;
use crate::raft::ids;
use crate::raft::model::NodeState;
use crate::raft::types::{EffectView, EventView, LogEntryView, LogPayloadView, NodeId};
use crate::safety::growth;
use crate::safety::leading;
use crate::safety::membership;
use crate::safety::record;
use crate::safety::record::Record;
use crate::safety::steps;
use crate::safety::system;
use crate::sim::durable;
use crate::sim::durable::DurableView;
use crate::sim::network;
use crate::sim::network::NetworkState;
use crate::sim::trace::EnvelopeView;
use crate::verify::harness;
use crate::verify::harness::HarnessState;
use crate::verify::history::ClientId;
use crate::verify::plain;

verus! {

/// A node as it would come back from what is durable.
pub open spec fn comes_back(h: HarnessState, id: NodeId) -> NodeState {
    durable::recovered(h.durable[id], id, h.peers, h.election_timeout, h.heartbeat_interval)
}

/// The state of a node, as it would come back if it is down.
pub open spec fn node_of(h: HarnessState, id: NodeId) -> NodeState {
    if h.replicas.contains_key(id) {
        h.replicas[id].node
    } else {
        comes_back(h, id)
    }
}

/// Whether a node is as recorded, with its whole log.
pub open spec fn node_matches(peers: Seq<NodeId>, r: Record, s: NodeState) -> bool {
    record::node_matches(peers, r, s) && plain::is_plain(peers, s)
}

pub open spec fn envelope_matches(peers: Seq<NodeId>, r: Record, e: EnvelopeView) -> bool {
    record::message_matches(peers, r, e.from, e.to, e.message) && plain::message_is_plain(e.message)
}

/// Whether all of these messages say nothing but what is recorded.
pub open spec fn envelopes_match(
    peers: Seq<NodeId>,
    r: Record,
    envelopes: Seq<EnvelopeView>,
) -> bool {
    forall|i: int|
        0 <= i < envelopes.len() ==> envelope_matches(peers, r, #[trigger] envelopes[i])
}

/// Whether all messages under way say nothing but what is recorded.
pub open spec fn inbox_matches(
    peers: Seq<NodeId>,
    r: Record,
    inbox: Map<u64, Seq<EnvelopeView>>,
) -> bool {
    forall|at: u64| #[trigger] inbox.contains_key(at) ==> envelopes_match(peers, r, inbox[at])
}

/// Whether all nodes and all messages are in accord with the record.
pub open spec fn in_accord(h: HarnessState, r: Record) -> bool {
    &&& h.wf()
    &&& ids::ascending(h.peers)
    &&& r.consistent(h.peers)
    &&& forall|id: NodeId|
        h.peers.contains(id) ==> node_matches(h.peers, r, #[trigger] node_of(h, id))
    &&& inbox_matches(h.peers, r, h.net.inbox)
}

/// Messages stay true as the record grows.
pub proof fn lemma_envelopes_stay(
    peers: Seq<NodeId>,
    r: Record,
    next: Record,
    envelopes: Seq<EnvelopeView>,
)
    requires
        r.consistent(peers),
        r.grows_to(next),
        envelopes_match(peers, r, envelopes),
    ensures
        envelopes_match(peers, next, envelopes),
{
    assert forall|i: int| 0 <= i < envelopes.len() implies envelope_matches(
        peers,
        next,
        #[trigger] envelopes[i],
    ) by {
        let e = envelopes[i];
        assert(envelope_matches(peers, r, e));
        growth::lemma_message_stays(peers, r, next, e.from, e.to, e.message);
    }
}

proof fn lemma_inbox_stays(
    peers: Seq<NodeId>,
    r: Record,
    next: Record,
    inbox: Map<u64, Seq<EnvelopeView>>,
)
    requires
        r.consistent(peers),
        r.grows_to(next),
        inbox_matches(peers, r, inbox),
    ensures
        inbox_matches(peers, next, inbox),
{
    assert forall|at: u64| #[trigger] inbox.contains_key(at) implies envelopes_match(
        peers,
        next,
        inbox[at],
    ) by {
        lemma_envelopes_stay(peers, r, next, inbox[at]);
    }
}

/// Routing true messages leaves only true messages under way.
proof fn lemma_route(
    peers: Seq<NodeId>,
    r: Record,
    net: NetworkState,
    from: NodeId,
    effects: Seq<EffectView>,
    cut_off: Set<NodeId>,
)
    requires
        inbox_matches(peers, r, net.inbox),
        steps::sends_match(peers, r, from, effects),
        plain::sends_plain(effects),
    ensures
        net.route(from, effects, cut_off) matches Some(next) ==> inbox_matches(peers, r, next.inbox)
            && next.clock == net.clock,
{
    let all = Set::new(|e: EnvelopeView| envelope_matches(peers, r, e));
    assert forall|at: u64, i: int|
        net.inbox.contains_key(at) && 0 <= i < net.inbox[at].len() implies all.contains(
        #[trigger] net.inbox[at][i],
    ) by {
        assert(envelopes_match(peers, r, net.inbox[at]));
    }
    network::routing_adds_what_is_sent(net, from, effects, cut_off, all);
    if let Some(next) = net.route(from, effects, cut_off) {
        assert forall|at: u64| #[trigger] next.inbox.contains_key(at) implies envelopes_match(
            peers,
            r,
            next.inbox[at],
        ) by {
            assert forall|i: int| 0 <= i < next.inbox[at].len() implies envelope_matches(
                peers,
                r,
                #[trigger] next.inbox[at][i],
            ) by {
                assert(all.contains(next.inbox[at][i]));
            }
        }
    }
}

/// Whether one replica has taken a transition that the record accounts for,
/// and nothing else has changed but what it made durable and sent.
pub open spec fn replica_moved(
    h: HarnessState,
    next: HarnessState,
    id: NodeId,
    effects: Seq<EffectView>,
) -> bool {
    &&& h.replicas.contains_key(id)
    &&& next.replicas == h.replicas.insert(id, next.replicas[id])
    &&& next.durable == h.durable.insert(id, h.durable[id].apply_all(effects))
    &&& h.net.route(id, effects, h.isolated) == Some(next.net)
    &&& next.isolated == h.isolated
    &&& next.peers == h.peers
    &&& next.election_timeout == h.election_timeout
    &&& next.heartbeat_interval == h.heartbeat_interval
    &&& next.wf()
}

/// A replica that has moved, with the record accounting for it, leaves all in
/// accord.
pub proof fn lemma_moved(
    h: HarnessState,
    r: Record,
    next: HarnessState,
    r2: Record,
    id: NodeId,
    effects: Seq<EffectView>,
)
    requires
        in_accord(h, r),
        replica_moved(h, next, id, effects),
        steps::accounted(
            h.peers,
            r,
            r2,
            h.replicas[id].node,
            next.replicas[id].node,
            effects,
        ),
        plain::is_plain(h.peers, next.replicas[id].node),
        plain::sends_plain(effects),
    ensures
        in_accord(next, r2),
        next.net.clock == h.net.clock,
{
    let s = h.replicas[id].node;
    assert(h.tracks(id, s));
    assert(h.peers.to_set().contains(id));
    assert forall|other: NodeId| next.peers.contains(other) implies node_matches(
        next.peers,
        r2,
        #[trigger] node_of(next, other),
    ) by {
        if other != id {
            assert(node_of(next, other) == node_of(h, other));
            let node = node_of(h, other);
            assert(node_matches(h.peers, r, node));
            if h.replicas.contains_key(other) {
                assert(h.tracks(other, node));
            }
            assert(node.id == other);
            system::lemma_bystander(h.peers, r, r2, id, node);
        }
    }
    lemma_inbox_stays(h.peers, r, r2, h.net.inbox);
    lemma_route(h.peers, r2, h.net, id, effects, h.isolated);
}

/// One event at one node.
pub proof fn lemma_transition(h: HarnessState, r: Record, id: NodeId, event: EventView) -> (r2:
    Record)
    requires
        in_accord(h, r),
        h.transition(id, event) is Some,
        event matches EventView::Step { from, message } ==> record::message_matches(
            h.peers,
            r,
            from,
            id,
            message,
        ) && plain::message_is_plain(message),
    ensures
        ({
            let next = h.transition(id, event)->0;
            let s = h.replicas[id].node;
            &&& in_accord(next, r2)
            &&& replica_moved(h, next, id, s.step(event).1)
            &&& next.replicas[id] == h.replicas[id].step(event).0
            &&& plain::is_plain(h.peers, next.replicas[id].node)
            &&& steps::accounted(
                h.peers,
                r,
                r2,
                s,
                next.replicas[id].node,
                s.step(event).1,
            )
            &&& next.net.clock == h.net.clock
            &&& next.pending == h.pending
            &&& next.history == h.history
        }),
        r.adds_no_entry(r2),
{
    let next = h.transition(id, event)->0;
    let s = h.replicas[id].node;
    assert(h.tracks(id, s));
    assert(h.peers.to_set().contains(id));
    assert(node_of(h, id) == s);
    plain::lemma_config(h.peers, s);
    plain::lemma_full(h.peers, r, s);
    plain::lemma_step(h.peers, s, event);
    let r2 = membership::lemma_step(h.peers, r, s, event);
    harness::transition_keeps_pace(h, id, event);
    replica::catching_up_keeps_the_node(h.replicas[id].with_node(s.step(event).0));
    assert(h.durable.contains_key(id));
    assert(next.replicas =~= h.replicas.insert(id, next.replicas[id]));
    lemma_moved(h, r, next, r2, id, s.step(event).1);
    r2
}

/// A leader accepts a command.
pub proof fn lemma_accept(
    h: HarnessState,
    r: Record,
    client: ClientId,
    target: NodeId,
    command: CommandView,
) -> (r2: Record)
    requires
        in_accord(h, r),
        h.accepts(target),
        h.submit(client, target, command) is Some,
    ensures
        ({
            let next = h.submit(client, target, command)->0;
            let s = h.replicas[target].node;
            let payload = LogPayloadView::Command(command.encoded());
            &&& in_accord(next, r2)
            &&& next.replicas == h.replicas.insert(target, next.replicas[target])
            &&& next.replicas[target].node == s.append_and_advance(payload).0
            &&& plain::is_plain(h.peers, next.replicas[target].node)
            &&& steps::accounted(
                h.peers,
                r,
                r2,
                s,
                s.append_and_advance(payload).0,
                s.append_and_advance(payload).1,
            )
            &&& r2 == r.with_entry(
                s.current_term,
                (LogEntryView { term: s.current_term, payload }),
            )
            &&& next.net.clock == h.net.clock
        }),
{
    let next = h.submit(client, target, command)->0;
    let up = h.replicas[target];
    let s = up.node;
    let payload = LogPayloadView::Command(command.encoded());
    harness::submission_keeps_pace(h, client, target, command);
    assert(h.tracks(target, s));
    assert(h.peers.to_set().contains(target));
    assert(h.durable.contains_key(target));
    assert(node_of(h, target) == s);
    plain::lemma_proposal(h.peers, s, command.encoded());
    let r2 = leading::lemma_append_and_advance(h.peers, r, s, payload);
    let (node, effects) = s.append_and_advance(payload);
    assert(next.replicas =~= h.replicas.insert(target, next.replicas[target]));
    replica::catching_up_keeps_the_node(up.with_node(node));
    lemma_moved(h, r, next, r2, target, effects);
    r2
}

/// Advancing the clock, recording a delivery or drawing a timeout changes
/// nothing that is recorded.
pub proof fn lemma_same_nodes(h: HarnessState, next: HarnessState, r: Record)
    requires
        in_accord(h, r),
        next.replicas == h.replicas,
        next.durable == h.durable,
        next.peers == h.peers,
        next.election_timeout == h.election_timeout,
        next.heartbeat_interval == h.heartbeat_interval,
        next.isolated.finite(),
        forall|at: u64| #[trigger]
            next.net.inbox.contains_key(at) ==> h.net.inbox.contains_key(at)
                && next.net.inbox[at] == h.net.inbox[at],
    ensures
        in_accord(next, r),
{
    assert forall|id: NodeId| next.peers.contains(id) implies node_matches(
        next.peers,
        r,
        #[trigger] node_of(next, id),
    ) by {
        assert(node_of(next, id) == node_of(h, id));
    }
    assert forall|id: NodeId| #[trigger] next.replicas.contains_key(id) implies next.tracks(
        id,
        next.replicas[id].node,
    ) by {
        assert(h.tracks(id, h.replicas[id].node));
    }
}

/// A node goes down.
pub proof fn lemma_crash(h: HarnessState, r: Record, id: NodeId)
    requires
        in_accord(h, r),
    ensures
        in_accord(h.crash(id), r),
{
    let next = h.crash(id);
    if h.replicas.contains_key(id) {
        let s = h.replicas[id].node;
        assert(h.tracks(id, s));
        assert(h.peers.to_set().contains(id));
        assert(node_of(h, id) == s);
        let back = comes_back(h, id);
        membership::lemma_recovered(h.peers, r, s, back);
        assert(back.learners =~= Set::empty());
        assert forall|other: NodeId| next.peers.contains(other) implies node_matches(
            next.peers,
            r,
            #[trigger] node_of(next, other),
        ) by {
            if other != id {
                assert(node_of(next, other) == node_of(h, other));
            } else {
                assert(node_of(next, other) == back);
            }
        }
        assert forall|other: NodeId| #[trigger] next.replicas.contains_key(other) implies next.tracks(
            other,
            next.replicas[other].node,
        ) by {
            assert(h.replicas.contains_key(other));
            assert(h.tracks(other, h.replicas[other].node));
        }
    }
}

/// A node comes back.
pub proof fn lemma_restart(h: HarnessState, r: Record, id: NodeId)
    requires
        in_accord(h, r),
    ensures
        in_accord(h.restart(id), r),
{
    let next = h.restart(id);
    if !h.replicas.contains_key(id) && h.peers.contains(id) {
        let back = comes_back(h, id);
        let up = ReplicaState::fresh(back);
        assert(node_of(h, id) == back);
        assert(node_matches(h.peers, r, back));
        replica::catching_up_keeps_the_node(up);
        assert forall|other: NodeId| next.peers.contains(other) implies node_matches(
            next.peers,
            r,
            #[trigger] node_of(next, other),
        ) by {
            if other != id {
                assert(node_of(next, other) == node_of(h, other));
            } else {
                assert(node_of(next, other) == back);
            }
        }
        assert(h.peers.to_set().contains(id));
        assert(next.replicas.dom() =~= h.replicas.dom().insert(id));
        assert forall|other: NodeId| #[trigger] next.replicas.contains_key(other) implies next.tracks(
            other,
            next.replicas[other].node,
        ) by {
            if other != id {
                assert(h.replicas.contains_key(other));
                assert(h.tracks(other, h.replicas[other].node));
            } else {
                assert(h.durable.contains_key(id));
                assert(next.durable[id].holds(back));
            }
        }
    }
}

/// At the start all nodes are in accord with a blank record.
pub proof fn lemma_initial(h: HarnessState)
    requires
        h.wf(),
        ids::ascending(h.peers),
        h.net.inbox == Map::<u64, Seq<EnvelopeView>>::empty(),
        forall|id: NodeId| h.peers.contains(id) ==> h.replicas.contains_key(id)
            && (#[trigger] h.replicas[id]).node == durable::recovered(
            DurableView::blank(),
            id,
            h.peers,
            h.election_timeout,
            h.heartbeat_interval,
        ),
    ensures
        in_accord(h, Record::blank()),
{
    let r = Record::blank();
    assert forall|id: NodeId| h.peers.contains(id) implies node_matches(
        h.peers,
        r,
        #[trigger] node_of(h, id),
    ) by {
        let s = h.replicas[id].node;
        assert(h.tracks(id, s));
        assert(s.learners =~= Set::empty());
        membership::lemma_fresh(h.peers, r, s);
    }
}

} // verus!
