//! A harness never gets stuck: whatever is done to it is possible, until time,
//! a counter or an index reaches its limit.

use vstd::prelude::*;

use crate::kv::command::CommandView;
use crate::kv::replica;
use crate::kv::replica::ReplicaState;
use crate::raft::ids;
use crate::raft::model;
use crate::raft::model::NodeState;
use crate::raft::types::{EffectView, EventView, LogPayloadView, NodeId, Role};
use crate::safety::bounds;
use crate::safety::progress;
use crate::safety::record;
use crate::safety::record::Record;
use crate::sim::durable;
use crate::sim::durable::DurableView;
use crate::sim::network;
use crate::sim::network::NetworkState;
use crate::sim::rng;
use crate::sim::trace::EnvelopeView;
use crate::verify::accord;
use crate::verify::harness;
use crate::verify::harness::HarnessState;
use crate::verify::history::ClientId;
use crate::verify::laws;
use crate::verify::laws::Action;
use crate::verify::plain;
use crate::verify::run;
use crate::verify::run::{RunConfigView, RunState};

verus! {

/// Whether all nodes are in accord, with no log longer than `cap`, and leaders
/// track everyone.
pub open spec fn on_course(h: HarnessState, r: Record, cap: int) -> bool {
    &&& accord::in_accord(h, r)
    &&& r.within(h.peers, cap, Set::full())
    &&& forall|id: NodeId| #[trigger]
        h.replicas.contains_key(id) ==> progress::tracks_targets(h.replicas[id].node)
}

/// Whether no node has counted further than `pace`, those in `ahead` one
/// further.
pub open spec fn nodes_paced(h: HarnessState, pace: int, ahead: Set<NodeId>) -> bool {
    forall|id: NodeId|
        h.peers.contains(id) ==> {
            let node = #[trigger] accord::node_of(h, id);
            &&& node.heartbeat_interval == h.heartbeat_interval
            &&& progress::paced(
                node,
                if ahead.contains(id) {
                    pace + 1
                } else {
                    pace
                },
            )
        }
}

/// The messages of term `limit` or earlier.
pub open spec fn terms_up_to(limit: int) -> Set<EnvelopeView> {
    Set::new(|e: EnvelopeView| progress::term_of(e.message) <= limit)
}

/// Whether a harness is on course, and has counted no further than its clock.
pub open spec fn steady(h: HarnessState, r: Record, cap: int) -> bool {
    &&& on_course(h, r, cap)
    &&& nodes_paced(h, h.net.clock as int, Set::empty())
    &&& network::carries(h.net.inbox, terms_up_to(h.net.clock as int))
    &&& h.net.can_draw()
}

/// Whether nothing but the replicas, what is durable, the network, and the
/// clients' operations differs.
pub open spec fn same_setting(h: HarnessState, next: HarnessState) -> bool {
    &&& next.peers == h.peers
    &&& next.election_timeout == h.election_timeout
    &&& next.heartbeat_interval == h.heartbeat_interval
    &&& next.apply_timeout_ticks == h.apply_timeout_ticks
    &&& next.replicas.dom() == h.replicas.dom()
    &&& next.net == (NetworkState {
        rng: next.net.rng,
        inbox: next.net.inbox,
        trace: next.net.trace,
        ..h.net
    })
}

/// One event at a node that is up.
proof fn lemma_event(
    h: HarnessState,
    r: Record,
    cap: int,
    id: NodeId,
    event: EventView,
    pace: int,
    ahead: Set<NodeId>,
    limit: int,
) -> (r2: Record)
    requires
        on_course(h, r, cap),
        0 <= cap < u64::MAX,
        h.replicas.contains_key(id),
        h.net.can_draw(),
        h.net.has_time(),
        nodes_paced(h, pace, ahead),
        network::carries(h.net.inbox, terms_up_to(limit)),
        !ahead.contains(id),
        event is Tick ==> pace < limit && pace < u64::MAX && pace + h.heartbeat_interval < u64::MAX,
        event matches EventView::Step { from, message } ==> record::message_matches(
            h.peers,
            r,
            from,
            id,
            message,
        ) && plain::message_is_plain(message) && progress::term_of(message) <= pace <= limit,
    ensures
        h.transition(id, event) is Some,
        on_course(h.transition(id, event)->0, r2, cap),
        r.grows_to(r2),
        same_setting(h, h.transition(id, event)->0),
        nodes_paced(
            h.transition(id, event)->0,
            pace,
            if event is Tick {
                ahead.insert(id)
            } else {
                ahead
            },
        ),
        network::carries((h.transition(id, event)->0).net.inbox, terms_up_to(limit)),
{
    let s = h.replicas[id].node;
    assert(h.tracks(id, s));
    assert(h.peers.to_set().contains(id));
    assert(accord::node_of(h, id) == s);
    assert(accord::node_matches(h.peers, r, s));
    progress::lemma_possible(h.peers, r, s, event, cap, Set::full());
    let (after, effects) = s.step(event);
    network::routing_is_possible(h.net, id, effects, h.isolated);
    network::routing_only_adds_to_the_trace(h.net, id, effects, h.isolated);
    assert(h.replicas[id].step(event).1 == effects);
    let next = h.transition(id, event)->0;
    let r2 = accord::lemma_transition(h, r, id, event);
    plain::lemma_config(h.peers, s);
    assert(r.adds_no_entry(r2));
    bounds::lemma_no_entry(h.peers, r, r2, cap, Set::full());
    progress::lemma_event_tracks(h.peers, r, s, event);
    replica::catching_up_keeps_the_node(h.replicas[id].with_node(after));
    assert(next.replicas[id].node == after);
    assert(next.replicas.dom() =~= h.replicas.dom());
    assert forall|other: NodeId| #[trigger] next.replicas.contains_key(
        other,
    ) implies progress::tracks_targets(next.replicas[other].node) by {
        assert(h.replicas.contains_key(other));
    }
    progress::lemma_event_paced(s, event, pace);
    assert(network::sends_within(id, effects, terms_up_to(limit)));
    network::routing_adds_what_is_sent(h.net, id, effects, h.isolated, terms_up_to(limit));
    let farther = if event is Tick {
        ahead.insert(id)
    } else {
        ahead
    };
    assert forall|other: NodeId| next.peers.contains(other) implies {
        let node = #[trigger] accord::node_of(next, other);
        &&& node.heartbeat_interval == next.heartbeat_interval
        &&& progress::paced(
            node,
            if farther.contains(other) {
                pace + 1
            } else {
                pace
            },
        )
    } by {
        if other != id {
            assert(accord::node_of(next, other) == accord::node_of(h, other));
        } else {
            assert(accord::node_of(next, other) == after);
        }
    }
    r2
}

/// Whether all of these messages are true, plain, and of term `limit` or
/// earlier.
pub open spec fn deliverable(
    peers: Seq<NodeId>,
    r: Record,
    due: Seq<EnvelopeView>,
    limit: int,
) -> bool {
    &&& accord::envelopes_match(peers, r, due)
    &&& forall|i: int|
        0 <= i < due.len() ==> progress::term_of((#[trigger] due[i]).message) <= limit
}

/// A change that leaves the replicas, what is durable and what is under way as
/// they are.
proof fn lemma_nothing_moved(
    h: HarnessState,
    next: HarnessState,
    r: Record,
    cap: int,
    pace: int,
    ahead: Set<NodeId>,
)
    requires
        on_course(h, r, cap),
        nodes_paced(h, pace, ahead),
        next.replicas == h.replicas,
        next.durable == h.durable,
        next.peers == h.peers,
        next.election_timeout == h.election_timeout,
        next.heartbeat_interval == h.heartbeat_interval,
        next.isolated.finite(),
        forall|at: u64| #[trigger]
            next.net.inbox.contains_key(at) ==> h.net.inbox.contains_key(at)
                && next.net.inbox[at] == h.net.inbox[at],
    ensures
        on_course(next, r, cap),
        nodes_paced(next, pace, ahead),
{
    accord::lemma_same_nodes(h, next, r);
    assert forall|id: NodeId| next.peers.contains(id) implies {
        let node = #[trigger] accord::node_of(next, id);
        &&& node.heartbeat_interval == next.heartbeat_interval
        &&& progress::paced(
            node,
            if ahead.contains(id) {
                pace + 1
            } else {
                pace
            },
        )
    } by {
        assert(accord::node_of(next, id) == accord::node_of(h, id));
    }
}

/// Deliveries.
proof fn lemma_deliver_all(
    h: HarnessState,
    r: Record,
    cap: int,
    due: Seq<EnvelopeView>,
    pace: int,
) -> (r2: Record)
    requires
        on_course(h, r, cap),
        0 <= cap < u64::MAX,
        h.net.can_draw(),
        h.net.has_time(),
        nodes_paced(h, pace, Set::empty()),
        network::carries(h.net.inbox, terms_up_to(pace)),
        deliverable(h.peers, r, due, pace),
    ensures
        h.deliver_all(due) is Some,
        on_course(h.deliver_all(due)->0, r2, cap),
        same_setting(h, h.deliver_all(due)->0),
        nodes_paced(h.deliver_all(due)->0, pace, Set::empty()),
        network::carries((h.deliver_all(due)->0).net.inbox, terms_up_to(pace)),
    decreases due.len(),
{
    if due.len() == 0 {
        r
    } else {
        let rest = due.drop_first();
        let e = due[0];
        assert(accord::envelope_matches(h.peers, r, e));
        assert(deliverable(h.peers, r, rest, pace)) by {
            assert forall|i: int| 0 <= i < rest.len() implies accord::envelope_matches(
                h.peers,
                r,
                #[trigger] rest[i],
            ) && progress::term_of(rest[i].message) <= pace by {
                assert(rest[i] == due[i + 1]);
            }
        }
        if !h.reaches(e) {
            lemma_deliver_all(h, r, cap, rest, pace)
        } else {
            let noted = HarnessState { net: h.net.delivered(e), ..h };
            let event = EventView::Step { from: e.from, message: e.message };
            lemma_nothing_moved(h, noted, r, cap, pace, Set::empty());
            let moved = lemma_event(noted, r, cap, e.to, event, pace, Set::empty(), pace);
            let next = noted.transition(e.to, event)->0;
            accord::lemma_envelopes_stay(h.peers, r, moved, rest);
            lemma_deliver_all(next, moved, cap, rest, pace)
        }
    }
}

/// Ticks.
proof fn lemma_tick_all(
    h: HarnessState,
    r: Record,
    cap: int,
    order: Seq<NodeId>,
    pace: int,
    ahead: Set<NodeId>,
) -> (r2: Record)
    requires
        on_course(h, r, cap),
        0 <= cap < u64::MAX,
        h.net.can_draw(),
        h.net.has_time(),
        nodes_paced(h, pace, ahead),
        network::carries(h.net.inbox, terms_up_to(pace + 1)),
        ids::ascending(order),
        forall|i: int|
            0 <= i < order.len() ==> h.replicas.contains_key(#[trigger] order[i])
                && !ahead.contains(order[i]),
        pace < u64::MAX,
        pace + h.heartbeat_interval < u64::MAX,
    ensures
        h.tick_all(order) is Some,
        on_course(h.tick_all(order)->0, r2, cap),
        same_setting(h, h.tick_all(order)->0),
        nodes_paced(h.tick_all(order)->0, pace + 1, Set::empty()),
        network::carries((h.tick_all(order)->0).net.inbox, terms_up_to(pace + 1)),
    decreases order.len(),
{
    if order.len() == 0 {
        assert forall|id: NodeId| h.peers.contains(id) implies {
            let node = #[trigger] accord::node_of(h, id);
            &&& node.heartbeat_interval == h.heartbeat_interval
            &&& progress::paced(node, pace + 1)
        } by {}
        r
    } else {
        let id = order[0];
        let rest = order.drop_first();
        let noted = HarnessState { net: h.net.ticked(id)->0, ..h };
        let event = EventView::Tick { next_timeout: h.net.timeout() };
        lemma_nothing_moved(h, noted, r, cap, pace, ahead);
        let moved = lemma_event(noted, r, cap, id, event, pace, ahead, pace + 1);
        let next = noted.transition(id, event)->0;
        assert(ids::ascending(rest)) by {
            assert forall|i: int, j: int| 0 <= i < j < rest.len() implies (#[trigger] rest[i]).0 < (
            #[trigger] rest[j]).0 by {
                assert(rest[i] == order[i + 1] && rest[j] == order[j + 1]);
            }
        }
        assert forall|i: int| 0 <= i < rest.len() implies next.replicas.contains_key(
            #[trigger] rest[i],
        ) && !ahead.insert(id).contains(rest[i]) by {
            assert(rest[i] == order[i + 1]);
            assert(order[0].0 < order[i + 1].0);
            assert(h.replicas.dom().contains(order[i + 1]));
            assert(next.replicas.dom().contains(order[i + 1]));
        }
        lemma_tick_all(next, moved, cap, rest, pace, ahead.insert(id))
    }
}

/// A tick is possible as long as time and counters last.
proof fn lemma_step(h: HarnessState, r: Record, cap: int) -> (r2: Record)
    requires
        steady(h, r, cap),
        0 <= cap < u64::MAX,
        h.net.clock + 1 + h.net.max_delay <= u64::MAX,
        h.net.clock + h.heartbeat_interval < u64::MAX,
    ensures
        h.step() is Some,
        steady(h.step()->0, r2, cap),
        (h.step()->0).net.clock == h.net.clock + 1,
        (h.step()->0).net.max_delay == h.net.max_delay,
        (h.step()->0).heartbeat_interval == h.heartbeat_interval,
        (h.step()->0).apply_timeout_ticks == h.apply_timeout_ticks,
        (h.step()->0).peers == h.peers,
{
    let net = h.net.advance()->0;
    let taken = HarnessState { net: net.without_due(), ..h };
    let due = net.due();
    let pace = h.net.clock as int;
    lemma_nothing_moved(h, taken, r, cap, pace, Set::empty());
    assert(deliverable(h.peers, r, due, pace)) by {
        if h.net.inbox.contains_key(net.clock) {
            assert(accord::envelopes_match(h.peers, r, h.net.inbox[net.clock]));
            assert forall|i: int| 0 <= i < due.len() implies progress::term_of(
                (#[trigger] due[i]).message,
            ) <= pace by {
                assert(terms_up_to(pace).contains(h.net.inbox[net.clock][i]));
            }
        }
    }
    assert(network::carries(taken.net.inbox, terms_up_to(pace))) by {
        assert forall|at: u64, i: int|
            taken.net.inbox.contains_key(at) && 0 <= i
                < taken.net.inbox[at].len() implies terms_up_to(pace).contains(
            #[trigger] taken.net.inbox[at][i],
        ) by {
            assert(terms_up_to(pace).contains(h.net.inbox[at][i]));
        }
    }
    let r1 = lemma_deliver_all(taken, r, cap, due, pace);
    let delivered = taken.deliver_all(due)->0;
    let up = delivered.replicas.dom();
    ids::lemma_ascending_len(h.peers);
    vstd::set_lib::lemma_len_subset(up, h.peers.to_set());
    ids::lemma_sorted_exists(up);
    let order = ids::sorted_ids(up);
    assert forall|i: int| 0 <= i < order.len() implies delivered.replicas.contains_key(
        #[trigger] order[i],
    ) by {
        assert(order.to_set().contains(order[i]));
    }
    assert(network::carries(delivered.net.inbox, terms_up_to(pace + 1))) by {
        assert forall|at: u64, i: int|
            delivered.net.inbox.contains_key(at) && 0 <= i
                < delivered.net.inbox[at].len() implies terms_up_to(pace + 1).contains(
            #[trigger] delivered.net.inbox[at][i],
        ) by {
            assert(terms_up_to(pace).contains(delivered.net.inbox[at][i]));
        }
    }
    let r2 = lemma_tick_all(delivered, r1, cap, order, pace, Set::empty());
    let ticked = delivered.tick_all(order)->0;
    let emptied = HarnessState { pending: Seq::empty(), ..ticked };
    harness::resolving_leaves_the_rest(emptied, ticked.pending);
    lemma_nothing_moved(ticked, ticked.resolve_pending(), r2, cap, pace + 1, Set::empty());
    r2
}

/// A command can be submitted as long as there is time to apply it and room
/// for its entry.
proof fn lemma_submit(
    h: HarnessState,
    r: Record,
    cap: int,
    client: ClientId,
    target: NodeId,
    command: CommandView,
) -> (r2: Record)
    requires
        steady(h, r, cap),
        0 <= cap < u64::MAX,
        h.net.has_time(),
        h.net.clock + h.apply_timeout_ticks <= u64::MAX,
    ensures
        h.submit(client, target, command) is Some,
        steady(h.submit(client, target, command)->0, r2, cap + 1),
        (h.submit(client, target, command)->0).net.clock == h.net.clock,
        (h.submit(client, target, command)->0).net.max_delay == h.net.max_delay,
        (h.submit(client, target, command)->0).heartbeat_interval == h.heartbeat_interval,
        (h.submit(client, target, command)->0).apply_timeout_ticks == h.apply_timeout_ticks,
        (h.submit(client, target, command)->0).peers == h.peers,
{
    let pace = h.net.clock as int;
    if !h.accepts(target) {
        lemma_nothing_moved(h, h.reject(client, command), r, cap, pace, Set::empty());
        lemma_more_room(h.reject(client, command), r, cap);
        r
    } else {
        let s = h.replicas[target].node;
        let payload = LogPayloadView::Command(command.encoded());
        assert(h.tracks(target, s));
        assert(h.peers.to_set().contains(target));
        assert(accord::node_of(h, target) == s);
        assert(accord::node_matches(h.peers, r, s));
        plain::lemma_config(h.peers, s);
        bounds::lemma_rooted(h.peers, r, r.full(s), cap, Set::full());
        assert(s.can_propose());
        let (after, effects) = s.append_and_advance(payload);
        assert(h.replicas[target].propose(command).1 == effects);
        network::routing_is_possible(h.net, target, effects, h.isolated);
        network::routing_only_adds_to_the_trace(h.net, target, effects, h.isolated);
        let next = h.submit(client, target, command)->0;
        let r2 = accord::lemma_accept(h, r, client, target, command);
        bounds::lemma_appended(h.peers, r, r2, s, payload, cap, Set::full());
        let grown = s.append(payload);
        model::lemma_latest_push(s.log, grown.log.last());
        assert(grown.config() == s.config());
        assert(grown.replication_targets() =~= s.replication_targets());
        progress::lemma_advance_tracks(grown);
        assert forall|other: NodeId| #[trigger] next.replicas.contains_key(
            other,
        ) implies progress::tracks_targets(next.replicas[other].node) by {
            assert(h.replicas.contains_key(other));
        }
        lemma_no_messages(grown, payload, effects, s);
        assert(network::sends_within(target, effects, terms_up_to(pace)));
        network::routing_adds_what_is_sent(h.net, target, effects, h.isolated, terms_up_to(pace));
        assert forall|other: NodeId| next.peers.contains(other) implies {
            let node = #[trigger] accord::node_of(next, other);
            &&& node.heartbeat_interval == next.heartbeat_interval
            &&& progress::paced(node, pace)
        } by {
            if other != target {
                assert(accord::node_of(next, other) == accord::node_of(h, other));
            } else {
                assert(accord::node_of(next, other) == after);
            }
        }
        r2
    }
}

/// A proposal sends nothing by itself.
proof fn lemma_no_messages(
    grown: NodeState,
    payload: LogPayloadView,
    effects: Seq<EffectView>,
    s: NodeState,
)
    requires
        grown == s.append(payload),
        effects == s.append_and_advance(payload).1,
    ensures
        forall|i: int| 0 <= i < effects.len() ==> !((#[trigger] effects[i]) is Send),
{
    let more = grown.advance_commit().1;
    assert forall|i: int| 0 <= i < effects.len() implies !((#[trigger] effects[i]) is Send) by {
        if i > 0 {
            assert(effects[i] == more[i - 1]);
        }
    }
}

/// Room for more entries does no harm.
proof fn lemma_more_room(h: HarnessState, r: Record, cap: int)
    requires
        steady(h, r, cap),
    ensures
        steady(h, r, cap + 1),
{
}

/// Partitions, crashes and restarts leave a harness on course.
proof fn lemma_fault(h: HarnessState, r: Record, cap: int, node: NodeId)
    requires
        steady(h, r, cap),
    ensures
        steady(h.isolate(node), r, cap),
        steady(h.heal(node), r, cap),
        steady(h.crash(node), r, cap),
        steady(h.restart(node), r, cap),
{
    let pace = h.net.clock as int;
    lemma_nothing_moved(h, h.isolate(node), r, cap, pace, Set::empty());
    lemma_nothing_moved(h, h.heal(node), r, cap, pace, Set::empty());
    lemma_crash(h, r, cap, node);
    lemma_restart(h, r, cap, node);
}

proof fn lemma_crash(h: HarnessState, r: Record, cap: int, node: NodeId)
    requires
        steady(h, r, cap),
    ensures
        steady(h.crash(node), r, cap),
{
    let next = h.crash(node);
    accord::lemma_crash(h, r, node);
    if h.replicas.contains_key(node) {
        assert(h.tracks(node, h.replicas[node].node));
        assert(h.peers.to_set().contains(node));
    }
    assert forall|id: NodeId| next.peers.contains(id) implies {
        let s = #[trigger] accord::node_of(next, id);
        &&& s.heartbeat_interval == next.heartbeat_interval
        &&& progress::paced(s, h.net.clock as int)
    } by {
        let before = accord::node_of(h, id);
        assert(progress::paced(before, h.net.clock as int));
    }
    assert forall|id: NodeId| #[trigger] next.replicas.contains_key(
        id,
    ) implies progress::tracks_targets(next.replicas[id].node) by {
        assert(h.replicas.contains_key(id));
    }
}

proof fn lemma_restart(h: HarnessState, r: Record, cap: int, node: NodeId)
    requires
        steady(h, r, cap),
    ensures
        steady(h.restart(node), r, cap),
{
    let next = h.restart(node);
    accord::lemma_restart(h, r, node);
    if !h.replicas.contains_key(node) && h.peers.contains(node) {
        let back = accord::comes_back(h, node);
        replica::catching_up_keeps_the_node(ReplicaState::fresh(back));
        assert forall|id: NodeId| next.peers.contains(id) implies {
            let s = #[trigger] accord::node_of(next, id);
            &&& s.heartbeat_interval == next.heartbeat_interval
            &&& progress::paced(s, h.net.clock as int)
        } by {
            assert(accord::node_of(next, id) == accord::node_of(h, id));
        }
        assert forall|id: NodeId| #[trigger] next.replicas.contains_key(
            id,
        ) implies progress::tracks_targets(next.replicas[id].node) by {
            if id != node {
                assert(h.replicas.contains_key(id));
            }
        }
    }
}

/// A new harness is on course.
proof fn lemma_new(h: HarnessState)
    requires
        laws::is_new(h),
        h.net.can_draw(),
    ensures
        steady(h, Record::blank(), 0),
{
    harness::initial_is_wf(
        h.peers,
        h.election_timeout,
        h.heartbeat_interval,
        h.net,
        h.apply_timeout_ticks,
    );
    assert(ids::ascending(h.peers));
    assert forall|id: NodeId| h.peers.contains(id) implies h.replicas.contains_key(id) && (
    #[trigger] h.replicas[id]).node == durable::recovered(
        DurableView::blank(),
        id,
        h.peers,
        h.election_timeout,
        h.heartbeat_interval,
    ) by {
        replica::catching_up_keeps_the_node(
            ReplicaState::fresh(
                durable::recovered(
                    DurableView::blank(),
                    id,
                    h.peers,
                    h.election_timeout,
                    h.heartbeat_interval,
                ),
            ),
        );
    }
    accord::lemma_initial(h);
    assert forall|id: NodeId| h.peers.contains(id) implies {
        let s = #[trigger] accord::node_of(h, id);
        &&& s.heartbeat_interval == h.heartbeat_interval
        &&& progress::paced(s, 0)
    } by {
        assert(h.replicas[id].node == accord::node_of(h, id));
    }
    assert forall|id: NodeId| #[trigger] h.replicas.contains_key(
        id,
    ) implies progress::tracks_targets(h.replicas[id].node) by {
        assert(h.peers.contains(id));
        assert(h.replicas[id].node.role == Role::Follower);
    }
}

/// How many of the actions are ticks.
pub open spec fn ticks_in(actions: Seq<Action>) -> int
    decreases actions.len(),
{
    if actions.len() == 0 {
        0
    } else {
        ticks_in(actions.drop_last()) + if actions.last() is Step {
            1int
        } else {
            0int
        }
    }
}

/// How many of the actions are submissions.
pub open spec fn submissions_in(actions: Seq<Action>) -> int
    decreases actions.len(),
{
    if actions.len() == 0 {
        0
    } else {
        submissions_in(actions.drop_last()) + if actions.last() is Submit {
            1int
        } else {
            0int
        }
    }
}

proof fn lemma_counts(actions: Seq<Action>)
    ensures
        0 <= ticks_in(actions) <= actions.len(),
        0 <= submissions_in(actions) <= actions.len(),
    decreases actions.len(),
{
    if actions.len() > 0 {
        lemma_counts(actions.drop_last());
    }
}

/// Whether a new harness has time for so many ticks, delays and waits
/// included, and room for so many entries.
pub open spec fn allows(h: HarnessState, ticks: int, submissions: int) -> bool {
    &&& h.net.can_draw()
    &&& ticks + h.net.max_delay <= u64::MAX
    &&& ticks + h.apply_timeout_ticks <= u64::MAX
    &&& ticks + h.heartbeat_interval <= u64::MAX
    &&& submissions < u64::MAX
}

proof fn lemma_all_done(h: HarnessState, actions: Seq<Action>) -> (r: Record)
    requires
        laws::is_new(h),
        allows(h, ticks_in(actions), submissions_in(actions)),
    ensures
        laws::all_done(h, actions) is Some,
        ({
            let later = laws::all_done(h, actions)->0;
            &&& steady(later, r, submissions_in(actions))
            &&& later.net.clock == ticks_in(actions)
            &&& later.net.max_delay == h.net.max_delay
            &&& later.heartbeat_interval == h.heartbeat_interval
            &&& later.apply_timeout_ticks == h.apply_timeout_ticks
        }),
    decreases actions.len(),
{
    if actions.len() == 0 {
        lemma_new(h);
        Record::blank()
    } else {
        let earlier = actions.drop_last();
        lemma_counts(earlier);
        let r = lemma_all_done(h, earlier);
        let before = laws::all_done(h, earlier)->0;
        let cap = submissions_in(earlier);
        match actions.last() {
            Action::Step => lemma_step(before, r, cap),
            Action::Submit { client, target, command } => lemma_submit(
                before,
                r,
                cap,
                client,
                target,
                command,
            ),
            Action::Isolate { node } => {
                lemma_fault(before, r, cap, node);
                r
            },
            Action::Heal { node } => {
                lemma_fault(before, r, cap, node);
                r
            },
            Action::Crash { node } => {
                lemma_fault(before, r, cap, node);
                r
            },
            Action::Restart { node } => {
                lemma_fault(before, r, cap, node);
                r
            },
        }
    }
}

/// Whatever is done to a new harness is possible, as long as there is time for
/// its ticks, with the delays drawn and the waits for operations, and room in
/// the log for its submissions. Every message goes to a node that can take
/// it, and every leader tracks whoever answers it.
pub proof fn actions_are_possible(h: HarnessState, actions: Seq<Action>)
    requires
        laws::is_new(h),
        allows(h, ticks_in(actions), submissions_in(actions)),
    ensures
        laws::all_done(h, actions) is Some,
        (laws::all_done(h, actions)->0).net.clock == ticks_in(actions),
{
    let _ = lemma_all_done(h, actions);
}

/// So a tick is possible whenever there is time for one more.
pub proof fn ticks_are_possible(h: HarnessState, actions: Seq<Action>)
    requires
        laws::is_new(h),
        allows(h, ticks_in(actions) + 1, submissions_in(actions)),
    ensures
        laws::all_done(h, actions) matches Some(later) && later.step() is Some,
{
    let r = lemma_all_done(h, actions);
    lemma_counts(actions);
    let _ = lemma_step(laws::all_done(h, actions)->0, r, submissions_in(actions));
}

/// Whether a run is on course after `done` ticks, with no more submitted than
/// `cap`.
pub open spec fn run_steady(
    s: RunState,
    r: Record,
    config: RunConfigView,
    done: int,
    cap: int,
) -> bool {
    &&& steady(s.harness, r, cap)
    &&& s.counter <= cap
    &&& s.harness.net.clock == done
    &&& s.harness.net.max_delay == config.max_delay
    &&& s.harness.heartbeat_interval == config.heartbeat_interval
    &&& s.harness.apply_timeout_ticks == config.apply_timeout_ticks
}

/// The clients from `client` on can take their turns.
proof fn lemma_client_turns(
    s: RunState,
    r: Record,
    config: RunConfigView,
    client: u64,
    done: int,
    cap: int,
) -> (r2: Record)
    requires
        config.is_valid(),
        client <= config.client_count,
        0 <= done <= config.total_ticks,
        run_steady(s, r, config, done, cap),
        0 <= cap,
        cap + config.client_count - client < u64::MAX,
    ensures
        s.client_turns(config, client) is Some,
        run_steady(
            s.client_turns(config, client)->0,
            r2,
            config,
            done,
            cap + config.client_count - client,
        ),
    decreases config.client_count - client,
{
    if client >= config.client_count {
        r
    } else {
        let drawn = RunState { rng: rng::next_state(s.rng), ..s };
        let idle = s.busy.contains(client) || rng::drawn(s.rng, 0, 99)
            >= config.submit_chance_percent;
        lemma_more_room(s.harness, r, cap);
        let moved = if idle {
            r
        } else {
            let (target, state) = drawn.target(config.peers)->0;
            let command = run::drawn_command(state, (s.counter + 1) as u64);
            lemma_submit(s.harness, r, cap, ClientId(client), target, command)
        };
        lemma_client_turns(
            s.client_turn(config, client)->0,
            moved,
            config,
            (client + 1) as u64,
            done,
            cap + 1,
        )
    }
}

/// The ticks left of a run are possible.
proof fn lemma_ticks(s: RunState, r: Record, config: RunConfigView, n: nat) -> (r2: Record)
    requires
        config.is_valid(),
        n <= config.total_ticks,
        run_steady(
            s,
            r,
            config,
            config.total_ticks - n,
            (config.total_ticks - n) * config.client_count,
        ),
    ensures
        s.ticks(config, n) is Some,
        run_steady(
            s.ticks(config, n)->0,
            r2,
            config,
            config.total_ticks as int,
            config.total_ticks * config.client_count,
        ),
    decreases n,
{
    if n == 0 {
        r
    } else {
        let total = config.total_ticks as int;
        let clients = config.client_count as int;
        let cap = (total - n) * clients;
        assert(0 <= cap && cap + clients == (total - n + 1) * clients && cap + clients <= total
            * clients) by (nonlinear_arith)
            requires
                cap == (total - n) * clients,
                1 <= n <= total,
                0 <= clients,
        ;
        let stepped = lemma_step(s.harness, r, cap);
        let resumed = (RunState { harness: s.harness.step()->0, ..s }).freed();
        let drawn = rng::next_state(resumed.rng);
        if rng::drawn(resumed.rng, 0, 99) < config.fault_chance_percent {
            let target = config.peers[rng::drawn(
                drawn,
                0,
                (config.peers.len() - 1) as u64,
            ) as int];
            lemma_fault(resumed.harness, stepped, cap, target);
        }
        let faulted = resumed.maybe_fault(config)->0;
        let served = lemma_client_turns(faulted, stepped, config, 0, total - n + 1, cap);
        lemma_ticks(s.tick(config)->0, served, config, (n - 1) as nat)
    }
}

/// Every run with a valid configuration goes all its way, whatever its seed.
pub proof fn runs_are_possible(seed: u64, config: RunConfigView)
    requires
        config.is_valid(),
    ensures
        run::whole_run(seed, config) matches Some(end) && end.harness.net.clock
            == config.total_ticks,
{
    let start = RunState::start(seed, config)->0;
    lemma_new(start.harness);
    assert(0 * config.client_count == 0) by (nonlinear_arith);
    let _ = lemma_ticks(start, Record::blank(), config, config.total_ticks as nat);
}

} // verus!
