//! What the simulated world promises: messages arrive, each once, when their
//! delay is over; time passes tick by tick; storage keeps what it is given.

use vstd::prelude::*;

use crate::raft::ids;
use crate::raft::model::NodeState;
use crate::raft::node::Node;
use crate::raft::types::{
    ClusterConfigView, EffectView, EventView, HardState, LogEntryView, MessageView, NodeId, Role,
    SnapshotMetadata,
};
use crate::sim::cluster;
use crate::sim::durable::DurableView;
use crate::sim::network::NetworkState;
use crate::sim::rng;
use crate::sim::simulation::SimState;
use crate::sim::trace::{EnvelopeView, TraceEventView};

verus! {

/// Numbers are drawn from the whole of their range and nowhere else: the
/// distance from the lower end is the next number of the stream, counted
/// around the range. Drawing moves the stream on, the same way whatever the
/// range is.
pub proof fn numbers_are_drawn_from_their_range(state: u64, low: u64, high: u64, by: u64)
    ensures
        rng::range_ok(low, high) == (low <= high && high - low < u64::MAX),
        rng::range_ok(low, high) ==> {
            let drawn = rng::drawn(state, low, high);
            &&& low <= drawn <= high
            &&& (drawn - low) as int == rng::mixed(rng::next_state(state)) as int % (high - low + 1)
            &&& high + by <= u64::MAX ==> rng::drawn(
                state,
                (low + by) as u64,
                (high + by) as u64,
            ) == drawn + by
        },
        rng::next_state(state) as int == (state + 0x9E37_79B9_7F4A_7C15) % 0x1_0000_0000_0000_0000,
{
    if rng::range_ok(low, high) {
        rng::drawn_in_range(state, low, high);
        if high + by <= u64::MAX {
            rng::drawn_in_range(state, (low + by) as u64, (high + by) as u64);
        }
    }
}

/// The state that a number of the stream was drawn in.
pub open spec fn state_behind(number: u64) -> u64 {
    let b = number ^ (number >> 31) ^ (number >> 62);
    let y = b.wrapping_mul(0x3196_42B2_D24D_8EC3);
    let a = y ^ (y >> 27) ^ (y >> 54);
    let x = a.wrapping_mul(0x96DE_1B17_3F11_9089);
    x ^ (x >> 30) ^ (x >> 60)
}

/// Multiplying by two numbers whose product is one, counted around, changes
/// nothing.
proof fn lemma_undone(x: u64, c: u64, d: u64)
    requires
        (c as int * d as int) % 0x1_0000_0000_0000_0000 == 1,
    ensures
        x.wrapping_mul(c).wrapping_mul(d) == x,
{
    let m = 0x1_0000_0000_0000_0000int;
    let p = x as int * c as int;
    vstd::arithmetic::div_mod::lemma_mul_mod_noop_left(p, d as int, m);
    vstd::arithmetic::mul::lemma_mul_is_associative(x as int, c as int, d as int);
    vstd::arithmetic::div_mod::lemma_mul_mod_noop_right(x as int, c as int * d as int, m);
}

/// Nothing of a state is lost in the number drawn from it, so no two states
/// draw the same number: over the whole stream every number comes up once.
pub proof fn every_number_comes_up_once(a: u64, b: u64)
    ensures
        state_behind(rng::mixed(a)) == a,
        rng::mixed(a) == rng::mixed(b) ==> a == b,
        rng::next_state(a) == rng::next_state(b) ==> a == b,
{
    lemma_state_behind(a);
    lemma_state_behind(b);
}

proof fn lemma_state_behind(state: u64)
    ensures
        state_behind(rng::mixed(state)) == state,
{
    let x = state ^ (state >> 30);
    let a = x.wrapping_mul(0xBF58_476D_1CE4_E5B9);
    let y = a ^ (a >> 27);
    let b = y.wrapping_mul(0x94D0_49BB_1331_11EB);
    let n = b ^ (b >> 31);
    assert(n ^ (n >> 31) ^ (n >> 62) == b) by (bit_vector)
        requires
            n == b ^ (b >> 31),
    ;
    assert(y ^ (y >> 27) ^ (y >> 54) == a) by (bit_vector)
        requires
            y == a ^ (a >> 27),
    ;
    assert(x ^ (x >> 30) ^ (x >> 60) == state) by (bit_vector)
        requires
            x == state ^ (state >> 30),
    ;
    lemma_undone(x, 0xBF58_476D_1CE4_E5B9, 0x96DE_1B17_3F11_9089);
    lemma_undone(y, 0x94D0_49BB_1331_11EB, 0x3196_42B2_D24D_8EC3);
}

/// The messages that wait for a tick.
pub open spec fn waiting(net: NetworkState, at: u64) -> Seq<EnvelopeView> {
    if net.inbox.dom().contains(at) {
        net.inbox[at]
    } else {
        Seq::empty()
    }
}

/// Whether two networks have the same ranges to draw from.
pub open spec fn same_ranges(a: NetworkState, b: NetworkState) -> bool {
    &&& a.min_timeout == b.min_timeout
    &&& a.max_timeout == b.max_timeout
    &&& a.min_delay == b.min_delay
    &&& a.max_delay == b.max_delay
}

/// A message that is sent waits, last of all, for a tick no sooner than the
/// least delay from now and no later than the greatest; whatever waits for
/// another tick is as it was, and that it was sent is on record.
pub proof fn messages_wait_for_their_delay(
    net: NetworkState,
    from: NodeId,
    to: NodeId,
    message: MessageView,
)
    requires
        net.min_delay <= net.max_delay,
        net.max_delay - net.min_delay < u64::MAX,
        net.clock + net.max_delay <= u64::MAX,
    ensures
        net.send(from, to, message) matches Some(next) && {
            &&& exists|at: u64| #[trigger] arrives(net, next, EnvelopeView { from, to, message }, at)
            &&& next.trace == net.trace.push(
                TraceEventView::Sent { at: net.clock, from, to, message },
            )
            &&& next.clock == net.clock
            &&& next.rng == rng::next_state(net.rng)
            &&& same_ranges(net, next)
        },
{
    rng::drawn_in_range(net.rng, net.min_delay, net.max_delay);
    let delay = rng::drawn(net.rng, net.min_delay, net.max_delay);
    let at = (net.clock + delay) as u64;
    let next = net.send(from, to, message)->0;
    assert(waiting(next, at) =~= waiting(net, at).push(EnvelopeView { from, to, message }));
    assert(arrives(net, next, EnvelopeView { from, to, message }, at));
}

/// Whether all that waits besides in `next` is one more message, for `at`.
pub open spec fn arrives(net: NetworkState, next: NetworkState, envelope: EnvelopeView, at: u64) -> bool {
    &&& net.clock + net.min_delay <= at <= net.clock + net.max_delay
    &&& at - net.clock == rng::drawn(net.rng, net.min_delay, net.max_delay)
    &&& waiting(next, at) == waiting(net, at).push(envelope)
    &&& forall|other: u64| other != at ==> #[trigger] waiting(next, other) == waiting(net, other)
}

/// A message is refused only where there is no delay to draw or no tick left
/// for it to arrive at.
pub proof fn only_the_end_of_time_stops_a_message(
    net: NetworkState,
    from: NodeId,
    to: NodeId,
    message: MessageView,
)
    ensures
        net.send(from, to, message) is None <==> net.min_delay > net.max_delay || net.max_delay
            - net.min_delay == u64::MAX || net.clock + rng::drawn(
            net.rng,
            net.min_delay,
            net.max_delay,
        ) > u64::MAX,
{
}

/// Of what a node brings about, the messages are sent, one after the other,
/// but those to or from a node that is cut off.
pub proof fn all_but_the_cut_off_is_sent(
    net: NetworkState,
    from: NodeId,
    effects: Seq<EffectView>,
    cut_off: Set<NodeId>,
    effect: EffectView,
)
    ensures
        net.route(from, Seq::empty(), cut_off) == Some(net),
        ({
            let rest = net.route(from, seq![effect] + effects, cut_off);
            match effect {
                EffectView::Send { to, message } => if cut_off.contains(from) || cut_off.contains(
                    to,
                ) {
                    rest == net.route(from, effects, cut_off)
                } else {
                    match net.send(from, to, message) {
                        Some(sent) => rest == sent.route(from, effects, cut_off),
                        None => rest is None,
                    }
                },
                _ => rest == net.route(from, effects, cut_off),
            }
        }),
{
    assert((seq![effect] + effects).drop_first() =~= effects);
}

/// A tick later it is one tick later, and nothing else has happened; time ends
/// at the last number there is.
pub proof fn time_passes_by_ones(net: NetworkState)
    ensures
        net.advance() is None <==> net.clock == u64::MAX,
        net.advance() matches Some(next) ==> {
            &&& next.clock == net.clock + 1
            &&& next.inbox == net.inbox
            &&& next.trace == net.trace
            &&& next.rng == net.rng
            &&& same_ranges(net, next)
        },
{
}

/// What waits for a tick is delivered at that tick, all of it, in the order it
/// was sent, and is gone after it; what waits for another goes on waiting.
pub proof fn waiting_ends_at_its_tick(net: NetworkState, envelope: EnvelopeView)
    ensures
        net.due() == waiting(net, net.clock),
        waiting(net.without_due(), net.clock) == Seq::<EnvelopeView>::empty(),
        forall|other: u64|
            other != net.clock ==> #[trigger] waiting(net.without_due(), other) == waiting(
                net,
                other,
            ),
        net.without_due().clock == net.clock,
        net.without_due().rng == net.rng,
        net.without_due().trace == net.trace,
        same_ranges(net, net.without_due()),
        net.delivered(envelope).trace == net.trace.push(
            TraceEventView::Delivered {
                at: net.clock,
                from: envelope.from,
                to: envelope.to,
                message: envelope.message,
            },
        ),
        net.delivered(envelope).inbox == net.inbox,
        net.delivered(envelope).clock == net.clock,
        net.delivered(envelope).rng == net.rng,
        same_ranges(net, net.delivered(envelope)),
{
}

/// A node that ticks is given a timeout from the range of timeouts, and that is
/// on record; a network starts at tick zero with nothing waiting.
pub proof fn ticks_draw_a_timeout(net: NetworkState, node: NodeId)
    ensures
        net.ticked(node) is None <==> net.min_timeout > net.max_timeout || net.max_timeout
            - net.min_timeout == u64::MAX,
        net.ticked(node) matches Some(next) ==> {
            &&& net.min_timeout <= net.timeout() <= net.max_timeout
            &&& net.timeout() == rng::drawn(net.rng, net.min_timeout, net.max_timeout)
            &&& next.trace == net.trace.push(
                TraceEventView::Tick { at: net.clock, node, next_timeout: net.timeout() },
            )
            &&& next.rng == rng::next_state(net.rng)
            &&& next.clock == net.clock
            &&& next.inbox == net.inbox
            &&& same_ranges(net, next)
        },
        ({
            let first = NetworkState::initial(
                net.rng,
                net.min_timeout,
                net.max_timeout,
                net.min_delay,
                net.max_delay,
            );
            &&& first.rng == net.rng
            &&& same_ranges(net, first)
            &&& first.clock == 0
            &&& first.trace.len() == 0
            &&& forall|at: u64| #[trigger] waiting(first, at).len() == 0
        }),
{
    if net.ticked(node) is Some {
        rng::drawn_in_range(net.rng, net.min_timeout, net.max_timeout);
    }
}

/// An event changes the node it happens to and no other, and what comes of it
/// is sent in that node's name.
pub proof fn events_happen_to_one_node(s: SimState, id: NodeId, event: EventView, other: NodeId)
    ensures
        s.transition(id, event) matches Some(next) ==> {
            &&& s.nodes.dom().contains(id)
            &&& next.nodes.dom() == s.nodes.dom()
            &&& next.nodes[id] == s.nodes[id].step(event).0
            &&& other != id ==> next.nodes[other] == s.nodes[other]
            &&& s.net.route(id, s.nodes[id].step(event).1, Set::empty()) == Some(next.net)
        },
        s.transition(id, event) is None ==> !s.nodes.dom().contains(id) || !s.nodes[id].can_step(
            event,
        ) || s.net.route(id, s.nodes[id].step(event).1, Set::empty()) is None,
{
    if let Some(next) = s.transition(id, event) {
        assert(next.nodes.dom() =~= s.nodes.dom());
    }
}

/// Messages due are delivered to whom they are for, one after the other, each
/// on record before it is acted on.
pub proof fn deliveries_come_one_by_one(s: SimState, first: EnvelopeView, rest: Seq<EnvelopeView>)
    ensures
        s.deliver_all(Seq::empty()) == Some(s),
        ({
            let noted = SimState { nodes: s.nodes, net: s.net.delivered(first) };
            s.deliver_all(seq![first] + rest) == match noted.transition(
                first.to,
                EventView::Step { from: first.from, message: first.message },
            ) {
                Some(next) => next.deliver_all(rest),
                None => None,
            }
        }),
{
    assert((seq![first] + rest).drop_first() =~= rest);
}

/// Nodes tick one after the other, each with a timeout of its own.
pub proof fn nodes_tick_one_by_one(s: SimState, first: NodeId, rest: Seq<NodeId>)
    ensures
        s.tick_all(Seq::empty()) == Some(s),
        ({
            let ticked = s.tick_all(seq![first] + rest);
            match s.net.ticked(first) {
                None => ticked is None,
                Some(net) => match (SimState { nodes: s.nodes, net }).transition(
                    first,
                    EventView::Tick { next_timeout: s.net.timeout() },
                ) {
                    Some(next) => ticked == next.tick_all(rest),
                    None => ticked is None,
                },
            }
        }),
{
    assert((seq![first] + rest).drop_first() =~= rest);
}

/// Ids are listed from the least to the greatest, each once.
pub proof fn ids_are_listed_in_order(set: Set<NodeId>)
    requires
        set.finite(),
    ensures
        forall|i: int, j: int|
            0 <= i < j < ids::sorted_ids(set).len() ==> (#[trigger] ids::sorted_ids(set)[i]).0 < (
            #[trigger] ids::sorted_ids(set)[j]).0,
        forall|id: NodeId|
            #![trigger set.contains(id)]
            #![trigger ids::sorted_ids(set).contains(id)]
            set.contains(id) == ids::sorted_ids(set).contains(id),
{
    ids::lemma_sorted_exists(set);
    assert forall|id: NodeId| set.contains(id) == ids::sorted_ids(set).contains(id) by {
        assert(ids::sorted_ids(set).to_set().contains(id) == set.contains(id));
    }
}

/// A tick of the cluster: what waits for the new tick is delivered, in order,
/// and then every node ticks, once, in the order of their ids. A run is one
/// tick after the other.
pub proof fn a_tick_delivers_and_then_ticks(s: SimState, net: NetworkState, n: nat)
    requires
        s.net.advance() == Some(net),
    ensures
        ({
            let open = SimState { nodes: s.nodes, net: net.without_due() };
            s.step() == match open.deliver_all(waiting(net, net.clock)) {
                Some(delivered) => delivered.tick_all(ids::sorted_ids(delivered.nodes.dom())),
                None => None,
            }
        }),
        s.run(0) == Some(s),
        s.run(n + 1) == match s.step() {
            Some(next) => next.run(n),
            None => None,
        },
{
}

/// Whoever leads, and nobody else, is listed as a leader, under their term.
pub proof fn leaders_are_listed(s: SimState, id: NodeId, term: u64)
    requires
        s.nodes.dom().finite(),
    ensures
        s.leaders().contains((id, term)) <==> s.nodes.dom().contains(id) && s.nodes[id].role
            == Role::Leader && s.nodes[id].current_term == term,
        forall|i: int, j: int|
            0 <= i < j < s.leaders().len() ==> (#[trigger] s.leaders()[i]).0.0 < (
            #[trigger] s.leaders()[j]).0.0,
{
    let all = ids::sorted_ids(s.nodes.dom());
    let leads = |x: NodeId| s.nodes[x].role == Role::Leader;
    let entry = |x: NodeId| (x, s.nodes[x].current_term);
    ids_are_listed_in_order(s.nodes.dom());
    lemma_filtered(all, leads);
    let leading = all.filter(leads);
    assert(s.leaders() =~= leading.map_values(entry));
    if s.leaders().contains((id, term)) {
        let i = choose|i: int| 0 <= i < s.leaders().len() && s.leaders()[i] == (id, term);
        assert(entry(leading[i]) == (id, term));
        assert(leading.contains(leading[i]));
    }
    if s.nodes.dom().contains(id) && s.nodes[id].role == Role::Leader && s.nodes[id].current_term
        == term {
        assert(leading.contains(id));
        let i = choose|i: int| 0 <= i < leading.len() && leading[i] == id;
        assert(s.leaders()[i] == (id, term));
    }
    assert forall|i: int, j: int| 0 <= i < j < s.leaders().len() implies (
    #[trigger] s.leaders()[i]).0.0 < (#[trigger] s.leaders()[j]).0.0 by {
        assert(s.leaders()[i] == entry(leading[i]));
        assert(s.leaders()[j] == entry(leading[j]));
    }
}

/// Picking from a list in ascending order leaves what was picked, in order.
proof fn lemma_filtered(all: Seq<NodeId>, keep: spec_fn(NodeId) -> bool)
    requires
        forall|i: int, j: int| 0 <= i < j < all.len() ==> (#[trigger] all[i]).0 < (#[trigger] all[j]).0,
    ensures
        forall|i: int, j: int|
            0 <= i < j < all.filter(keep).len() ==> (#[trigger] all.filter(keep)[i]).0 < (
            #[trigger] all.filter(keep)[j]).0,
        forall|x: NodeId| #[trigger]
            all.filter(keep).contains(x) == (all.contains(x) && keep(x)),
    decreases all.len(),
{
    reveal(Seq::filter);
    if all.len() > 0 {
        let rest = all.drop_last();
        lemma_filtered(rest, keep);
        let kept = rest.filter(keep);
        let whole = all.filter(keep);
        assert forall|x: NodeId| #[trigger] whole.contains(x) == (all.contains(x) && keep(x)) by {
            assert(kept.contains(x) == (rest.contains(x) && keep(x)));
            if rest.contains(x) {
                let i = choose|i: int| 0 <= i < rest.len() && rest[i] == x;
                assert(all[i] == x);
            }
            if all.contains(x) && x != all.last() {
                let i = choose|i: int| 0 <= i < all.len() && all[i] == x;
                assert(rest[i] == x);
            }
            if kept.contains(x) {
                let i = choose|i: int| 0 <= i < kept.len() && kept[i] == x;
                assert(whole[i] == x);
            }
            if keep(all.last()) {
                assert(whole[kept.len() as int] == all.last());
                if whole.contains(x) && x != all.last() {
                    let i = choose|i: int| 0 <= i < whole.len() && whole[i] == x;
                    assert(kept[i] == x);
                }
            }
        }
        if keep(all.last()) {
            assert forall|i: int, j: int| 0 <= i < j < whole.len() implies (#[trigger] whole[i]).0
                < (#[trigger] whole[j]).0 by {
                assert(whole[i] == kept[i]);
                if j < kept.len() {
                    assert(whole[j] == kept[j]);
                } else {
                    assert(kept.contains(kept[i]));
                    assert(rest.contains(kept[i]));
                    let k = choose|k: int| 0 <= k < rest.len() && rest[k] == kept[i];
                    assert(all[k] == kept[i]);
                    assert(all[all.len() - 1] == whole[j]);
                }
            }
        }
    }
}

/// A cluster holds every node it is made of, under its own id, and no other.
pub proof fn clusters_hold_their_nodes(nodes: Seq<Node>, id: NodeId)
    requires
        forall|i: int, j: int|
            0 <= i < j < nodes.len() ==> (#[trigger] nodes[i])@.id != (#[trigger] nodes[j])@.id,
    ensures
        forall|i: int|
            0 <= i < nodes.len() ==> cluster::by_id(nodes).dom().contains(
                (#[trigger] nodes[i])@.id,
            ) && cluster::by_id(nodes)[nodes[i]@.id] == nodes[i]@,
        cluster::by_id(nodes).dom().contains(id) <==> exists|i: int|
            0 <= i < nodes.len() && (#[trigger] nodes[i])@.id == id,
        cluster::distinct(nodes),
    decreases nodes.len(),
{
    if nodes.len() > 0 {
        let rest = nodes.drop_last();
        clusters_hold_their_nodes(rest, id);
        assert forall|i: int| 0 <= i < nodes.len() implies cluster::by_id(nodes).dom().contains(
            (#[trigger] nodes[i])@.id,
        ) && cluster::by_id(nodes)[nodes[i]@.id] == nodes[i]@ by {
            if i < rest.len() {
                assert(rest[i] == nodes[i]);
                assert(nodes[i]@.id != nodes[nodes.len() - 1]@.id);
            }
        }
        if cluster::by_id(nodes).dom().contains(id) {
            if id == nodes.last()@.id {
                assert(nodes[nodes.len() - 1]@.id == id);
            } else {
                let i = choose|i: int| 0 <= i < rest.len() && (#[trigger] rest[i])@.id == id;
                assert(nodes[i]@.id == id);
            }
        }
    }
}

/// Of nodes that share an id, the first whose id occurred before is the one a
/// cluster is refused for, and there is one exactly if the ids are not distinct.
pub proof fn the_first_repetition_is_named(nodes: Seq<Node>, at: int, i: int)
    requires
        0 <= i < at < nodes.len(),
        nodes[i]@.id == nodes[at]@.id,
        forall|j: int, k: int|
            0 <= j < k < at ==> (#[trigger] nodes[j])@.id != (#[trigger] nodes[k])@.id,
    ensures
        cluster::first_duplicate(nodes, at),
        forall|other: int| #[trigger] cluster::first_duplicate(nodes, other) ==> other == at,
        !cluster::distinct(nodes),
{
    assert forall|j: int, k: int| 0 <= j < k < at implies (#[trigger] nodes.take(at)[j])@.id != (
    #[trigger] nodes.take(at)[k])@.id by {
        assert(nodes[j]@.id != nodes[k]@.id);
    }
    assert forall|other: int| #[trigger] cluster::first_duplicate(nodes, other) implies other
        == at by {
        if other < at {
            let j = choose|j: int| 0 <= j < other && nodes[j]@.id == nodes[other]@.id;
            assert(nodes[j]@.id != nodes[other]@.id);
        } else if at < other {
            let before = nodes.take(other);
            assert(before[i]@.id != before[at]@.id);
        }
    }
}

/// Storage has what it was last given and keeps the rest: a term and a vote, a
/// snapshot with its configuration, learners, and log entries, which take the
/// place of those from their index on. A message leaves it as it is.
pub proof fn storage_has_what_it_was_given(
    d: DurableView,
    term: u64,
    voted_for: Option<NodeId>,
    index: u64,
    data: Seq<u8>,
    config: ClusterConfigView,
    learners: Seq<NodeId>,
    entries: Seq<LogEntryView>,
    to: NodeId,
    message: MessageView,
)
    ensures
        ({
            let next = d.apply(EffectView::PersistHardState { term, voted_for });
            &&& next.hard_state.current_term == term
            &&& next.hard_state.voted_for == voted_for
            &&& next == (DurableView { hard_state: next.hard_state, ..d })
        }),
        ({
            let next = d.apply(
                EffectView::PersistSnapshot {
                    last_included_index: index,
                    last_included_term: term,
                    data,
                    config,
                },
            );
            &&& next.snapshot.last_included_index == index
            &&& next.snapshot.last_included_term == term
            &&& next.snapshot_data == data
            &&& next.snapshot_config == config
            &&& next.hard_state == d.hard_state
            &&& next.log == d.log
            &&& next.learners == d.learners
        }),
        ({
            let next = d.apply(EffectView::PersistLearners { learners });
            &&& next.learners == learners
            &&& next == (DurableView { learners, ..d })
        }),
        d.apply(EffectView::Send { to, message }) == d,
        ({
            let next = d.apply(EffectView::PersistLog { from_index: index, entries });
            let first = d.snapshot.last_included_index + 1;
            &&& d.can_apply(EffectView::PersistLog { from_index: index, entries }) == (first
                <= index)
            &&& first <= index <= first + d.log.len() ==> {
                &&& next.log.len() == index - first + entries.len()
                &&& forall|i: int| first <= i < index ==> #[trigger] next.log[i - first] == d.log[i
                    - first]
                &&& forall|i: int| 0 <= i < entries.len() ==> next.log[index - first + i]
                    == #[trigger] entries[i]
            }
            &&& first + d.log.len() < index ==> next.log == d.log + entries
            &&& next == (DurableView { log: next.log, ..d })
        }),
{
}

/// Effects are made durable one after the other.
pub proof fn storage_takes_effects_in_order(
    d: DurableView,
    first: EffectView,
    rest: Seq<EffectView>,
)
    ensures
        d.apply_all(Seq::empty()) == d,
        d.apply_all(seq![first] + rest) == d.apply(first).apply_all(rest),
        d.can_apply_all(Seq::empty()),
        d.can_apply_all(seq![first] + rest) == (d.can_apply(first) && d.apply(first).can_apply_all(
            rest,
        )),
{
    assert((seq![first] + rest).drop_first() =~= rest);
}

/// Storage holds a node if it has the node's term, vote, log, snapshot and
/// learners; it starts with none of them.
pub proof fn storage_holds_what_must_survive(d: DurableView, s: NodeState)
    ensures
        d.holds(s) <==> {
            &&& d.hard_state == (HardState { current_term: s.current_term, voted_for: s.voted_for })
            &&& d.log == s.log
            &&& d.snapshot == s.snapshot
            &&& d.snapshot_data == s.snapshot_data
            &&& s.snapshot.last_included_index == 0 || d.snapshot_config == s.snapshot_config
            &&& d.learners.to_set() == s.learners
        },
        DurableView::blank() == (DurableView {
            hard_state: HardState { current_term: 0, voted_for: None },
            log: Seq::empty(),
            snapshot: SnapshotMetadata { last_included_index: 0, last_included_term: 0 },
            snapshot_data: Seq::empty(),
            snapshot_config: ClusterConfigView { voters: Seq::empty(), old_voters: None },
            learners: Seq::empty(),
        }),
{
}

} // verus!
