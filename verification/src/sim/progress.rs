//! A simulation never gets stuck: a tick is possible until time, a counter or
//! an index reaches its limit.

use vstd::prelude::*;

use crate::raft::ids;
use crate::raft::model::NodeState;
use crate::raft::types::{EventView, NodeId};
use crate::safety::moves;
use crate::safety::progress;
use crate::safety::system::{Move, Sent, System};
use crate::sim::laws;
use crate::sim::laws::Action;
use crate::sim::network;
use crate::sim::network::NetworkState;
use crate::sim::simulation;
use crate::sim::simulation::SimState;
use crate::sim::trace::EnvelopeView;

verus! {

impl Action {
    /// How much further it may take a log.
    pub open spec fn demand(self) -> int {
        if self is ChangeConfig {
            2
        } else {
            0
        }
    }

    /// Whether a change of membership is one to nodes of the simulation, and
    /// its leader tracks whom it makes voters.
    pub open spec fn stays_within(self, s: SimState) -> bool {
        match self {
            Action::Step => true,
            Action::AddLearner { id, .. } => s.nodes.contains_key(id),
            Action::ChangeConfig { leader, new_voters } => forall|voter: NodeId| #[trigger]
                new_voters.contains(voter) ==> s.nodes.contains_key(voter) && (voter == leader || (
                s.nodes[leader].next_index.contains_key(voter)
                    && s.nodes[leader].match_index.contains_key(voter))),
        }
    }
}

/// How far a sequence of actions may take a log.
pub open spec fn demand_of(actions: Seq<Action>) -> int
    decreases actions.len(),
{
    if actions.len() == 0 {
        0
    } else {
        demand_of(actions.drop_last()) + actions.last().demand()
    }
}

/// Whether every change of membership along the way is one to nodes of the
/// simulation, tracked by its leader.
pub open spec fn all_stay_within(s: SimState, actions: Seq<Action>) -> bool
    decreases actions.len(),
{
    actions.len() > 0 ==> {
        &&& all_stay_within(s, actions.drop_last())
        &&& laws::all_done(s, actions.drop_last()) matches Some(before)
            ==> actions.last().stays_within(before)
    }
}

/// Whether no node has counted further than `pace`, those in `ahead` one
/// further.
pub open spec fn nodes_paced(
    nodes: Map<NodeId, NodeState>,
    pace: int,
    ahead: Set<NodeId>,
) -> bool {
    forall|id: NodeId| #[trigger]
        nodes.contains_key(id) ==> progress::paced(
            nodes[id],
            if ahead.contains(id) {
                pace + 1
            } else {
                pace
            },
        )
}

/// The messages of term `limit` or earlier.
pub open spec fn terms_up_to(limit: int) -> Set<EnvelopeView> {
    Set::new(|e: EnvelopeView| progress::term_of(e.message) <= limit)
}

/// Whether every node has the heartbeat interval it has in `start`.
pub open spec fn same_intervals(
    start: Map<NodeId, NodeState>,
    nodes: Map<NodeId, NodeState>,
) -> bool {
    nodes.dom() == start.dom() && forall|id: NodeId| #[trigger]
        start.contains_key(id) ==> nodes[id].heartbeat_interval == start[id].heartbeat_interval
}

/// Whether no node reaches the limit of its heartbeat counters by tick `time`.
pub open spec fn intervals_last(nodes: Map<NodeId, NodeState>, time: int) -> bool {
    forall|id: NodeId| #[trigger]
        nodes.contains_key(id) ==> nodes[id].heartbeat_interval + time < u64::MAX
}

/// Whether a system has come by `run` from a new one, changing its members as
/// it may, and a simulation is where it is.
pub open spec fn accompanies(
    genesis: Seq<NodeId>,
    start: System,
    run: Seq<Move>,
    s: SimState,
) -> bool {
    &&& start.is_new(genesis)
    &&& genesis.to_set().subset_of(start.nodes.dom())
    &&& start.run(run) is Some
    &&& start.takes_turns(run)
    &&& start.knows_all(run)
    &&& moves::demand_of(run) < u64::MAX
    &&& laws::behind(s, start.run(run)->0)
    &&& same_intervals(start.nodes, s.nodes)
}

/// Only random numbers, messages and the trace of the network differ.
pub open spec fn same_bounds(net: NetworkState, next: NetworkState) -> bool {
    next == (NetworkState { rng: next.rng, inbox: next.inbox, trace: next.trace, ..net })
}

/// One event at a node.
proof fn lemma_event(
    genesis: Seq<NodeId>,
    start: System,
    run: Seq<Move>,
    s: SimState,
    m: Move,
    event: EventView,
    pace: int,
    ahead: Set<NodeId>,
    limit: int,
)
    requires
        accompanies(genesis, start, run, s),
        s.net.can_draw(),
        s.net.has_time(),
        nodes_paced(s.nodes, pace, ahead),
        network::carries(s.net.inbox, terms_up_to(limit)),
        !ahead.contains(m.node()),
        match m {
            Move::Tick { id, next_timeout } => {
                &&& event == (EventView::Tick { next_timeout })
                &&& s.nodes.contains_key(id)
                &&& pace < limit
                &&& pace < u64::MAX
                &&& intervals_last(s.nodes, pace)
            },
            Move::Deliver { sent } => {
                &&& event == (EventView::Step { from: sent.from, message: sent.message })
                &&& (start.run(run)->0).sent.contains(sent)
                &&& progress::term_of(sent.message) <= pace <= limit
            },
            _ => false,
        },
    ensures
        s.transition(m.node(), event) is Some,
        ({
            let next = s.transition(m.node(), event)->0;
            &&& accompanies(genesis, start, run.push(m), next)
            &&& start.run(run.push(m)) == Some((start.run(run)->0).after(m))
            &&& (start.run(run)->0).sent.subset_of((start.run(run.push(m))->0).sent)
            &&& moves::demand_of(run.push(m)) == moves::demand_of(run)
            &&& same_bounds(s.net, next.net)
            &&& network::carries(next.net.inbox, terms_up_to(limit))
            &&& nodes_paced(
                next.nodes,
                pace,
                if event is Tick {
                    ahead.insert(m.node())
                } else {
                    ahead
                },
            )
        }),
{
    let id = m.node();
    let c = start.run(run)->0;
    match m {
        Move::Tick { next_timeout, .. } => {
            assert(start.nodes.dom().contains(id));
            moves::nodes_can_tick(genesis, start, run, id, next_timeout);
        },
        Move::Deliver { sent } => {
            moves::messages_can_be_taken(genesis, start, run, sent);
        },
        _ => {},
    }
    let node = s.nodes[id];
    assert(s.nodes.contains_key(id));
    let (after, effects) = node.step(event);
    network::routing_is_possible(s.net, id, effects, Set::empty());
    network::routing_only_adds_to_the_trace(s.net, id, effects, Set::empty());
    let next = s.transition(id, event)->0;
    laws::lemma_transition(s, c, m, event);
    laws::lemma_next(start, run, m);
    assert(run.push(m).drop_last() =~= run);
    progress::lemma_event_paced(node, event, pace);
    assert(network::sends_within(id, effects, terms_up_to(limit)));
    network::routing_adds_what_is_sent(s.net, id, effects, Set::empty(), terms_up_to(limit));
    simulation::transition_keeps_members(s, id, event);
    assert forall|other: NodeId| #[trigger] start.nodes.contains_key(
        other,
    ) implies next.nodes[other].heartbeat_interval == start.nodes[other].heartbeat_interval by {
        assert(s.nodes[other].heartbeat_interval == start.nodes[other].heartbeat_interval);
    }
    let farther = if event is Tick {
        ahead.insert(id)
    } else {
        ahead
    };
    assert forall|other: NodeId| #[trigger] next.nodes.contains_key(
        other,
    ) implies progress::paced(
        next.nodes[other],
        if farther.contains(other) {
            pace + 1
        } else {
            pace
        },
    ) by {
        assert(s.nodes.contains_key(other));
    }
}

/// Deliveries are possible.
proof fn lemma_deliver_all(
    genesis: Seq<NodeId>,
    start: System,
    run: Seq<Move>,
    s: SimState,
    due: Seq<EnvelopeView>,
    pace: int,
) -> (all: Seq<Move>)
    requires
        accompanies(genesis, start, run, s),
        s.net.can_draw(),
        s.net.has_time(),
        nodes_paced(s.nodes, pace, Set::empty()),
        network::carries(s.net.inbox, terms_up_to(pace)),
        laws::sent_all(start.run(run)->0, due),
        forall|i: int|
            0 <= i < due.len() ==> progress::term_of((#[trigger] due[i]).message) <= pace,
    ensures
        s.deliver_all(due) is Some,
        accompanies(genesis, start, all, s.deliver_all(due)->0),
        moves::demand_of(all) == moves::demand_of(run),
        same_bounds(s.net, (s.deliver_all(due)->0).net),
        nodes_paced((s.deliver_all(due)->0).nodes, pace, Set::empty()),
        network::carries((s.deliver_all(due)->0).net.inbox, terms_up_to(pace)),
    decreases due.len(),
{
    if due.len() == 0 {
        run
    } else {
        let e = due[0];
        let c = start.run(run)->0;
        let sent = Sent { from: e.from, to: e.to, message: e.message };
        let m = Move::Deliver { sent };
        let event = EventView::Step { from: e.from, message: e.message };
        let noted = SimState { net: s.net.delivered(e), ..s };
        assert(laws::envelopes(c).contains(due[0]));
        lemma_event(genesis, start, run, noted, m, event, pace, Set::empty(), pace);
        let rest = due.drop_first();
        let after = c.after(m);
        assert forall|i: int| 0 <= i < rest.len() implies laws::envelopes(after).contains(
            #[trigger] rest[i],
        ) && progress::term_of(rest[i].message) <= pace by {
            assert(rest[i] == due[i + 1]);
            assert(laws::envelopes(c).contains(due[i + 1]));
        }
        let next = noted.transition(e.to, event)->0;
        lemma_deliver_all(genesis, start, run.push(m), next, rest, pace)
    }
}

/// Ticks are possible.
proof fn lemma_tick_all(
    genesis: Seq<NodeId>,
    start: System,
    run: Seq<Move>,
    s: SimState,
    order: Seq<NodeId>,
    pace: int,
    ahead: Set<NodeId>,
) -> (all: Seq<Move>)
    requires
        accompanies(genesis, start, run, s),
        s.net.can_draw(),
        s.net.has_time(),
        nodes_paced(s.nodes, pace, ahead),
        network::carries(s.net.inbox, terms_up_to(pace + 1)),
        ids::ascending(order),
        forall|i: int|
            0 <= i < order.len() ==> start.nodes.contains_key(#[trigger] order[i])
                && !ahead.contains(order[i]),
        pace < u64::MAX,
        intervals_last(start.nodes, pace),
    ensures
        s.tick_all(order) is Some,
        accompanies(genesis, start, all, s.tick_all(order)->0),
        moves::demand_of(all) == moves::demand_of(run),
        same_bounds(s.net, (s.tick_all(order)->0).net),
        nodes_paced((s.tick_all(order)->0).nodes, pace + 1, Set::empty()),
        network::carries((s.tick_all(order)->0).net.inbox, terms_up_to(pace + 1)),
    decreases order.len(),
{
    if order.len() == 0 {
        run
    } else {
        let id = order[0];
        let next_timeout = s.net.timeout();
        let m = Move::Tick { id, next_timeout };
        let event = EventView::Tick { next_timeout };
        let noted = SimState { net: s.net.ticked(id)->0, ..s };
        assert(s.nodes.dom().contains(id));
        assert(intervals_last(s.nodes, pace)) by {
            assert forall|other: NodeId| #[trigger]
                s.nodes.contains_key(other) implies s.nodes[other].heartbeat_interval + pace
                < u64::MAX by {
                assert(start.nodes.contains_key(other));
            }
        }
        lemma_event(genesis, start, run, noted, m, event, pace, ahead, pace + 1);
        let rest = order.drop_first();
        assert(ids::ascending(rest)) by {
            assert forall|i: int, j: int| 0 <= i < j < rest.len() implies (#[trigger] rest[i]).0 < (
            #[trigger] rest[j]).0 by {
                assert(rest[i] == order[i + 1] && rest[j] == order[j + 1]);
            }
        }
        assert forall|i: int| 0 <= i < rest.len() implies start.nodes.contains_key(
            #[trigger] rest[i],
        ) && !ahead.insert(id).contains(rest[i]) by {
            assert(rest[i] == order[i + 1]);
            assert(order[0].0 < order[i + 1].0);
        }
        let next = noted.transition(id, event)->0;
        lemma_tick_all(genesis, start, run.push(m), next, rest, pace, ahead.insert(id))
    }
}

/// Whether a simulation accompanies a system, and has counted no further than
/// its clock.
pub open spec fn steady(
    genesis: Seq<NodeId>,
    start: System,
    run: Seq<Move>,
    s: SimState,
) -> bool {
    &&& accompanies(genesis, start, run, s)
    &&& nodes_paced(s.nodes, s.net.clock as int, Set::empty())
    &&& network::carries(s.net.inbox, terms_up_to(s.net.clock as int))
    &&& s.net.can_draw()
}

/// A tick is possible as long as time and counters last.
proof fn lemma_step(genesis: Seq<NodeId>, start: System, run: Seq<Move>, s: SimState) -> (all: Seq<
    Move,
>)
    requires
        steady(genesis, start, run, s),
        start.nodes.dom().finite(),
        s.net.clock + 1 + s.net.max_delay <= u64::MAX,
        intervals_last(start.nodes, s.net.clock as int),
    ensures
        s.step() is Some,
        steady(genesis, start, all, s.step()->0),
        moves::demand_of(all) == moves::demand_of(run),
        (s.step()->0).net.clock == s.net.clock + 1,
        (s.step()->0).net.max_delay == s.net.max_delay,
{
    let net = s.net.advance()->0;
    let taken = SimState { net: net.without_due(), ..s };
    let due = net.due();
    let pace = s.net.clock as int;
    let c = start.run(run)->0;
    laws::lemma_carried(s.net.inbox, taken.net.inbox, c, c);
    assert(laws::sent_all(c, due));
    assert forall|i: int| 0 <= i < due.len() implies progress::term_of((#[trigger] due[i]).message)
        <= pace by {
        assert(terms_up_to(pace).contains(s.net.inbox[net.clock][i]));
    }
    lemma_fewer(s.net.inbox, taken.net.inbox, pace, pace);
    let first = lemma_deliver_all(genesis, start, run, taken, due, pace);
    let delivered = taken.deliver_all(due)->0;
    let order = ids::sorted_ids(delivered.nodes.dom());
    ids::lemma_sorted_exists(delivered.nodes.dom());
    assert forall|i: int| 0 <= i < order.len() implies start.nodes.contains_key(
        #[trigger] order[i],
    ) by {
        assert(order.to_set().contains(order[i]));
        assert(start.nodes.dom().contains(order[i]));
    }
    lemma_fewer(delivered.net.inbox, delivered.net.inbox, pace, pace + 1);
    lemma_tick_all(genesis, start, first, delivered, order, pace, Set::empty())
}

/// Fewer messages are of no later term.
proof fn lemma_fewer(
    inbox: Map<u64, Seq<EnvelopeView>>,
    next: Map<u64, Seq<EnvelopeView>>,
    limit: int,
    further: int,
)
    requires
        network::carries(inbox, terms_up_to(limit)),
        limit <= further,
        forall|at: u64| #[trigger]
            next.contains_key(at) ==> inbox.contains_key(at) && next[at] == inbox[at],
    ensures
        network::carries(next, terms_up_to(further)),
{
    assert forall|at: u64, i: int|
        next.contains_key(at) && 0 <= i < next[at].len() implies terms_up_to(further).contains(
        #[trigger] next[at][i],
    ) by {
        assert(terms_up_to(limit).contains(inbox[at][i]));
    }
}

/// A change of membership leaves a simulation steady.
proof fn lemma_changed(
    genesis: Seq<NodeId>,
    start: System,
    run: Seq<Move>,
    s: SimState,
    action: Action,
) -> (all: Seq<Move>)
    requires
        steady(genesis, start, run, s),
        !(action is Step),
        action.fits(s),
        action.stays_within(s),
        action matches Action::ChangeConfig { leader, .. }
            ==> !s.nodes[leader].config().is_joint(),
        moves::demand_of(run) + action.demand() < u64::MAX,
    ensures
        steady(genesis, start, all, action.done(s)),
        moves::demand_of(all) == moves::demand_of(run) + action.demand(),
        action.done(s).net == s.net,
{
    let c = start.run(run)->0;
    let next = action.done(s);
    let m = match action {
        Action::AddLearner { leader, id } => Move::AddLearner { id: leader, learner: id },
        Action::ChangeConfig { leader, new_voters } => Move::ChangeConfig {
            id: leader,
            new_voters,
        },
        Action::Step => arbitrary(),
    };
    let id = m.node();
    laws::lemma_next(start, run, m);
    laws::lemma_carried(s.net.inbox, s.net.inbox, c, c.after(m));
    assert(run.push(m).drop_last() =~= run);
    assert(next.nodes == c.after(m).nodes);
    assert(next.nodes.dom() =~= s.nodes.dom());
    let after = next.nodes[id];
    assert(after.heartbeat_interval == s.nodes[id].heartbeat_interval);
    assert(progress::paced(after, s.net.clock as int)) by {
        assert(progress::paced(s.nodes[id], s.net.clock as int));
    }
    assert forall|other: NodeId| #[trigger] start.nodes.contains_key(
        other,
    ) implies next.nodes[other].heartbeat_interval == start.nodes[other].heartbeat_interval by {
        assert(s.nodes[other].heartbeat_interval == start.nodes[other].heartbeat_interval);
    }
    assert forall|other: NodeId| #[trigger] next.nodes.contains_key(
        other,
    ) implies progress::paced(next.nodes[other], s.net.clock as int) by {
        assert(s.nodes.contains_key(other));
    }
    run.push(m)
}

proof fn lemma_demand(actions: Seq<Action>)
    ensures
        0 <= demand_of(actions),
    decreases actions.len(),
{
    if actions.len() > 0 {
        lemma_demand(actions.drop_last());
    }
}

proof fn lemma_all_done(
    genesis: Seq<NodeId>,
    start: SimState,
    actions: Seq<Action>,
    time: int,
) -> (run: Seq<Move>)
    requires
        laws::is_new(genesis, start),
        start.nodes.dom().finite(),
        genesis.to_set().subset_of(start.nodes.dom()),
        start.net.can_draw(),
        laws::all_done(start, actions) is Some,
        laws::takes_turns(start, actions),
        all_stay_within(start, actions),
        demand_of(actions) < u64::MAX,
        (laws::all_done(start, actions)->0).net.clock <= time,
        time + start.net.max_delay <= u64::MAX,
        intervals_last(start.nodes, time),
    ensures
        steady(
            genesis,
            (System { nodes: start.nodes, sent: Set::empty() }),
            run,
            laws::all_done(start, actions)->0,
        ),
        moves::demand_of(run) == demand_of(actions),
        (laws::all_done(start, actions)->0).net.max_delay == start.net.max_delay,
    decreases actions.len(),
{
    let system = System { nodes: start.nodes, sent: Set::empty() };
    if actions.len() == 0 {
        Seq::empty()
    } else {
        let earlier = actions.drop_last();
        let before = laws::all_done(start, earlier)->0;
        lemma_demand(earlier);
        match actions.last() {
            Action::Step => {
                lemma_clock(before);
                let run = lemma_all_done(genesis, start, earlier, time);
                assert(intervals_last(system.nodes, before.net.clock as int));
                lemma_step(genesis, system, run, before)
            },
            _ => {
                let run = lemma_all_done(genesis, start, earlier, time);
                lemma_changed(genesis, system, run, before, actions.last())
            },
        }
    }
}

/// A tick moves the clock by one.
proof fn lemma_clock(s: SimState)
    ensures
        s.step() matches Some(next) ==> next.net.clock == s.net.clock + 1,
{
    if let Some(net) = s.net.advance() {
        let taken = SimState { net: net.without_due(), ..s };
        lemma_deliver_clock(taken, net.due());
        if let Some(delivered) = taken.deliver_all(net.due()) {
            lemma_tick_clock(delivered, ids::sorted_ids(delivered.nodes.dom()));
        }
    }
}

proof fn lemma_transition_clock(s: SimState, id: NodeId, event: EventView)
    ensures
        s.transition(id, event) matches Some(next) ==> next.net.clock == s.net.clock,
{
    let effects = s.nodes[id].step(event).1;
    network::routing_only_adds_to_the_trace(s.net, id, effects, Set::empty());
}

proof fn lemma_deliver_clock(s: SimState, due: Seq<EnvelopeView>)
    ensures
        s.deliver_all(due) matches Some(next) ==> next.net.clock == s.net.clock,
    decreases due.len(),
{
    if due.len() > 0 {
        let noted = SimState { net: s.net.delivered(due[0]), ..s };
        let event = EventView::Step { from: due[0].from, message: due[0].message };
        lemma_transition_clock(noted, due[0].to, event);
        if let Some(next) = noted.transition(due[0].to, event) {
            lemma_deliver_clock(next, due.drop_first());
        }
    }
}

proof fn lemma_tick_clock(s: SimState, order: Seq<NodeId>)
    ensures
        s.tick_all(order) matches Some(next) ==> next.net.clock == s.net.clock,
    decreases order.len(),
{
    if order.len() > 0 {
        if let Some(net) = s.net.ticked(order[0]) {
            let noted = SimState { net, ..s };
            let event = EventView::Tick { next_timeout: s.net.timeout() };
            lemma_transition_clock(noted, order[0], event);
            if let Some(next) = noted.transition(order[0], event) {
                lemma_tick_clock(next, order.drop_first());
            }
        }
    }
}

/// Whatever has been done to a simulation, a tick is possible next, as long as
/// there is time for its delays, no counter is at its limit, and there is room
/// in the log for the transitions begun. Every message goes to a node that is
/// there and can take it, and every leader tracks whoever answers it.
pub proof fn ticks_are_possible(genesis: Seq<NodeId>, start: SimState, actions: Seq<Action>)
    requires
        laws::is_new(genesis, start),
        start.nodes.dom().finite(),
        genesis.to_set().subset_of(start.nodes.dom()),
        start.net.can_draw(),
        laws::all_done(start, actions) is Some,
        laws::takes_turns(start, actions),
        all_stay_within(start, actions),
        demand_of(actions) < u64::MAX,
        (laws::all_done(start, actions)->0).net.clock + 1 + start.net.max_delay <= u64::MAX,
        intervals_last(start.nodes, (laws::all_done(start, actions)->0).net.clock as int),
    ensures
        (laws::all_done(start, actions)->0).step() is Some,
{
    let later = laws::all_done(start, actions)->0;
    let system = System { nodes: start.nodes, sent: Set::empty() };
    let run = lemma_all_done(genesis, start, actions, later.net.clock as int);
    let _ = lemma_step(genesis, system, run, later);
}

/// So a simulation to which nothing is done but to tick runs on as long as
/// there is time.
pub proof fn runs_are_possible(genesis: Seq<NodeId>, start: SimState, n: nat)
    requires
        laws::is_new(genesis, start),
        start.nodes.dom().finite(),
        genesis.to_set().subset_of(start.nodes.dom()),
        start.net.can_draw(),
        start.net.clock + n + start.net.max_delay <= u64::MAX,
        intervals_last(start.nodes, start.net.clock + n),
    ensures
        start.run(n) matches Some(later) && later.net.clock == start.net.clock + n,
    decreases n,
{
    if n > 0 {
        let m = (n - 1) as nat;
        runs_are_possible(genesis, start, m);
        let later = start.run(m)->0;
        let actions = Seq::new(m, |i: int| Action::Step);
        lemma_only_ticks(start, actions);
        assert(intervals_last(start.nodes, later.net.clock as int));
        ticks_are_possible(genesis, start, actions);
        simulation::runs_compose(start, m, 1);
        reveal_with_fuel(SimState::run, 2);
        lemma_clock(later);
    }
}

/// Ticks alone are a run.
proof fn lemma_only_ticks(start: SimState, actions: Seq<Action>)
    requires
        forall|i: int| 0 <= i < actions.len() ==> actions[i] == Action::Step,
    ensures
        laws::all_done(start, actions) == start.run(actions.len()),
        laws::takes_turns(start, actions),
        all_stay_within(start, actions),
        demand_of(actions) == 0,
    decreases actions.len(),
{
    if actions.len() > 0 {
        let earlier = actions.drop_last();
        lemma_only_ticks(start, earlier);
        simulation::runs_compose(start, earlier.len(), 1);
        reveal_with_fuel(SimState::run, 2);
        assert(actions.last() == actions[actions.len() - 1]);
    }
}

} // verus!
