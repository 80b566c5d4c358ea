//! What holds of every simulation, whatever its seed and its delays: it is one
//! of the things that can happen to a system of nodes, so terms have one leader
//! and commits are forever.

use vstd::prelude::*;

use crate::raft::ids;
use crate::raft::types::{EffectView, EventView, NodeId, Role};
use crate::safety::system;
use crate::safety::system::{Move, Sent, System};
use crate::sim::network;
use crate::sim::network::NetworkState;
use crate::sim::simulation;
use crate::sim::simulation::SimState;
use crate::sim::trace::EnvelopeView;

verus! {

/// Something done to a simulation.
pub enum Action {
    Step,
    AddLearner { leader: NodeId, id: NodeId },
    ChangeConfig { leader: NodeId, new_voters: Seq<NodeId> },
}

impl Action {
    /// Whether it is possible.
    pub open spec fn fits(self, s: SimState) -> bool {
        match self {
            Action::Step => s.step() is Some,
            Action::AddLearner { leader, id } => s.nodes.contains_key(leader)
                && s.nodes[leader].takes_learner(id) && s.nodes[leader].can_extend(),
            Action::ChangeConfig { leader, new_voters } => s.nodes.contains_key(leader)
                && s.nodes[leader].role == Role::Leader && new_voters.len() > 0
                && s.nodes[leader].can_change_config(new_voters),
        }
    }

    pub open spec fn done(self, s: SimState) -> SimState {
        match self {
            Action::Step => s.step()->0,
            Action::AddLearner { leader, id } => SimState {
                nodes: s.nodes.insert(leader, s.nodes[leader].add_learner(id)),
                ..s
            },
            Action::ChangeConfig { leader, new_voters } => SimState {
                nodes: s.nodes.insert(leader, s.nodes[leader].change_config(new_voters).0),
                ..s
            },
        }
    }
}

/// The simulation after actions one after the other, if all are possible.
pub open spec fn all_done(s: SimState, actions: Seq<Action>) -> Option<SimState>
    decreases actions.len(),
{
    if actions.len() == 0 {
        Some(s)
    } else {
        match all_done(s, actions.drop_last()) {
            Some(before) => if actions.last().fits(before) {
                Some(actions.last().done(before))
            } else {
                None
            },
            None => None,
        }
    }
}

/// Whether no leader begins a transition while it is in another.
pub open spec fn takes_turns(s: SimState, actions: Seq<Action>) -> bool
    decreases actions.len(),
{
    actions.len() > 0 ==> {
        &&& takes_turns(s, actions.drop_last())
        &&& all_done(s, actions.drop_last()) matches Some(before) ==> (
        actions.last() matches Action::ChangeConfig { leader, .. }
            ==> !before.nodes[leader].config().is_joint())
    }
}

/// Whether nothing has happened yet in a cluster whose first voters are
/// `genesis`.
pub open spec fn is_new(genesis: Seq<NodeId>, s: SimState) -> bool {
    &&& s.net.inbox == Map::<u64, Seq<EnvelopeView>>::empty()
    &&& (System { nodes: s.nodes, sent: Set::empty() }).is_new(genesis)
}

/// The messages ever sent.
pub open spec fn envelopes(c: System) -> Set<EnvelopeView> {
    Set::new(
        |e: EnvelopeView| c.sent.contains(Sent { from: e.from, to: e.to, message: e.message }),
    )
}

/// Whether a simulation has the nodes of a system, and delivers nothing but
/// what was sent there.
pub open spec fn behind(s: SimState, c: System) -> bool {
    &&& s.nodes == c.nodes
    &&& network::carries(s.net.inbox, envelopes(c))
}

/// Whether all of these messages have been sent.
pub open spec fn sent_all(c: System, due: Seq<EnvelopeView>) -> bool {
    forall|i: int| 0 <= i < due.len() ==> envelopes(c).contains(#[trigger] due[i])
}

/// One more move, and what was sent before is still sent.
pub proof fn lemma_next(start: System, moves: Seq<Move>, m: Move)
    requires
        start.run(moves) is Some,
        start.takes_turns(moves),
        (start.run(moves)->0).allows(m),
        m matches Move::ChangeConfig { id, .. } ==> !(start.run(
            moves,
        )->0).nodes[id].config().is_joint(),
    ensures
        start.run(moves.push(m)) == Some((start.run(moves)->0).after(m)),
        start.takes_turns(moves.push(m)),
        (start.run(moves)->0).sent.subset_of((start.run(moves)->0).after(m).sent),
{
    assert(moves.push(m).drop_last() =~= moves);
}

/// Fewer messages under way are still messages that were sent.
pub proof fn lemma_carried(
    inbox: Map<u64, Seq<EnvelopeView>>,
    next: Map<u64, Seq<EnvelopeView>>,
    a: System,
    b: System,
)
    requires
        network::carries(inbox, envelopes(a)),
        forall|at: u64| #[trigger]
            next.contains_key(at) ==> inbox.contains_key(at) && next[at] == inbox[at],
        a.sent.subset_of(b.sent),
    ensures
        network::carries(next, envelopes(b)),
{
    assert forall|at: u64, i: int|
        next.contains_key(at) && 0 <= i < next[at].len() implies envelopes(b).contains(
        #[trigger] next[at][i],
    ) by {
        assert(envelopes(a).contains(inbox[at][i]));
    }
}

/// A transition of a simulation is a move of the system.
pub proof fn lemma_transition(s: SimState, c: System, m: Move, event: EventView)
    requires
        behind(s, c),
        c.nodes.contains_key(m.node()),
        m matches Move::Tick { next_timeout, .. } ==> event == (EventView::Tick { next_timeout }),
        m matches Move::Deliver { sent } ==> event == (EventView::Step {
            from: sent.from,
            message: sent.message,
        }) && c.sent.contains(sent),
        m is Tick || m is Deliver,
        s.transition(m.node(), event) is Some,
    ensures
        c.allows(m),
        behind(s.transition(m.node(), event)->0, c.after(m)),
        c.sent.subset_of(c.after(m).sent),
{
    let id = m.node();
    let (node, effects) = s.nodes[id].step(event);
    let after = c.after(m);
    lemma_carried(s.net.inbox, s.net.inbox, c, after);
    assert(network::sends_within(id, effects, envelopes(after))) by {
        assert forall|i: int| 0 <= i < effects.len() implies ((
        #[trigger] effects[i]) matches EffectView::Send { to, message } ==> envelopes(
            after,
        ).contains(EnvelopeView { from: id, to, message })) by {
            if let EffectView::Send { to, message } = effects[i] {
                assert(effects.contains(EffectView::Send { to, message }));
            }
        }
    }
    network::routing_adds_what_is_sent(s.net, id, effects, Set::empty(), envelopes(after));
}

/// Deliveries are moves of the system.
proof fn lemma_deliver_all(
    s: SimState,
    start: System,
    moves: Seq<Move>,
    due: Seq<EnvelopeView>,
) -> (all: Seq<Move>)
    requires
        start.run(moves) is Some,
        start.takes_turns(moves),
        behind(s, start.run(moves)->0),
        sent_all(start.run(moves)->0, due),
        s.deliver_all(due) is Some,
    ensures
        start.run(all) is Some,
        start.takes_turns(all),
        behind(s.deliver_all(due)->0, start.run(all)->0),
    decreases due.len(),
{
    if due.len() == 0 {
        moves
    } else {
        let c = start.run(moves)->0;
        let e = due[0];
        let sent = Sent { from: e.from, to: e.to, message: e.message };
        let m = Move::Deliver { sent };
        let event = EventView::Step { from: e.from, message: e.message };
        let noted = SimState { net: s.net.delivered(e), ..s };
        assert(envelopes(c).contains(due[0]));
        lemma_transition(noted, c, m, event);
        lemma_next(start, moves, m);
        let rest = due.drop_first();
        let after = c.after(m);
        assert(sent_all(after, rest)) by {
            assert forall|i: int| 0 <= i < rest.len() implies envelopes(after).contains(
                #[trigger] rest[i],
            ) by {
                assert(rest[i] == due[i + 1]);
                assert(envelopes(c).contains(due[i + 1]));
            }
        }
        lemma_deliver_all(noted.transition(e.to, event)->0, start, moves.push(m), rest)
    }
}

/// Ticks are moves of the system.
proof fn lemma_tick_all(
    s: SimState,
    start: System,
    moves: Seq<Move>,
    order: Seq<NodeId>,
) -> (all: Seq<Move>)
    requires
        start.run(moves) is Some,
        start.takes_turns(moves),
        behind(s, start.run(moves)->0),
        s.tick_all(order) is Some,
    ensures
        start.run(all) is Some,
        start.takes_turns(all),
        behind(s.tick_all(order)->0, start.run(all)->0),
    decreases order.len(),
{
    if order.len() == 0 {
        moves
    } else {
        let c = start.run(moves)->0;
        let next_timeout = s.net.timeout();
        let m = Move::Tick { id: order[0], next_timeout };
        let event = EventView::Tick { next_timeout };
        let noted = SimState { net: s.net.ticked(order[0])->0, ..s };
        lemma_transition(noted, c, m, event);
        lemma_next(start, moves, m);
        lemma_tick_all(
            noted.transition(order[0], event)->0,
            start,
            moves.push(m),
            order.drop_first(),
        )
    }
}

/// Whatever is done to a simulation is a run of the system.
proof fn lemma_done(s: SimState, start: System, moves: Seq<Move>, action: Action) -> (all: Seq<
    Move,
>)
    requires
        start.run(moves) is Some,
        start.takes_turns(moves),
        behind(s, start.run(moves)->0),
        action.fits(s),
        action matches Action::ChangeConfig { leader, .. }
            ==> !s.nodes[leader].config().is_joint(),
    ensures
        start.run(all) is Some,
        start.takes_turns(all),
        behind(action.done(s), start.run(all)->0),
{
    let c = start.run(moves)->0;
    match action {
        Action::Step => {
            let net = s.net.advance()->0;
            let taken = SimState { net: net.without_due(), ..s };
            let due = net.due();
            lemma_carried(s.net.inbox, taken.net.inbox, c, c);
            assert(sent_all(c, due));
            let first = lemma_deliver_all(taken, start, moves, due);
            let delivered = taken.deliver_all(due)->0;
            lemma_tick_all(delivered, start, first, ids::sorted_ids(delivered.nodes.dom()))
        },
        Action::AddLearner { leader, id } => {
            let m = Move::AddLearner { id: leader, learner: id };
            lemma_next(start, moves, m);
            lemma_carried(s.net.inbox, s.net.inbox, c, c.after(m));
            moves.push(m)
        },
        Action::ChangeConfig { leader, new_voters } => {
            let m = Move::ChangeConfig { id: leader, new_voters };
            lemma_next(start, moves, m);
            lemma_carried(s.net.inbox, s.net.inbox, c, c.after(m));
            moves.push(m)
        },
    }
}

/// Whatever follows in a simulation is what follows in the system behind it.
pub proof fn simulations_go_on(s: SimState, c: System, actions: Seq<Action>) -> (moves: Seq<Move>)
    requires
        behind(s, c),
        all_done(s, actions) is Some,
        takes_turns(s, actions),
    ensures
        c.run(moves) is Some,
        c.takes_turns(moves),
        behind(all_done(s, actions)->0, c.run(moves)->0),
    decreases actions.len(),
{
    if actions.len() == 0 {
        Seq::empty()
    } else {
        let earlier = actions.drop_last();
        let moves = simulations_go_on(s, c, earlier);
        lemma_done(all_done(s, earlier)->0, c, moves, actions.last())
    }
}

/// Every simulation is a run of a system: its nodes are what the moves it
/// consists of make of them. What follows `actions` continues that run.
pub proof fn simulations_are_runs(
    genesis: Seq<NodeId>,
    start: SimState,
    actions: Seq<Action>,
    more: Seq<Action>,
) -> (moves: (Seq<Move>, Seq<Move>))
    requires
        is_new(genesis, start),
        all_done(start, actions) is Some,
        takes_turns(start, actions),
        all_done(all_done(start, actions)->0, more) is Some,
        takes_turns(all_done(start, actions)->0, more),
    ensures
        ({
            let system = System { nodes: start.nodes, sent: Set::empty() };
            let earlier = system.run(moves.0)->0;
            &&& system.is_new(genesis)
            &&& system.run(moves.0) is Some
            &&& system.takes_turns(moves.0)
            &&& behind(all_done(start, actions)->0, earlier)
            &&& earlier.run(moves.1) is Some
            &&& earlier.takes_turns(moves.1)
            &&& behind(all_done(all_done(start, actions)->0, more)->0, earlier.run(moves.1)->0)
        }),
{
    let system = System { nodes: start.nodes, sent: Set::empty() };
    let first = simulations_go_on(start, system, actions);
    let second = simulations_go_on(all_done(start, actions)->0, system.run(first)->0, more);
    (first, second)
}

/// Election safety: no term has two leaders, at one time or at two, whoever
/// joins or leaves meanwhile. `a` is looked at after `actions`, `b` after
/// `more` have followed.
pub proof fn terms_have_one_leader(
    genesis: Seq<NodeId>,
    start: SimState,
    actions: Seq<Action>,
    more: Seq<Action>,
    a: NodeId,
    b: NodeId,
)
    requires
        is_new(genesis, start),
        all_done(start, actions) is Some,
        takes_turns(start, actions),
        all_done(all_done(start, actions)->0, more) is Some,
        takes_turns(all_done(start, actions)->0, more),
    ensures
        ({
            let earlier = all_done(start, actions)->0;
            let later = all_done(earlier, more)->0;
            earlier.nodes.contains_key(a) && later.nodes.contains_key(b) && earlier.nodes[a].role
                == Role::Leader && later.nodes[b].role == Role::Leader
                && earlier.nodes[a].current_term == later.nodes[b].current_term ==> a == b
        }),
{
    let system = System { nodes: start.nodes, sent: Set::empty() };
    let moves = simulations_are_runs(genesis, start, actions, more);
    let earlier = all_done(start, actions)->0;
    let later = all_done(earlier, more)->0;
    if earlier.nodes.contains_key(a) && later.nodes.contains_key(b) && earlier.nodes[a].role
        == Role::Leader && later.nodes[b].role == Role::Leader && earlier.nodes[a].current_term
        == later.nodes[b].current_term {
        system::terms_have_one_leader(genesis, system, moves.0, moves.1, a, b);
    }
}

/// A simulation's leaders are those of its nodes that lead, and over a whole
/// run no two of them have the same term.
pub proof fn leaders_have_terms_of_their_own(
    genesis: Seq<NodeId>,
    start: SimState,
    actions: Seq<Action>,
    more: Seq<Action>,
    i: int,
    j: int,
)
    requires
        is_new(genesis, start),
        start.nodes.dom().finite(),
        all_done(start, actions) is Some,
        takes_turns(start, actions),
        all_done(all_done(start, actions)->0, more) is Some,
        takes_turns(all_done(start, actions)->0, more),
        0 <= i < (all_done(start, actions)->0).leaders().len(),
        0 <= j < (all_done(all_done(start, actions)->0, more)->0).leaders().len(),
    ensures
        ({
            let one = (all_done(start, actions)->0).leaders()[i];
            let other = (all_done(all_done(start, actions)->0, more)->0).leaders()[j];
            one.1 == other.1 ==> one.0 == other.0
        }),
{
    let earlier = all_done(start, actions)->0;
    let later = all_done(earlier, more)->0;
    lemma_same_members(start, actions);
    lemma_same_members(earlier, more);
    let a = lemma_leads(earlier, i);
    let b = lemma_leads(later, j);
    terms_have_one_leader(genesis, start, actions, more, a, b);
}

/// Each of the leaders is a node that leads, with its term.
proof fn lemma_leads(s: SimState, i: int) -> (id: NodeId)
    requires
        s.nodes.dom().finite(),
        0 <= i < s.leaders().len(),
    ensures
        s.leaders()[i] == (id, s.nodes[id].current_term),
        s.nodes.contains_key(id),
        s.nodes[id].role == Role::Leader,
{
    let order = ids::sorted_ids(s.nodes.dom());
    ids::lemma_sorted_exists(s.nodes.dom());
    let leading = order.filter(|id: NodeId| s.nodes[id].role == Role::Leader);
    order.lemma_filter_contains_rev(|id: NodeId| s.nodes[id].role == Role::Leader, leading[i]);
    order.lemma_filter_pred(|id: NodeId| s.nodes[id].role == Role::Leader, i);
    assert(order.to_set().contains(leading[i]));
    leading[i]
}

/// Nobody leaves a simulation.
proof fn lemma_same_members(s: SimState, actions: Seq<Action>)
    requires
        all_done(s, actions) is Some,
    ensures
        (all_done(s, actions)->0).nodes.dom() == s.nodes.dom(),
    decreases actions.len(),
{
    if actions.len() > 0 {
        let before = all_done(s, actions.drop_last())->0;
        lemma_same_members(s, actions.drop_last());
        match actions.last() {
            Action::Step => {
                let net = before.net.advance()->0;
                let taken = SimState { net: net.without_due(), ..before };
                lemma_deliver_members(taken, net.due());
                let delivered = taken.deliver_all(net.due())->0;
                lemma_tick_members(delivered, ids::sorted_ids(delivered.nodes.dom()));
            },
            Action::AddLearner { leader, id } => {
                assert(actions.last().done(before).nodes.dom() =~= before.nodes.dom());
            },
            Action::ChangeConfig { leader, new_voters } => {
                assert(actions.last().done(before).nodes.dom() =~= before.nodes.dom());
            },
        }
    }
}

proof fn lemma_deliver_members(s: SimState, due: Seq<EnvelopeView>)
    ensures
        s.deliver_all(due) matches Some(next) ==> next.nodes.dom() == s.nodes.dom(),
    decreases due.len(),
{
    if due.len() > 0 {
        let noted = SimState { net: s.net.delivered(due[0]), ..s };
        let event = EventView::Step { from: due[0].from, message: due[0].message };
        simulation::transition_keeps_members(noted, due[0].to, event);
        if let Some(next) = noted.transition(due[0].to, event) {
            lemma_deliver_members(next, due.drop_first());
        }
    }
}

proof fn lemma_tick_members(s: SimState, order: Seq<NodeId>)
    ensures
        s.tick_all(order) matches Some(next) ==> next.nodes.dom() == s.nodes.dom(),
    decreases order.len(),
{
    if order.len() > 0 {
        if let Some(net) = s.net.ticked(order[0]) {
            let noted = SimState { net, ..s };
            let event = EventView::Tick { next_timeout: s.net.timeout() };
            simulation::transition_keeps_members(noted, order[0], event);
            if let Some(next) = noted.transition(order[0], event) {
                lemma_tick_members(next, order.drop_first());
            }
        }
    }
}

/// Whatever is done to a simulation only adds to its trace: an earlier trace is
/// a prefix of every later one.
pub proof fn traces_only_grow(s: SimState, actions: Seq<Action>)
    ensures
        all_done(s, actions) matches Some(later) ==> s.net.trace.is_prefix_of(later.net.trace),
    decreases actions.len(),
{
    if actions.len() > 0 {
        traces_only_grow(s, actions.drop_last());
        if let Some(before) = all_done(s, actions.drop_last()) {
            simulation::trace_only_grows(before);
        }
    }
}

/// Simulations that begin with the same nodes, seed and bounds, and to which
/// the same is done, record the same trace, and end with the same nodes. Up to
/// there it is the trace of what went before.
pub proof fn traces_are_reproducible(
    a: SimState,
    b: SimState,
    seed: u64,
    timeouts: (u64, u64),
    delays: (u64, u64),
    actions: Seq<Action>,
    n: int,
)
    requires
        a.nodes == b.nodes,
        a.net == NetworkState::initial(seed, timeouts.0, timeouts.1, delays.0, delays.1),
        b.net == NetworkState::initial(seed, timeouts.0, timeouts.1, delays.0, delays.1),
        0 <= n <= actions.len(),
    ensures
        all_done(a, actions) == all_done(b, actions),
        all_done(a, actions) matches Some(later) ==> all_done(b, actions.take(n)) is Some && (
        all_done(b, actions.take(n))->0).net.trace.is_prefix_of(later.net.trace),
{
    assert(a == b);
    if all_done(a, actions) is Some {
        lemma_goes_on(a, actions, n);
        traces_only_grow(all_done(a, actions.take(n))->0, actions.skip(n));
    }
}

/// What is done can be cut anywhere.
proof fn lemma_goes_on(s: SimState, actions: Seq<Action>, n: int)
    requires
        0 <= n <= actions.len(),
        all_done(s, actions) is Some,
    ensures
        all_done(s, actions.take(n)) is Some,
        all_done(all_done(s, actions.take(n))->0, actions.skip(n)) == all_done(s, actions),
    decreases actions.len(),
{
    if n == actions.len() {
        assert(actions.take(n) =~= actions);
        assert(actions.skip(n) =~= Seq::empty());
    } else {
        let earlier = actions.drop_last();
        lemma_goes_on(s, earlier, n);
        assert(earlier.take(n) =~= actions.take(n));
        assert(actions.skip(n).drop_last() =~= earlier.skip(n));
        assert(actions.skip(n).last() == actions.last());
    }
}

/// State machine safety: what a node has committed at an index is what any
/// node ever commits there. `a` is looked at after `actions`, `b` after `more`
/// have followed.
pub proof fn commits_agree(
    genesis: Seq<NodeId>,
    start: SimState,
    actions: Seq<Action>,
    more: Seq<Action>,
    a: NodeId,
    b: NodeId,
    index: int,
)
    requires
        is_new(genesis, start),
        all_done(start, actions) is Some,
        takes_turns(start, actions),
        all_done(all_done(start, actions)->0, more) is Some,
        takes_turns(all_done(start, actions)->0, more),
    ensures
        ({
            let earlier = all_done(start, actions)->0;
            let later = all_done(earlier, more)->0;
            earlier.nodes.contains_key(a) && later.nodes.contains_key(b) && index
                <= earlier.nodes[a].commit_index && index <= later.nodes[b].commit_index
                && earlier.nodes[a].entry_at(index) is Some && later.nodes[b].entry_at(
                index,
            ) is Some ==> earlier.nodes[a].entry_at(index) == later.nodes[b].entry_at(index)
        }),
{
    let system = System { nodes: start.nodes, sent: Set::empty() };
    let moves = simulations_are_runs(genesis, start, actions, more);
    let earlier = all_done(start, actions)->0;
    let later = all_done(earlier, more)->0;
    if earlier.nodes.contains_key(a) && later.nodes.contains_key(b) && index
        <= earlier.nodes[a].commit_index && index <= later.nodes[b].commit_index
        && earlier.nodes[a].entry_at(index) is Some && later.nodes[b].entry_at(index) is Some {
        system::commits_are_forever(genesis, system, moves.0, moves.1, a, b, index);
    }
}

} // verus!
