//! What becomes of a client's operation: it is in the history once, by its
//! deadline.

use vstd::prelude::*;

use crate::kv::command::CommandView;
use crate::raft::ids;
use crate::raft::types::{EffectView, EventView, NodeId};
use crate::sim::network;
use crate::sim::network::NetworkState;
use crate::sim::trace::EnvelopeView;
use crate::verify::harness::{HarnessState, PendingView};
use crate::verify::history::{ClientId, HistoryEntryView, OutcomeView};

verus! {

impl HarnessState {
    /// Whether a pending operation is decided now: it applied, or its time is
    /// up.
    pub open spec fn decides(self, op: PendingView) -> bool {
        self.result_of(op) is Some || self.net.clock >= op.deadline
    }

    /// The history entry of an operation decided now. It applied only if the
    /// entry proposed for it was still in its place at its target.
    pub open spec fn verdict(self, op: PendingView) -> HistoryEntryView {
        HarnessState::entry_of(
            op,
            Some(self.net.clock),
            match self.result_of(op) {
                Some(result) => OutcomeView::Applied(result),
                None => OutcomeView::Indeterminate,
            },
        )
    }

    /// The entries of those operations that are decided now, in order.
    pub open spec fn filed(self, ops: Seq<PendingView>) -> Seq<HistoryEntryView> {
        ops.filter(|op: PendingView| self.decides(op)).map_values(
            |op: PendingView| self.verdict(op),
        )
    }

    /// The operations that are not decided yet, in order.
    pub open spec fn left(self, ops: Seq<PendingView>) -> Seq<PendingView> {
        ops.filter(|op: PendingView| !self.decides(op))
    }

    /// `n` ticks.
    pub open spec fn steps(self, n: nat) -> Option<HarnessState>
        decreases n,
    {
        if n == 0 {
            Some(self)
        } else {
            match self.step() {
                Some(next) => next.steps((n - 1) as nat),
                None => None,
            }
        }
    }
}

pub proof fn lemma_route_clock(
    net: NetworkState,
    from: NodeId,
    effects: Seq<EffectView>,
    cut_off: Set<NodeId>,
)
    ensures
        net.route(from, effects, cut_off) matches Some(next) ==> next.clock == net.clock,
{
    network::routing_adds_what_is_sent(net, from, effects, cut_off, Set::full());
}

proof fn lemma_transition_records(h: HarnessState, id: NodeId, event: EventView)
    ensures
        h.transition(id, event) matches Some(next) ==> next.history == h.history && next.pending
            == h.pending && next.net.clock == h.net.clock,
{
    if h.replicas.contains_key(id) && h.replicas[id].node.can_step(event) {
        lemma_route_clock(h.net, id, h.replicas[id].step(event).1, h.isolated);
    }
}

pub proof fn lemma_deliver_records(h: HarnessState, due: Seq<EnvelopeView>)
    ensures
        h.deliver_all(due) matches Some(next) ==> next.history == h.history && next.pending
            == h.pending && next.net.clock == h.net.clock,
    decreases due.len(),
{
    if due.len() > 0 {
        if !h.reaches(due[0]) {
            lemma_deliver_records(h, due.drop_first());
        } else {
            let noted = HarnessState { net: h.net.delivered(due[0]), ..h };
            let event = EventView::Step { from: due[0].from, message: due[0].message };
            lemma_transition_records(noted, due[0].to, event);
            if let Some(next) = noted.transition(due[0].to, event) {
                lemma_deliver_records(next, due.drop_first());
            }
        }
    }
}

pub proof fn lemma_tick_records(h: HarnessState, order: Seq<NodeId>)
    ensures
        h.tick_all(order) matches Some(next) ==> next.history == h.history && next.pending
            == h.pending && next.net.clock == h.net.clock,
    decreases order.len(),
{
    if order.len() > 0 {
        if let Some(net) = h.net.ticked(order[0]) {
            let noted = HarnessState { net, ..h };
            let event = EventView::Tick { next_timeout: h.net.timeout() };
            lemma_transition_records(noted, order[0], event);
            if let Some(next) = noted.transition(order[0], event) {
                lemma_tick_records(next, order.drop_first());
            }
        }
    }
}

/// The first of several operations is filed or left, and the rest after it.
proof fn lemma_first(h: HarnessState, ops: Seq<PendingView>)
    requires
        ops.len() > 0,
    ensures
        h.filed(ops) == if h.decides(ops[0]) {
            seq![h.verdict(ops[0])] + h.filed(ops.drop_first())
        } else {
            h.filed(ops.drop_first())
        },
        h.left(ops) == if h.decides(ops[0]) {
            h.left(ops.drop_first())
        } else {
            seq![ops[0]] + h.left(ops.drop_first())
        },
{
    let one = seq![ops[0]];
    let rest = ops.drop_first();
    let yes = |op: PendingView| h.decides(op);
    let no = |op: PendingView| !h.decides(op);
    assert(ops =~= one + rest);
    Seq::filter_distributes_over_add(one, rest, yes);
    Seq::filter_distributes_over_add(one, rest, no);
    reveal_with_fuel(Seq::filter, 2);
    assert(one.drop_last() =~= Seq::empty());
    assert(one.drop_last().filter(yes) =~= Seq::empty());
    assert(one.drop_last().filter(no) =~= Seq::empty());
    assert(one.last() == ops[0]);
    assert(one.filter(yes) =~= if h.decides(ops[0]) {
        one
    } else {
        Seq::empty()
    });
    assert(one.filter(no) =~= if h.decides(ops[0]) {
        Seq::empty()
    } else {
        one
    });
    assert(h.filed(ops) =~= if h.decides(ops[0]) {
        seq![h.verdict(ops[0])] + h.filed(rest)
    } else {
        h.filed(rest)
    });
    assert(h.left(ops) =~= if h.decides(ops[0]) {
        h.left(rest)
    } else {
        one + h.left(rest)
    });
}

/// Resolving files what is decided and leaves the rest.
proof fn lemma_resolve_all(h: HarnessState, ops: Seq<PendingView>)
    ensures
        h.resolve_all(ops) == (HarnessState {
            history: h.history + h.filed(ops),
            pending: h.pending + h.left(ops),
            ..h
        }),
    decreases ops.len(),
{
    if ops.len() == 0 {
        reveal(Seq::filter);
        assert(h.history + h.filed(ops) =~= h.history);
        assert(h.pending + h.left(ops) =~= h.pending);
    } else {
        let next = h.resolve(ops[0]);
        let rest = ops.drop_first();
        lemma_resolve_all(next, rest);
        lemma_first(h, ops);
        lemma_same_verdicts(h, next, rest);
        assert(next.history + next.filed(rest) =~= h.history + h.filed(ops));
        assert(next.pending + next.left(rest) =~= h.pending + h.left(ops));
    }
}

/// What is decided depends on the replicas and the clock alone.
proof fn lemma_same_verdicts(h: HarnessState, next: HarnessState, ops: Seq<PendingView>)
    requires
        next.replicas == h.replicas,
        next.net.clock == h.net.clock,
    ensures
        next.filed(ops) == h.filed(ops),
        next.left(ops) == h.left(ops),
    decreases ops.len(),
{
    if ops.len() == 0 {
        reveal(Seq::filter);
        assert(next.filed(ops) =~= h.filed(ops));
        assert(next.left(ops) =~= h.left(ops));
    } else {
        lemma_first(h, ops);
        lemma_first(next, ops);
        lemma_same_verdicts(h, next, ops.drop_first());
        assert(next.verdict(ops[0]) == h.verdict(ops[0]));
    }
}

/// A tick takes the operations that are decided by its end out of those
/// pending and into the history, each once and in order, and leaves the others
/// pending.
pub proof fn ticks_file_what_is_decided(h: HarnessState)
    ensures
        h.step() matches Some(next) ==> {
            &&& next.history == h.history + next.filed(h.pending)
            &&& next.pending == next.left(h.pending)
            &&& next.net.clock == h.net.clock + 1
        },
{
    if let Some(net) = h.net.advance() {
        let taken = HarnessState { net: net.without_due(), ..h };
        lemma_deliver_records(taken, net.due());
        if let Some(delivered) = taken.deliver_all(net.due()) {
            let order = ids::sorted_ids(delivered.replicas.dom());
            lemma_tick_records(delivered, order);
            if let Some(ticked) = delivered.tick_all(order) {
                let emptied = HarnessState { pending: Seq::empty(), ..ticked };
                lemma_resolve_all(emptied, ticked.pending);
                let next = emptied.resolve_all(ticked.pending);
                lemma_same_verdicts(emptied, next, ticked.pending);
                assert(next.pending =~= next.left(h.pending));
            }
        }
    }
}

/// A tick only ever adds to the history, and loses no operation: each is
/// either recorded or still pending.
pub proof fn history_only_grows(h: HarnessState)
    ensures
        h.step() matches Some(next) ==> {
            &&& h.history.is_prefix_of(next.history)
            &&& next.history.len() + next.pending.len() == h.history.len() + h.pending.len()
        },
{
    if let Some(next) = h.step() {
        ticks_file_what_is_decided(h);
        lemma_divided_len(next, h.pending);
        assert(next.history.take(h.history.len() as int) =~= h.history);
    }
}

proof fn lemma_divided_len(h: HarnessState, ops: Seq<PendingView>)
    ensures
        h.filed(ops).len() + h.left(ops).len() == ops.len(),
    decreases ops.len(),
{
    if ops.len() == 0 {
        reveal(Seq::filter);
    } else {
        lemma_first(h, ops);
        lemma_divided_len(h, ops.drop_first());
    }
}

/// After a tick, whatever is pending still has time left.
pub proof fn nothing_waits_past_its_deadline(h: HarnessState)
    ensures
        h.step() matches Some(next) ==> forall|i: int|
            0 <= i < next.pending.len() ==> (#[trigger] next.pending[i]).deadline > next.net.clock,
{
    if let Some(next) = h.step() {
        ticks_file_what_is_decided(h);
        let no = |op: PendingView| !next.decides(op);
        assert forall|i: int| 0 <= i < next.pending.len() implies (
        #[trigger] next.pending[i]).deadline > next.net.clock by {
            h.pending.lemma_filter_pred(no, i);
        }
    }
}

/// What an operation and its history entry have in common.
pub type Gist = (ClientId, u64, CommandView);

pub open spec fn gist_of(op: PendingView) -> Gist {
    (op.client, op.invoke_tick, op.command)
}

pub open spec fn gist(entry: HistoryEntryView) -> Gist {
    (entry.client, entry.invoke_tick, entry.command)
}

/// How many history entries are of an operation like this.
pub open spec fn times_filed(entries: Seq<HistoryEntryView>, c: Gist) -> nat
    decreases entries.len(),
{
    if entries.len() == 0 {
        0
    } else {
        times_filed(entries.drop_last(), c) + if gist(entries.last()) == c {
            1nat
        } else {
            0nat
        }
    }
}

/// How many pending operations are like this.
pub open spec fn times_pending(ops: Seq<PendingView>, c: Gist) -> nat
    decreases ops.len(),
{
    if ops.len() == 0 {
        0
    } else {
        times_pending(ops.drop_last(), c) + if gist_of(ops.last()) == c {
            1nat
        } else {
            0nat
        }
    }
}

/// How often an operation like this is on record.
pub open spec fn times(h: HarnessState, c: Gist) -> nat {
    times_filed(h.history, c) + times_pending(h.pending, c)
}

proof fn lemma_filed_concat(a: Seq<HistoryEntryView>, b: Seq<HistoryEntryView>, c: Gist)
    ensures
        times_filed(a + b, c) == times_filed(a, c) + times_filed(b, c),
    decreases b.len(),
{
    if b.len() == 0 {
        assert(a + b =~= a);
    } else {
        assert((a + b).drop_last() =~= a + b.drop_last());
        lemma_filed_concat(a, b.drop_last(), c);
    }
}

/// Of the pending operations each is either filed or left.
proof fn lemma_divided(h: HarnessState, ops: Seq<PendingView>, c: Gist)
    ensures
        times_filed(h.filed(ops), c) + times_pending(h.left(ops), c) == times_pending(ops, c),
    decreases ops.len(),
{
    reveal(Seq::filter);
    if ops.len() > 0 {
        let rest = ops.drop_last();
        let last = ops.last();
        lemma_divided(h, rest, c);
        if h.decides(last) {
            assert(h.filed(ops) =~= h.filed(rest).push(h.verdict(last)));
            assert(h.filed(ops).drop_last() =~= h.filed(rest));
            assert(h.left(ops) =~= h.left(rest));
        } else {
            assert(h.filed(ops) =~= h.filed(rest));
            assert(h.left(ops) =~= h.left(rest).push(last));
            assert(h.left(ops).drop_last() =~= h.left(rest));
        }
    }
}

/// Ticks neither lose an operation nor record one twice.
pub proof fn ticks_keep_count(h: HarnessState, n: nat, c: Gist)
    ensures
        h.steps(n) matches Some(end) ==> times(end, c) == times(h, c) && end.net.clock
            == h.net.clock + n,
    decreases n,
{
    if n > 0 {
        if let Some(next) = h.step() {
            ticks_file_what_is_decided(h);
            lemma_filed_concat(h.history, next.filed(h.pending), c);
            lemma_divided(next, h.pending, c);
            ticks_keep_count(next, (n - 1) as nat, c);
        }
    }
}

/// The history only grows.
proof fn lemma_history_grows(h: HarnessState, n: nat, i: int)
    requires
        h.steps(n) is Some,
        0 <= i < h.history.len(),
    ensures
        i < (h.steps(n)->0).history.len(),
        (h.steps(n)->0).history[i] == h.history[i],
    decreases n,
{
    if n > 0 {
        ticks_file_what_is_decided(h);
        lemma_history_grows(h.step()->0, (n - 1) as nat, i);
    }
}

/// Whether the operation was decided at tick `k` of `n`, and stands in the
/// history at `i`.
pub open spec fn decided_at(h: HarnessState, op: PendingView, n: nat, k: nat, i: int) -> bool {
    &&& 1 <= k <= n
    &&& h.steps(k) is Some
    &&& (h.steps(k)->0).decides(op)
    &&& (h.steps(k)->0).net.clock == h.net.clock + k
    &&& h.history.len() <= i < (h.steps(n)->0).history.len()
    &&& (h.steps(n)->0).history[i] == (h.steps(k)->0).verdict(op)
}

/// An operation whose time is up within `n` ticks is decided by then.
proof fn lemma_decided(h: HarnessState, op: PendingView, n: nat) -> (at: (nat, int))
    requires
        h.steps(n) is Some,
        h.pending.contains(op),
        n >= 1,
        h.net.clock + n >= op.deadline,
    ensures
        decided_at(h, op, n, at.0, at.1),
    decreases n,
{
    let next = h.step()->0;
    ticks_file_what_is_decided(h);
    let place = choose|p: int| 0 <= p < h.pending.len() && h.pending[p] == op;
    if next.decides(op) {
        let yes = |o: PendingView| next.decides(o);
        h.pending.lemma_filter_contains(yes, place);
        let decided = h.pending.filter(yes);
        let k = choose|k: int| 0 <= k < decided.len() && decided[k] == op;
        let i = h.history.len() + k;
        assert(next.filed(h.pending)[k] == next.verdict(op));
        assert(next.history[i] == next.verdict(op));
        lemma_history_grows(next, (n - 1) as nat, i);
        assert(next.steps(0) == Some(next));
        assert(h.steps(1) == Some(next));
        (1nat, i)
    } else {
        let no = |o: PendingView| !next.decides(o);
        h.pending.lemma_filter_contains(no, place);
        let (k, i) = lemma_decided(next, op, (n - 1) as nat);
        assert(h.steps((k + 1) as nat) == next.steps(k));
        ((k + 1) as nat, i)
    }
}

/// An entry of an operation like this is counted.
proof fn lemma_counted(entries: Seq<HistoryEntryView>, i: int)
    requires
        0 <= i < entries.len(),
    ensures
        times_filed(entries, gist(entries[i])) >= 1,
    decreases entries.len(),
{
    if i < entries.len() - 1 {
        lemma_counted(entries.drop_last(), i);
        assert(entries.drop_last()[i] == entries[i]);
    }
}

/// Two entries of operations like this count twice.
proof fn lemma_counted_twice(entries: Seq<HistoryEntryView>, i: int, j: int)
    requires
        0 <= i < j < entries.len(),
        gist(entries[i]) == gist(entries[j]),
    ensures
        times_filed(entries, gist(entries[i])) >= 2,
    decreases entries.len(),
{
    let rest = entries.drop_last();
    assert(rest[i] == entries[i]);
    if j < entries.len() - 1 {
        assert(rest[j] == entries[j]);
        lemma_counted_twice(rest, i, j);
    } else {
        lemma_counted(rest, i);
    }
}

/// An operation that a live leader accepts is in the history once by its
/// deadline: applied or undecided, never rejected, and returned after it was
/// invoked. Where no other is like it, no other entry is.
pub proof fn accepted_operations_return_once(
    h: HarnessState,
    client: ClientId,
    target: NodeId,
    command: CommandView,
    n: nat,
) -> (at: (nat, int))
    requires
        h.accepts(target),
        h.submit(client, target, command) is Some,
        (h.submit(client, target, command)->0).steps(n) is Some,
        n >= 1,
        n >= h.apply_timeout_ticks,
    ensures
        ({
            let submitted = h.submit(client, target, command)->0;
            let end = submitted.steps(n)->0;
            let c: Gist = (client, h.net.clock, command);
            let entry = end.history[at.1];
            &&& submitted.history == h.history
            &&& decided_at(submitted, submitted.pending.last(), n, at.0, at.1)
            &&& gist(entry) == c
            &&& entry.return_tick == Some((h.net.clock + at.0) as u64)
            &&& h.net.clock < h.net.clock + at.0 <= h.net.clock + n
            &&& entry.outcome !is Rejected
            &&& times(end, c) == times(h, c) + 1
            &&& times(h, c) == 0 ==> times_filed(end.history, c) == 1 && times_pending(
                end.pending,
                c,
            ) == 0 && forall|j: int|
                0 <= j < end.history.len() && j != at.1 ==> gist(#[trigger] end.history[j]) != c
        }),
{
    let submitted = h.submit(client, target, command)->0;
    let op = submitted.pending.last();
    let c: Gist = (client, h.net.clock, command);
    let replica = h.replicas[target];
    lemma_route_clock(h.net, target, replica.propose(command).1, h.isolated);
    assert(submitted.net.clock == h.net.clock);
    assert(submitted.pending.drop_last() =~= h.pending);
    assert(submitted.pending[submitted.pending.len() - 1] == op);
    let at = lemma_decided(submitted, op, n);
    ticks_keep_count(submitted, n, c);
    let end = submitted.steps(n)->0;
    lemma_counted(end.history, at.1);
    assert forall|j: int|
        0 <= j < end.history.len() && j != at.1 && times(h, c) == 0 implies gist(
        #[trigger] end.history[j],
    ) != c by {
        if gist(end.history[j]) == c {
            if j < at.1 {
                lemma_counted_twice(end.history, j, at.1);
            } else {
                lemma_counted_twice(end.history, at.1, j);
            }
        }
    }
    at
}

/// A submission that is not accepted is in the history at once, as rejected.
pub proof fn refused_operations_are_rejected(
    h: HarnessState,
    client: ClientId,
    target: NodeId,
    command: CommandView,
)
    requires
        !h.accepts(target),
    ensures
        h.submit(client, target, command) matches Some(next) && next.history == h.history.push(
            (HistoryEntryView {
                client,
                invoke_tick: h.net.clock,
                return_tick: Some(h.net.clock),
                command,
                outcome: OutcomeView::Rejected,
            }),
        ) && next.pending == h.pending,
{
}

} // verus!
