//! Whatever a harness does, the book of its clients' operations stays true.

use vstd::prelude::*;

use crate::kv::command;
use crate::kv::command::CommandView;
use crate::kv::replica;
use crate::kv::replica::ReplicaState;
use crate::kv::state_machine;
use crate::kv::state_machine::ApplyResultView;
use crate::raft::ids;
use crate::raft::types::{EventView, LogEntryView, LogPayloadView, NodeId};
use crate::safety::record;
use crate::safety::record::Record;
use crate::sim::durable;
use crate::sim::durable::DurableView;
use crate::sim::trace::EnvelopeView;
use crate::verify::accord;
use crate::verify::harness;
use crate::verify::harness::{HarnessState, PendingView};
use crate::verify::history::{ClientId, HistoryEntryView};
use crate::verify::ledger;
use crate::verify::ledger::{Book, Key};
use crate::verify::plain;

verus! {

/// Whether every operation was invoked before `clock`.
pub open spec fn invoked_before(b: Book, clock: u64) -> bool {
    forall|key: Key| #[trigger]
        b.ledger.contains_key(key) ==> b.ledger[key].invoke_tick < clock
}

/// A change that leaves the replicas and the history as they are.
proof fn lemma_nothing_moved(
    h: HarnessState,
    next: HarnessState,
    b: Book,
    open_ops: Seq<PendingView>,
)
    requires
        ledger::sound_with(h, b, open_ops),
        next.replicas == h.replicas,
        next.durable == h.durable,
        next.peers == h.peers,
        next.election_timeout == h.election_timeout,
        next.heartbeat_interval == h.heartbeat_interval,
        next.isolated.finite(),
        next.history == h.history,
        h.net.clock <= next.net.clock,
        forall|at: u64| #[trigger]
            next.net.inbox.contains_key(at) ==> h.net.inbox.contains_key(at)
                && next.net.inbox[at] == h.net.inbox[at],
    ensures
        ledger::sound_with(next, b, open_ops),
{
    accord::lemma_same_nodes(h, next, b.record);
    ledger::lemma_extended(b, b.record, b.agreed, h.net.clock, next.net.clock);
    assert(ledger::extended(b, b.record, b.agreed) =~= b);
}

/// Delivering messages.
proof fn lemma_deliver_all(h: HarnessState, b: Book, due: Seq<EnvelopeView>) -> (next: Book)
    requires
        ledger::sound(h, b),
        accord::envelopes_match(h.peers, b.record, due),
        h.deliver_all(due) is Some,
    ensures
        ledger::continues(b, next),
        ledger::sound(h.deliver_all(due)->0, next),
        next.ledger == b.ledger,
        h.deliver_all(due)->0.net.clock == h.net.clock,
        h.deliver_all(due)->0.peers == h.peers,
    decreases due.len(),
{
    if due.len() == 0 {
        b
    } else {
        let rest = due.drop_first();
        assert(accord::envelopes_match(h.peers, b.record, rest)) by {
            assert forall|i: int| 0 <= i < rest.len() implies accord::envelope_matches(
                h.peers,
                b.record,
                #[trigger] rest[i],
            ) by {
                assert(rest[i] == due[i + 1]);
            }
        }
        if !h.reaches(due[0]) {
            lemma_deliver_all(h, b, rest)
        } else {
            let noted = HarnessState { net: h.net.delivered(due[0]), ..h };
            lemma_nothing_moved(h, noted, b, h.pending);
            assert(accord::envelope_matches(h.peers, b.record, due[0]));
            let event = EventView::Step { from: due[0].from, message: due[0].message };
            let after = noted.transition(due[0].to, event)->0;
            let moved = ledger::lemma_event(noted, b, due[0].to, event, h.pending);
            accord::lemma_envelopes_stay(h.peers, b.record, moved.record, rest);
            let last = lemma_deliver_all(after, moved, rest);
            ledger::lemma_continues(b, moved, last);
            last
        }
    }
}

/// Ticking.
proof fn lemma_tick_all(h: HarnessState, b: Book, order: Seq<NodeId>) -> (next: Book)
    requires
        ledger::sound(h, b),
        h.tick_all(order) is Some,
    ensures
        ledger::continues(b, next),
        ledger::sound(h.tick_all(order)->0, next),
        next.ledger == b.ledger,
        h.tick_all(order)->0.net.clock == h.net.clock,
        h.tick_all(order)->0.peers == h.peers,
    decreases order.len(),
{
    if order.len() == 0 {
        b
    } else {
        let noted = HarnessState { net: h.net.ticked(order[0])->0, ..h };
        lemma_nothing_moved(h, noted, b, h.pending);
        let event = EventView::Tick { next_timeout: h.net.timeout() };
        let after = noted.transition(order[0], event)->0;
        let moved = ledger::lemma_event(noted, b, order[0], event, h.pending);
        let last = lemma_tick_all(after, moved, order.drop_first());
        ledger::lemma_continues(b, moved, last);
        last
    }
}

/// The book once an operation has been decided.
pub open spec fn decided(b: Book, key: Key, entry: HistoryEntryView) -> Book {
    Book { ledger: b.ledger.insert(key, entry), tags: b.tags.push(Some(key)), ..b }
}

/// An operation that has been decided moves from pending to the history.
proof fn lemma_filed_decided(
    b: Book,
    history: Seq<HistoryEntryView>,
    waiting: Seq<PendingView>,
    op: PendingView,
    rest: Seq<PendingView>,
    entry: HistoryEntryView,
)
    requires
        ledger::ledger_filed(b, history, waiting.push(op) + rest),
    ensures
        ledger::ledger_filed(
            decided(b, ledger::key_of(op), entry),
            history.push(entry),
            waiting + rest,
        ),
{
    reveal(ledger::ledger_filed);
    let key = ledger::key_of(op);
    let all = waiting.push(op) + rest;
    let left = waiting + rest;
    let next = decided(b, key, entry);
    let n = waiting.len() as int;
    let place = |i: int| if i < n { i } else { i + 1 };
    assert(all[n] == op);
    assert forall|i: int| 0 <= i < left.len() implies (#[trigger] left[i]) == all[place(i)] by {}
    assert forall|i: int| 0 <= i < history.push(entry).len() implies match #[trigger] next.tags[i] {
        Some(key) => next.ledger.contains_key(key) && next.ledger[key] == history.push(entry)[i],
        None => history.push(entry)[i].outcome is Rejected,
    } by {
        if i < history.len() {
            assert(next.tags[i] == b.tags[i]);
            assert(b.tags[i] != Some(ledger::key_of(all[n])));
        }
    }
    assert forall|i: int, j: int|
        0 <= i < j < next.tags.len() && (#[trigger] next.tags[i]) is Some implies next.tags[i]
        != #[trigger] next.tags[j] by {
        assert(next.tags[i] == b.tags[i]);
        if j < b.tags.len() {
            assert(next.tags[j] == b.tags[j]);
        } else {
            assert(b.tags[i] != Some(ledger::key_of(all[n])));
        }
    }
    assert forall|i: int| 0 <= i < left.len() implies next.ledger.contains_key(
        ledger::key_of(#[trigger] left[i]),
    ) && next.ledger[ledger::key_of(left[i])] == ledger::undecided(left[i]) by {
        let at = place(i);
        assert(left[i] == all[at]);
        if at < n {
            assert(ledger::key_of(all[at]) != ledger::key_of(all[n]));
        } else {
            assert(ledger::key_of(all[n]) != ledger::key_of(all[at]));
        }
    }
    assert forall|i: int, j: int| 0 <= i < j < left.len() implies ledger::key_of(
        #[trigger] left[i],
    ) != ledger::key_of(#[trigger] left[j]) by {
        assert(left[i] == all[place(i)]);
        assert(left[j] == all[place(j)]);
    }
    assert forall|i: int, j: int|
        0 <= i < next.tags.len() && 0 <= j < left.len() implies (#[trigger] next.tags[i]) != Some(
        ledger::key_of(#[trigger] left[j]),
    ) by {
        let at = place(j);
        assert(left[j] == all[at]);
        if i < b.tags.len() {
            assert(next.tags[i] == b.tags[i]);
        } else if at < n {
            assert(ledger::key_of(all[at]) != ledger::key_of(all[n]));
        } else {
            assert(ledger::key_of(all[n]) != ledger::key_of(all[at]));
        }
    }
    let keys = all.map_values(|op: PendingView| ledger::key_of(op));
    let left_keys = left.map_values(|op: PendingView| ledger::key_of(op));
    assert forall|k: Key| #[trigger] next.ledger.contains_key(k) implies next.tags.contains(Some(k))
        || left_keys.contains(k) by {
        if k == key {
            assert(next.tags[b.tags.len() as int] == Some(k));
        } else {
            assert(b.ledger.contains_key(k));
            if b.tags.contains(Some(k)) {
                let i = choose|i: int| 0 <= i < b.tags.len() && b.tags[i] == Some(k);
                assert(next.tags[i] == Some(k));
            } else {
                let i = choose|i: int| 0 <= i < keys.len() && keys[i] == k;
                assert(i != n);
                let j = if i < n {
                    i
                } else {
                    i - 1
                };
                assert(left_keys[j] == k);
            }
        }
    }
}

/// What an operation that has been applied reported is what the entries
/// committed before its own entail.
proof fn lemma_result(h: HarnessState, b: Book, op: PendingView, result: ApplyResultView)
    requires
        accord::in_accord(h, b.record),
        ledger::stores_current(h),
        ledger::agreement(h, b),
        ledger::ledger_matches(b, h.net.clock),
        b.ledger.contains_key(ledger::key_of(op)),
        b.ledger[ledger::key_of(op)].command == op.command,
        h.result_of(op) == Some(result),
    ensures
        ledger::landed(b.agreed, ledger::key_of(op)),
        result == state_machine::report(
            ledger::replayed(b.agreed, op.index - 1),
            op.command,
        ),
{
    let key = ledger::key_of(op);
    let up = h.replicas[op.target];
    let s = up.node;
    let r = b.record;
    assert(h.replicas.contains_key(op.target));
    assert(ledger::applied(up));
    ledger::lemma_up(h, r, op.target);
    let i = op.index - 1;
    assert(ledger::operation_matches(b, key, b.ledger[key], h.net.clock));
    assert(s.log[i].term == op.term);
    assert(record::agree(s.log, r.logs[op.term], i + 1)) by {
        reveal(Record::rooted);
    }
    assert(s.log[i] == r.logs[op.term][i]);
    assert(up.results.contains_key(op.index));
    command::encoding_reads_back(op.command, Seq::empty());
    assert(op.command.encoded() + Seq::empty() =~= op.command.encoded());
    assert(ledger::command_at(s.log, i) == Some(op.command));
    let n = s.commit_index as int;
    assert(record::agree(s.log, b.agreed, n));
    assert(s.log[i] == b.agreed[i]);
    ledger::lemma_replayed_alike(s.log, b.agreed, n, i);
}

/// One operation is resolved.
proof fn lemma_resolve(h: HarnessState, b: Book, op: PendingView, rest: Seq<PendingView>) -> (next:
    Book)
    requires
        ledger::sound_with(h, b, h.pending.push(op) + rest),
        invoked_before(b, h.net.clock),
    ensures
        ledger::continues(b, next),
        ledger::sound_with(h.resolve(op), next, h.resolve(op).pending + rest),
        invoked_before(next, h.net.clock),
        h.resolve(op).net.clock == h.net.clock,
        h.resolve(op).peers == h.peers,
{
    let after = h.resolve(op);
    let key = ledger::key_of(op);
    let open_ops = h.pending.push(op) + rest;
    assert(b.ledger.contains_key(key) && b.ledger[key] == ledger::undecided(op)) by {
        reveal(ledger::ledger_filed);
        assert(open_ops[h.pending.len() as int] == op);
    }
    if h.result_of(op) is None && h.net.clock < op.deadline {
        lemma_nothing_moved(h, after, b, open_ops);
        b
    } else {
        let entry = after.history.last();
        let next = decided(b, key, entry);
        accord::lemma_same_nodes(h, after, b.record);
        lemma_filed_decided(b, h.history, h.pending, op, rest, entry);
        assert(after.history =~= h.history.push(entry));
        if let Some(result) = h.result_of(op) {
            lemma_result(h, b, op, result);
        }
        assert(ledger::ledger_matches(next, h.net.clock)) by {
            assert forall|k: Key| #[trigger] next.ledger.contains_key(k) implies ledger::operation_matches(
                next,
                k,
                next.ledger[k],
                h.net.clock,
            ) by {
                assert(b.ledger.contains_key(k));
                assert(ledger::operation_matches(b, k, b.ledger[k], h.net.clock));
            }
        }
        assert(ledger::ledger_complete(next)) by {
            assert forall|term: u64, index: u64|
                next.record.led(term) && next.record.elected_with(term).len() < index
                    <= next.record.logs[term].len() implies #[trigger] next.ledger.contains_key(
                (term, index),
            ) by {
                assert(b.ledger.contains_key((term, index)));
            }
        }
        assert(ledger::ledger_ordered(next)) by {
            assert forall|first: Key, second: Key| #[trigger]
                next.ledger.contains_key(first) && #[trigger] next.ledger.contains_key(second)
                    && ledger::definite(next.ledger[first]) && next.ledger[first].return_tick->0
                    <= next.ledger[second].invoke_tick implies first.1 < second.1 || (second.1
                <= next.agreed.len() && !ledger::landed(next.agreed, second)) by {
                assert(b.ledger.contains_key(first) && b.ledger.contains_key(second));
                assert(next.ledger[second].invoke_tick == b.ledger[second].invoke_tick);
                if first == key {
                    assert(b.ledger[second].invoke_tick < h.net.clock);
                }
            }
        }
        next
    }
}

/// Operations are resolved one after the other.
proof fn lemma_resolve_all(h: HarnessState, b: Book, ops: Seq<PendingView>) -> (next: Book)
    requires
        ledger::sound_with(h, b, h.pending + ops),
        invoked_before(b, h.net.clock),
    ensures
        ledger::continues(b, next),
        ledger::sound(h.resolve_all(ops), next),
    decreases ops.len(),
{
    if ops.len() == 0 {
        assert(h.pending + ops =~= h.pending);
        b
    } else {
        let rest = ops.drop_first();
        assert(h.pending.push(ops[0]) + rest =~= h.pending + ops);
        let moved = lemma_resolve(h, b, ops[0], rest);
        let last = lemma_resolve_all(h.resolve(ops[0]), moved, rest);
        ledger::lemma_continues(b, moved, last);
        last
    }
}

/// One tick.
pub proof fn lemma_step(h: HarnessState, b: Book) -> (next: Book)
    requires
        ledger::sound(h, b),
        h.step() is Some,
    ensures
        ledger::continues(b, next),
        ledger::sound(h.step()->0, next),
{
    let net = h.net.advance()->0;
    let taken = HarnessState { net: net.without_due(), ..h };
    let due = net.due();
    lemma_nothing_moved(h, taken, b, h.pending);
    assert(accord::envelopes_match(taken.peers, b.record, due)) by {
        if h.net.inbox.contains_key(net.clock) {
            assert(accord::envelopes_match(h.peers, b.record, h.net.inbox[net.clock]));
        }
    }
    let delivered = taken.deliver_all(due)->0;
    let b1 = lemma_deliver_all(taken, b, due);
    let order = ids::sorted_ids(delivered.replicas.dom());
    let ticked = delivered.tick_all(order)->0;
    let b2 = lemma_tick_all(delivered, b1, order);
    assert(invoked_before(b2, ticked.net.clock)) by {
        assert forall|key: Key| #[trigger]
            b2.ledger.contains_key(key) implies b2.ledger[key].invoke_tick < ticked.net.clock by {
            assert(b.ledger.contains_key(key));
            assert(ledger::operation_matches(b, key, b.ledger[key], h.net.clock));
        }
    }
    let emptied = HarnessState { pending: Seq::empty(), ..ticked };
    lemma_nothing_moved(ticked, emptied, b2, ticked.pending);
    assert(emptied.pending + ticked.pending =~= ticked.pending);
    let last = lemma_resolve_all(emptied, b2, ticked.pending);
    ledger::lemma_continues(b, b1, b2);
    ledger::lemma_continues(b, b2, last);
    last
}

/// A rejected submission is recorded as such.
proof fn lemma_reject(h: HarnessState, b: Book, client: ClientId, command: CommandView) -> (next:
    Book)
    requires
        ledger::sound(h, b),
    ensures
        ledger::continues(b, next),
        ledger::sound(h.reject(client, command), next),
{
    let after = h.reject(client, command);
    let next = Book { tags: b.tags.push(None), ..b };
    accord::lemma_same_nodes(h, after, b.record);
    let entry = after.history.last();
    assert(after.history =~= h.history.push(entry));
    assert(ledger::ledger_filed(next, after.history, h.pending)) by {
        reveal(ledger::ledger_filed);
        assert forall|i: int| 0 <= i < after.history.len() implies match #[trigger] next.tags[i] {
            Some(key) => next.ledger.contains_key(key) && next.ledger[key] == after.history[i],
            None => after.history[i].outcome is Rejected,
        } by {
            if i < h.history.len() {
                assert(next.tags[i] == b.tags[i]);
            }
        }
        assert forall|key: Key| #[trigger] next.ledger.contains_key(key) implies next.tags.contains(
            Some(key),
        ) || h.pending.map_values(|op: PendingView| ledger::key_of(op)).contains(key) by {
            assert(b.ledger.contains_key(key));
            if b.tags.contains(Some(key)) {
                let i = choose|i: int| 0 <= i < b.tags.len() && b.tags[i] == Some(key);
                assert(next.tags[i] == Some(key));
            }
        }
    }
    assert(ledger::ledger_matches(next, h.net.clock)) by {
        assert forall|key: Key| #[trigger] next.ledger.contains_key(key) implies ledger::operation_matches(
            next,
            key,
            next.ledger[key],
            h.net.clock,
        ) by {
            assert(ledger::operation_matches(b, key, b.ledger[key], h.net.clock));
        }
    }
    next
}

/// The book with one more operation.
pub open spec fn opened(b: Book, op: PendingView) -> Book {
    Book { ledger: b.ledger.insert(ledger::key_of(op), ledger::undecided(op)), ..b }
}

proof fn lemma_filed_opened(
    b: Book,
    history: Seq<HistoryEntryView>,
    pending: Seq<PendingView>,
    op: PendingView,
)
    requires
        ledger::ledger_filed(b, history, pending),
        !b.ledger.contains_key(ledger::key_of(op)),
    ensures
        ledger::ledger_filed(opened(b, op), history, pending.push(op)),
{
    reveal(ledger::ledger_filed);
    let next = opened(b, op);
    let all = pending.push(op);
    let keys = all.map_values(|op: PendingView| ledger::key_of(op));
    let old_keys = pending.map_values(|op: PendingView| ledger::key_of(op));
    assert forall|key: Key| #[trigger] next.ledger.contains_key(key) implies next.tags.contains(
        Some(key),
    ) || keys.contains(key) by {
        if key == ledger::key_of(op) {
            assert(keys[pending.len() as int] == key);
        } else {
            assert(b.ledger.contains_key(key));
            if !b.tags.contains(Some(key)) {
                let i = choose|i: int| 0 <= i < old_keys.len() && old_keys[i] == key;
                assert(keys[i] == key);
            }
        }
    }
    assert forall|i: int, j: int| 0 <= i < j < all.len() implies ledger::key_of(#[trigger] all[i])
        != ledger::key_of(#[trigger] all[j]) by {
        assert(all[i] == pending[i]);
        if j < pending.len() {
            assert(all[j] == pending[j]);
        }
    }
    assert forall|i: int, j: int|
        0 <= i < next.tags.len() && 0 <= j < all.len() implies (#[trigger] next.tags[i]) != Some(
        ledger::key_of(#[trigger] all[j]),
    ) by {
        if j < pending.len() {
            assert(all[j] == pending[j]);
        } else if b.tags[i] is Some {
            assert(b.ledger.contains_key(b.tags[i]->0));
        }
    }
    assert forall|i: int| 0 <= i < all.len() implies next.ledger.contains_key(
        ledger::key_of(#[trigger] all[i]),
    ) && next.ledger[ledger::key_of(all[i])] == ledger::undecided(all[i]) by {
        if i < pending.len() {
            assert(all[i] == pending[i]);
        }
    }
}

/// A client submits a command.
pub proof fn lemma_submit(
    h: HarnessState,
    b: Book,
    client: ClientId,
    target: NodeId,
    command: CommandView,
) -> (next: Book)
    requires
        ledger::sound(h, b),
        h.submit(client, target, command) is Some,
        command.fits(),
    ensures
        ledger::continues(b, next),
        ledger::sound(h.submit(client, target, command)->0, next),
{
    if !h.accepts(target) {
        lemma_reject(h, b, client, command)
    } else {
        lemma_accept(h, b, client, target, command)
    }
}

/// A leader accepts a command.
proof fn lemma_accept(
    h: HarnessState,
    b: Book,
    client: ClientId,
    target: NodeId,
    command: CommandView,
) -> (next: Book)
    requires
        ledger::sound(h, b),
        h.submit(client, target, command) is Some,
        h.accepts(target),
        command.fits(),
    ensures
        ledger::continues(b, next),
        ledger::sound(h.submit(client, target, command)->0, next),
{
    let after = h.submit(client, target, command)->0;
    let up = h.replicas[target];
    let s = up.node;
    let payload = LogPayloadView::Command(command.encoded());
    harness::submission_keeps_pace(h, client, target, command);
    ledger::lemma_up(h, b.record, target);
    let r = accord::lemma_accept(h, b.record, client, target, command);
    let node = s.append_and_advance(payload).0;
    replica::catching_up_keeps_the_node(up.with_node(node));
    let agreed = ledger::agreed_with(b.agreed, node);
    plain::lemma_full(h.peers, r, node);
    ledger::lemma_agreement_moves(h, b, after, r, target);
    ledger::lemma_stores_move(h, after, target, node);
    ledger::lemma_extended(b, r, agreed, h.net.clock, h.net.clock);
    let grown = ledger::extended(b, r, agreed);
    let op = after.pending.last();
    assert(after.pending =~= h.pending.push(op));
    let key = ledger::key_of(op);
    assert(!b.ledger.contains_key(key)) by {
        if b.ledger.contains_key(key) {
            assert(ledger::operation_matches(b, key, b.ledger[key], h.net.clock));
        }
    }
    let next = opened(grown, op);
    assert(ledger::ledger_filed(next, h.history, after.pending)) by {
        assert(ledger::ledger_filed(grown, h.history, h.pending)) by {
            reveal(ledger::ledger_filed);
        }
        lemma_filed_opened(grown, h.history, h.pending, op);
    }
    lemma_opened(h, b, r, agreed, op, s.current_term, command);
    next
}

/// What the ledger says stays true with one more operation.
proof fn lemma_opened(
    h: HarnessState,
    b: Book,
    r: Record,
    agreed: Seq<LogEntryView>,
    op: PendingView,
    term: u64,
    command: CommandView,
)
    requires
        accord::in_accord(h, b.record),
        ledger::agreement(h, b),
        ledger::ledger_matches(b, h.net.clock),
        ledger::ledger_matches(ledger::extended(b, r, agreed), h.net.clock),
        ledger::ledger_complete(b),
        ledger::ledger_ordered(ledger::extended(b, r, agreed)),
        record::agree(b.agreed, agreed, b.agreed.len() as int),
        b.record.led(term),
        r == b.record.with_entry(
            term,
            (LogEntryView { term, payload: LogPayloadView::Command(command.encoded()) }),
        ),
        op.term == term,
        op.index == b.record.logs[term].len() + 1,
        op.command == command,
        op.invoke_tick == h.net.clock,
        command.fits(),
    ensures
        ledger::ledger_matches(opened(ledger::extended(b, r, agreed), op), h.net.clock),
        ledger::ledger_complete(opened(ledger::extended(b, r, agreed), op)),
        ledger::ledger_ordered(opened(ledger::extended(b, r, agreed), op)),
{
    let grown = ledger::extended(b, r, agreed);
    let next = opened(grown, op);
    let key = ledger::key_of(op);
    assert forall|k: Key| #[trigger] next.ledger.contains_key(k) implies ledger::operation_matches(
        next,
        k,
        next.ledger[k],
        h.net.clock,
    ) by {
        if k != key {
            assert(grown.ledger.contains_key(k));
            assert(ledger::operation_matches(grown, k, grown.ledger[k], h.net.clock));
        }
    }
    assert forall|t: u64, index: u64|
        r.led(t) && r.elected_with(t).len() < index <= r.logs[t].len() implies #[trigger] next.ledger.contains_key(
        (t, index),
    ) by {
        assert(b.record.led(t));
        assert(r.elected_with(t) == b.record.elected_with(t));
        if (t, index) != key {
            assert(index <= b.record.logs[t].len());
            assert(b.ledger.contains_key((t, index)));
        }
    }
    ledger::lemma_agreed_rooted(h, b);
    assert forall|first: Key, second: Key| #[trigger]
        next.ledger.contains_key(first) && #[trigger] next.ledger.contains_key(second)
            && ledger::definite(next.ledger[first]) && next.ledger[first].return_tick->0
            <= next.ledger[second].invoke_tick implies first.1 < second.1 || (second.1
        <= next.agreed.len() && !ledger::landed(next.agreed, second)) by {
        assert(first != key);
        assert(b.ledger.contains_key(first));
        if second == key {
            assert(ledger::operation_matches(b, first, b.ledger[first], h.net.clock));
            if key.1 <= b.agreed.len() {
                let i = key.1 - 1;
                assert(b.agreed[i] == agreed[i]);
                if b.agreed[i].term == term {
                    assert(record::agree(b.agreed, b.record.logs[term], i + 1)) by {
                        reveal(Record::rooted);
                    }
                }
            }
        } else {
            assert(grown.ledger.contains_key(first) && grown.ledger.contains_key(second));
        }
    }
}

/// A partition, or its end.
pub proof fn lemma_isolation(h: HarnessState, b: Book, id: NodeId)
    requires
        ledger::sound(h, b),
    ensures
        ledger::sound(h.isolate(id), b),
        ledger::sound(h.heal(id), b),
{
    lemma_nothing_moved(h, h.isolate(id), b, h.pending);
    lemma_nothing_moved(h, h.heal(id), b, h.pending);
}

/// A crash.
pub proof fn lemma_crash(h: HarnessState, b: Book, id: NodeId)
    requires
        ledger::sound(h, b),
    ensures
        ledger::sound(h.crash(id), b),
{
    let after = h.crash(id);
    accord::lemma_crash(h, b.record, id);
    assert forall|other: NodeId| #[trigger] after.replicas.contains_key(other) implies h.replicas.contains_key(
        other,
    ) && after.replicas[other] == h.replicas[other] by {}
}

/// A restart.
pub proof fn lemma_restart(h: HarnessState, b: Book, id: NodeId)
    requires
        ledger::sound(h, b),
    ensures
        ledger::sound(h.restart(id), b),
{
    let after = h.restart(id);
    accord::lemma_restart(h, b.record, id);
    if !h.replicas.contains_key(id) && h.peers.contains(id) {
        let back = accord::comes_back(h, id);
        let up = ReplicaState::fresh(back);
        assert(accord::node_of(h, id) == back);
        assert(accord::node_matches(h.peers, b.record, back));
        plain::lemma_full(h.peers, b.record, back);
        assert(up.caught_up() == up);
        assert(ledger::applied(up));
        assert forall|other: NodeId| #[trigger] after.replicas.contains_key(other)
            && other != id implies h.replicas.contains_key(other) && after.replicas[other]
            == h.replicas[other] by {}
    }
}

/// The book at the start.
pub open spec fn blank_book() -> Book {
    Book {
        record: Record::blank(),
        agreed: Seq::empty(),
        ledger: Map::empty(),
        tags: Seq::empty(),
    }
}

/// At the start the book is blank.
pub proof fn lemma_start(h: HarnessState)
    requires
        h.wf(),
        ids::ascending(h.peers),
        h.net.inbox == Map::<u64, Seq<EnvelopeView>>::empty(),
        h.history == Seq::<HistoryEntryView>::empty(),
        h.pending == Seq::<PendingView>::empty(),
        h.replicas == HarnessState::initial(
            h.peers,
            h.election_timeout,
            h.heartbeat_interval,
            h.net,
            h.apply_timeout_ticks,
        ).replicas,
    ensures
        ledger::sound(h, blank_book()),
{
    let b = blank_book();
    assert forall|id: NodeId| h.peers.contains(id) implies h.replicas.contains_key(id) && (
    #[trigger] h.replicas[id]).node == durable::recovered(
        DurableView::blank(),
        id,
        h.peers,
        h.election_timeout,
        h.heartbeat_interval,
    ) && ledger::applied(h.replicas[id]) by {
        let node = durable::recovered(
            DurableView::blank(),
            id,
            h.peers,
            h.election_timeout,
            h.heartbeat_interval,
        );
        let up = ReplicaState::fresh(node);
        assert(up.caught_up() == up);
    }
    accord::lemma_initial(h);
    reveal(ledger::ledger_filed);
}

} // verus!
