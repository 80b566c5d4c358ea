//! Which entry stands for which client operation, and what the committed
//! entries say each of them must have reported.

use vstd::prelude::*;

use crate::kv::command;
use crate::kv::command::CommandView;
use crate::kv::replica;
use crate::kv::replica::ReplicaState;
use crate::kv::state_machine;
use crate::raft::model::NodeState;
use crate::raft::types::{EventView, LogEntryView, LogPayloadView, NodeId};
use crate::safety::facts;
use crate::safety::growth;
use crate::safety::record;
use crate::safety::record::Record;
use crate::verify::accord;
use crate::verify::harness::{HarnessState, PendingView};
use crate::verify::history::{HistoryEntryView, OutcomeView};
use crate::verify::plain;

verus! {

/// An entry, by the term it was proposed in and its index.
pub type Key = (u64, u64);

/// The record of a cluster, and of its clients' operations.
#[verifier::ext_equal]
pub struct Book {
    pub record: Record,
    /// What is known to be committed.
    pub agreed: Seq<LogEntryView>,
    /// The operation behind each entry ever proposed, as its client sees it.
    pub ledger: Map<Key, HistoryEntryView>,
    /// The entry behind each item of the history, none for a rejected one.
    pub tags: Seq<Option<Key>>,
}

/// The command an entry holds, if it holds one.
pub open spec fn command_at(log: Seq<LogEntryView>, i: int) -> Option<CommandView> {
    match log[i].payload {
        LogPayloadView::Command(bytes) => match command::decoded(bytes) {
            Ok(c) => Some(c),
            Err(_) => None,
        },
        LogPayloadView::Configuration(_) => None,
    }
}

/// The store after the first `n` entries of a log.
pub open spec fn replayed(log: Seq<LogEntryView>, n: int) -> Map<Seq<u8>, Seq<u8>>
    decreases n,
{
    if n <= 0 {
        Map::empty()
    } else {
        match command_at(log, n - 1) {
            Some(c) => state_machine::after(replayed(log, n - 1), c),
            None => replayed(log, n - 1),
        }
    }
}

/// Logs that agree replay alike.
pub proof fn lemma_replayed_alike(
    a: Seq<LogEntryView>,
    b: Seq<LogEntryView>,
    n: int,
    m: int,
)
    requires
        record::agree(a, b, n),
        m <= n,
    ensures
        replayed(a, m) == replayed(b, m),
    decreases m,
{
    if m > 0 {
        lemma_replayed_alike(a, b, n, m - 1);
        assert(a[m - 1] == b[m - 1]);
    }
}

/// Whether the store and the results are those of the entries applied so far.
pub open spec fn applied_so_far(r: ReplicaState) -> bool {
    let log = r.node.log;
    &&& r.store.last_applied <= r.node.commit_index
    &&& r.store.entries == replayed(log, r.store.last_applied as int)
    &&& forall|index: u64| #[trigger]
        r.results.contains_key(index) ==> {
            &&& 1 <= index <= r.store.last_applied
            &&& command_at(log, index - 1) matches Some(c) && r.results[index]
                == state_machine::report(replayed(log, index - 1), c)
        }
}

/// Whether every committed entry has been applied.
pub open spec fn applied(r: ReplicaState) -> bool {
    applied_so_far(r) && r.store.last_applied == r.node.commit_index
}

proof fn lemma_drained(r: ReplicaState)
    requires
        applied_so_far(r),
        r.node.boundary() == 0,
        r.node.commit_index <= r.node.log.len(),
    ensures
        applied(r.drained()),
        r.drained().node == r.node,
    decreases r.node.commit_index - r.store.last_applied,
{
    if r.store.last_applied < r.node.commit_index {
        let done = r.store.last_applied as int;
        let entry = r.node.log[done];
        assert(r.next_entry() == Some(entry));
        lemma_drained(r.apply_entry(entry));
    }
}

/// A replica that keeps what it has committed applies the rest.
proof fn lemma_applied_moves(before: ReplicaState, node: NodeState)
    requires
        applied(before),
        record::agree(before.node.log, node.log, before.node.commit_index as int),
        before.node.commit_index <= node.commit_index <= node.log.len(),
        node.boundary() == 0,
    ensures
        applied(before.with_node(node).caught_up()),
        before.with_node(node).caught_up().node == node,
{
    let moved = before.with_node(node);
    let n = before.node.commit_index as int;
    lemma_replayed_alike(before.node.log, node.log, n, n);
    assert forall|index: u64| #[trigger] moved.results.contains_key(index) implies {
        &&& 1 <= index <= moved.store.last_applied
        &&& command_at(node.log, index - 1) matches Some(c) && moved.results[index]
            == state_machine::report(replayed(node.log, index - 1), c)
    } by {
        assert(before.results.contains_key(index));
        assert(before.node.log[index - 1] == node.log[index - 1]);
        lemma_replayed_alike(before.node.log, node.log, n, index - 1);
    }
    lemma_drained(moved);
}

/// The entry behind a pending operation.
pub open spec fn key_of(op: PendingView) -> Key {
    (op.term, op.index)
}

/// A pending operation as its client would see it now.
pub open spec fn undecided(op: PendingView) -> HistoryEntryView {
    HarnessState::entry_of(op, None, OutcomeView::Indeterminate)
}

/// Whether an operation's client knows what it reported.
pub open spec fn definite(entry: HistoryEntryView) -> bool {
    entry.outcome is Applied
}

/// Whether the entry is among those known to be committed.
pub open spec fn landed(agreed: Seq<LogEntryView>, key: Key) -> bool {
    1 <= key.1 <= agreed.len() && agreed[key.1 - 1].term == key.0
}

/// Whether an operation is the one behind its entry and, if its client knows
/// what it reported, has landed and reported just that.
pub open spec fn operation_matches(b: Book, key: Key, entry: HistoryEntryView, clock: u64) -> bool {
    let log = b.record.logs[key.0];
    &&& b.record.led(key.0)
    &&& 1 <= key.1 <= log.len()
    &&& log[key.1 - 1] == (LogEntryView {
        term: key.0,
        payload: LogPayloadView::Command(entry.command.encoded()),
    })
    &&& entry.command.fits()
    &&& entry.invoke_tick <= clock
    &&& entry.outcome !is Rejected
    &&& entry.outcome matches OutcomeView::Applied(result) ==> {
        &&& entry.return_tick is Some
        &&& landed(b.agreed, key)
        &&& result == state_machine::report(replayed(b.agreed, key.1 - 1), entry.command)
    }
}

pub open spec fn ledger_matches(b: Book, clock: u64) -> bool {
    forall|key: Key| #[trigger]
        b.ledger.contains_key(key) ==> operation_matches(b, key, b.ledger[key], clock)
}

/// Whether every entry that a leader appended has its operation.
pub open spec fn ledger_complete(b: Book) -> bool {
    forall|term: u64, index: u64|
        b.record.led(term) && b.record.elected_with(term).len() < index
            <= b.record.logs[term].len() ==> #[trigger] b.ledger.contains_key((term, index))
}

/// Whether the order of the entries that land is one in time: an operation
/// that was invoked when another had returned comes behind it, unless it has
/// been passed over.
pub open spec fn ledger_ordered(b: Book) -> bool {
    forall|first: Key, second: Key| #[trigger]
        b.ledger.contains_key(first) && #[trigger] b.ledger.contains_key(second) && definite(
            b.ledger[first],
        ) && b.ledger[first].return_tick->0 <= b.ledger[second].invoke_tick ==> first.1 < second.1
            || (second.1 <= b.agreed.len() && !landed(b.agreed, second))
}

/// Whether history and pending operations are just the operations in the
/// ledger.
#[verifier::opaque]
pub open spec fn ledger_filed(
    b: Book,
    history: Seq<HistoryEntryView>,
    open_ops: Seq<PendingView>,
) -> bool {
    &&& b.tags.len() == history.len()
    &&& forall|i: int|
        0 <= i < history.len() ==> match #[trigger] b.tags[i] {
            Some(key) => b.ledger.contains_key(key) && b.ledger[key] == history[i],
            None => history[i].outcome is Rejected,
        }
    &&& forall|i: int, j: int|
        0 <= i < j < b.tags.len() && (#[trigger] b.tags[i]) is Some ==> b.tags[i]
            != #[trigger] b.tags[j]
    &&& forall|i: int|
        0 <= i < open_ops.len() ==> b.ledger.contains_key(key_of(#[trigger] open_ops[i]))
            && b.ledger[key_of(open_ops[i])] == undecided(open_ops[i])
    &&& forall|i: int, j: int|
        0 <= i < j < open_ops.len() ==> key_of(#[trigger] open_ops[i]) != key_of(
            #[trigger] open_ops[j],
        )
    &&& forall|i: int, j: int|
        0 <= i < b.tags.len() && 0 <= j < open_ops.len() ==> (#[trigger] b.tags[i]) != Some(
            key_of(#[trigger] open_ops[j]),
        )
    &&& forall|key: Key| #[trigger]
        b.ledger.contains_key(key) ==> b.tags.contains(Some(key)) || open_ops.map_values(
            |op: PendingView| key_of(op),
        ).contains(key)
}

/// Whether what is known to be committed is certified, and every node that is
/// up has committed part of it.
pub open spec fn agreement(h: HarnessState, b: Book) -> bool {
    &&& b.record.committed(h.peers, u64::MAX, b.agreed.len() as int, b.agreed)
    &&& forall|id: NodeId| #[trigger]
        h.replicas.contains_key(id) ==> record::agree(
            h.replicas[id].node.log,
            b.agreed,
            h.replicas[id].node.commit_index as int,
        )
}

/// Whether every node that is up has applied what it has committed.
pub open spec fn stores_current(h: HarnessState) -> bool {
    forall|id: NodeId| #[trigger] h.replicas.contains_key(id) ==> applied(h.replicas[id])
}

/// Whether the book is true of the harness, with these operations pending.
pub open spec fn sound_with(h: HarnessState, b: Book, open_ops: Seq<PendingView>) -> bool {
    &&& accord::in_accord(h, b.record)
    &&& stores_current(h)
    &&& agreement(h, b)
    &&& ledger_matches(b, h.net.clock)
    &&& ledger_complete(b)
    &&& ledger_ordered(b)
    &&& ledger_filed(b, h.history, open_ops)
}

/// Whether the book is true of the harness.
pub open spec fn sound(h: HarnessState, b: Book) -> bool {
    sound_with(h, b, h.pending)
}

/// Whether `next` knows of everything that `b` does: nothing decided is undone,
/// nothing committed is lost.
pub open spec fn continues(b: Book, next: Book) -> bool {
    &&& b.record.grows_to(next.record)
    &&& record::agree(b.agreed, next.agreed, b.agreed.len() as int)
}

/// Continuing twice is continuing.
pub proof fn lemma_continues(a: Book, b: Book, c: Book)
    requires
        continues(a, b),
        continues(b, c),
    ensures
        continues(a, c),
{
    growth::lemma_grows(a.record, b.record, c.record);
    assert forall|j: int| 0 <= j < a.agreed.len() implies a.agreed[j] == c.agreed[j] by {
        assert(a.agreed[j] == b.agreed[j]);
        assert(b.agreed[j] == c.agreed[j]);
    }
}

/// What is known to be committed stems from leaders.
pub proof fn lemma_agreed_rooted(h: HarnessState, b: Book)
    requires
        accord::in_accord(h, b.record),
        agreement(h, b),
    ensures
        b.record.rooted(b.agreed),
{
    reveal(Record::rooted);
    let r = b.record;
    let n = b.agreed.len() as int;
    if n > 0 {
        let (by, upto, at) = choose|by: u64, upto: int, at: int| #[trigger]
            r.certified(h.peers, by, upto, at) && by <= u64::MAX && n <= upto && record::agree(
                b.agreed,
                r.logs[by],
                n,
            );
        assert(r.led(by));
        assert(r.log_recorded(h.peers, by));
        assert forall|i: int| 0 <= i < n implies r.led((#[trigger] b.agreed[i]).term)
            && record::agree(b.agreed, r.logs[b.agreed[i].term], i + 1) by {
            assert(b.agreed[i] == r.logs[by][i]);
            assert(record::agree(r.logs[by], r.logs[r.logs[by][i].term], i + 1));
        }
    }
}

/// A node that is up is as recorded, with its whole log.
pub proof fn lemma_up(h: HarnessState, r: Record, id: NodeId)
    requires
        accord::in_accord(h, r),
        h.replicas.contains_key(id),
    ensures
        h.replicas[id].node.id == id,
        accord::node_matches(h.peers, r, h.replicas[id].node),
        r.full(h.replicas[id].node) == h.replicas[id].node.log,
{
    let s = h.replicas[id].node;
    assert(h.tracks(id, s));
    assert(h.peers.to_set().contains(id));
    assert(accord::node_of(h, id) == s);
    plain::lemma_full(h.peers, r, s);
}

/// The book with a further record, and more known to be committed.
pub open spec fn extended(b: Book, r: Record, agreed: Seq<LogEntryView>) -> Book {
    Book { record: r, agreed, ..b }
}

/// What is known to be committed, once a node has committed further.
pub open spec fn agreed_with(agreed: Seq<LogEntryView>, s: NodeState) -> Seq<LogEntryView> {
    if s.commit_index > agreed.len() {
        s.log.take(s.commit_index as int)
    } else {
        agreed
    }
}

/// What the ledger says stays true as the record grows and more is committed.
pub proof fn lemma_extended(b: Book, r: Record, agreed: Seq<LogEntryView>, clock: u64, later: u64)
    requires
        b.record.grows_to(r),
        record::agree(b.agreed, agreed, b.agreed.len() as int),
        ledger_matches(b, clock),
        ledger_ordered(b),
        clock <= later,
    ensures
        ledger_matches(extended(b, r, agreed), later),
        ledger_ordered(extended(b, r, agreed)),
{
    let next = extended(b, r, agreed);
    assert forall|key: Key| #[trigger] next.ledger.contains_key(key) implies operation_matches(
        next,
        key,
        next.ledger[key],
        later,
    ) by {
        assert(operation_matches(b, key, b.ledger[key], clock));
        assert(b.record.led(key.0));
        assert(b.record.logs[key.0][key.1 - 1] == r.logs[key.0][key.1 - 1]);
        if definite(b.ledger[key]) {
            assert(b.agreed[key.1 - 1] == agreed[key.1 - 1]);
            lemma_replayed_alike(b.agreed, agreed, b.agreed.len() as int, key.1 - 1);
        }
    }
    assert forall|first: Key, second: Key| #[trigger]
        next.ledger.contains_key(first) && #[trigger] next.ledger.contains_key(second) && definite(
            next.ledger[first],
        ) && next.ledger[first].return_tick->0 <= next.ledger[second].invoke_tick implies first.1
        < second.1 || (second.1 <= next.agreed.len() && !landed(next.agreed, second)) by {
        assert(b.ledger.contains_key(first) && b.ledger.contains_key(second));
        if first.1 >= second.1 {
            assert(second.1 <= b.agreed.len() && !landed(b.agreed, second));
            if second.1 >= 1 {
                assert(b.agreed[second.1 - 1] == agreed[second.1 - 1]);
            }
        }
    }
}

/// A node that has moved leaves all agreed on what is committed.
pub proof fn lemma_agreement_moves(
    h: HarnessState,
    b: Book,
    next: HarnessState,
    r: Record,
    id: NodeId,
)
    requires
        accord::in_accord(h, b.record),
        agreement(h, b),
        accord::in_accord(next, r),
        b.record.grows_to(r),
        next.peers == h.peers,
        next.replicas == h.replicas.insert(id, next.replicas[id]),
    ensures
        ({
            let agreed = agreed_with(b.agreed, next.replicas[id].node);
            &&& record::agree(b.agreed, agreed, b.agreed.len() as int)
            &&& agreement(next, extended(b, r, agreed))
        }),
{
    let peers = h.peers;
    let s = next.replicas[id].node;
    assert(next.replicas.contains_key(id));
    lemma_up(next, r, id);
    let agreed = agreed_with(b.agreed, s);
    let n = b.agreed.len() as int;
    let c = s.commit_index as int;
    growth::lemma_committed_grows(peers, b.record, r, u64::MAX, n, b.agreed, u64::MAX);
    growth::lemma_committed_grows(peers, r, r, s.current_term, c, s.log, u64::MAX);
    if c > n {
        if n > 0 {
            facts::committed_entries_agree(peers, r, u64::MAX, n, b.agreed, u64::MAX, c, s.log);
        }
        growth::lemma_committed_elsewhere(peers, r, u64::MAX, c, s.log, agreed);
    } else if c > 0 {
        facts::committed_entries_agree(peers, r, u64::MAX, c, s.log, u64::MAX, n, b.agreed);
    }
    assert(record::agree(b.agreed, agreed, n));
    assert(record::agree(s.log, agreed, c));
    assert forall|other: NodeId| #[trigger] next.replicas.contains_key(other) implies record::agree(
        next.replicas[other].node.log,
        agreed,
        next.replicas[other].node.commit_index as int,
    ) by {
        if other != id {
            assert(h.replicas.contains_key(other));
            let node = h.replicas[other].node;
            assert(record::agree(node.log, b.agreed, node.commit_index as int));
            assert forall|j: int| 0 <= j < node.commit_index implies node.log[j] == agreed[j] by {
                assert(node.log[j] == b.agreed[j]);
                assert(b.agreed[j] == agreed[j]);
            }
        }
    }
}

/// Where no leader appends, every entry still has its operation.
proof fn lemma_still_complete(b: Book, r: Record, agreed: Seq<LogEntryView>)
    requires
        ledger_complete(b),
        b.record.adds_no_entry(r),
    ensures
        ledger_complete(extended(b, r, agreed)),
{
    assert forall|term: u64, index: u64|
        r.led(term) && r.elected_with(term).len() < index <= r.logs[term].len() implies #[trigger] b.ledger.contains_key(
        (term, index),
    ) by {
        assert(r.led(term));
    }
}

/// Filing does not depend on the record.
proof fn lemma_still_filed(
    b: Book,
    r: Record,
    agreed: Seq<LogEntryView>,
    history: Seq<HistoryEntryView>,
    open_ops: Seq<PendingView>,
)
    requires
        ledger_filed(b, history, open_ops),
    ensures
        ledger_filed(extended(b, r, agreed), history, open_ops),
{
    reveal(ledger_filed);
}

/// A replica that has moved has applied what it has committed.
pub proof fn lemma_stores_move(h: HarnessState, next: HarnessState, id: NodeId, node: NodeState)
    requires
        stores_current(h),
        h.replicas.contains_key(id),
        next.replicas == h.replicas.insert(id, h.replicas[id].with_node(node).caught_up()),
        record::agree(h.replicas[id].node.log, node.log, h.replicas[id].node.commit_index as int),
        h.replicas[id].node.commit_index <= node.commit_index <= node.log.len(),
        node.boundary() == 0,
    ensures
        stores_current(next),
{
    lemma_applied_moves(h.replicas[id], node);
    assert forall|other: NodeId| #[trigger] next.replicas.contains_key(other) implies applied(
        next.replicas[other],
    ) by {
        if other != id {
            assert(h.replicas.contains_key(other));
        }
    }
}

/// One event at one node.
pub proof fn lemma_event(
    h: HarnessState,
    b: Book,
    id: NodeId,
    event: EventView,
    open_ops: Seq<PendingView>,
) -> (next: Book)
    requires
        sound_with(h, b, open_ops),
        h.transition(id, event) is Some,
        event matches EventView::Step { from, message } ==> record::message_matches(
            h.peers,
            b.record,
            from,
            id,
            message,
        ) && plain::message_is_plain(message),
    ensures
        sound_with(h.transition(id, event)->0, next, open_ops),
        continues(b, next),
        next.ledger == b.ledger,
        h.transition(id, event)->0.net.clock == h.net.clock,
        h.transition(id, event)->0.peers == h.peers,
{
    let after = h.transition(id, event)->0;
    let r = accord::lemma_transition(h, b.record, id, event);
    let s = h.replicas[id].node;
    let node = after.replicas[id].node;
    lemma_up(h, b.record, id);
    plain::lemma_full(h.peers, r, node);
    let agreed = agreed_with(b.agreed, node);
    let next = extended(b, r, agreed);
    lemma_agreement_moves(h, b, after, r, id);
    lemma_extended(b, r, agreed, h.net.clock, h.net.clock);
    lemma_still_complete(b, r, agreed);
    lemma_still_filed(b, r, agreed, h.history, open_ops);
    replica::catching_up_keeps_the_node(h.replicas[id].with_node(s.step(event).0));
    lemma_stores_move(h, after, id, node);
    next
}

} // verus!
