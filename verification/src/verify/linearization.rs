//! The order of the committed entries explains every history that a harness
//! produces: it is linearizable.

use vstd::prelude::*;

use crate::kv::command;
use crate::kv::state_machine;
use crate::safety::facts;
use crate::safety::record;
use crate::safety::record::Record;
use crate::verify::accord;
use crate::verify::checker;
use crate::verify::harness::{HarnessState, PendingView};
use crate::verify::history::HistoryEntryView;
use crate::verify::ledger;
use crate::verify::ledger::{Book, Key};

verus! {

/// Where the operation behind the `i`th item of a history stands among its
/// operations.
pub open spec fn place(history: Seq<HistoryEntryView>, i: int) -> int {
    checker::ops_of(history.take(i)).len() as int
}

proof fn lemma_take_next(history: Seq<HistoryEntryView>, n: int)
    requires
        0 <= n < history.len(),
    ensures
        checker::ops_of(history.take(n + 1)) == match checker::op_of(history[n]) {
            Some(op) => checker::ops_of(history.take(n)).push(op),
            None => checker::ops_of(history.take(n)),
        },
{
    assert(history.take(n + 1).drop_last() =~= history.take(n));
    assert(history.take(n + 1).last() == history[n]);
}

/// The operation stands where it should.
proof fn lemma_place(history: Seq<HistoryEntryView>, i: int, n: int)
    requires
        0 <= i < n <= history.len(),
        checker::op_of(history[i]) is Some,
    ensures
        place(history, i) < checker::ops_of(history.take(n)).len(),
        checker::ops_of(history.take(n))[place(history, i)] == checker::op_of(history[i])->0,
    decreases n,
{
    lemma_take_next(history, n - 1);
    if i < n - 1 {
        lemma_place(history, i, n - 1);
    }
}

/// Two items have their operations at different places.
proof fn lemma_places_differ(history: Seq<HistoryEntryView>, i: int, j: int)
    requires
        0 <= i < j < history.len(),
        checker::op_of(history[i]) is Some,
    ensures
        place(history, i) < place(history, j),
{
    lemma_place(history, i, j);
}

/// Every operation is that of some item.
proof fn lemma_place_of(history: Seq<HistoryEntryView>, n: int, q: int) -> (i: int)
    requires
        0 <= n <= history.len(),
        0 <= q < checker::ops_of(history.take(n)).len(),
    ensures
        0 <= i < n,
        checker::op_of(history[i]) is Some,
        place(history, i) == q,
    decreases n,
{
    if n == 0 {
        assert(history.take(0) =~= Seq::empty());
        0
    } else {
        lemma_take_next(history, n - 1);
        if q < checker::ops_of(history.take(n - 1)).len() {
            lemma_place_of(history, n - 1, q)
        } else {
            n - 1
        }
    }
}

/// The entry behind each item of the finished history.
pub open spec fn all_tags(h: HarnessState, b: Book) -> Seq<Option<Key>> {
    b.tags + h.pending.map_values(|op: PendingView| Some(ledger::key_of(op)))
}

/// What filing says of the finished history.
proof fn lemma_finished(h: HarnessState, b: Book)
    requires
        ledger::ledger_filed(b, h.history, h.pending),
    ensures
        all_tags(h, b).len() == h.finished().len(),
        forall|i: int|
            0 <= i < h.finished().len() ==> match #[trigger] all_tags(h, b)[i] {
                Some(key) => b.ledger.contains_key(key) && b.ledger[key] == h.finished()[i],
                None => h.finished()[i].outcome is Rejected,
            },
        forall|i: int, j: int|
            0 <= i < j < h.finished().len() && (#[trigger] all_tags(h, b)[i]) is Some ==> all_tags(
                h,
                b,
            )[i] != #[trigger] all_tags(h, b)[j],
        forall|key: Key| #[trigger]
            b.ledger.contains_key(key) ==> all_tags(h, b).contains(Some(key)),
{
    reveal(ledger::ledger_filed);
    let tags = all_tags(h, b);
    let done = h.finished();
    let n = h.history.len() as int;
    assert forall|i: int| 0 <= i < done.len() implies match #[trigger] tags[i] {
        Some(key) => b.ledger.contains_key(key) && b.ledger[key] == done[i],
        None => done[i].outcome is Rejected,
    } by {
        if i < n {
            assert(tags[i] == b.tags[i]);
        } else {
            let op = h.pending[i - n];
            assert(tags[i] == Some(ledger::key_of(op)));
            assert(done[i] == ledger::undecided(op));
        }
    }
    assert forall|i: int, j: int|
        0 <= i < j < done.len() && (#[trigger] tags[i]) is Some implies tags[i]
        != #[trigger] tags[j] by {
        if i < n {
            assert(tags[i] == b.tags[i]);
            if j < n {
                assert(tags[j] == b.tags[j]);
            } else {
                assert(tags[j] == Some(ledger::key_of(h.pending[j - n])));
            }
        } else {
            assert(tags[i] == Some(ledger::key_of(h.pending[i - n])));
            assert(tags[j] == Some(ledger::key_of(h.pending[j - n])));
        }
    }
    let keys = h.pending.map_values(|op: PendingView| ledger::key_of(op));
    assert forall|key: Key| #[trigger] b.ledger.contains_key(key) implies tags.contains(
        Some(key),
    ) by {
        if b.tags.contains(Some(key)) {
            let i = choose|i: int| 0 <= i < b.tags.len() && b.tags[i] == Some(key);
            assert(tags[i] == Some(key));
        } else {
            let i = choose|i: int| 0 <= i < keys.len() && keys[i] == key;
            assert(tags[n + i] == Some(key));
        }
    }
}

/// The entry at a place among those committed.
pub open spec fn committed_key(b: Book, k: int) -> Key {
    (b.agreed[k].term, (k + 1) as u64)
}

/// The item of the finished history that a committed entry stands for.
pub open spec fn item_of(h: HarnessState, b: Book, k: int) -> int {
    choose|i: int| 0 <= i < all_tags(h, b).len() && all_tags(h, b)[i] == Some(committed_key(b, k))
}

/// The operations in the order of the entries committed.
pub open spec fn linear_order(h: HarnessState, b: Book) -> Seq<int> {
    Seq::new(b.agreed.len(), |k: int| place(h.finished(), item_of(h, b, k)))
}

/// Every committed entry stands for one item, whose command it holds.
proof fn lemma_item(h: HarnessState, b: Book, k: int)
    requires
        ledger::sound(h, b),
        0 <= k < b.agreed.len(),
    ensures
        ({
            let i = item_of(h, b, k);
            let key = committed_key(b, k);
            &&& 0 <= i < h.finished().len()
            &&& all_tags(h, b)[i] == Some(key)
            &&& b.ledger.contains_key(key)
            &&& b.ledger[key] == h.finished()[i]
            &&& ledger::landed(b.agreed, key)
            &&& checker::op_of(h.finished()[i]) is Some
            &&& ledger::command_at(b.agreed, k) == Some(h.finished()[i].command)
        }),
{
    let r = b.record;
    let term = b.agreed[k].term;
    ledger::lemma_agreed_rooted(h, b);
    assert(r.led(term) && record::agree(b.agreed, r.logs[term], k + 1)) by {
        reveal(Record::rooted);
    }
    facts::lemma_leader_terms(h.peers, r, term);
    assert(r.log_recorded(h.peers, term));
    assert(b.agreed[k] == r.logs[term][k]);
    if k < r.elected_with(term).len() {
        assert(r.elected_with(term)[k] == r.logs[term][k]);
    }
    lemma_agreed_fits(h, b);
    let key = committed_key(b, k);
    assert(b.ledger.contains_key((term, (k + 1) as u64)));
    lemma_finished(h, b);
    assert(all_tags(h, b).contains(Some(key)));
    let i = item_of(h, b, k);
    assert(all_tags(h, b)[i] == Some(key));
    assert(ledger::operation_matches(b, key, b.ledger[key], h.net.clock));
    let c = b.ledger[key].command;
    command::encoding_reads_back(c, Seq::empty());
    assert(c.encoded() + Seq::empty() =~= c.encoded());
}

/// An index among those committed fits.
proof fn lemma_agreed_fits(h: HarnessState, b: Book)
    requires
        accord::in_accord(h, b.record),
        ledger::agreement(h, b),
    ensures
        b.agreed.len() <= u64::MAX,
{
    let n = b.agreed.len() as int;
    if n > 0 {
        let r = b.record;
        let (by, upto, at) = choose|by: u64, upto: int, at: int| #[trigger]
            r.certified(h.peers, by, upto, at) && by <= u64::MAX && n <= upto && record::agree(
                b.agreed,
                r.logs[by],
                n,
            );
        assert(r.led(by));
        assert(r.log_recorded(h.peers, by));
    }
}

/// Replaying from the `k`th committed entry on reports what was observed.
proof fn lemma_replays(h: HarnessState, b: Book, k: int)
    requires
        ledger::sound(h, b),
        0 <= k <= b.agreed.len(),
    ensures
        checker::replays(
            checker::ops_of(h.finished()),
            linear_order(h, b).skip(k),
            ledger::replayed(b.agreed, k),
        ),
    decreases b.agreed.len() - k,
{
    let order = linear_order(h, b).skip(k);
    let ops = checker::ops_of(h.finished());
    if k < b.agreed.len() {
        lemma_item(h, b, k);
        lemma_replays(h, b, k + 1);
        let done = h.finished();
        let i = item_of(h, b, k);
        assert(done.take(done.len() as int) =~= done);
        lemma_place(done, i, done.len() as int);
        let op = ops[order[0]];
        assert(op == checker::op_of(done[i])->0);
        assert(order.drop_first() =~= linear_order(h, b).skip(k + 1));
        let key = committed_key(b, k);
        lemma_agreed_fits(h, b);
        assert(ledger::operation_matches(b, key, b.ledger[key], h.net.clock));
        assert(ledger::replayed(b.agreed, k + 1) == state_machine::after(
            ledger::replayed(b.agreed, k),
            op.command,
        ));
    }
}

/// The order of the committed entries explains the finished history.
pub proof fn lemma_linearizable(h: HarnessState, b: Book)
    requires
        ledger::sound(h, b),
    ensures
        checker::linearizable(h.finished()),
{
    let done = h.finished();
    let ops = checker::ops_of(done);
    let all = checker::positions(ops.len());
    let order = linear_order(h, b);
    let total = done.len() as int;
    assert(done.take(total) =~= done);
    lemma_finished(h, b);
    lemma_agreed_fits(h, b);
    assert forall|k: int| 0 <= k < order.len() implies all.contains(#[trigger] order[k]) by {
        lemma_item(h, b, k);
        lemma_place(done, item_of(h, b, k), total);
    }
    assert forall|x: int, y: int| 0 <= x < order.len() && 0 <= y < order.len() && x != y implies order[x]
        != order[y] by {
        lemma_item(h, b, x);
        lemma_item(h, b, y);
        let i = item_of(h, b, x);
        let j = item_of(h, b, y);
        assert(all_tags(h, b)[i] != all_tags(h, b)[j]);
        if i < j {
            lemma_places_differ(done, i, j);
        } else {
            lemma_places_differ(done, j, i);
        }
    }
    assert forall|q: int| #[trigger] all.contains(q) && !ops[q].optional implies order.contains(
        q,
    ) by {
        let i = lemma_place_of(done, total, q);
        lemma_place(done, i, total);
        assert(ops[q] == checker::op_of(done[i])->0);
        assert(all_tags(h, b)[i] is Some);
        let key = all_tags(h, b)[i]->0;
        assert(b.ledger.contains_key(key) && b.ledger[key] == done[i]);
        assert(ledger::operation_matches(b, key, b.ledger[key], h.net.clock));
        let k = key.1 - 1;
        assert(committed_key(b, k) == key);
        lemma_item(h, b, k);
        let j = item_of(h, b, k);
        if i < j {
            assert(all_tags(h, b)[i] != all_tags(h, b)[j]);
        } else if j < i {
            assert(all_tags(h, b)[j] != all_tags(h, b)[i]);
        }
        assert(order[k] == q);
    }
    assert forall|x: int, y: int| 0 <= x < y < order.len() implies !checker::precedes(
        ops[#[trigger] order[y]],
        ops[#[trigger] order[x]],
    ) by {
        lemma_item(h, b, x);
        lemma_item(h, b, y);
        lemma_place(done, item_of(h, b, x), total);
        lemma_place(done, item_of(h, b, y), total);
        let first = committed_key(b, y);
        let second = committed_key(b, x);
        assert(ops[order[y]] == checker::op_of(b.ledger[first])->0);
        assert(ops[order[x]] == checker::op_of(b.ledger[second])->0);
        if checker::precedes(ops[order[y]], ops[order[x]]) {
            assert(b.ledger.contains_key(first) && b.ledger.contains_key(second));
            assert(ledger::definite(b.ledger[first]));
            assert(first.1 < second.1 || (second.1 <= b.agreed.len() && !ledger::landed(
                b.agreed,
                second,
            )));
        }
    }
    lemma_replays(h, b, 0);
    assert(order.skip(0) =~= order);
    assert(checker::replays(ops, order, Map::empty()));
    assert(checker::explains(ops, all, Map::empty(), order));
}

} // verus!
