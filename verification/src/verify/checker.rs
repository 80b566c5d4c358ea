//! Whether a history is linearizable.

use std::collections::BTreeMap;

use vstd::prelude::*;

use crate::kv::command::{Command, CommandView};
use crate::kv::state_machine;
use crate::kv::state_machine::{ApplyResult, ApplyResultView, StateMachine};
use crate::verify::history;
use crate::verify::history::{HistoryEntry, HistoryEntryView, Outcome, OutcomeView};

verus! {

/// How many operations a history may hold to be checked.
pub const MAX_OPERATIONS: usize = 128;

/// One operation as the checker sees it. A definite operation has a return
/// value that must match; an optional one may never have taken effect, and
/// its client observed no value.
#[verifier::ext_equal]
pub struct OpView {
    pub invoke: u64,
    pub finish: Option<u64>,
    pub command: CommandView,
    pub expected: Option<ApplyResultView>,
    pub optional: bool,
}

/// The operation behind a history entry; none behind a rejected one, which
/// never took effect.
pub open spec fn op_of(entry: HistoryEntryView) -> Option<OpView> {
    match entry.outcome {
        OutcomeView::Rejected => None,
        OutcomeView::Applied(result) => Some(
            OpView {
                invoke: entry.invoke_tick,
                finish: entry.return_tick,
                command: entry.command,
                expected: Some(result),
                optional: false,
            },
        ),
        OutcomeView::Indeterminate => Some(
            OpView {
                invoke: entry.invoke_tick,
                finish: None,
                command: entry.command,
                expected: None,
                optional: true,
            },
        ),
    }
}

/// The operations of a history, in its order.
pub open spec fn ops_of(history: Seq<HistoryEntryView>) -> Seq<OpView>
    decreases history.len(),
{
    if history.len() == 0 {
        Seq::empty()
    } else {
        match op_of(history.last()) {
            Some(op) => ops_of(history.drop_last()).push(op),
            None => ops_of(history.drop_last()),
        }
    }
}

/// Whether `a` must take effect before `b`: it is definite, and had returned
/// when `b` was invoked.
pub open spec fn precedes(a: OpView, b: OpView) -> bool {
    !a.optional && match a.finish {
        Some(finish) => finish <= b.invoke,
        None => false,
    }
}

/// Whether no operation comes after one that it precedes.
pub open spec fn respects_time(ops: Seq<OpView>, order: Seq<int>) -> bool {
    forall|x: int, y: int|
        0 <= x < y < order.len() ==> !precedes(ops[#[trigger] order[y]], ops[#[trigger] order[x]])
}

/// Whether the operations, applied in `order` from `entries` on, report what
/// their clients observed.
pub open spec fn replays(ops: Seq<OpView>, order: Seq<int>, entries: Map<Seq<u8>, Seq<u8>>) -> bool
    decreases order.len(),
{
    order.len() > 0 ==> {
        let op = ops[order[0]];
        &&& op.expected matches Some(expected) ==> expected == state_machine::report(
            entries,
            op.command,
        )
        &&& replays(ops, order.drop_first(), state_machine::after(entries, op.command))
    }
}

/// Whether `order` explains the operations in `remaining`, from `entries` on:
/// all the definite ones and some of the optional ones, each once, in an order
/// that respects time and reports what was observed.
pub open spec fn explains(
    ops: Seq<OpView>,
    remaining: Set<int>,
    entries: Map<Seq<u8>, Seq<u8>>,
    order: Seq<int>,
) -> bool {
    &&& order.no_duplicates()
    &&& forall|k: int| 0 <= k < order.len() ==> remaining.contains(#[trigger] order[k])
    &&& forall|i: int| #[trigger]
        remaining.contains(i) && !ops[i].optional ==> order.contains(i)
    &&& respects_time(ops, order)
    &&& replays(ops, order, entries)
}

/// Whether some order explains the operations in `remaining`.
pub open spec fn explainable(
    ops: Seq<OpView>,
    remaining: Set<int>,
    entries: Map<Seq<u8>, Seq<u8>>,
) -> bool {
    exists|order: Seq<int>| explains(ops, remaining, entries, order)
}

/// All positions in a sequence of length `n`.
pub open spec fn positions(n: nat) -> Set<int> {
    Set::new(|i: int| 0 <= i < n)
}

/// Whether a history is linearizable: some order of its operations explains
/// it, from an empty store on.
pub open spec fn linearizable(history: Seq<HistoryEntryView>) -> bool {
    explainable(ops_of(history), positions(ops_of(history).len()), Map::empty())
}

/// Whether something remaining must come before `i`.
pub open spec fn blocked(ops: Seq<OpView>, remaining: Set<int>, i: int) -> bool {
    exists|j: int| #[trigger] remaining.contains(j) && j != i && precedes(ops[j], ops[i])
}

/// Whether `i` can be skipped next, and the rest explained.
pub open spec fn skips(
    ops: Seq<OpView>,
    remaining: Set<int>,
    entries: Map<Seq<u8>, Seq<u8>>,
    i: int,
) -> bool {
    ops[i].optional && explainable(ops, remaining.remove(i), entries)
}

/// Whether `i` can take effect next, and the rest be explained after it.
pub open spec fn takes(
    ops: Seq<OpView>,
    remaining: Set<int>,
    entries: Map<Seq<u8>, Seq<u8>>,
    i: int,
) -> bool {
    &&& ops[i].expected matches Some(expected) ==> expected == state_machine::report(
        entries,
        ops[i].command,
    )
    &&& explainable(
        ops,
        remaining.remove(i),
        state_machine::after(entries, ops[i].command),
    )
}

/// Whether `i` can come next.
pub open spec fn continues(
    ops: Seq<OpView>,
    remaining: Set<int>,
    entries: Map<Seq<u8>, Seq<u8>>,
    i: int,
) -> bool {
    &&& remaining.contains(i)
    &&& !blocked(ops, remaining, i)
    &&& skips(ops, remaining, entries, i) || takes(ops, remaining, entries, i)
}

/// What can be continued can be explained.
proof fn lemma_continues(
    ops: Seq<OpView>,
    remaining: Set<int>,
    entries: Map<Seq<u8>, Seq<u8>>,
    i: int,
)
    requires
        continues(ops, remaining, entries, i),
    ensures
        explainable(ops, remaining, entries),
{
    let rest = remaining.remove(i);
    if skips(ops, remaining, entries, i) {
        let order = choose|order: Seq<int>| explains(ops, rest, entries, order);
        assert forall|k: int| 0 <= k < order.len() implies remaining.contains(
            #[trigger] order[k],
        ) by {
            assert(rest.contains(order[k]));
        }
        assert forall|j: int| #[trigger] remaining.contains(j) && !ops[j].optional implies order.contains(j) by {
            assert(rest.contains(j));
        }
        assert(explains(ops, remaining, entries, order));
    } else {
        let after = state_machine::after(entries, ops[i].command);
        let tail = choose|order: Seq<int>| explains(ops, rest, after, order);
        let order = seq![i] + tail;
        assert(order.drop_first() =~= tail);
        assert forall|k: int| 0 <= k < order.len() implies remaining.contains(
            #[trigger] order[k],
        ) by {
            if k > 0 {
                assert(rest.contains(tail[k - 1]));
            }
        }
        assert forall|x: int, y: int| 0 <= x < order.len() && 0 <= y < order.len() && x != y implies order[x]
            != order[y] by {
            if x > 0 && y > 0 {
                assert(tail[x - 1] != tail[y - 1]);
            } else if x > 0 {
                assert(rest.contains(tail[x - 1]));
            } else {
                assert(rest.contains(tail[y - 1]));
            }
        }
        assert forall|j: int| #[trigger] remaining.contains(j) && !ops[j].optional implies order.contains(j) by {
            if j == i {
                assert(order[0] == j);
            } else {
                assert(rest.contains(j));
                let k = choose|k: int| 0 <= k < tail.len() && tail[k] == j;
                assert(order[k + 1] == j);
            }
        }
        assert forall|x: int, y: int| 0 <= x < y < order.len() implies !precedes(
            ops[#[trigger] order[y]],
            ops[#[trigger] order[x]],
        ) by {
            assert(rest.contains(tail[y - 1]));
            if x > 0 {
                assert(!precedes(ops[tail[y - 1]], ops[tail[x - 1]]));
            } else {
                assert(remaining.contains(order[y]));
            }
        }
        assert(explains(ops, remaining, entries, order));
    }
}

/// What can be explained, with something left to explain, can be continued.
proof fn lemma_explained(ops: Seq<OpView>, remaining: Set<int>, entries: Map<Seq<u8>, Seq<u8>>) -> (i:
    int)
    requires
        explainable(ops, remaining, entries),
        exists|i: int| remaining.contains(i),
    ensures
        continues(ops, remaining, entries, i),
{
    let order = choose|order: Seq<int>| explains(ops, remaining, entries, order);
    if order.len() == 0 {
        let i = choose|i: int| remaining.contains(i);
        let rest = remaining.remove(i);
        assert(!order.contains(i));
        assert forall|j: int| #[trigger] remaining.contains(j) implies ops[j].optional by {
            assert(!order.contains(j));
        }
        assert forall|j: int| #[trigger] rest.contains(j) && !ops[j].optional implies order.contains(j) by {
            assert(remaining.contains(j));
        }
        assert(explains(ops, rest, entries, order));
        i
    } else {
        let i = order[0];
        let rest = remaining.remove(i);
        let tail = order.drop_first();
        let after = state_machine::after(entries, ops[i].command);
        assert(remaining.contains(i));
        assert(!blocked(ops, remaining, i)) by {
            if blocked(ops, remaining, i) {
                let j = choose|j: int| #[trigger]
                    remaining.contains(j) && j != i && precedes(ops[j], ops[i]);
                assert(order.contains(j));
                let k = choose|k: int| 0 <= k < order.len() && order[k] == j;
                assert(!precedes(ops[order[k]], ops[order[0]]));
            }
        }
        assert forall|k: int| 0 <= k < tail.len() implies rest.contains(#[trigger] tail[k]) by {
            assert(order[k + 1] == tail[k]);
            assert(order[k + 1] != order[0]);
        }
        assert forall|x: int, y: int| 0 <= x < tail.len() && 0 <= y < tail.len() && x != y implies tail[x]
            != tail[y] by {
            assert(order[x + 1] != order[y + 1]);
        }
        assert forall|j: int| #[trigger] rest.contains(j) && !ops[j].optional implies tail.contains(j) by {
            assert(remaining.contains(j));
            let k = choose|k: int| 0 <= k < order.len() && order[k] == j;
            assert(tail[k - 1] == j);
        }
        assert forall|x: int, y: int| 0 <= x < y < tail.len() implies !precedes(
            ops[#[trigger] tail[y]],
            ops[#[trigger] tail[x]],
        ) by {
            assert(!precedes(ops[order[y + 1]], ops[order[x + 1]]));
        }
        assert(explains(ops, rest, after, tail));
        i
    }
}

/// A rejected operation makes no difference, wherever in a history it stands.
pub proof fn rejected_operations_make_no_difference(
    before: Seq<HistoryEntryView>,
    entry: HistoryEntryView,
    after: Seq<HistoryEntryView>,
)
    requires
        entry.outcome is Rejected,
    ensures
        ops_of(before.push(entry) + after) == ops_of(before + after),
        linearizable(before.push(entry) + after) == linearizable(before + after),
    decreases after.len(),
{
    let with = before.push(entry) + after;
    let without = before + after;
    if after.len() == 0 {
        assert(with =~= before.push(entry));
        assert(with.drop_last() =~= before);
        assert(without =~= before);
    } else {
        rejected_operations_make_no_difference(before, entry, after.drop_last());
        assert(with.drop_last() =~= before.push(entry) + after.drop_last());
        assert(without.drop_last() =~= before + after.drop_last());
        assert(with.last() == after.last());
        assert(without.last() == after.last());
    }
}

/// Replaying looks only at the operations in the order.
proof fn lemma_replays_same(
    ops: Seq<OpView>,
    others: Seq<OpView>,
    order: Seq<int>,
    entries: Map<Seq<u8>, Seq<u8>>,
)
    requires
        forall|k: int| 0 <= k < order.len() ==> ops[#[trigger] order[k]] == others[order[k]],
    ensures
        replays(ops, order, entries) == replays(others, order, entries),
    decreases order.len(),
{
    if order.len() > 0 {
        let rest = order.drop_first();
        assert forall|k: int| 0 <= k < rest.len() implies ops[#[trigger] rest[k]]
            == others[rest[k]] by {
            assert(rest[k] == order[k + 1]);
        }
        lemma_replays_same(
            ops,
            others,
            rest,
            state_machine::after(entries, ops[order[0]].command),
        );
    }
}

/// An operation whose outcome is not known can always be explained by its
/// never having taken effect: a linearizable history stays so when it is
/// recorded.
pub proof fn indeterminate_operations_can_be_left_out(
    history: Seq<HistoryEntryView>,
    entry: HistoryEntryView,
)
    requires
        linearizable(history),
        entry.outcome is Indeterminate,
    ensures
        linearizable(history.push(entry)),
{
    let ops = ops_of(history);
    assert(history.push(entry).drop_last() =~= history);
    let others = ops_of(history.push(entry));
    let all = positions(others.len());
    let order = choose|order: Seq<int>|
        explains(ops, positions(ops.len()), Map::empty(), order);
    assert forall|k: int| 0 <= k < order.len() implies ops[#[trigger] order[k]] == others[order[k]]
        && all.contains(order[k]) by {
        assert(positions(ops.len()).contains(order[k]));
    }
    assert forall|i: int| #[trigger] all.contains(i) && !others[i].optional implies order.contains(
        i,
    ) by {
        assert(positions(ops.len()).contains(i));
    }
    lemma_replays_same(ops, others, order, Map::empty());
    assert(explains(others, all, Map::empty(), order));
}

/// Whether every operation must take effect before the ones behind it, and
/// none of those before it.
pub open spec fn sequential(ops: Seq<OpView>) -> bool {
    &&& forall|i: int| 0 <= i < ops.len() ==> !(#[trigger] ops[i]).optional
    &&& forall|i: int, j: int|
        0 <= i < j < ops.len() ==> precedes(#[trigger] ops[i], #[trigger] ops[j]) && !precedes(
            ops[j],
            ops[i],
        )
}

/// The positions in a sequence of length `n`, in order.
pub open spec fn in_order(n: nat) -> Seq<int> {
    Seq::new(n, |i: int| i)
}

/// An ascending list of positions that leaves none out is the list of all of
/// them in order.
proof fn lemma_ascending(order: Seq<int>, n: nat, k: int)
    requires
        forall|x: int, y: int| 0 <= x < y < order.len() ==> order[x] < order[y],
        forall|x: int| 0 <= x < order.len() ==> 0 <= #[trigger] order[x] < n,
        forall|i: int| 0 <= i < n ==> #[trigger] order.contains(i),
        0 <= k < n,
    ensures
        k < order.len(),
        order[k] == k,
    decreases k,
{
    if k > 0 {
        lemma_ascending(order, n, k - 1);
    }
    assert(order.contains(k));
    let x = choose|x: int| 0 <= x < order.len() && order[x] == k;
    if k > 0 && x < k - 1 {
        assert(order[x] < order[k - 1]);
    }
    assert(x >= k);
    if x > k {
        assert(order[k] < order[x]);
        if k > 0 {
            assert(order[k - 1] < order[k]);
        }
    }
}

/// A history of definite operations that do not overlap is linearizable
/// exactly if replaying it in its own order reports what was observed.
pub proof fn sequential_histories_replay(history: Seq<HistoryEntryView>)
    requires
        sequential(ops_of(history)),
    ensures
        linearizable(history) == replays(
            ops_of(history),
            in_order(ops_of(history).len()),
            Map::empty(),
        ),
{
    let ops = ops_of(history);
    let n = ops.len();
    let all = positions(n);
    let own = in_order(n);
    if linearizable(history) {
        let order = choose|order: Seq<int>| explains(ops, all, Map::empty(), order);
        assert forall|x: int| 0 <= x < order.len() implies 0 <= #[trigger] order[x] < n by {
            assert(all.contains(order[x]));
        }
        assert forall|i: int| 0 <= i < n implies #[trigger] order.contains(i) by {
            assert(all.contains(i));
        }
        assert forall|x: int, y: int| 0 <= x < y < order.len() implies order[x] < order[y] by {
            assert(!precedes(ops[order[y]], ops[order[x]]));
            assert(order[x] != order[y]);
        }
        assert forall|k: int| 0 <= k < n implies k < order.len() && order[k] == k by {
            lemma_ascending(order, n, k);
        }
        if order.len() > n {
            if n > 0 {
                assert(order[n - 1] < order[n as int]);
            }
            assert(0 <= order[n as int] < n);
        }
        if n > 0 {
            lemma_ascending(order, n, n - 1);
        }
        assert(order =~= own);
    }
    if replays(ops, own, Map::empty()) {
        assert forall|i: int| #[trigger] all.contains(i) implies own.contains(i) by {
            assert(own[i] == i);
        }
        assert forall|x: int, y: int| 0 <= x < y < own.len() implies !precedes(
            ops[#[trigger] own[y]],
            ops[#[trigger] own[x]],
        ) by {
            assert(own[x] == x && own[y] == y);
        }
        assert(explains(ops, all, Map::empty(), own));
    }
}

struct Op {
    invoke: u64,
    finish: Option<u64>,
    command: Command,
    expected: Option<ApplyResult>,
    optional: bool,
}

impl DeepView for Op {
    type V = OpView;

    closed spec fn deep_view(&self) -> OpView {
        OpView {
            invoke: self.invoke,
            finish: self.finish,
            command: self.command.deep_view(),
            expected: match self.expected {
                Some(result) => Some(result.deep_view()),
                None => None,
            },
            optional: self.optional,
        }
    }
}

fn precedes_op(a: &Op, b: &Op) -> (before: bool)
    ensures
        before == precedes(a.deep_view(), b.deep_view()),
{
    if a.optional {
        return false;
    }
    match a.finish {
        Some(finish) => finish <= b.invoke,
        None => false,
    }
}

fn to_op(entry: &HistoryEntry) -> (op: Option<Op>)
    ensures
        match op {
            Some(op) => op_of(entry.deep_view()) == Some(op.deep_view()),
            None => op_of(entry.deep_view()) is None,
        },
{
    match &entry.outcome {
        Outcome::Rejected => None,
        Outcome::Applied(result) => Some(
            Op {
                invoke: entry.invoke_tick,
                finish: entry.return_tick,
                command: entry.command.clone(),
                expected: Some(result.clone()),
                optional: false,
            },
        ),
        Outcome::Indeterminate => Some(
            Op {
                invoke: entry.invoke_tick,
                finish: None,
                command: entry.command.clone(),
                expected: None,
                optional: true,
            },
        ),
    }
}

/// The positions marked in `flags`.
spec fn marked(flags: Seq<bool>) -> Set<int> {
    Set::new(|i: int| 0 <= i < flags.len() && flags[i])
}

proof fn lemma_marked_finite(flags: Seq<bool>)
    ensures
        marked(flags).finite(),
{
    vstd::set_lib::lemma_int_range(0, flags.len() as int);
    assert(marked(flags).subset_of(vstd::set_lib::set_int_range(0, flags.len() as int)));
    vstd::set_lib::lemma_len_subset(
        marked(flags),
        vstd::set_lib::set_int_range(0, flags.len() as int),
    );
}

/// A search that failed: nothing explains these operations from this store on.
struct DeadEnd {
    remaining: Vec<bool>,
    model: StateMachine,
}

/// The searches that failed, in buckets by fingerprint.
struct DeadEnds {
    buckets: BTreeMap<u64, Vec<DeadEnd>>,
}

impl DeadEnds {
    spec fn sound(&self, ops: Seq<OpView>) -> bool {
        forall|key: u64, k: int|
            #![trigger self.buckets@[key]@[k]]
            self.buckets@.contains_key(key) && 0 <= k < self.buckets@[key]@.len() ==> {
                let dead = self.buckets@[key]@[k];
                dead.model.wf() && !explainable(ops, marked(dead.remaining@), dead.model@.entries)
            }
    }

    /// Whether the search for `remaining` from `entries` on failed, and was
    /// filed under `key`.
    spec fn holds(&self, key: u64, remaining: Seq<bool>, entries: Map<Seq<u8>, Seq<u8>>) -> bool {
        self.buckets@.contains_key(key) && exists|k: int|
            0 <= k < self.buckets@[key]@.len() && (#[trigger] self.buckets@[key]@[k]).remaining@
                == remaining && self.buckets@[key]@[k].model@.entries == entries
    }

    fn contains(&self, key: u64, remaining: &[bool], model: &StateMachine, Ghost(ops): Ghost<Seq<OpView>>) -> (found: bool)
        requires
            model.wf(),
            self.sound(ops),
        ensures
            found == self.holds(key, remaining@, model@.entries),
            found ==> !explainable(ops, marked(remaining@), model@.entries),
    {
        match self.buckets.get(&key) {
            Some(bucket) => {
                let mut k: usize = 0;
                while k < bucket.len()
                    invariant
                        k <= bucket@.len(),
                        model.wf(),
                        self.sound(ops),
                        self.buckets@.contains_key(key),
                        self.buckets@[key] == *bucket,
                        forall|j: int|
                            0 <= j < k ==> !((#[trigger] self.buckets@[key]@[j]).remaining@
                                == remaining@ && self.buckets@[key]@[j].model@.entries
                                == model@.entries),
                    decreases bucket.len() - k,
                {
                    let dead = &bucket[k];
                    assert(self.buckets@[key]@[k as int] == *dead);
                    if same_flags(&dead.remaining, remaining) && dead.model.same_entries(model) {
                        return true;
                    }
                    k += 1;
                }
                false
            },
            None => false,
        }
    }

    fn insert(&mut self, key: u64, dead: DeadEnd, Ghost(ops): Ghost<Seq<OpView>>)
        requires
            old(self).sound(ops),
            dead.model.wf(),
            !explainable(ops, marked(dead.remaining@), dead.model@.entries),
        ensures
            final(self).sound(ops),
            forall|other: u64, remaining: Seq<bool>, entries: Map<Seq<u8>, Seq<u8>>| #[trigger]
                final(self).holds(other, remaining, entries) == (old(self).holds(
                    other,
                    remaining,
                    entries,
                ) || (other == key && remaining == dead.remaining@ && entries
                    == dead.model@.entries)),
    {
        let mut bucket = match self.buckets.remove(&key) {
            Some(bucket) => bucket,
            None => Vec::new(),
        };
        let ghost before = bucket@;
        proof {
            assert forall|k: int| 0 <= k < before.len() implies (#[trigger] before[k]).model.wf()
                && !explainable(ops, marked(before[k].remaining@), before[k].model@.entries) by {
                assert(old(self).buckets@[key]@[k] == before[k]);
            }
        }
        bucket.push(dead);
        self.buckets.insert(key, bucket);
        assert forall|other: u64, k: int|
            #![trigger self.buckets@[other]@[k]]
            self.buckets@.contains_key(other) && 0 <= k < self.buckets@[other]@.len() implies {
            let dead = self.buckets@[other]@[k];
            dead.model.wf() && !explainable(ops, marked(dead.remaining@), dead.model@.entries)
        } by {
            if other == key {
                if k < before.len() {
                    assert(self.buckets@[other]@[k] == before[k]);
                }
            } else {
                assert(old(self).buckets@[other]@[k] == self.buckets@[other]@[k]);
            }
        }
        assert forall|other: u64, remaining: Seq<bool>, entries: Map<Seq<u8>, Seq<u8>>| #[trigger]
            self.holds(other, remaining, entries) == (old(self).holds(other, remaining, entries) || (
            other == key && remaining == dead.remaining@ && entries == dead.model@.entries)) by {
            if other == key {
                let after = self.buckets@[key]@;
                assert(after == before.push(dead));
                if old(self).holds(key, remaining, entries) {
                    let k = choose|k: int|
                        0 <= k < before.len() && (#[trigger] before[k]).remaining@ == remaining
                            && before[k].model@.entries == entries;
                    assert(self.buckets@[key]@[k] == before[k]);
                }
                if self.holds(key, remaining, entries) {
                    let k = choose|k: int|
                        0 <= k < after.len() && (#[trigger] after[k]).remaining@ == remaining
                            && after[k].model@.entries == entries;
                    if k < before.len() {
                        assert(old(self).buckets@[key]@[k] == before[k]);
                    }
                }
                assert(self.buckets@[key]@[before.len() as int] == dead);
            } else {
                assert(self.buckets@.contains_key(other) == old(self).buckets@.contains_key(other));
                if self.buckets@.contains_key(other) {
                    assert(self.buckets@[other] == old(self).buckets@[other]);
                }
            }
        }
    }
}

fn same_flags(a: &[bool], b: &[bool]) -> (same: bool)
    ensures
        same == (a@ == b@),
{
    if a.len() != b.len() {
        return false;
    }
    let mut i: usize = 0;
    while i < a.len()
        invariant
            a@.len() == b@.len(),
            i <= a@.len(),
            forall|j: int| 0 <= j < i ==> a@[j] == b@[j],
        decreases a.len() - i,
    {
        if a[i] != b[i] {
            return false;
        }
        i += 1;
    }
    assert(a@ =~= b@);
    true
}

/// A hash with one more number taken in.
spec fn mixed(hash: u64, number: u64) -> u64 {
    (hash ^ number).wrapping_mul(0x0000_0100_0000_01B3)
}

/// A hash with numbers taken in one after the other.
spec fn mixed_all(hash: u64, numbers: Seq<u64>) -> u64 {
    numbers.fold_left(hash, |h: u64, number: u64| mixed(h, number))
}

/// The flags as numbers, none of them zero.
spec fn flag_numbers(flags: Seq<bool>) -> Seq<u64> {
    flags.map_values(
        |flag: bool|
            if flag {
                1u64
            } else {
                2u64
            },
    )
}

/// The FNV-1a hash of what remains, and of the store's snapshot behind it.
spec fn fingerprint_of(remaining: Seq<bool>, entries: Map<Seq<u8>, Seq<u8>>) -> u64 {
    mixed_all(
        mixed_all(0xCBF2_9CE4_8422_2325, flag_numbers(remaining)),
        state_machine::snapshot_of(entries).map_values(|byte: u8| byte as u64),
    )
}

/// Taking in one number more.
proof fn lemma_mixed_next(hash: u64, numbers: Seq<u64>, i: int)
    requires
        0 <= i < numbers.len(),
    ensures
        mixed_all(hash, numbers.take(i + 1)) == mixed(
            mixed_all(hash, numbers.take(i)),
            numbers[i],
        ),
{
    assert(numbers.take(i + 1).drop_last() =~= numbers.take(i));
    assert(numbers.take(i + 1).last() == numbers[i]);
    reveal_with_fuel(Seq::fold_left, 2);
}

/// A number that differs between most searches.
fn fingerprint(remaining: &[bool], model: &StateMachine) -> (hash: u64)
    requires
        model.wf(),
    ensures
        hash == fingerprint_of(remaining@, model@.entries),
{
    let ghost flags = flag_numbers(remaining@);
    let ghost offset = 0xCBF2_9CE4_8422_2325u64;
    let mut hash: u64 = 0xCBF2_9CE4_8422_2325;
    let mut i: usize = 0;
    while i < remaining.len()
        invariant
            i <= remaining@.len(),
            flags == flag_numbers(remaining@),
            hash == mixed_all(offset, flags.take(i as int)),
        decreases remaining.len() - i,
    {
        proof {
            lemma_mixed_next(offset, flags, i as int);
        }
        let bit: u64 = if remaining[i] {
            1
        } else {
            2
        };
        hash = (hash ^ bit).wrapping_mul(0x0000_0100_0000_01B3);
        i += 1;
    }
    assert(flags.take(i as int) =~= flags);
    let ghost middle = hash;
    let bytes = model.snapshot();
    let ghost numbers = bytes@.map_values(|byte: u8| byte as u64);
    let mut j: usize = 0;
    while j < bytes.len()
        invariant
            j <= bytes@.len(),
            numbers == bytes@.map_values(|byte: u8| byte as u64),
            hash == mixed_all(middle, numbers.take(j as int)),
        decreases bytes.len() - j,
    {
        proof {
            lemma_mixed_next(middle, numbers, j as int);
        }
        hash = (hash ^ bytes[j] as u64).wrapping_mul(0x0000_0100_0000_01B3);
        j += 1;
    }
    assert(numbers.take(j as int) =~= numbers);
    hash
}

fn is_blocked(ops: &[Op], remaining: &[bool], i: usize, Ghost(views): Ghost<Seq<OpView>>) -> (result: bool)
    requires
        remaining@.len() == ops@.len(),
        i < ops@.len(),
        views.len() == ops@.len(),
        forall|j: int| 0 <= j < ops@.len() ==> (#[trigger] ops@[j]).deep_view() == views[j],
    ensures
        result == blocked(views, marked(remaining@), i as int),
{
    let mut j: usize = 0;
    while j < ops.len()
        invariant
            j <= ops@.len(),
            i < ops@.len(),
            remaining@.len() == ops@.len(),
            views.len() == ops@.len(),
            forall|k: int| 0 <= k < ops@.len() ==> (#[trigger] ops@[k]).deep_view() == views[k],
            forall|k: int| 0 <= k < j && #[trigger] marked(remaining@).contains(k) && k != i
                ==> !precedes(views[k], views[i as int]),
        decreases ops.len() - j,
    {
        if j != i && remaining[j] && precedes_op(&ops[j], &ops[i]) {
            assert(marked(remaining@).contains(j as int));
            return true;
        }
        j += 1;
    }
    false
}

fn none_left(remaining: &[bool]) -> (none: bool)
    ensures
        none == (forall|i: int| !#[trigger] marked(remaining@).contains(i)),
{
    let mut i: usize = 0;
    while i < remaining.len()
        invariant
            i <= remaining@.len(),
            forall|j: int| 0 <= j < i ==> !#[trigger] marked(remaining@).contains(j),
        decreases remaining.len() - i,
    {
        if remaining[i] {
            assert(marked(remaining@).contains(i as int));
            return false;
        }
        i += 1;
    }
    true
}

/// Backtracking search over which operation could come next, given the store
/// as it stands. Remembers the searches that failed: many orders lead to the
/// same store.
fn search(
    ops: &[Op],
    remaining: &Vec<bool>,
    model: &StateMachine,
    failed: &mut DeadEnds,
    Ghost(views): Ghost<Seq<OpView>>,
) -> (found: bool)
    requires
        model.wf(),
        remaining@.len() == ops@.len(),
        views.len() == ops@.len(),
        forall|j: int| 0 <= j < ops@.len() ==> (#[trigger] ops@[j]).deep_view() == views[j],
        old(failed).sound(views),
        model@.last_applied + marked(remaining@).len() <= u64::MAX,
    ensures
        final(failed).sound(views),
        found == explainable(views, marked(remaining@), model@.entries),
    decreases marked(remaining@).len(),
{
    let ghost left = marked(remaining@);
    proof {
        lemma_marked_finite(remaining@);
    }
    if none_left(remaining) {
        proof {
            let order: Seq<int> = Seq::empty();
            assert(explains(views, left, model@.entries, order));
        }
        return true;
    }
    let key: u64 = fingerprint(remaining, model);
    if failed.contains(key, remaining, model, Ghost(views)) {
        return false;
    }
    let mut i: usize = 0;
    while i < ops.len()
        invariant
            i <= ops@.len(),
            model.wf(),
            remaining@.len() == ops@.len(),
            views.len() == ops@.len(),
            forall|j: int| 0 <= j < ops@.len() ==> (#[trigger] ops@[j]).deep_view() == views[j],
            failed.sound(views),
            left == marked(remaining@),
            left.finite(),
            model@.last_applied + left.len() <= u64::MAX,
            forall|j: int| 0 <= j < i ==> !#[trigger] continues(views, left, model@.entries, j),
        decreases ops.len() - i,
    {
        let ghost here = i as int;
        if !remaining[i] {
            assert(!left.contains(here));
            assert(!continues(views, left, model@.entries, here));
        } else if is_blocked(ops, remaining, i, Ghost(views)) {
            assert(!continues(views, left, model@.entries, here));
        } else {
            assert(left.contains(here));
            let mut rest = remaining.clone();
            rest.set(i, false);
            proof {
                assert(rest@ =~= remaining@.update(here, false));
                assert(marked(rest@) =~= left.remove(here));
            }
            if ops[i].optional && search(ops, &rest, model, failed, Ghost(views)) {
                proof {
                    assert(skips(views, left, model@.entries, here));
                    lemma_continues(views, left, model@.entries, here);
                }
                return true;
            }
            let mut next = model.clone();
            let result = next.apply(&ops[i].command);
            let matches = match &ops[i].expected {
                Some(expected) => result.same(expected),
                None => true,
            };
            if matches && search(ops, &rest, &next, failed, Ghost(views)) {
                proof {
                    assert(takes(views, left, model@.entries, here));
                    lemma_continues(views, left, model@.entries, here);
                }
                return true;
            }
            assert(!continues(views, left, model@.entries, here));
        }
        i += 1;
    }
    proof {
        if explainable(views, left, model@.entries) {
            assert(exists|j: int| left.contains(j));
            let j = lemma_explained(views, left, model@.entries);
            assert(continues(views, left, model@.entries, j));
        }
    }
    let dead = DeadEnd { remaining: remaining.clone(), model: model.clone() };
    assert(dead.remaining@ =~= remaining@);
    failed.insert(key, dead, Ghost(views));
    false
}

/// Whether `history` is linearizable against the store's sequential model.
///
/// Rejected operations never took effect and are dropped. An indeterminate one
/// is tried both ways. It is never forced to precede anything, since it may
/// take effect arbitrarily late, but it cannot take effect before it was
/// invoked.
pub fn is_linearizable(history: &[HistoryEntry]) -> (result: bool)
    requires
        ops_of(history::view_history(history@)).len() <= MAX_OPERATIONS,
    ensures
        result == linearizable(history::view_history(history@)),
{
    let ghost entries = history::view_history(history@);
    let mut ops: Vec<Op> = Vec::new();
    let mut i: usize = 0;
    assert(entries.take(0) =~= Seq::empty());
    while i < history.len()
        invariant
            i <= history@.len(),
            entries == history::view_history(history@),
            ops@.len() == ops_of(entries.take(i as int)).len(),
            forall|j: int| 0 <= j < ops@.len() ==> (#[trigger] ops@[j]).deep_view()
                == ops_of(entries.take(i as int))[j],
        decreases history.len() - i,
    {
        proof {
            assert(entries.take(i + 1).drop_last() =~= entries.take(i as int));
            assert(entries.take(i + 1).last() == history@[i as int].deep_view());
        }
        match to_op(&history[i]) {
            Some(op) => {
                ops.push(op);
            },
            None => {},
        }
        i += 1;
    }
    assert(entries.take(i as int) =~= entries);
    let ghost views = ops_of(entries);
    let mut remaining: Vec<bool> = Vec::new();
    let mut j: usize = 0;
    while j < ops.len()
        invariant
            j <= ops@.len(),
            remaining@.len() == j,
            forall|k: int| 0 <= k < j ==> #[trigger] remaining@[k],
        decreases ops.len() - j,
    {
        remaining.push(true);
        j += 1;
    }
    proof {
        assert(marked(remaining@) =~= positions(views.len()));
        vstd::set_lib::lemma_int_range(0, views.len() as int);
        assert(positions(views.len()) =~= vstd::set_lib::set_int_range(0, views.len() as int));
    }
    let mut failed = DeadEnds { buckets: BTreeMap::new() };
    let model = StateMachine::new();
    search(&ops, &remaining, &model, &mut failed, Ghost(views))
}

} // verus!
