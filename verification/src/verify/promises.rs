//! What it means for a history to be linearizable, said of its entries alone.

use vstd::prelude::*;

use crate::kv::command::CommandView;
use crate::kv::laws::Entries;
use crate::kv::promises;
use crate::kv::state_machine::ApplyResultView;
use crate::verify::checker;
use crate::verify::checker::OpView;
use crate::verify::history::{HistoryEntryView, OutcomeView};

verus! {

/// Whether an operation is known to have been over when another was invoked.
pub open spec fn over_before(a: HistoryEntryView, b: HistoryEntryView) -> bool {
    a.outcome is Applied && (a.return_tick matches Some(tick) && tick <= b.invoke_tick)
}

/// What a command finds in a store.
pub open spec fn finds(entries: Entries, command: CommandView) -> ApplyResultView {
    match command {
        CommandView::Put { key, .. } => ApplyResultView::Put {
            previous: promises::value_under(entries, key),
        },
        CommandView::Delete { key } => ApplyResultView::Delete {
            previous: promises::value_under(entries, key),
        },
        CommandView::Get { key } => ApplyResultView::Get {
            value: promises::value_under(entries, key),
        },
    }
}

/// What a command leaves of a store.
pub open spec fn leaves(entries: Entries, command: CommandView) -> Entries {
    match command {
        CommandView::Put { key, value } => entries.insert(key, value),
        CommandView::Delete { key } => entries.remove(key),
        CommandView::Get { .. } => entries,
    }
}

/// Whether operations that take effect one after the other, in `order`, find
/// what their clients were told.
pub open spec fn was_observed(
    history: Seq<HistoryEntryView>,
    order: Seq<int>,
    entries: Entries,
) -> bool
    decreases order.len(),
{
    order.len() > 0 ==> {
        let first = history[order[0]];
        &&& first.outcome matches OutcomeView::Applied(result) ==> result == finds(
            entries,
            first.command,
        )
        &&& was_observed(history, order.drop_first(), leaves(entries, first.command))
    }
}

/// Whether a history comes of its operations taking effect one after the other,
/// in `order`: every one that was applied does, one that was rejected never,
/// one whose fate is unknown may, each once at most; none takes effect after
/// another that was invoked when it was over; and they find what their clients
/// were told.
pub open spec fn accounts_for(history: Seq<HistoryEntryView>, order: Seq<int>) -> bool {
    &&& forall|x: int|
        0 <= x < order.len() ==> 0 <= #[trigger] order[x] < history.len()
            && !(history[order[x]].outcome is Rejected)
    &&& forall|x: int, y: int|
        0 <= x < y < order.len() ==> (#[trigger] order[x]) != (#[trigger] order[y])
    &&& forall|i: int|
        0 <= i < history.len() && (#[trigger] history[i]).outcome is Applied ==> order.contains(i)
    &&& forall|x: int, y: int|
        0 <= x < y < order.len() ==> !over_before(
            history[#[trigger] order[y]],
            history[#[trigger] order[x]],
        )
    &&& was_observed(history, order, Map::empty())
}

/// The places of the entries that were not rejected.
spec fn places(history: Seq<HistoryEntryView>) -> Seq<int>
    decreases history.len(),
{
    if history.len() == 0 {
        Seq::empty()
    } else if history.last().outcome is Rejected {
        places(history.drop_last())
    } else {
        places(history.drop_last()).push(history.len() - 1)
    }
}

/// Whether an operation is the one behind an entry.
spec fn stands_for(op: OpView, entry: HistoryEntryView) -> bool {
    match entry.outcome {
        OutcomeView::Rejected => false,
        OutcomeView::Applied(result) => op == (OpView {
            invoke: entry.invoke_tick,
            finish: entry.return_tick,
            command: entry.command,
            expected: Some(result),
            optional: false,
        }),
        OutcomeView::Indeterminate => op == (OpView {
            invoke: entry.invoke_tick,
            finish: None,
            command: entry.command,
            expected: None,
            optional: true,
        }),
    }
}

proof fn lemma_places(history: Seq<HistoryEntryView>)
    ensures
        ({
            let at = places(history);
            let ops = checker::ops_of(history);
            &&& at.len() == ops.len()
            &&& forall|k: int|
                0 <= k < at.len() ==> 0 <= #[trigger] at[k] < history.len() && stands_for(
                    ops[k],
                    history[at[k]],
                )
            &&& forall|j: int, k: int| 0 <= j < k < at.len() ==> #[trigger] at[j] < #[trigger] at[k]
            &&& forall|i: int|
                0 <= i < history.len() && !((#[trigger] history[i]).outcome is Rejected)
                    ==> at.contains(i)
        }),
    decreases history.len(),
{
    if history.len() > 0 {
        let rest = history.drop_last();
        lemma_places(rest);
        let at = places(history);
        let before = places(rest);
        let ops = checker::ops_of(history);
        assert forall|k: int| 0 <= k < at.len() implies 0 <= #[trigger] at[k] < history.len()
            && stands_for(ops[k], history[at[k]]) by {
            if k < before.len() {
                assert(at[k] == before[k]);
                assert(rest[before[k]] == history[before[k]]);
            }
        }
        assert forall|j: int, k: int| 0 <= j < k < at.len() implies #[trigger] at[j]
            < #[trigger] at[k] by {
            assert(at[j] == before[j]);
            if k < before.len() {
                assert(at[k] == before[k]);
            }
        }
        assert forall|i: int|
            0 <= i < history.len() && !((
            #[trigger] history[i]).outcome is Rejected) implies at.contains(i) by {
            if i < rest.len() {
                assert(rest[i] == history[i]);
                let k = choose|k: int| 0 <= k < before.len() && before[k] == i;
                assert(at[k] == i);
            } else {
                assert(at[before.len() as int] == i);
            }
        }
    }
}

/// The same order, of operations and of history entries, observes the same.
proof fn lemma_observed(
    history: Seq<HistoryEntryView>,
    order: Seq<int>,
    placed: Seq<int>,
    entries: Entries,
)
    requires
        order.len() == placed.len(),
        forall|x: int|
            0 <= x < order.len() ==> 0 <= #[trigger] order[x] < places(history).len() && placed[x]
                == places(history)[order[x]],
    ensures
        checker::replays(checker::ops_of(history), order, entries) == was_observed(
            history,
            placed,
            entries,
        ),
    decreases order.len(),
{
    lemma_places(history);
    if order.len() > 0 {
        let ops = checker::ops_of(history);
        let op = ops[order[0]];
        assert(placed[0] == places(history)[order[0]]);
        assert(stands_for(op, history[placed[0]]));
        let rest = order.drop_first();
        let left = placed.drop_first();
        assert forall|x: int| 0 <= x < rest.len() implies 0 <= #[trigger] rest[x] < places(
            history,
        ).len() && left[x] == places(history)[rest[x]] by {
            assert(rest[x] == order[x + 1]);
        }
        lemma_observed(history, rest, left, leaves(entries, op.command));
    }
}

proof fn lemma_orders_match(history: Seq<HistoryEntryView>, order: Seq<int>, placed: Seq<int>)
    requires
        order.len() == placed.len(),
        forall|x: int|
            0 <= x < order.len() ==> 0 <= #[trigger] order[x] < places(history).len() && placed[x]
                == places(history)[order[x]],
    ensures
        ({
            let ops = checker::ops_of(history);
            checker::explains(ops, checker::positions(ops.len()), Map::empty(), order)
                == accounts_for(history, placed)
        }),
{
    lemma_places(history);
    lemma_observed(history, order, placed, Map::empty());
    let ops = checker::ops_of(history);
    let at = places(history);
    let all = checker::positions(ops.len());
    assert forall|x: int| 0 <= x < order.len() implies stands_for(
        ops[#[trigger] order[x]],
        history[placed[x]],
    ) && placed[x] == at[order[x]] by {}
    if checker::explains(ops, all, Map::empty(), order) {
        assert forall|x: int| 0 <= x < placed.len() implies 0 <= #[trigger] placed[x]
            < history.len() && !(history[placed[x]].outcome is Rejected) by {
            assert(placed[x] == at[order[x]]);
        }
        assert forall|x: int, y: int| 0 <= x < y < placed.len() implies (#[trigger] placed[x]) != (
        #[trigger] placed[y]) by {
            assert(order[x] != order[y]);
            assert(placed[x] == at[order[x]] && placed[y] == at[order[y]]);
        }
        assert forall|i: int|
            0 <= i < history.len() && (
            #[trigger] history[i]).outcome is Applied implies placed.contains(i) by {
            assert(at.contains(i));
            let k = choose|k: int| 0 <= k < at.len() && at[k] == i;
            assert(stands_for(ops[k], history[at[k]]));
            assert(all.contains(k));
            assert(order.contains(k));
            let x = choose|x: int| 0 <= x < order.len() && order[x] == k;
            assert(placed[x] == at[order[x]]);
        }
        assert forall|x: int, y: int| 0 <= x < y < placed.len() implies !over_before(
            history[#[trigger] placed[y]],
            history[#[trigger] placed[x]],
        ) by {
            assert(!checker::precedes(ops[order[y]], ops[order[x]]));
            assert(stands_for(ops[order[x]], history[placed[x]]));
            assert(stands_for(ops[order[y]], history[placed[y]]));
        }
        assert(accounts_for(history, placed));
    }
    if accounts_for(history, placed) {
        assert forall|x: int, y: int|
            0 <= x < order.len() && 0 <= y < order.len() && x != y implies order[x] != order[y] by {
            assert(placed[x] == at[order[x]] && placed[y] == at[order[y]]);
            if x < y {
                assert(placed[x] != placed[y]);
            } else {
                assert(placed[y] != placed[x]);
            }
        }
        assert forall|k: int| #[trigger] all.contains(k) && !ops[k].optional implies order.contains(
            k,
        ) by {
            assert(stands_for(ops[k], history[at[k]]));
            assert(history[at[k]].outcome is Applied);
            assert(placed.contains(at[k]));
            let x = choose|x: int| 0 <= x < placed.len() && placed[x] == at[k];
            assert(at[order[x]] == at[k]);
            if order[x] < k {
                assert(at[order[x]] < at[k]);
            } else if k < order[x] {
                assert(at[k] < at[order[x]]);
            }
        }
        assert forall|x: int, y: int| 0 <= x < y < order.len() implies !checker::precedes(
            ops[#[trigger] order[y]],
            ops[#[trigger] order[x]],
        ) by {
            assert(!over_before(history[placed[y]], history[placed[x]]));
            assert(stands_for(ops[order[x]], history[placed[x]]));
            assert(stands_for(ops[order[y]], history[placed[y]]));
        }
        assert(checker::explains(ops, all, Map::empty(), order));
    }
}

/// A history is linearizable exactly if its operations, those applied and some
/// of those whose fate is unknown, can have taken effect one after the other,
/// each between its invocation and its return, and found what their clients
/// were told. Whatever kind of operation it is, one that was over when another
/// was invoked comes first.
pub proof fn linearizable_means_one_after_the_other(history: Seq<HistoryEntryView>)
    ensures
        checker::linearizable(history) == exists|order: Seq<int>| #[trigger]
            accounts_for(history, order),
{
    lemma_places(history);
    let ops = checker::ops_of(history);
    let at = places(history);
    let all = checker::positions(ops.len());
    if checker::linearizable(history) {
        let order = choose|order: Seq<int>| checker::explains(ops, all, Map::empty(), order);
        let placed = Seq::new(order.len(), |x: int| at[order[x]]);
        assert forall|x: int| 0 <= x < order.len() implies 0 <= #[trigger] order[x] < at.len()
            && placed[x] == at[order[x]] by {
            assert(all.contains(order[x]));
        }
        lemma_orders_match(history, order, placed);
        assert(accounts_for(history, placed));
    }
    if exists|order: Seq<int>| #[trigger] accounts_for(history, order) {
        let placed = choose|order: Seq<int>| #[trigger] accounts_for(history, order);
        let order = Seq::new(
            placed.len(),
            |x: int| choose|k: int| 0 <= k < at.len() && at[k] == placed[x],
        );
        assert forall|x: int| 0 <= x < order.len() implies 0 <= #[trigger] order[x] < at.len()
            && placed[x] == at[order[x]] by {
            assert(0 <= placed[x] < history.len());
            assert(!(history[placed[x]].outcome is Rejected));
            assert(at.contains(placed[x]));
            let k = choose|k: int| 0 <= k < at.len() && at[k] == placed[x];
            assert(order[x] == k);
        }
        lemma_orders_match(history, order, placed);
        assert(checker::explains(ops, all, Map::empty(), order));
    }
}

/// Whatever order accounts for a history, an operation that was over when
/// another was invoked comes before it there, reads as well as writes.
pub proof fn what_is_over_comes_first(
    history: Seq<HistoryEntryView>,
    order: Seq<int>,
    x: int,
    y: int,
)
    requires
        accounts_for(history, order),
        0 <= x < order.len(),
        0 <= y < order.len(),
        x != y,
        history[order[x]].outcome is Applied,
        history[order[x]].return_tick matches Some(tick) && tick <= history[order[y]].invoke_tick,
    ensures
        x < y,
{
    if y < x {
        assert(!over_before(history[order[x]], history[order[y]]));
    }
}

/// A read that finds nothing under a key, invoked when another read had
/// returned what was put there, is stale: the history is not linearizable,
/// whenever the put was.
pub proof fn stale_reads_are_caught(
    key: Seq<u8>,
    value: Seq<u8>,
    put: HistoryEntryView,
    first: HistoryEntryView,
    second: HistoryEntryView,
)
    requires
        put.command == (CommandView::Put { key, value }),
        put.outcome == OutcomeView::Applied(ApplyResultView::Put { previous: None }),
        first.command == (CommandView::Get { key }),
        first.outcome == OutcomeView::Applied(ApplyResultView::Get { value: Some(value) }),
        second.command == first.command,
        second.outcome == OutcomeView::Applied(ApplyResultView::Get { value: None }),
        first.return_tick matches Some(tick) && tick <= second.invoke_tick,
    ensures
        !checker::linearizable(seq![put, first, second]),
{
    let history = seq![put, first, second];
    linearizable_means_one_after_the_other(history);
    if exists|order: Seq<int>| #[trigger] accounts_for(history, order) {
        let order = choose|order: Seq<int>| #[trigger] accounts_for(history, order);
        assert(history[0] == put && history[1] == first && history[2] == second);
        assert(order.contains(0) && order.contains(1) && order.contains(2));
        let a = choose|x: int| 0 <= x < order.len() && order[x] == 0;
        let b = choose|x: int| 0 <= x < order.len() && order[x] == 1;
        let c = choose|x: int| 0 <= x < order.len() && order[x] == 2;
        what_is_over_comes_first(history, order, b, c);
        if order.len() > 3 {
            assert(0 <= order[0] < 3 && 0 <= order[1] < 3 && 0 <= order[2] < 3 && 0 <= order[3]
                < 3);
            assert(order[0] != order[1] && order[0] != order[2] && order[0] != order[3]);
            assert(order[1] != order[2] && order[1] != order[3] && order[2] != order[3]);
        }
        assert(order.len() == 3);
        let rest = order.drop_first();
        let last = rest.drop_first();
        let none: Entries = Map::empty();
        let one = leaves(none, history[order[0]].command);
        let two = leaves(one, history[order[1]].command);
        assert(rest[0] == order[1] && last[0] == order[2]);
        assert(was_observed(history, rest, one));
        assert(was_observed(history, last, two));
    }
}

} // verus!
