//! How the clients of a generated run behave: each has one operation
//! outstanding at most.

use vstd::prelude::*;

use crate::kv::command::CommandView;
use crate::raft::ids;
use crate::raft::types::NodeId;
use crate::sim::rng;
use crate::verify::harness::{HarnessState, PendingView};
use crate::verify::history::{ClientId, HistoryEntryView};
use crate::verify::outcomes;
use crate::verify::progress;
use crate::verify::run;
use crate::verify::run::{RunConfigView, RunState};

verus! {

/// Whether one operation of a client has returned by the time another is
/// invoked.
pub open spec fn returned_by(entry: HistoryEntryView, tick: u64) -> bool {
    entry.return_tick matches Some(returned) && returned <= tick
}

/// Whether what is on record is of known clients and lies in the past.
pub open spec fn records_known(
    history: Seq<HistoryEntryView>,
    ops: Seq<PendingView>,
    clock: u64,
    count: u64,
) -> bool {
    &&& forall|i: int|
        0 <= i < history.len() ==> (#[trigger] history[i]).client.0 < count && returned_by(
            history[i],
            clock,
        )
    &&& forall|i: int|
        0 <= i < ops.len() ==> (#[trigger] ops[i]).client.0 < count && ops[i].invoke_tick <= clock
}

/// Whether each client's operations come one after the other, what is pending
/// last.
pub open spec fn records_in_turn(history: Seq<HistoryEntryView>, ops: Seq<PendingView>) -> bool {
    &&& forall|i: int, j: int|
        0 <= i < j < history.len() && (#[trigger] history[i]).client == (
        #[trigger] history[j]).client ==> returned_by(history[i], history[j].invoke_tick)
    &&& forall|i: int, j: int|
        0 <= i < history.len() && 0 <= j < ops.len() && (#[trigger] history[i]).client == (
        #[trigger] ops[j]).client ==> returned_by(history[i], ops[j].invoke_tick)
    &&& forall|i: int, j: int|
        0 <= i < j < ops.len() ==> (#[trigger] ops[i]).client != (#[trigger] ops[j]).client
}

/// Whether everyone with an operation pending, or with one decided that has
/// not been seen, is busy, and nobody is both.
pub open spec fn busy_known(
    history: Seq<HistoryEntryView>,
    ops: Seq<PendingView>,
    busy: Set<u64>,
    seen: nat,
) -> bool {
    &&& seen <= history.len()
    &&& forall|i: int| 0 <= i < ops.len() ==> busy.contains((#[trigger] ops[i]).client.0)
    &&& forall|i: int|
        seen <= i < history.len() ==> busy.contains((#[trigger] history[i]).client.0)
    &&& forall|i: int, j: int|
        seen <= i < history.len() && 0 <= j < ops.len() ==> (#[trigger] history[i]).client != (
        #[trigger] ops[j]).client
}

/// Whether clients keep to their turns, with these operations pending.
pub open spec fn orderly_with(s: RunState, ops: Seq<PendingView>, count: u64) -> bool {
    let h = s.harness;
    &&& records_known(h.history, ops, h.net.clock, count)
    &&& records_in_turn(h.history, ops)
    &&& busy_known(h.history, ops, s.busy, s.seen)
}

pub open spec fn orderly(s: RunState, count: u64) -> bool {
    orderly_with(s, s.harness.pending, count)
}

/// One of the pending operations is decided, the others are still pending.
proof fn lemma_decided(
    s: RunState,
    ops: Seq<PendingView>,
    p: int,
    entry: HistoryEntryView,
    count: u64,
) -> (next: RunState)
    requires
        orderly_with(s, ops, count),
        0 <= p < ops.len(),
        entry.client == ops[p].client,
        entry.invoke_tick == ops[p].invoke_tick,
        entry.return_tick == Some(s.harness.net.clock),
    ensures
        next == (RunState {
            harness: HarnessState { history: s.harness.history.push(entry), ..s.harness },
            ..s
        }),
        orderly_with(next, ops.remove(p), count),
{
    let history = s.harness.history.push(entry);
    let left = ops.remove(p);
    let place = |i: int| if i < p { i } else { i + 1 };
    assert forall|i: int| 0 <= i < left.len() implies (#[trigger] left[i]) == ops[place(i)] by {}
    let next = RunState { harness: HarnessState { history, ..s.harness }, ..s };
    let last = s.harness.history.len() as int;
    assert forall|i: int| 0 <= i < history.len() implies (#[trigger] history[i]).client.0 < count
        && returned_by(history[i], s.harness.net.clock) by {
        if i < last {
            assert(history[i] == s.harness.history[i]);
        }
    }
    assert forall|i: int, j: int|
        0 <= i < j < history.len() && (#[trigger] history[i]).client == (
        #[trigger] history[j]).client implies returned_by(history[i], history[j].invoke_tick) by {
        assert(history[i] == s.harness.history[i]);
        if j < last {
            assert(history[j] == s.harness.history[j]);
        } else {
            assert(history[i].client == ops[p].client);
        }
    }
    assert forall|i: int, j: int|
        0 <= i < history.len() && 0 <= j < left.len() && (#[trigger] history[i]).client == (
        #[trigger] left[j]).client implies returned_by(history[i], left[j].invoke_tick) by {
        assert(left[j] == ops[place(j)]);
        if i < last {
            assert(history[i] == s.harness.history[i]);
        } else if place(j) < p {
            assert(ops[place(j)].client != ops[p].client);
        } else {
            assert(ops[p].client != ops[place(j)].client);
        }
    }
    assert forall|i: int, j: int| 0 <= i < j < left.len() implies (#[trigger] left[i]).client != (
    #[trigger] left[j]).client by {
        assert(left[i] == ops[place(i)] && left[j] == ops[place(j)]);
    }
    assert forall|i: int| s.seen <= i < history.len() implies s.busy.contains(
        (#[trigger] history[i]).client.0,
    ) by {
        if i < last {
            assert(history[i] == s.harness.history[i]);
        } else {
            assert(s.busy.contains(ops[p].client.0));
        }
    }
    assert forall|i: int, j: int| s.seen <= i < history.len() && 0 <= j < left.len() implies (
    #[trigger] history[i]).client != (#[trigger] left[j]).client by {
        assert(left[j] == ops[place(j)]);
        if i < last {
            assert(history[i] == s.harness.history[i]);
        } else if place(j) < p {
            assert(ops[place(j)].client != ops[p].client);
        } else {
            assert(ops[p].client != ops[place(j)].client);
        }
    }
    next
}

/// Operations are resolved one after the other.
proof fn lemma_resolve_all(s: RunState, ops: Seq<PendingView>, count: u64)
    requires
        orderly_with(s, s.harness.pending + ops, count),
    ensures
        orderly((RunState { harness: s.harness.resolve_all(ops), ..s }), count),
    decreases ops.len(),
{
    let h = s.harness;
    if ops.len() == 0 {
        assert(h.pending + ops =~= h.pending);
    } else {
        let rest = ops.drop_first();
        let all = h.pending + ops;
        let p = h.pending.len() as int;
        assert(all[p] == ops[0]);
        let next = RunState { harness: h.resolve(ops[0]), ..s };
        if h.decides(ops[0]) {
            let entry = next.harness.history.last();
            let moved = lemma_decided(s, all, p, entry, count);
            assert(moved.harness =~= next.harness);
            assert(all.remove(p) =~= next.harness.pending + rest);
        } else {
            assert(all =~= next.harness.pending + rest);
        }
        lemma_resolve_all(next, rest, count);
    }
}

/// One tick of the harness.
proof fn lemma_step(s: RunState, count: u64)
    requires
        orderly(s, count),
        s.harness.step() is Some,
    ensures
        orderly((RunState { harness: s.harness.step()->0, ..s }), count),
{
    let h = s.harness;
    let net = h.net.advance()->0;
    let taken = HarnessState { net: net.without_due(), ..h };
    outcomes::lemma_deliver_records(taken, net.due());
    let delivered = taken.deliver_all(net.due())->0;
    let order = ids::sorted_ids(delivered.replicas.dom());
    outcomes::lemma_tick_records(delivered, order);
    let ticked = delivered.tick_all(order)->0;
    let emptied = HarnessState { pending: Seq::empty(), ..ticked };
    assert(emptied.pending + ticked.pending =~= h.pending);
    lemma_resolve_all(RunState { harness: emptied, ..s }, ticked.pending, count);
}

/// Clients whose operation has been decided are idle again.
proof fn lemma_freed(s: RunState, count: u64)
    requires
        orderly(s, count),
    ensures
        orderly(s.freed(), count),
{
    let h = s.harness;
    let recent = h.history.skip(s.seen as int);
    let clients = recent.map_values(|entry: HistoryEntryView| entry.client.0);
    assert forall|i: int| 0 <= i < h.pending.len() implies s.freed().busy.contains(
        (#[trigger] h.pending[i]).client.0,
    ) by {
        if clients.contains(h.pending[i].client.0) {
            let k = choose|k: int| 0 <= k < clients.len() && clients[k] == h.pending[i].client.0;
            assert(recent[k] == h.history[s.seen + k]);
            assert(h.history[s.seen + k].client != h.pending[i].client);
        }
    }
}

/// An idle client submits an operation.
proof fn lemma_submit(
    s: RunState,
    client: u64,
    target: NodeId,
    command: CommandView,
    count: u64,
    next: RunState,
)
    requires
        orderly(s, count),
        client < count,
        !s.busy.contains(client),
        s.harness.submit(ClientId(client), target, command) == Some(next.harness),
        next.busy == s.busy.insert(client),
        next.seen == s.seen,
    ensures
        orderly(next, count),
{
    let h = s.harness;
    let after = next.harness;
    if h.accepts(target) {
        outcomes::lemma_route_clock(
            h.net,
            target,
            h.replicas[target].propose(command).1,
            h.isolated,
        );
        let op = after.pending.last();
        assert(after.pending =~= h.pending.push(op));
        assert(after.history == h.history);
        assert forall|i: int, j: int|
            0 <= i < after.history.len() && 0 <= j < after.pending.len() && (
            #[trigger] after.history[i]).client == (
            #[trigger] after.pending[j]).client implies returned_by(
            after.history[i],
            after.pending[j].invoke_tick,
        ) by {
            if j < h.pending.len() {
                assert(after.pending[j] == h.pending[j]);
            }
        }
        assert forall|i: int, j: int| 0 <= i < j < after.pending.len() implies (
        #[trigger] after.pending[i]).client != (#[trigger] after.pending[j]).client by {
            assert(after.pending[i] == h.pending[i]);
            assert(s.busy.contains(h.pending[i].client.0));
            if j < h.pending.len() {
                assert(after.pending[j] == h.pending[j]);
            }
        }
        assert forall|i: int, j: int|
            s.seen <= i < after.history.len() && 0 <= j < after.pending.len() implies (
        #[trigger] after.history[i]).client != (#[trigger] after.pending[j]).client by {
            assert(s.busy.contains(h.history[i].client.0));
            if j < h.pending.len() {
                assert(after.pending[j] == h.pending[j]);
            }
        }
    } else {
        let entry = after.history.last();
        assert(after.history =~= h.history.push(entry));
        assert forall|i: int, j: int|
            0 <= i < j < after.history.len() && (#[trigger] after.history[i]).client == (
            #[trigger] after.history[j]).client implies returned_by(
            after.history[i],
            after.history[j].invoke_tick,
        ) by {
            assert(after.history[i] == h.history[i]);
            if j < h.history.len() {
                assert(after.history[j] == h.history[j]);
            }
        }
        assert forall|i: int, j: int|
            0 <= i < after.history.len() && 0 <= j < after.pending.len() && (
            #[trigger] after.history[i]).client == (
            #[trigger] after.pending[j]).client implies returned_by(
            after.history[i],
            after.pending[j].invoke_tick,
        ) by {
            assert(s.busy.contains(h.pending[j].client.0));
            if i < h.history.len() {
                assert(after.history[i] == h.history[i]);
            }
        }
        assert forall|i: int, j: int|
            s.seen <= i < after.history.len() && 0 <= j < after.pending.len() implies (
        #[trigger] after.history[i]).client != (#[trigger] after.pending[j]).client by {
            assert(s.busy.contains(h.pending[j].client.0));
            if i < h.history.len() {
                assert(after.history[i] == h.history[i]);
            }
        }
    }
}

/// The clients take their turns.
proof fn lemma_client_turns(s: RunState, config: RunConfigView, client: u64)
    requires
        orderly(s, config.client_count),
    ensures
        s.client_turns(config, client) matches Some(next) ==> orderly(next, config.client_count),
    decreases config.client_count - client,
{
    if client < config.client_count {
        if let Some(next) = s.client_turn(config, client) {
            let drawn = RunState { rng: rng::next_state(s.rng), ..s };
            if !s.busy.contains(client) && rng::drawn(s.rng, 0, 99)
                < config.submit_chance_percent {
                let (target, state) = drawn.target(config.peers)->0;
                let command = run::drawn_command(state, (drawn.counter + 1) as u64);
                lemma_submit(drawn, client, target, command, config.client_count, next);
            }
            lemma_client_turns(next, config, (client + 1) as u64);
        }
    }
}

/// The ticks of a run.
proof fn lemma_ticks(s: RunState, config: RunConfigView, n: nat)
    requires
        orderly(s, config.client_count),
    ensures
        s.ticks(config, n) matches Some(end) ==> orderly(end, config.client_count),
    decreases n,
{
    if n > 0 {
        if let Some(next) = s.tick(config) {
            lemma_step(s, config.client_count);
            let stepped = RunState { harness: s.harness.step()->0, ..s };
            lemma_freed(stepped, config.client_count);
            let faulted = stepped.freed().maybe_fault(config)->0;
            assert(orderly(faulted, config.client_count));
            lemma_client_turns(faulted, config, 0);
            lemma_ticks(next, config, (n - 1) as nat);
        }
    }
}

/// In a generated run a client has one operation outstanding at most: of two
/// entries of its own, the earlier has returned by the time the later was
/// invoked. Every client is one of those configured. With a valid
/// configuration the run goes all its way.
pub proof fn clients_wait_for_their_turn(seed: u64, config: RunConfigView)
    ensures
        config.is_valid() ==> run::whole_run(seed, config) is Some,
        run::whole_run(seed, config) matches Some(end) ==> {
            let entries = end.harness.finished();
            &&& forall|i: int|
                0 <= i < entries.len() ==> (#[trigger] entries[i]).client.0 < config.client_count
            &&& forall|i: int, j: int|
                0 <= i < j < entries.len() && (#[trigger] entries[i]).client == (
                #[trigger] entries[j]).client ==> returned_by(entries[i], entries[j].invoke_tick)
        },
{
    if config.is_valid() {
        progress::runs_are_possible(seed, config);
    }
    if let Some(start) = RunState::start(seed, config) {
        assert(orderly(start, config.client_count));
        lemma_ticks(start, config, config.total_ticks as nat);
        if let Some(end) = start.ticks(config, config.total_ticks as nat) {
            let h = end.harness;
            let entries = h.finished();
            let n = h.history.len() as int;
            assert forall|i: int| 0 <= i < entries.len() implies (
            #[trigger] entries[i]).client.0 < config.client_count by {
                if i < n {
                    assert(entries[i] == h.history[i]);
                } else {
                    assert(entries[i].client == h.pending[i - n].client);
                }
            }
            assert forall|i: int, j: int|
                0 <= i < j < entries.len() && (#[trigger] entries[i]).client == (
                #[trigger] entries[j]).client implies returned_by(
                entries[i],
                entries[j].invoke_tick,
            ) by {
                if j < n {
                    assert(entries[i] == h.history[i] && entries[j] == h.history[j]);
                } else if i < n {
                    assert(entries[i] == h.history[i]);
                    assert(entries[j].client == h.pending[j - n].client);
                } else {
                    assert(h.pending[i - n].client != h.pending[j - n].client);
                }
            }
        }
    }
}

} // verus!
