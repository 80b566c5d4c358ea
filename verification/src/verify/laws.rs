//! What holds of every harness, whatever its seed, its faults and its clients:
//! at most one leader per term, nothing committed is ever lost, replicas that
//! have applied as much hold the same, and every history is linearizable.

use vstd::prelude::*;

use crate::kv::command::CommandView;
use crate::raft::ids;
use crate::raft::node::Node;
use crate::raft::types::{NodeId, Role};
use crate::safety::facts;
use crate::safety::record;
use crate::sim::network::NetworkState;
use crate::sim::rng;
use crate::verify::accord;
use crate::verify::checker;
use crate::verify::harness;
use crate::verify::harness::HarnessState;
use crate::verify::history::ClientId;
use crate::verify::ledger;
use crate::verify::ledger::Book;
use crate::verify::linearization;
use crate::verify::run;
use crate::verify::run::{RunConfigView, RunState};
use crate::verify::upkeep;

verus! {

/// Something done to a harness.
#[verifier::ext_equal]
pub enum Action {
    Step,
    Submit { client: ClientId, target: NodeId, command: CommandView },
    Isolate { node: NodeId },
    Heal { node: NodeId },
    Crash { node: NodeId },
    Restart { node: NodeId },
}

impl Action {
    /// Whether a command submitted can be encoded: no key or value is too
    /// long.
    pub open spec fn fits(self) -> bool {
        self matches Action::Submit { command, .. } ==> command.fits()
    }

    /// The harness after the action, if it is possible.
    pub open spec fn done(self, h: HarnessState) -> Option<HarnessState> {
        match self {
            Action::Step => h.step(),
            Action::Submit { client, target, command } => h.submit(client, target, command),
            Action::Isolate { node } => Some(h.isolate(node)),
            Action::Heal { node } => Some(h.heal(node)),
            Action::Crash { node } => Some(h.crash(node)),
            Action::Restart { node } => Some(h.restart(node)),
        }
    }
}

/// The harness after actions one after the other, if all are possible.
pub open spec fn all_done(h: HarnessState, actions: Seq<Action>) -> Option<HarnessState>
    decreases actions.len(),
{
    if actions.len() == 0 {
        Some(h)
    } else {
        match all_done(h, actions.drop_last()) {
            Some(before) => actions.last().done(before),
            None => None,
        }
    }
}

pub open spec fn all_fit(actions: Seq<Action>) -> bool {
    forall|i: int| 0 <= i < actions.len() ==> (#[trigger] actions[i]).fits()
}

/// Whether a harness has just been made.
pub open spec fn is_new(h: HarnessState) -> bool {
    &&& h.peers.len() > 0 ==> ids::ascending(h.peers) && Node::timing_error(
        h.election_timeout,
        h.heartbeat_interval,
    ) is None
    &&& h.net == NetworkState::initial(
        h.net.rng,
        h.net.min_timeout,
        h.net.max_timeout,
        h.net.min_delay,
        h.net.max_delay,
    )
    &&& h == HarnessState::initial(
        h.peers,
        h.election_timeout,
        h.heartbeat_interval,
        h.net,
        h.apply_timeout_ticks,
    )
}

/// A new harness has a blank book.
proof fn lemma_new(h: HarnessState)
    requires
        is_new(h),
    ensures
        ledger::sound(h, upkeep::blank_book()),
{
    harness::initial_is_wf(
        h.peers,
        h.election_timeout,
        h.heartbeat_interval,
        h.net,
        h.apply_timeout_ticks,
    );
    assert(ids::ascending(h.peers));
    upkeep::lemma_start(h);
}

proof fn lemma_done(h: HarnessState, b: Book, action: Action) -> (next: Book)
    requires
        ledger::sound(h, b),
        action.fits(),
        action.done(h) is Some,
    ensures
        ledger::sound(action.done(h)->0, next),
        ledger::continues(b, next),
{
    match action {
        Action::Step => upkeep::lemma_step(h, b),
        Action::Submit { client, target, command } => upkeep::lemma_submit(
            h,
            b,
            client,
            target,
            command,
        ),
        Action::Isolate { node } => {
            upkeep::lemma_isolation(h, b, node);
            b
        },
        Action::Heal { node } => {
            upkeep::lemma_isolation(h, b, node);
            b
        },
        Action::Crash { node } => {
            upkeep::lemma_crash(h, b, node);
            b
        },
        Action::Restart { node } => {
            upkeep::lemma_restart(h, b, node);
            b
        },
    }
}

/// Whatever is done, some book is true of the harness.
proof fn lemma_all_done(h: HarnessState, b: Book, actions: Seq<Action>) -> (next: Book)
    requires
        ledger::sound(h, b),
        all_fit(actions),
        all_done(h, actions) is Some,
    ensures
        ledger::sound(all_done(h, actions)->0, next),
        ledger::continues(b, next),
    decreases actions.len(),
{
    if actions.len() == 0 {
        b
    } else {
        let earlier = actions.drop_last();
        assert(all_fit(earlier)) by {
            assert forall|i: int| 0 <= i < earlier.len() implies (#[trigger] earlier[i]).fits() by {
                assert(earlier[i] == actions[i]);
            }
        }
        let middle = lemma_all_done(h, b, earlier);
        assert(actions[actions.len() - 1].fits());
        let last = lemma_done(all_done(h, earlier)->0, middle, actions.last());
        ledger::lemma_continues(b, middle, last);
        last
    }
}

/// A node that is up is as the book has it.
proof fn lemma_up(h: HarnessState, b: Book, id: NodeId)
    requires
        ledger::sound(h, b),
        h.replicas.contains_key(id),
    ensures
        accord::node_matches(h.peers, b.record, h.replicas[id].node),
        b.record.full(h.replicas[id].node) == h.replicas[id].node.log,
        h.replicas[id].node.id == id,
        record::agree(
            h.replicas[id].node.log,
            b.agreed,
            h.replicas[id].node.commit_index as int,
        ),
        ledger::applied(h.replicas[id]),
{
    ledger::lemma_up(h, b.record, id);
}

/// Election safety: no two nodes ever lead the same term, at one time or at
/// two.
pub proof fn terms_have_one_leader(
    start: HarnessState,
    actions: Seq<Action>,
    more: Seq<Action>,
    a: NodeId,
    b: NodeId,
)
    requires
        is_new(start),
        all_fit(actions),
        all_fit(more),
        all_done(start, actions) is Some,
        all_done(all_done(start, actions)->0, more) is Some,
    ensures
        ({
            let earlier = all_done(start, actions)->0;
            let later = all_done(earlier, more)->0;
            earlier.replicas.contains_key(a) && later.replicas.contains_key(b)
                && earlier.replicas[a].node.role == Role::Leader && later.replicas[b].node.role
                == Role::Leader && earlier.replicas[a].node.current_term
                == later.replicas[b].node.current_term ==> a == b
        }),
{
    lemma_new(start);
    let earlier = all_done(start, actions)->0;
    let later = all_done(earlier, more)->0;
    let first = lemma_all_done(start, upkeep::blank_book(), actions);
    let second = lemma_all_done(earlier, first, more);
    if earlier.replicas.contains_key(a) && later.replicas.contains_key(b) {
        lemma_up(earlier, first, a);
        lemma_up(later, second, b);
        let s = earlier.replicas[a].node;
        if s.role == Role::Leader {
            assert(first.record.led(s.current_term));
        }
    }
}

/// Whatever is done to a harness only adds to its trace: an earlier trace is a
/// prefix of every later one.
pub proof fn traces_only_grow(h: HarnessState, actions: Seq<Action>)
    ensures
        all_done(h, actions) matches Some(later) ==> h.net.trace.is_prefix_of(later.net.trace),
    decreases actions.len(),
{
    if actions.len() > 0 {
        traces_only_grow(h, actions.drop_last());
        if let Some(before) = all_done(h, actions.drop_last()) {
            match actions.last() {
                Action::Step => harness::trace_only_grows(before),
                Action::Submit { client, target, command } => {
                    harness::submitting_only_adds_to_the_trace(before, client, target, command)
                },
                _ => {},
            }
        }
    }
}

/// State machine safety: whatever one node has committed, at any time, no
/// node ever has committed otherwise.
pub proof fn commits_are_forever(
    start: HarnessState,
    actions: Seq<Action>,
    more: Seq<Action>,
    a: NodeId,
    b: NodeId,
    index: int,
)
    requires
        is_new(start),
        all_fit(actions),
        all_fit(more),
        all_done(start, actions) is Some,
        all_done(all_done(start, actions)->0, more) is Some,
    ensures
        ({
            let earlier = all_done(start, actions)->0;
            let later = all_done(earlier, more)->0;
            earlier.replicas.contains_key(a) && later.replicas.contains_key(b) && 0 < index
                <= earlier.replicas[a].node.commit_index && index
                <= later.replicas[b].node.commit_index ==> earlier.replicas[a].node.entry_at(index)
                == later.replicas[b].node.entry_at(index) && later.replicas[b].node.entry_at(
                index,
            ) is Some
        }),
{
    lemma_new(start);
    let earlier = all_done(start, actions)->0;
    let later = all_done(earlier, more)->0;
    let first = lemma_all_done(start, upkeep::blank_book(), actions);
    let second = lemma_all_done(earlier, first, more);
    if earlier.replicas.contains_key(a) && later.replicas.contains_key(b) && 0 < index
        <= earlier.replicas[a].node.commit_index && index <= later.replicas[b].node.commit_index {
        lemma_up(earlier, first, a);
        lemma_up(later, second, b);
        let i = index - 1;
        assert(earlier.replicas[a].node.log[i] == first.agreed[i]);
        assert(first.agreed[i] == second.agreed[i]);
        assert(later.replicas[b].node.log[i] == second.agreed[i]);
    }
}

/// Leader completeness: a leader has every entry that any node of its term or
/// an earlier one has committed.
pub proof fn leaders_have_every_commit(
    start: HarnessState,
    actions: Seq<Action>,
    leader: NodeId,
    other: NodeId,
    index: int,
)
    requires
        is_new(start),
        all_fit(actions),
        all_done(start, actions) is Some,
    ensures
        ({
            let h = all_done(start, actions)->0;
            let l = h.replicas[leader].node;
            let s = h.replicas[other].node;
            h.replicas.contains_key(leader) && h.replicas.contains_key(other) && l.role
                == Role::Leader && s.current_term <= l.current_term && 0 < index <= s.commit_index
                ==> l.entry_at(index) == s.entry_at(index) && s.entry_at(index) is Some
        }),
{
    lemma_new(start);
    let h = all_done(start, actions)->0;
    let b = lemma_all_done(start, upkeep::blank_book(), actions);
    let l = h.replicas[leader].node;
    let s = h.replicas[other].node;
    if h.replicas.contains_key(leader) && h.replicas.contains_key(other) && l.role == Role::Leader
        && s.current_term <= l.current_term && 0 < index <= s.commit_index {
        lemma_up(h, b, leader);
        lemma_up(h, b, other);
        facts::lemma_committed_in_leader(
            h.peers,
            b.record,
            s.current_term,
            s.commit_index as int,
            s.log,
            l.current_term,
        );
        assert(s.log[index - 1] == l.log[index - 1]);
    }
}

/// Log matching: nodes that hold an entry of the same term at the same index
/// hold the same entries up to there.
pub proof fn logs_match(
    start: HarnessState,
    actions: Seq<Action>,
    a: NodeId,
    b: NodeId,
    index: int,
    earlier: int,
)
    requires
        is_new(start),
        all_fit(actions),
        all_done(start, actions) is Some,
        0 < earlier <= index,
    ensures
        ({
            let h = all_done(start, actions)->0;
            let s = h.replicas[a].node;
            let t = h.replicas[b].node;
            h.replicas.contains_key(a) && h.replicas.contains_key(b) && s.term_at(index) is Some
                && s.term_at(index) == t.term_at(index) ==> s.entry_at(earlier) == t.entry_at(
                earlier,
            ) && s.entry_at(earlier) is Some
        }),
{
    lemma_new(start);
    let h = all_done(start, actions)->0;
    let book = lemma_all_done(start, upkeep::blank_book(), actions);
    let s = h.replicas[a].node;
    let t = h.replicas[b].node;
    if h.replicas.contains_key(a) && h.replicas.contains_key(b) && s.term_at(index) is Some
        && s.term_at(index) == t.term_at(index) {
        lemma_up(h, book, a);
        lemma_up(h, book, b);
        facts::same_entry_same_history(book.record, s.log, t.log, index - 1);
        assert(s.log[earlier - 1] == t.log[earlier - 1]);
    }
}

/// Replicas that have applied as many entries hold the same.
pub proof fn stores_agree(start: HarnessState, actions: Seq<Action>, a: NodeId, b: NodeId)
    requires
        is_new(start),
        all_fit(actions),
        all_done(start, actions) is Some,
    ensures
        ({
            let h = all_done(start, actions)->0;
            h.replicas.contains_key(a) && h.replicas.contains_key(b)
                && h.replicas[a].store.last_applied == h.replicas[b].store.last_applied
                ==> h.replicas[a].store.entries == h.replicas[b].store.entries
        }),
{
    lemma_new(start);
    let h = all_done(start, actions)->0;
    let book = lemma_all_done(start, upkeep::blank_book(), actions);
    if h.replicas.contains_key(a) && h.replicas.contains_key(b)
        && h.replicas[a].store.last_applied == h.replicas[b].store.last_applied {
        lemma_up(h, book, a);
        lemma_up(h, book, b);
        let n = h.replicas[a].store.last_applied as int;
        ledger::lemma_replayed_alike(h.replicas[a].node.log, book.agreed, n, n);
        ledger::lemma_replayed_alike(h.replicas[b].node.log, book.agreed, n, n);
    }
}

/// Every history is linearizable, whatever the seed, the faults and the
/// clients' schedule.
pub proof fn histories_are_linearizable(start: HarnessState, actions: Seq<Action>)
    requires
        is_new(start),
        all_fit(actions),
        all_done(start, actions) is Some,
    ensures
        checker::linearizable(all_done(start, actions)->0.finished()),
{
    lemma_new(start);
    let book = lemma_all_done(start, upkeep::blank_book(), actions);
    linearization::lemma_linearizable(all_done(start, actions)->0, book);
}

/// The clients' turns leave some book true.
proof fn lemma_client_turns(s: RunState, b: Book, config: RunConfigView, client: u64) -> (next:
    Book)
    requires
        ledger::sound(s.harness, b),
        s.client_turns(config, client) is Some,
    ensures
        ledger::sound(s.client_turns(config, client)->0.harness, next),
    decreases config.client_count - client,
{
    if client >= config.client_count {
        b
    } else {
        let turn = s.client_turn(config, client)->0;
        let drawn = RunState { rng: rng::next_state(s.rng), ..s };
        let after = if turn.harness == s.harness {
            b
        } else {
            let (target, state) = drawn.target(config.peers)->0;
            let counter = (drawn.counter + 1) as u64;
            let command = run::drawn_command(state, counter);
            assert(command.fits());
            upkeep::lemma_submit(s.harness, b, ClientId(client), target, command)
        };
        lemma_client_turns(turn, after, config, (client + 1) as u64)
    }
}

/// The ticks of a run leave some book true.
proof fn lemma_ticks(s: RunState, b: Book, config: RunConfigView, n: nat) -> (next: Book)
    requires
        ledger::sound(s.harness, b),
        s.ticks(config, n) is Some,
    ensures
        ledger::sound(s.ticks(config, n)->0.harness, next),
    decreases n,
{
    if n == 0 {
        b
    } else {
        let stepped = upkeep::lemma_step(s.harness, b);
        let resumed = (RunState { harness: s.harness.step()->0, ..s }).freed();
        let faulted = resumed.maybe_fault(config)->0;
        let drawn = rng::next_state(resumed.rng);
        if rng::drawn(resumed.rng, 0, 99) < config.fault_chance_percent {
            let target = config.peers[rng::drawn(
                drawn,
                0,
                (config.peers.len() - 1) as u64,
            ) as int];
            upkeep::lemma_isolation(resumed.harness, stepped, target);
            upkeep::lemma_crash(resumed.harness, stepped, target);
            upkeep::lemma_restart(resumed.harness, stepped, target);
        }
        let served = lemma_client_turns(faulted, stepped, config, 0);
        lemma_ticks(s.tick(config)->0, served, config, (n - 1) as nat)
    }
}

/// The history of every generated run is linearizable.
pub proof fn runs_are_linearizable(seed: u64, config: RunConfigView)
    ensures
        run::whole_run(seed, config) matches Some(end) ==> checker::linearizable(
            end.harness.finished(),
        ),
{
    if let Some(begin) = RunState::start(seed, config) {
        if let Some(end) = begin.ticks(config, config.total_ticks as nat) {
            lemma_new(begin.harness);
            let book = lemma_ticks(
                begin,
                upkeep::blank_book(),
                config,
                config.total_ticks as nat,
            );
            linearization::lemma_linearizable(end.harness, book);
        }
    }
}

} // verus!
