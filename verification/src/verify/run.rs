//! Generated runs: concurrent clients and injected faults, all from one seed.

use std::collections::BTreeSet;

use vstd::prelude::*;

use crate::kv::command::{Command, CommandView};
use crate::raft::ids;
use crate::raft::node::Node;
use crate::raft::types::NodeId;
use crate::sim::network::NetworkState;
use crate::sim::rng;
use crate::sim::rng::Rng;
use crate::sim::trace::TraceEvent;
use crate::verify::harness::{Harness, HarnessState};
use crate::verify::history;
use crate::verify::history::{ClientId, FaultEvent, HistoryEntry, HistoryEntryView};
use crate::verify::outcomes;

verus! {

/// Fully specifies one generated run together with a seed.
#[derive(Debug)]
pub struct RunConfig {
    pub peers: Vec<NodeId>,
    pub election_timeout: u64,
    pub heartbeat_interval: u64,
    pub min_delay: u64,
    pub max_delay: u64,
    pub apply_timeout_ticks: u64,
    pub client_count: u64,
    pub total_ticks: u64,
    /// Chance out of 100, per idle client per tick, that it submits its next
    /// operation.
    pub submit_chance_percent: u64,
    /// Chance out of 100, per tick, that a fault is injected.
    pub fault_chance_percent: u64,
}

/// The view of a [`RunConfig`].
#[verifier::ext_equal]
pub struct RunConfigView {
    pub peers: Seq<NodeId>,
    pub election_timeout: u64,
    pub heartbeat_interval: u64,
    pub min_delay: u64,
    pub max_delay: u64,
    pub apply_timeout_ticks: u64,
    pub client_count: u64,
    pub total_ticks: u64,
    pub submit_chance_percent: u64,
    pub fault_chance_percent: u64,
}

impl RunConfigView {
    /// Whether a run can go all its way: its nodes and ranges are valid, there
    /// is time for all its ticks, with the delays and waits configured, and
    /// room for what all its clients may submit.
    pub open spec fn is_valid(self) -> bool {
        &&& self.peers.len() > 0
        &&& ids::ascending(self.peers)
        &&& Node::timing_error(self.election_timeout, self.heartbeat_interval) is None
        &&& self.election_timeout * 2 <= u64::MAX
        &&& rng::range_ok(self.min_delay, self.max_delay)
        &&& self.total_ticks + self.max_delay <= u64::MAX
        &&& self.total_ticks + self.apply_timeout_ticks <= u64::MAX
        &&& self.total_ticks + self.heartbeat_interval <= u64::MAX
        &&& self.total_ticks * self.client_count < u64::MAX
    }
}

impl DeepView for RunConfig {
    type V = RunConfigView;

    open spec fn deep_view(&self) -> RunConfigView {
        RunConfigView {
            peers: self.peers@,
            election_timeout: self.election_timeout,
            heartbeat_interval: self.heartbeat_interval,
            min_delay: self.min_delay,
            max_delay: self.max_delay,
            apply_timeout_ticks: self.apply_timeout_ticks,
            client_count: self.client_count,
            total_ticks: self.total_ticks,
            submit_chance_percent: self.submit_chance_percent,
            fault_chance_percent: self.fault_chance_percent,
        }
    }
}

impl Clone for RunConfig {
    fn clone(&self) -> (copy: Self)
        ensures
            copy.deep_view() == self.deep_view(),
    {
        let copy = RunConfig {
            peers: self.peers.clone(),
            election_timeout: self.election_timeout,
            heartbeat_interval: self.heartbeat_interval,
            min_delay: self.min_delay,
            max_delay: self.max_delay,
            apply_timeout_ticks: self.apply_timeout_ticks,
            client_count: self.client_count,
            total_ticks: self.total_ticks,
            submit_chance_percent: self.submit_chance_percent,
            fault_chance_percent: self.fault_chance_percent,
        };
        assert(copy.deep_view() =~= self.deep_view());
        copy
    }
}

/// The eight bytes of `n`, least significant first.
pub open spec fn le64(n: u64) -> Seq<u8> {
    seq![
        (n % 0x100) as u8,
        (n / 0x100 % 0x100) as u8,
        (n / 0x1_0000 % 0x100) as u8,
        (n / 0x100_0000 % 0x100) as u8,
        (n / 0x1_0000_0000 % 0x100) as u8,
        (n / 0x100_0000_0000 % 0x100) as u8,
        (n / 0x1_0000_0000_0000 % 0x100) as u8,
        (n / 0x100_0000_0000_0000 % 0x100) as u8,
    ]
}

/// A command drawn from `state`: a key of three, then what to do with it.
pub open spec fn drawn_command(state: u64, unique: u64) -> CommandView {
    let key = seq![(97 + rng::drawn(state, 0, 2)) as u8];
    let kind = rng::drawn(rng::next_state(state), 0, 2);
    if kind == 0 {
        CommandView::Put { key, value: le64(unique) }
    } else if kind == 1 {
        CommandView::Get { key }
    } else {
        CommandView::Delete { key }
    }
}

/// The state of a run: the harness, the stream that schedules clients and
/// faults, the clients with an operation outstanding, how much of the history
/// has been seen, and how many operations were submitted.
#[verifier::ext_equal]
pub struct RunState {
    pub harness: HarnessState,
    pub rng: u64,
    pub busy: Set<u64>,
    pub seen: nat,
    pub counter: u64,
}

/// The clients behind history entries.
pub open spec fn clients_of(entries: Seq<HistoryEntryView>) -> Set<u64> {
    entries.map_values(|entry: HistoryEntryView| entry.client.0).to_set()
}

impl RunState {
    /// Before the first tick. Nothing where the configuration is invalid.
    pub open spec fn start(seed: u64, config: RunConfigView) -> Option<RunState> {
        if (config.peers.len() == 0 || (ids::ascending(config.peers) && Node::timing_error(
            config.election_timeout,
            config.heartbeat_interval,
        ) is None)) && config.election_timeout * 2 <= u64::MAX {
            Some(
                RunState {
                    harness: HarnessState::initial(
                        config.peers,
                        config.election_timeout,
                        config.heartbeat_interval,
                        NetworkState::initial(
                            seed,
                            config.election_timeout,
                            (config.election_timeout * 2) as u64,
                            config.min_delay,
                            config.max_delay,
                        ),
                        config.apply_timeout_ticks,
                    ),
                    rng: seed ^ 0xD1B5_4A32_D192_ED03,
                    busy: Set::empty(),
                    seen: 0,
                    counter: 0,
                },
            )
        } else {
            None
        }
    }

    /// Clients whose operation has been resolved are idle again.
    pub open spec fn freed(self) -> RunState {
        RunState {
            busy: self.busy.difference(clients_of(self.harness.history.skip(self.seen as int))),
            seen: self.harness.history.len(),
            ..self
        }
    }

    /// A fault of a drawn kind at a drawn node.
    pub open spec fn fault(self, peers: Seq<NodeId>) -> Option<RunState> {
        if peers.len() == 0 {
            None
        } else {
            let target = peers[rng::drawn(self.rng, 0, (peers.len() - 1) as u64) as int];
            let second = rng::next_state(self.rng);
            let kind = rng::drawn(second, 0, 3);
            let harness = if kind == 0 {
                self.harness.isolate(target)
            } else if kind == 1 {
                self.harness.heal(target)
            } else if kind == 2 {
                self.harness.crash(target)
            } else {
                self.harness.restart(target)
            };
            Some(RunState { harness, rng: rng::next_state(second), ..self })
        }
    }

    /// A fault, with the chance configured.
    pub open spec fn maybe_fault(self, config: RunConfigView) -> Option<RunState> {
        let drawn = RunState { rng: rng::next_state(self.rng), ..self };
        if rng::drawn(self.rng, 0, 99) < config.fault_chance_percent {
            drawn.fault(config.peers)
        } else {
            Some(drawn)
        }
    }

    /// Where a client sends its next operation: to the leader it knows of,
    /// else to a drawn node.
    pub open spec fn target(self, peers: Seq<NodeId>) -> Option<(NodeId, u64)> {
        match self.harness.current_leader() {
            Some(leader) => Some((leader, self.rng)),
            None => if peers.len() == 0 {
                None
            } else {
                Some(
                    (
                        peers[rng::drawn(self.rng, 0, (peers.len() - 1) as u64) as int],
                        rng::next_state(self.rng),
                    ),
                )
            },
        }
    }

    /// A client submits a drawn command.
    pub open spec fn submission(self, config: RunConfigView, client: u64) -> Option<RunState> {
        match self.target(config.peers) {
            Some((target, state)) => if self.counter < u64::MAX {
                let counter = (self.counter + 1) as u64;
                match self.harness.submit(ClientId(client), target, drawn_command(state, counter)) {
                    Some(harness) => Some(
                        RunState {
                            harness,
                            rng: rng::next_state(rng::next_state(state)),
                            busy: self.busy.insert(client),
                            counter,
                            ..self
                        },
                    ),
                    None => None,
                }
            } else {
                None
            },
            None => None,
        }
    }

    /// An idle client submits with the chance configured.
    pub open spec fn client_turn(self, config: RunConfigView, client: u64) -> Option<RunState> {
        if self.busy.contains(client) {
            Some(self)
        } else {
            let drawn = RunState { rng: rng::next_state(self.rng), ..self };
            if rng::drawn(self.rng, 0, 99) >= config.submit_chance_percent {
                Some(drawn)
            } else {
                drawn.submission(config, client)
            }
        }
    }

    /// The clients from `client` on take their turns.
    pub open spec fn client_turns(self, config: RunConfigView, client: u64) -> Option<RunState>
        decreases config.client_count - client,
    {
        if client >= config.client_count {
            Some(self)
        } else {
            match self.client_turn(config, client) {
                Some(next) => next.client_turns(config, (client + 1) as u64),
                None => None,
            }
        }
    }

    /// One tick of the run.
    pub open spec fn tick(self, config: RunConfigView) -> Option<RunState> {
        match self.harness.step() {
            Some(harness) => match (RunState { harness, ..self }).freed().maybe_fault(config) {
                Some(faulted) => faulted.client_turns(config, 0),
                None => None,
            },
            None => None,
        }
    }

    /// `n` ticks of the run.
    pub open spec fn ticks(self, config: RunConfigView, n: nat) -> Option<RunState>
        decreases n,
    {
        if n == 0 {
            Some(self)
        } else {
            match self.tick(config) {
                Some(next) => next.ticks(config, (n - 1) as nat),
                None => None,
            }
        }
    }
}

/// The whole run that a seed and a configuration specify.
pub open spec fn whole_run(seed: u64, config: RunConfigView) -> Option<RunState> {
    match RunState::start(seed, config) {
        Some(start) => start.ticks(config, config.total_ticks as nat),
        None => None,
    }
}

fn random_command(rng: &mut Rng, unique: u64) -> (command: Command)
    ensures
        command.deep_view() == drawn_command(old(rng)@, unique),
        final(rng)@ == rng::next_state(rng::next_state(old(rng)@)),
{
    let mut key: Vec<u8> = Vec::new();
    let letter: u64 = rng.range_inclusive(0, 2);
    key.push(97 + letter as u8);
    assert(key@ =~= seq![(97 + letter) as u8]);
    let kind: u64 = rng.range_inclusive(0, 2);
    if kind == 0 {
        let mut value: Vec<u8> = Vec::new();
        value.push((unique % 0x100) as u8);
        value.push((unique / 0x100 % 0x100) as u8);
        value.push((unique / 0x1_0000 % 0x100) as u8);
        value.push((unique / 0x100_0000 % 0x100) as u8);
        value.push((unique / 0x1_0000_0000 % 0x100) as u8);
        value.push((unique / 0x100_0000_0000 % 0x100) as u8);
        value.push((unique / 0x1_0000_0000_0000 % 0x100) as u8);
        value.push((unique / 0x100_0000_0000_0000 % 0x100) as u8);
        assert(value@ =~= le64(unique));
        Command::Put { key, value }
    } else if kind == 1 {
        Command::Get { key }
    } else {
        Command::Delete { key }
    }
}

fn inject_random_fault(harness: &mut Harness, rng: &mut Rng, peers: &[NodeId])
    requires
        old(harness).wf(),
        peers@.len() > 0,
    ensures
        final(harness).wf(),
        forall|before: RunState|
            before.harness == old(harness)@ && before.rng == old(rng)@ ==> #[trigger] before.fault(
                peers@,
            ) == Some((RunState { harness: final(harness)@, rng: final(rng)@, ..before })),
{
    let pick: u64 = rng.range_inclusive(0, peers.len() as u64 - 1);
    let target = peers[pick as usize];
    let kind: u64 = rng.range_inclusive(0, 3);
    if kind == 0 {
        harness.isolate(target);
    } else if kind == 1 {
        harness.heal(target);
    } else if kind == 2 {
        harness.crash(target);
    } else {
        harness.restart(target);
    }
}

struct Driver {
    harness: Harness,
    rng: Rng,
    busy: BTreeSet<u64>,
    seen: usize,
    counter: u64,
}

impl View for Driver {
    type V = RunState;

    closed spec fn view(&self) -> RunState {
        RunState {
            harness: self.harness@,
            rng: self.rng@,
            busy: self.busy@,
            seen: self.seen as nat,
            counter: self.counter,
        }
    }
}

impl Driver {
    spec fn wf(&self) -> bool {
        self.harness.wf() && self.seen <= self.harness@.history.len()
    }

    fn start(seed: u64, config: &RunConfig) -> (driver: Option<Self>)
        ensures
            match driver {
                Some(driver) => driver.wf() && RunState::start(seed, config.deep_view()) == Some(
                    driver@,
                ),
                None => RunState::start(seed, config.deep_view()) is None,
            },
    {
        if config.election_timeout > u64::MAX / 2 {
            return None;
        }
        if config.peers.len() > 0 && !Node::valid_bootstrap(
            &config.peers,
            config.election_timeout,
            config.heartbeat_interval,
        ) {
            return None;
        }
        let peers = config.peers.clone();
        assert(peers@ =~= config.peers@);
        let harness = Harness::new(
            peers,
            config.election_timeout,
            config.heartbeat_interval,
            seed,
            config.election_timeout,
            config.election_timeout * 2,
            config.min_delay,
            config.max_delay,
            config.apply_timeout_ticks,
        );
        let driver = Driver {
            harness,
            rng: Rng::new(seed ^ 0xD1B5_4A32_D192_ED03),
            busy: BTreeSet::new(),
            seen: 0,
            counter: 0,
        };
        assert(driver@ =~= RunState::start(seed, config.deep_view())->0);
        Some(driver)
    }

    fn free(&mut self)
        requires
            old(self).wf(),
        ensures
            final(self).wf(),
            final(self)@ == old(self)@.freed(),
    {
        let entries = self.harness.history();
        let ghost recent = self.harness@.history.skip(self.seen as int);
        let mut i: usize = self.seen;
        assert(recent.take(0) =~= Seq::empty());
        assert(clients_of(recent.take(0)) =~= Set::empty());
        assert(self.busy@ =~= self@.busy.difference(clients_of(recent.take(0))));
        while i < entries.len()
            invariant
                self.harness == old(self).harness,
                self.rng == old(self).rng,
                self.counter == old(self).counter,
                self.seen == old(self).seen,
                self.seen <= i <= entries@.len(),
                history::view_history(entries@) == self.harness@.history,
                recent == self.harness@.history.skip(self.seen as int),
                self.busy@ == old(self)@.busy.difference(clients_of(recent.take(i - self.seen))),
            decreases entries.len() - i,
        {
            let ghost done = i - self.seen;
            proof {
                let client = |entry: HistoryEntryView| entry.client.0;
                assert(recent[done] == entries@[i as int].deep_view());
                assert(recent.take(done + 1).map_values(client) =~= recent.take(done).map_values(
                    client,
                ).push(recent[done].client.0));
                recent.take(done).map_values(client).lemma_push_to_set_commute(
                    recent[done].client.0,
                );
            }
            self.busy.remove(&entries[i].client.0);
            assert(self.busy@ =~= old(self)@.busy.difference(clients_of(recent.take(done + 1))));
            i += 1;
        }
        assert(recent.take(i - self.seen) =~= recent);
        self.seen = i;
        assert(self@ =~= old(self)@.freed());
    }

    fn maybe_fault(&mut self, config: &RunConfig) -> (done: bool)
        requires
            old(self).wf(),
        ensures
            done ==> final(self).wf(),
            done == (old(self)@.maybe_fault(config.deep_view()) is Some),
            done ==> old(self)@.maybe_fault(config.deep_view()) == Some(final(self)@),
    {
        let chance: u64 = self.rng.range_inclusive(0, 99);
        let ghost drawn = self@;
        assert(drawn =~= (RunState { rng: rng::next_state(old(self)@.rng), ..old(self)@ }));
        if chance < config.fault_chance_percent {
            if config.peers.len() == 0 {
                return false;
            }
            inject_random_fault(&mut self.harness, &mut self.rng, &config.peers);
            assert(self@ =~= drawn.fault(config.peers@)->0);
        }
        true
    }

    fn submission(&mut self, config: &RunConfig, client: u64) -> (done: bool)
        requires
            old(self).wf(),
        ensures
            done ==> final(self).wf(),
            done == (old(self)@.submission(config.deep_view(), client) is Some),
            done ==> old(self)@.submission(config.deep_view(), client) == Some(final(self)@),
    {
        let leader = self.harness.current_leader();
        proof {
            self.harness@.lemma_current_leader(leader);
        }
        let target = match leader {
            Some(leader) => leader,
            None => {
                if config.peers.len() == 0 {
                    return false;
                }
                let pick: u64 = self.rng.range_inclusive(0, config.peers.len() as u64 - 1);
                config.peers[pick as usize]
            },
        };
        assert(old(self)@.target(config.peers@) == Some((target, self.rng@)));
        if self.counter == u64::MAX {
            return false;
        }
        self.counter += 1;
        let command = random_command(&mut self.rng, self.counter);
        if !self.harness.try_submit(ClientId(client), target, command) {
            return false;
        }
        self.busy.insert(client);
        assert(self@ =~= old(self)@.submission(config.deep_view(), client)->0);
        true
    }

    fn client_turn(&mut self, config: &RunConfig, client: u64) -> (done: bool)
        requires
            old(self).wf(),
        ensures
            done ==> final(self).wf(),
            done == (old(self)@.client_turn(config.deep_view(), client) is Some),
            done ==> old(self)@.client_turn(config.deep_view(), client) == Some(final(self)@),
    {
        if self.busy.contains(&client) {
            return true;
        }
        let chance: u64 = self.rng.range_inclusive(0, 99);
        assert(self@ =~= (RunState { rng: rng::next_state(old(self)@.rng), ..old(self)@ }));
        if chance >= config.submit_chance_percent {
            return true;
        }
        self.submission(config, client)
    }

    fn tick(&mut self, config: &RunConfig) -> (done: bool)
        requires
            old(self).wf(),
        ensures
            done ==> final(self).wf(),
            done == (old(self)@.tick(config.deep_view()) is Some),
            done ==> old(self)@.tick(config.deep_view()) == Some(final(self)@),
    {
        let ghost c = config.deep_view();
        if !self.harness.try_step() {
            return false;
        }
        proof {
            outcomes::history_only_grows(old(self)@.harness);
            assert(self@ =~= (RunState { harness: self@.harness, ..old(self)@ }));
        }
        self.free();
        if !self.maybe_fault(config) {
            return false;
        }
        let mut client: u64 = 0;
        while client < config.client_count
            invariant
                self.wf(),
                c == config.deep_view(),
                client <= config.client_count,
                old(self)@.tick(c) == self@.client_turns(c, client),
            decreases config.client_count - client,
        {
            if !self.client_turn(config, client) {
                return false;
            }
            client += 1;
        }
        true
    }
}

/// Generates one concurrent, fault-injected run. Clients keep at most one
/// operation outstanding each; faults fire on their own schedule. A second
/// random stream, derived from the seed, schedules both, so that those choices
/// never perturb delays and timeouts. The trace, the history and the faults
/// are a function of the seed and the configuration. With a valid
/// configuration every transition is possible.
pub fn run(seed: u64, config: &RunConfig) -> (outcome: (
    Vec<TraceEvent>,
    Vec<HistoryEntry>,
    Vec<FaultEvent>,
))
    requires
        whole_run(seed, config.deep_view()) is Some,
    ensures
        outcome.0.deep_view() == whole_run(seed, config.deep_view())->0.harness.net.trace,
        outcome.1.deep_view() == whole_run(seed, config.deep_view())->0.harness.finished(),
        outcome.2@ == whole_run(seed, config.deep_view())->0.harness.faults,
{
    match try_run(seed, config) {
        Some(outcome) => outcome,
        None => (Vec::new(), Vec::new(), Vec::new()),
    }
}

/// [`run`] for a caller that cannot tell whether every transition of the run
/// is possible: nothing where one is not.
pub fn try_run(seed: u64, config: &RunConfig) -> (outcome: Option<
    (Vec<TraceEvent>, Vec<HistoryEntry>, Vec<FaultEvent>),
>)
    ensures
        match outcome {
            Some((trace, entries, faults)) => whole_run(seed, config.deep_view()) matches Some(end)
                && trace.deep_view() == end.harness.net.trace && entries.deep_view()
                == end.harness.finished() && faults@ == end.harness.faults,
            None => whole_run(seed, config.deep_view()) is None,
        },
{
    let ghost c = config.deep_view();
    let mut driver = match Driver::start(seed, config) {
        Some(driver) => driver,
        None => {
            return None;
        },
    };
    let mut tick: u64 = 0;
    while tick < config.total_ticks
        invariant
            driver.wf(),
            c == config.deep_view(),
            tick <= config.total_ticks,
            whole_run(seed, c) == driver@.ticks(c, (config.total_ticks - tick) as nat),
        decreases config.total_ticks - tick,
    {
        if !driver.tick(config) {
            return None;
        }
        tick += 1;
    }
    let faults = vstd::slice::slice_to_vec(driver.harness.faults());
    let (trace, entries) = driver.harness.into_parts();
    Some((trace, entries, faults))
}

} // verus!
