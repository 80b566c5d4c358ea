//! What a generated run promises: who acts when, with what chance, and that
//! all of it comes of the seed.

use vstd::prelude::*;

use crate::kv::command::CommandView;
use crate::raft::types::NodeId;
use crate::sim::network::NetworkState;
use crate::sim::rng;
use crate::verify::harness::HarnessState;
use crate::verify::history::ClientId;
use crate::verify::run;
use crate::verify::run::{RunConfigView, RunState};

verus! {

/// The number that eight bytes stand for, least significant first.
pub open spec fn number_of(bytes: Seq<u8>) -> int {
    bytes[0] + 0x100 * bytes[1] + 0x1_0000 * bytes[2] + 0x100_0000 * bytes[3] + 0x1_0000_0000
        * bytes[4] + 0x100_0000_0000 * bytes[5] + 0x1_0000_0000_0000 * bytes[6]
        + 0x100_0000_0000_0000 * bytes[7]
}

/// No two puts of a run write the same value: the bytes written stand for the
/// number that tells the operation from all others.
pub proof fn written_values_tell_puts_apart(n: u64, m: u64)
    ensures
        run::le64(n).len() == 8,
        number_of(run::le64(n)) == n,
        run::le64(n) == run::le64(m) ==> n == m,
{
    lemma_bytes(n);
    lemma_bytes(m);
}

proof fn lemma_bytes(n: u64)
    ensures
        number_of(run::le64(n)) == n,
{
    let b0 = n % 0x100;
    let n1 = n / 0x100;
    let b1 = n1 % 0x100;
    let n2 = n1 / 0x100;
    let b2 = n2 % 0x100;
    let n3 = n2 / 0x100;
    let b3 = n3 % 0x100;
    let n4 = n3 / 0x100;
    let b4 = n4 % 0x100;
    let n5 = n4 / 0x100;
    let b5 = n5 % 0x100;
    let n6 = n5 / 0x100;
    let b6 = n6 % 0x100;
    let n7 = n6 / 0x100;
    assert(n2 == n / 0x1_0000);
    assert(n3 == n / 0x100_0000);
    assert(n4 == n / 0x1_0000_0000);
    assert(n5 == n / 0x100_0000_0000);
    assert(n6 == n / 0x1_0000_0000_0000);
    assert(n7 == n / 0x100_0000_0000_0000);
    assert(n7 < 0x100);
    assert(n7 % 0x100 == n7);
}

/// A command is drawn with one number for its key, one of three single letters,
/// and one for its kind: a put of the value that tells it apart, a read or a
/// delete of that key.
pub proof fn commands_are_drawn_over_three_keys(state: u64, unique: u64)
    ensures
        ({
            let letter = rng::drawn(state, 0, 2);
            let kind = rng::drawn(rng::next_state(state), 0, 2);
            &&& letter <= 2 && kind <= 2
            &&& match run::drawn_command(state, unique) {
                CommandView::Put { key, value } => kind == 0 && key.len() == 1 && key[0] == 97
                    + letter && value == run::le64(unique),
                CommandView::Get { key } => kind == 1 && key.len() == 1 && key[0] == 97 + letter,
                CommandView::Delete { key } => kind == 2 && key.len() == 1 && key[0] == 97 + letter,
            }
        }),
{
    rng::drawn_in_range(state, 0, 2);
    rng::drawn_in_range(rng::next_state(state), 0, 2);
}

/// A client is idle again exactly if it was, or an entry of its own has come to
/// the history since it was last looked at.
pub proof fn clients_are_freed_by_their_outcome(s: RunState, client: u64)
    requires
        s.seen <= s.harness.history.len(),
    ensures
        ({
            let next = s.freed();
            &&& next.busy.contains(client) <==> s.busy.contains(client) && forall|i: int|
                s.seen <= i < s.harness.history.len() ==> (#[trigger] s.harness.history[i]).client.0
                    != client
            &&& next.seen == s.harness.history.len()
            &&& next.harness == s.harness
            &&& next.rng == s.rng
            &&& next.counter == s.counter
        }),
{
    let fresh = s.harness.history.skip(s.seen as int);
    let clients = fresh.map_values(
        |entry: crate::verify::history::HistoryEntryView| entry.client.0,
    );
    if clients.to_set().contains(client) {
        let k = choose|k: int| 0 <= k < clients.len() && clients[k] == client;
        assert(s.harness.history[s.seen + k].client.0 == client);
    }
    if exists|i: int|
        s.seen <= i < s.harness.history.len() && (#[trigger] s.harness.history[i]).client.0
            == client {
        let i = choose|i: int|
            s.seen <= i < s.harness.history.len() && (#[trigger] s.harness.history[i]).client.0
                == client;
        assert(clients[i - s.seen] == client);
    }
}

/// A fault strikes a node drawn from all, and is of a kind drawn from all four.
pub proof fn faults_strike_a_drawn_node(s: RunState, peers: Seq<NodeId>)
    requires
        0 < peers.len() < u64::MAX,
    ensures
        ({
            let at = rng::drawn(s.rng, 0, (peers.len() - 1) as u64);
            let kind = rng::drawn(rng::next_state(s.rng), 0, 3);
            &&& at < peers.len() && kind <= 3
            &&& s.fault(peers) matches Some(next) && {
                &&& kind == 0 ==> next.harness == s.harness.isolate(peers[at as int])
                &&& kind == 1 ==> next.harness == s.harness.heal(peers[at as int])
                &&& kind == 2 ==> next.harness == s.harness.crash(peers[at as int])
                &&& kind == 3 ==> next.harness == s.harness.restart(peers[at as int])
                &&& next == (RunState {
                    harness: next.harness,
                    rng: rng::next_state(rng::next_state(s.rng)),
                    ..s
                })
            }
        }),
{
    rng::drawn_in_range(s.rng, 0, (peers.len() - 1) as u64);
    rng::drawn_in_range(rng::next_state(s.rng), 0, 3);
}

/// The state with one more number of the stream used up.
pub open spec fn after_a_draw(s: RunState) -> RunState {
    RunState { rng: rng::next_state(s.rng), ..s }
}

/// In so many of a hundred ticks as configured there is a fault: always at a
/// hundred, never at zero, and else by a number drawn for it.
pub proof fn faults_come_with_their_chance(s: RunState, config: RunConfigView)
    ensures
        rng::drawn(s.rng, 0, 99) < 100,
        s.maybe_fault(config) == if rng::drawn(s.rng, 0, 99) < config.fault_chance_percent {
            after_a_draw(s).fault(config.peers)
        } else {
            Some(after_a_draw(s))
        },
        config.fault_chance_percent >= 100 ==> s.maybe_fault(config) == after_a_draw(s).fault(
            config.peers,
        ),
        config.fault_chance_percent == 0 ==> s.maybe_fault(config) == Some(after_a_draw(s)),
{
    rng::drawn_in_range(s.rng, 0, 99);
}

/// A client turns to the leader if there is one, and else to a drawn node.
pub proof fn clients_turn_to_the_leader(s: RunState, peers: Seq<NodeId>)
    requires
        0 < peers.len() < u64::MAX,
    ensures
        match s.harness.current_leader() {
            Some(leader) => s.target(peers) == Some((leader, s.rng)),
            None => rng::drawn(s.rng, 0, (peers.len() - 1) as u64) < peers.len() && s.target(peers)
                == Some(
                (
                    peers[rng::drawn(s.rng, 0, (peers.len() - 1) as u64) as int],
                    rng::next_state(s.rng),
                ),
            ),
        },
{
    rng::drawn_in_range(s.rng, 0, (peers.len() - 1) as u64);
}

/// A client whose turn it is submits a drawn command in its own name, under a
/// number that no operation had before, and is busy from then on.
pub proof fn submissions_make_clients_busy(
    s: RunState,
    config: RunConfigView,
    client: u64,
    target: NodeId,
    state: u64,
)
    requires
        s.target(config.peers) == Some((target, state)),
        s.counter < u64::MAX,
    ensures
        match s.harness.submit(
            ClientId(client),
            target,
            run::drawn_command(state, (s.counter + 1) as u64),
        ) {
            Some(harness) => s.submission(config, client) matches Some(next) && {
                &&& next.harness == harness
                &&& next.counter == s.counter + 1
                &&& next.busy == s.busy.insert(client)
                &&& next.rng == rng::next_state(rng::next_state(state))
                &&& next.seen == s.seen
            },
            None => s.submission(config, client) is None,
        },
{
}

/// A client that is busy waits. One that is idle submits in so many of a
/// hundred turns as configured: always at a hundred, never at zero.
pub proof fn idle_clients_submit_with_their_chance(s: RunState, config: RunConfigView, client: u64)
    ensures
        rng::drawn(s.rng, 0, 99) < 100,
        s.busy.contains(client) ==> s.client_turn(config, client) == Some(s),
        !s.busy.contains(client) ==> s.client_turn(config, client) == if rng::drawn(s.rng, 0, 99)
            < config.submit_chance_percent {
            after_a_draw(s).submission(config, client)
        } else {
            Some(after_a_draw(s))
        },
        !s.busy.contains(client) && config.submit_chance_percent >= 100 ==> s.client_turn(
            config,
            client,
        ) == after_a_draw(s).submission(config, client),
        !s.busy.contains(client) && config.submit_chance_percent == 0 ==> s.client_turn(
            config,
            client,
        ) == Some(after_a_draw(s)),
{
    rng::drawn_in_range(s.rng, 0, 99);
}

/// Every client has its turn, in order, and in every tick: after the cluster
/// has ticked and clients have been freed, and after a fault if there is one.
pub proof fn ticks_give_every_client_a_turn(
    s: RunState,
    config: RunConfigView,
    client: u64,
    n: nat,
)
    ensures
        client >= config.client_count ==> s.client_turns(config, client) == Some(s),
        client < config.client_count ==> s.client_turns(config, client) == match s.client_turn(
            config,
            client,
        ) {
            Some(next) => next.client_turns(config, (client + 1) as u64),
            None => None,
        },
        s.tick(config) == match s.harness.step() {
            Some(harness) => match (RunState { harness, ..s }).freed().maybe_fault(config) {
                Some(faulted) => faulted.client_turns(config, 0),
                None => None,
            },
            None => None,
        },
        s.ticks(config, 0) == Some(s),
        s.ticks(config, n + 1) == match s.tick(config) {
            Some(next) => next.ticks(config, n),
            None => None,
        },
{
}

/// A run starts from its configuration, with nobody busy and nothing seen;
/// timeouts go from the election timeout to its double. The clients' stream is
/// not the network's, and both come of the seed alone.
pub proof fn runs_start_from_seed_and_configuration(
    seed: u64,
    other: u64,
    config: RunConfigView,
)
    requires
        config.election_timeout * 2 <= u64::MAX,
        0 < config.heartbeat_interval <= config.election_timeout,
        forall|i: int, j: int|
            0 <= i < j < config.peers.len() ==> (#[trigger] config.peers[i]).0 < (
            #[trigger] config.peers[j]).0,
    ensures
        RunState::start(seed, config) matches Some(start) && {
            &&& start.harness == HarnessState::initial(
                config.peers,
                config.election_timeout,
                config.heartbeat_interval,
                (NetworkState {
                    rng: seed,
                    clock: 0,
                    inbox: Map::empty(),
                    min_timeout: config.election_timeout,
                    max_timeout: (config.election_timeout * 2) as u64,
                    min_delay: config.min_delay,
                    max_delay: config.max_delay,
                    trace: Seq::empty(),
                }),
                config.apply_timeout_ticks,
            )
            &&& start.busy =~= Set::<u64>::empty()
            &&& start.seen == 0
            &&& start.counter == 0
            &&& start.rng != start.harness.net.rng
            &&& start.rng ^ seed == 0xD1B5_4A32_D192_ED03
            &&& run::whole_run(seed, config) == start.ticks(config, config.total_ticks as nat)
            &&& seed != other ==> (RunState::start(other, config)->0).rng != start.rng
        },
{
    assert(seed ^ 0xD1B5_4A32_D192_ED03 != seed) by (bit_vector);
    assert((seed ^ 0xD1B5_4A32_D192_ED03) ^ seed == 0xD1B5_4A32_D192_ED03) by (bit_vector);
    assert(seed != other ==> seed ^ 0xD1B5_4A32_D192_ED03 != other ^ 0xD1B5_4A32_D192_ED03)
        by (bit_vector);
}

} // verus!
