//! What holds of every harness, on concrete runs: one leader per term, commits
//! that last, logs and stores that agree, histories that are linearizable.

use std::collections::BTreeMap;

use kurogane::kv::{ApplyResult, Command};
use kurogane::raft::{LogEntry, NodeId, Role};
use kurogane::sim::{ClusterError, Rng, TraceEvent};
use kurogane::verify::{
    decode_seed, encode_seed, is_linearizable, try_run, ClientId, FaultKind, Harness,
    HistoryEntry, Outcome, RunConfig,
};

fn put(key: &[u8], value: &[u8]) -> Command {
    Command::Put { key: key.to_vec(), value: value.to_vec() }
}

fn config() -> RunConfig {
    RunConfig {
        peers: vec![NodeId(1), NodeId(2), NodeId(3)],
        election_timeout: 10,
        heartbeat_interval: 3,
        min_delay: 1,
        max_delay: 3,
        apply_timeout_ticks: 60,
        client_count: 4,
        total_ticks: 200,
        submit_chance_percent: 25,
        fault_chance_percent: 5,
    }
}

fn check(
    harness: &Harness,
    peers: &[NodeId],
    leaders: &mut BTreeMap<u64, NodeId>,
    agreed: &mut Vec<LogEntry>,
) {
    for &id in peers {
        let Some(replica) = harness.replica(id) else {
            continue;
        };
        let node = replica.node();
        if node.role() == Role::Leader {
            let known = *leaders.entry(node.current_term()).or_insert(id);
            assert_eq!(known, id, "one leader per term");
        }
        let commit = node.commit_index() as usize;
        for (index, entry) in node.log().iter().take(commit).enumerate() {
            if index < agreed.len() {
                assert_eq!(entry, &agreed[index], "commits are forever");
            } else {
                agreed.push(entry.clone());
            }
        }
        for &other in peers {
            let Some(theirs) = harness.replica(other) else {
                continue;
            };
            if theirs.state_machine().last_applied() == replica.state_machine().last_applied() {
                assert!(replica.state_machine().same_entries(theirs.state_machine()));
            }
            let shared = node
                .log()
                .iter()
                .zip(theirs.node().log())
                .rposition(|(a, b)| a.term == b.term);
            if let Some(last) = shared {
                assert_eq!(node.log()[..=last], theirs.node().log()[..=last], "logs match");
            }
        }
    }
}

#[test]
fn faults_never_break_what_every_harness_promises() {
    let peers = vec![NodeId(1), NodeId(2), NodeId(3), NodeId(4), NodeId(5)];
    for seed in 0..4u64 {
        let mut harness = Harness::new(peers.clone(), 8, 2, seed, 8, 16, 1, 4, 40);
        let mut rng = Rng::new(seed ^ 0x55);
        let mut leaders = BTreeMap::new();
        let mut agreed = Vec::new();
        for tick in 0..400u64 {
            harness.step();
            let target = peers[rng.range_inclusive(0, 4) as usize];
            match rng.range_inclusive(0, 30) {
                0 => harness.isolate(target),
                1 | 2 => harness.heal(target),
                3 => harness.crash(target),
                4..=6 => harness.restart(target),
                7..=10 => {
                    if let Some(leader) = harness.current_leader() {
                        harness.submit(ClientId(tick), leader, put(&[tick as u8 % 3], &[tick as u8]));
                    }
                }
                _ => {}
            }
            check(&harness, &peers, &mut leaders, &mut agreed);
        }
        assert!(!leaders.is_empty());
        assert!(!agreed.is_empty(), "seed {seed} commits something");
        let history = harness.finish();
        assert!(is_linearizable(&history));
    }
}

#[test]
fn every_generated_run_is_linearizable() {
    for seed in 100..106 {
        let mut config = config();
        config.fault_chance_percent = 12;
        let (_, history, _) = try_run(seed, &config).expect("every transition is possible");
        assert!(is_linearizable(&history), "seed {seed}");
    }
}

#[test]
fn a_run_is_impossible_without_a_valid_configuration() {
    let mut config = config();
    config.peers = vec![NodeId(2), NodeId(1)];
    assert!(try_run(1, &config).is_none());
}

#[test]
fn a_submission_that_cannot_be_timed_is_refused() {
    let mut harness = Harness::new(vec![NodeId(1)], 5, 2, 1, 5, 5, 1, 1, u64::MAX);
    for _ in 0..10 {
        harness.step();
    }
    assert_eq!(harness.current_leader(), Some(NodeId(1)));
    assert!(!harness.try_submit(ClientId(0), NodeId(1), put(b"k", b"v")));
    assert!(harness.try_submit(ClientId(0), NodeId(2), put(b"k", b"v")));
    assert_eq!(harness.history()[0].outcome, Outcome::Rejected);
}

#[test]
fn faults_are_recorded_once() {
    let mut harness = Harness::new(vec![NodeId(1), NodeId(2)], 5, 2, 1, 5, 5, 1, 1, 20);
    harness.isolate(NodeId(1));
    harness.isolate(NodeId(1));
    assert!(harness.is_isolated(NodeId(1)));
    harness.heal(NodeId(1));
    harness.heal(NodeId(1));
    harness.crash(NodeId(2));
    harness.crash(NodeId(2));
    assert!(harness.replica(NodeId(2)).is_none());
    harness.restart(NodeId(2));
    harness.restart(NodeId(2));
    harness.restart(NodeId(9));
    let kinds: Vec<FaultKind> = harness.faults().iter().map(|fault| fault.kind).collect();
    assert_eq!(
        kinds,
        vec![
            FaultKind::Isolated,
            FaultKind::Healed,
            FaultKind::Crashed,
            FaultKind::Restarted
        ]
    );
}

#[test]
fn a_rejected_operation_makes_no_difference_to_the_checker() {
    let applied = HistoryEntry {
        client: ClientId(0),
        invoke_tick: 0,
        return_tick: Some(1),
        command: put(b"k", b"v"),
        outcome: Outcome::Applied(ApplyResult::Put { previous: None }),
    };
    let rejected = HistoryEntry {
        client: ClientId(1),
        invoke_tick: 0,
        return_tick: Some(0),
        command: put(b"k", b"w"),
        outcome: Outcome::Rejected,
    };
    assert!(is_linearizable(&[]));
    assert!(is_linearizable(&[applied.clone()]));
    assert!(is_linearizable(&[rejected, applied]));
}

#[test]
fn overlapping_operations_may_take_effect_in_either_order() {
    let write = HistoryEntry {
        client: ClientId(0),
        invoke_tick: 0,
        return_tick: Some(10),
        command: put(b"k", b"v"),
        outcome: Outcome::Applied(ApplyResult::Put { previous: None }),
    };
    let read = |value: Option<&[u8]>| HistoryEntry {
        client: ClientId(1),
        invoke_tick: 5,
        return_tick: Some(7),
        command: Command::Get { key: b"k".to_vec() },
        outcome: Outcome::Applied(ApplyResult::Get { value: value.map(|bytes| bytes.to_vec()) }),
    };
    assert!(is_linearizable(&[write.clone(), read(None)]));
    assert!(is_linearizable(&[write.clone(), read(Some(b"v"))]));
    assert!(!is_linearizable(&[write, read(Some(b"w"))]));
}

#[test]
fn a_saved_seed_is_plain_text() {
    let text = encode_seed(7, &config());
    assert_eq!(
        text,
        b"seed=7\npeers=1,2,3\nelection_timeout=10\nheartbeat_interval=3\nmin_delay=1\n\
          max_delay=3\napply_timeout_ticks=60\nclient_count=4\ntotal_ticks=200\n\
          submit_chance_percent=25\nfault_chance_percent=5\n"
    );
    let (seed, loaded) = decode_seed(&text).expect("well formed");
    assert_eq!(seed, 7);
    assert_eq!(loaded.peers, config().peers);
    assert_eq!(loaded.max_delay, 3);
    assert_eq!(loaded.total_ticks, 200);
}

#[test]
fn a_malformed_seed_is_refused() {
    let text = encode_seed(7, &config());
    assert!(decode_seed(b"").is_none());
    assert!(decode_seed(&text[..text.len() - 24]).is_none(), "a field is missing");
    let mut broken = text.clone();
    broken.extend_from_slice(b"no separator\n");
    assert!(decode_seed(&broken).is_none());
    let mut later = text.clone();
    later.extend_from_slice(b"seed=8\r\n");
    assert_eq!(decode_seed(&later).map(|(seed, _)| seed), Some(8), "a later field wins");
    let mut wrong = text;
    wrong.extend_from_slice(b"peers=1,,x\n");
    assert!(decode_seed(&wrong).is_none());
}

#[test]
fn the_random_stream_is_splitmix64() {
    let mut rng = Rng::new(0);
    assert_eq!(rng.next_u64(), 0xE220_A839_7B1D_CDAF);
    assert_eq!(rng.next_u64(), 0x6E78_9E6A_A1B9_65F4);
    assert_eq!(rng.next_u64(), 0x06C4_5D18_8009_454F);
    let mut rng = Rng::new(0);
    assert_eq!(rng.range_inclusive(10, 19), 10 + 0xE220_A839_7B1D_CDAF_u64 % 10);
    assert_eq!(rng.range_inclusive(4, 4), 4);
}

#[test]
fn cluster_errors_say_what_is_wrong() {
    assert_eq!(
        ClusterError::EmptyCluster.message(),
        "cluster must contain at least one node"
    );
    assert_eq!(
        ClusterError::DuplicateNode(NodeId(3)).message(),
        "cluster contains duplicate node NodeId(3)"
    );
}

#[test]
fn an_accepted_operation_is_in_the_history_once_by_its_deadline() {
    for (isolate, timeout) in [(false, 12u64), (true, 12), (true, 0)] {
        let peers = vec![NodeId(1), NodeId(2), NodeId(3)];
        let mut harness = Harness::new(peers, 8, 2, 5, 8, 16, 1, 2, timeout);
        while harness.current_leader().is_none() {
            harness.step();
        }
        let leader = harness.current_leader().expect("a leader");
        if isolate {
            harness.isolate(leader);
        }
        let invoked = harness.clock();
        let before = harness.history().len();
        harness.submit(ClientId(7), leader, put(b"k", b"v"));
        assert_eq!(harness.history().len(), before, "nothing is decided at once");
        for _ in 0..timeout.max(1) {
            harness.step();
        }
        let entries: Vec<&HistoryEntry> =
            harness.history().iter().filter(|entry| entry.client == ClientId(7)).collect();
        assert_eq!(entries.len(), 1);
        assert_eq!(entries[0].invoke_tick, invoked);
        let returned = entries[0].return_tick.expect("it has returned");
        assert!(invoked < returned && returned <= invoked + timeout.max(1));
        if isolate {
            assert_eq!(entries[0].outcome, Outcome::Indeterminate);
            assert_eq!(returned, invoked + timeout.max(1));
        } else {
            assert_eq!(
                entries[0].outcome,
                Outcome::Applied(ApplyResult::Put { previous: None })
            );
        }
    }
}

#[test]
fn a_client_of_a_run_waits_for_its_operation_to_return() {
    for seed in 200..205 {
        let mut config = config();
        config.submit_chance_percent = 60;
        let (_, history, _) = try_run(seed, &config).expect("every transition is possible");
        assert!(!history.is_empty());
        for (j, later) in history.iter().enumerate() {
            assert!(later.client.0 < config.client_count);
            for earlier in history[..j].iter().filter(|entry| entry.client == later.client) {
                let returned = earlier.return_tick.expect("only the last may be outstanding");
                assert!(returned <= later.invoke_tick);
            }
        }
    }
}

#[test]
fn a_trace_is_a_prefix_of_every_later_one() {
    let peers = vec![NodeId(1), NodeId(2), NodeId(3)];
    let mut harness = Harness::new(peers, 8, 2, 11, 8, 16, 1, 4, 20);
    let mut before: Vec<TraceEvent> = Vec::new();
    for tick in 0..200u64 {
        harness.step();
        assert!(harness.trace().len() > before.len());
        assert_eq!(&harness.trace()[..before.len()], &before[..]);
        before = harness.trace().to_vec();
        if tick % 5 == 0 {
            if let Some(leader) = harness.current_leader() {
                harness.submit(ClientId(1), leader, put(b"k", b"v"));
                assert_eq!(harness.trace(), &before[..]);
            }
        }
    }
}

#[test]
fn a_run_with_a_valid_configuration_goes_all_its_way() {
    for seed in 300..320 {
        let mut config = config();
        config.submit_chance_percent = 70;
        config.fault_chance_percent = 30;
        assert!(try_run(seed, &config).is_some());
        config.fault_chance_percent = 0;
        let (trace, _, _) = try_run(seed, &config).expect("every transition is possible");
        let last = trace.iter().map(|event| match event {
            TraceEvent::Tick { at, .. } => *at,
            TraceEvent::Delivered { at, .. } => *at,
            TraceEvent::Sent { at, .. } => *at,
        });
        assert_eq!(last.max(), Some(config.total_ticks));
    }
    let mut empty = config();
    empty.min_delay = empty.max_delay + 1;
    assert!(try_run(1, &empty).is_none(), "there is no delay to draw");
    let mut late = config();
    late.min_delay = u64::MAX - 5;
    late.max_delay = u64::MAX;
    assert!(try_run(1, &late).is_none(), "there is no time for the delays");
}
