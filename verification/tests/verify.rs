//! Histories, fault-injected runs and the linearizability checker.

use kurogane::kv::{ApplyResult, Command};
use kurogane::raft::NodeId;
use kurogane::sim::Rng;
use kurogane::verify::{
    decode_seed, encode_seed, is_linearizable, run, ClientId, FaultKind, Harness, HistoryEntry,
    Outcome, RunConfig,
};

fn config(peers: Vec<NodeId>) -> RunConfig {
    RunConfig {
        peers,
        election_timeout: 10,
        heartbeat_interval: 3,
        min_delay: 1,
        max_delay: 3,
        apply_timeout_ticks: 60,
        client_count: 4,
        total_ticks: 200,
        submit_chance_percent: 25,
        fault_chance_percent: 5,
    }
}

fn set(key: &[u8], value: &[u8]) -> Command {
    Command::Put {
        key: key.to_vec(),
        value: value.to_vec(),
    }
}

fn get(key: &[u8]) -> Command {
    Command::Get { key: key.to_vec() }
}

fn applied_entry(
    client: u64,
    invoke: u64,
    finish: u64,
    command: Command,
    result: ApplyResult,
) -> HistoryEntry {
    HistoryEntry {
        client: ClientId(client),
        invoke_tick: invoke,
        return_tick: Some(finish),
        command,
        outcome: Outcome::Applied(result),
    }
}

#[test]
fn a_saved_seed_reproduces_the_exact_same_run_after_loading() {
    let peers = vec![NodeId(1), NodeId(2), NodeId(3)];
    let original_config = config(peers);

    let saved = encode_seed(99, &original_config);
    let (loaded_seed, loaded_config) = decode_seed(&saved).expect("load seed");

    assert_eq!(loaded_seed, 99);
    let (_, original_history, _) = run(99, &original_config);
    let (_, loaded_history, _) = run(loaded_seed, &loaded_config);
    assert_eq!(original_history, loaded_history);
}

#[test]
fn same_seed_and_config_reproduces_an_identical_history() {
    let peers = vec![NodeId(1), NodeId(2), NodeId(3)];
    let config = config(peers);

    let (trace_a, history_a, faults_a) = run(42, &config);
    let (trace_b, history_b, faults_b) = run(42, &config);

    assert_eq!(trace_a, trace_b);
    assert_eq!(history_a, history_b);
    assert_eq!(faults_a, faults_b);
}

#[test]
fn a_run_produces_genuinely_concurrent_operations() {
    let peers = vec![NodeId(1), NodeId(2), NodeId(3)];
    let config = config(peers);
    let (_, history, _) = run(7, &config);

    assert!(
        !history.is_empty(),
        "a 400-tick run with a 40% submit chance across 4 clients must produce operations"
    );

    let overlaps = history.iter().any(|a| {
        history.iter().any(|b| {
            a.client != b.client
                && a.invoke_tick < b.return_tick.unwrap_or(u64::MAX)
                && b.invoke_tick < a.return_tick.unwrap_or(u64::MAX)
        })
    });
    assert!(
        overlaps,
        "expected at least one pair of overlapping operations from different clients"
    );
}

#[test]
fn a_seeded_run_with_a_fault_mid_flight_produces_a_linearizable_history() {
    let peers = vec![NodeId(1), NodeId(2), NodeId(3)];
    let mut harness = Harness::new(peers.clone(), 5, 2, 123, 5, 10, 1, 1, 60);

    let mut leader = None;
    for _ in 0..60 {
        harness.step();
        if leader.is_none() {
            leader = harness.current_leader();
        }
    }
    let leader = leader.expect("cluster elects a leader within 60 ticks");
    let follower = *peers.iter().find(|&&id| id != leader).unwrap();

    harness.submit(ClientId(0), leader, set(b"k", b"v1"));
    assert!(
        harness.history().is_empty(),
        "the write must still be outstanding when the fault lands"
    );

    harness.crash(follower);
    let fault_tick = harness.faults()[0].tick;

    for _ in 0..20 {
        harness.step();
    }
    harness.restart(follower);
    for _ in 0..15 {
        harness.step();
    }
    harness.submit(ClientId(1), leader, get(b"k"));
    for _ in 0..10 {
        harness.step();
    }

    let faults = harness.faults().to_vec();
    let history = harness.finish();

    assert_eq!(
        faults.len(),
        2,
        "expected exactly the forced crash and restart"
    );
    assert_eq!(faults[0].kind, FaultKind::Crashed);
    assert_eq!(faults[1].kind, FaultKind::Restarted);

    let write = history
        .iter()
        .find(|entry| entry.client == ClientId(0))
        .expect("the write is present in the final history");
    assert!(
        write.invoke_tick <= fault_tick
            && write.return_tick.expect("the write eventually resolves") > fault_tick,
        "the write's own invoke/return window must span the fault tick"
    );
    assert!(matches!(write.outcome, Outcome::Applied(_)));

    let read = history
        .iter()
        .find(|entry| entry.client == ClientId(1))
        .expect("the read is present in the final history");
    assert_eq!(
        read.outcome,
        Outcome::Applied(ApplyResult::Get {
            value: Some(b"v1".to_vec())
        })
    );

    assert!(is_linearizable(&history));
}

#[test]
fn a_run_with_faults_enabled_actually_crashes_and_restarts_nodes() {
    let peers = vec![NodeId(1), NodeId(2), NodeId(3)];
    let mut config = config(peers);
    config.fault_chance_percent = 30;
    config.total_ticks = 800;

    let mut harness = Harness::new(
        config.peers.clone(),
        config.election_timeout,
        config.heartbeat_interval,
        99,
        config.election_timeout,
        config.election_timeout * 2,
        config.min_delay,
        config.max_delay,
        config.apply_timeout_ticks,
    );
    let mut driver_rng = Rng::new(99 ^ 0xD1B5_4A32_D192_ED03);
    let mut saw_a_crash = false;
    for _ in 0..config.total_ticks {
        harness.step();
        if driver_rng.range_inclusive(0, 99) < config.fault_chance_percent {
            let target = config.peers
                [driver_rng.range_inclusive(0, config.peers.len() as u64 - 1) as usize];
            match driver_rng.range_inclusive(0, 3) {
                0 => harness.isolate(target),
                1 => harness.heal(target),
                2 => {
                    harness.crash(target);
                    saw_a_crash = true;
                }
                _ => harness.restart(target),
            }
        }
    }

    assert!(
        saw_a_crash,
        "an 800-tick run with a 30% fault chance should crash at least one node"
    );
}

#[test]
fn crash_and_restart_preserves_durable_state_and_the_replica_keeps_applying() {
    let peers = vec![NodeId(1)];
    let mut harness = Harness::new(peers, 5, 2, 1, 5, 5, 1, 1, 20);

    for _ in 0..10 {
        harness.step();
    }
    harness.submit(ClientId(0), NodeId(1), set(b"k", b"v"));
    harness.step();

    let applied_before_crash = harness
        .history()
        .iter()
        .any(|entry| matches!(entry.outcome, Outcome::Applied(_)));
    assert!(
        applied_before_crash,
        "single-node cluster commits immediately"
    );

    harness.crash(NodeId(1));
    assert!(harness.current_leader().is_none());
    harness.restart(NodeId(1));

    for _ in 0..10 {
        harness.step();
    }
    assert_eq!(harness.current_leader(), Some(NodeId(1)));

    harness.submit(ClientId(1), NodeId(1), get(b"k"));
    for _ in 0..5 {
        harness.step();
    }
    let get_result = harness
        .history()
        .iter()
        .rev()
        .find_map(|entry| (entry.client == ClientId(1)).then_some(&entry.outcome));
    assert_eq!(
        get_result,
        Some(&Outcome::Applied(ApplyResult::Get {
            value: Some(b"v".to_vec())
        })),
        "the value set before the crash must survive it"
    );
}

#[test]
fn a_target_that_is_currently_crashed_rejects_immediately() {
    let peers = vec![NodeId(1)];
    let mut harness = Harness::new(peers, 5, 2, 1, 5, 5, 1, 1, 20);
    harness.crash(NodeId(1));

    harness.submit(ClientId(0), NodeId(1), get(b"k"));

    assert_eq!(harness.history().len(), 1);
    assert_eq!(harness.history()[0].outcome, Outcome::Rejected);
    assert_eq!(harness.history()[0].return_tick, Some(0));
}

#[test]
fn an_isolated_follower_falls_behind_and_catches_up_once_healed() {
    let peers = vec![NodeId(1), NodeId(2), NodeId(3)];
    let mut harness = Harness::new(peers.clone(), 5, 2, 5, 5, 10, 1, 1, 60);

    let mut leader = None;
    for _ in 0..60 {
        harness.step();
        if leader.is_none() {
            leader = harness.current_leader();
        }
    }
    let leader = leader.expect("cluster elects a leader within 60 ticks");
    let follower = *peers.iter().find(|&&id| id != leader).unwrap();

    harness.isolate(follower);
    harness.submit(ClientId(0), leader, set(b"k", b"v1"));
    for _ in 0..15 {
        harness.step();
    }

    let write = harness
        .history()
        .iter()
        .find(|entry| entry.client == ClientId(0))
        .expect("the write resolves despite the partition -- 2 of 3 is still a majority");
    assert!(matches!(write.outcome, Outcome::Applied(_)));

    assert_eq!(
        harness.replica(follower).unwrap().state_machine().get(b"k"),
        None,
        "the isolated follower must not have received the write -- proves isolation actually drops messages, not just that this run happened to succeed anyway"
    );

    harness.heal(follower);
    for _ in 0..15 {
        harness.step();
    }

    assert_eq!(
        harness.replica(follower).unwrap().state_machine().get(b"k"),
        Some(b"v1".as_slice()),
        "the healed follower must have caught up on the write it missed while isolated"
    );
}

#[test]
fn accepts_a_trivially_sequential_history() {
    let history = vec![
        applied_entry(
            0,
            0,
            1,
            set(b"k", b"v1"),
            ApplyResult::Put { previous: None },
        ),
        applied_entry(
            0,
            2,
            3,
            get(b"k"),
            ApplyResult::Get {
                value: Some(b"v1".to_vec()),
            },
        ),
    ];
    assert!(is_linearizable(&history));
}

#[test]
fn accepts_a_history_with_an_included_indeterminate_write() {
    let history = vec![
        HistoryEntry {
            client: ClientId(0),
            invoke_tick: 0,
            return_tick: Some(5),
            command: set(b"k", b"v1"),
            outcome: Outcome::Indeterminate,
        },
        applied_entry(
            1,
            6,
            7,
            get(b"k"),
            ApplyResult::Get {
                value: Some(b"v1".to_vec()),
            },
        ),
    ];
    assert!(
        is_linearizable(&history),
        "the indeterminate write may have taken effect, so a Get observing it must be accepted"
    );
}

#[test]
fn accepts_a_history_with_a_skipped_indeterminate_write() {
    let history = vec![
        HistoryEntry {
            client: ClientId(0),
            invoke_tick: 0,
            return_tick: Some(5),
            command: set(b"k", b"v1"),
            outcome: Outcome::Indeterminate,
        },
        applied_entry(1, 6, 7, get(b"k"), ApplyResult::Get { value: None }),
    ];
    assert!(
        is_linearizable(&history),
        "the indeterminate write may also have never taken effect, so a Get missing it must be accepted too"
    );
}

#[test]
fn rejects_a_get_observing_an_indeterminate_write_invoked_after_the_get_already_returned() {
    let history = vec![
        applied_entry(
            0,
            10,
            15,
            get(b"k"),
            ApplyResult::Get {
                value: Some(b"v1".to_vec()),
            },
        ),
        HistoryEntry {
            client: ClientId(1),
            invoke_tick: 100,
            return_tick: Some(160),
            command: set(b"k", b"v1"),
            outcome: Outcome::Indeterminate,
        },
    ];
    assert!(!is_linearizable(&history));
}

#[test]
fn rejects_a_get_returning_a_value_that_was_never_set() {
    let history = vec![applied_entry(
        0,
        0,
        1,
        get(b"k"),
        ApplyResult::Get {
            value: Some(b"phantom".to_vec()),
        },
    )];
    assert!(!is_linearizable(&history));
}

#[test]
fn rejects_a_stale_read_after_a_later_write_already_returned() {
    let history = vec![
        applied_entry(
            0,
            0,
            1,
            set(b"k", b"v1"),
            ApplyResult::Put { previous: None },
        ),
        applied_entry(
            0,
            2,
            3,
            set(b"k", b"v2"),
            ApplyResult::Put {
                previous: Some(b"v1".to_vec()),
            },
        ),
        applied_entry(
            1,
            4,
            5,
            get(b"k"),
            ApplyResult::Get {
                value: Some(b"v1".to_vec()),
            },
        ),
    ];
    assert!(!is_linearizable(&history));
}

#[test]
fn rejects_a_rejected_writes_value_being_observed() {
    let history = vec![
        HistoryEntry {
            client: ClientId(0),
            invoke_tick: 0,
            return_tick: Some(1),
            command: set(b"k", b"v1"),
            outcome: Outcome::Rejected,
        },
        applied_entry(
            1,
            2,
            3,
            get(b"k"),
            ApplyResult::Get {
                value: Some(b"v1".to_vec()),
            },
        ),
    ];
    assert!(!is_linearizable(&history));
}

#[test]
fn a_real_generated_run_is_always_linearizable() {
    for seed in 0..5 {
        let peers = vec![NodeId(1), NodeId(2), NodeId(3)];
        let config = config(peers);
        let (_, history, _) = run(seed, &config);
        assert!(
            is_linearizable(&history),
            "seed {seed} produced a history the checker rejected"
        );
    }
}
