//! How a process starts: from what its storage holds, or as a newcomer.

use vstd::prelude::*;

use crate::kv::command;
use crate::kv::command::Command;
use crate::kv::state_machine;
use crate::kv::state_machine::StateMachine;
use crate::raft::node::Node;
use crate::raft::types;
use crate::raft::types::{
    clone_entries, ClusterConfigView, ConfigError, HardState, LogEntryView, LogPayload,
    LogPayloadView, NodeId, Snapshot, SnapshotMetadata,
};
use crate::runtime::storage::Storage;
use crate::sim::durable;
use crate::sim::durable::DurableView;

verus! {

/// Whether nothing was ever made durable.
pub open spec fn is_fresh(storage: DurableView) -> bool {
    &&& storage.hard_state == (HardState { current_term: 0, voted_for: None })
    &&& storage.log.len() == 0
    &&& storage.snapshot.last_included_index == 0
}

/// The node a process starts with. One that joins a running cluster with
/// nothing durable starts without a configuration; a restart of it finds its
/// real membership in its storage, like any other node.
pub fn start_node(
    join_as_learner: bool,
    id: NodeId,
    members: Vec<NodeId>,
    election_timeout: u64,
    heartbeat_interval: u64,
    storage: &Storage,
) -> (result: Result<Node, ConfigError>)
    requires
        storage@.snapshot.last_included_index + storage@.log.len() <= u64::MAX,
    ensures
        if join_as_learner && is_fresh(storage@) {
            match result {
                Ok(node) => {
                    &&& Node::timing_error(election_timeout, heartbeat_interval) is None
                    &&& node.wf()
                    &&& node@ == Node::initial(
                        id,
                        election_timeout,
                        heartbeat_interval,
                        (HardState { current_term: 0, voted_for: None }),
                        Seq::empty(),
                        (SnapshotMetadata { last_included_index: 0, last_included_term: 0 }),
                        Seq::empty(),
                        (ClusterConfigView { voters: Seq::empty(), old_voters: None }),
                        Set::empty(),
                    )
                },
                Err(error) => Node::timing_error(election_timeout, heartbeat_interval) == Some(
                    error,
                ),
            }
        } else {
            match result {
                Ok(node) => {
                    &&& Node::config_error(id, members@, election_timeout, heartbeat_interval)
                        is None
                    &&& node.wf()
                    &&& node@ == durable::recovered(
                        storage@,
                        id,
                        members@,
                        election_timeout,
                        heartbeat_interval,
                    )
                },
                Err(error) => Node::config_error(id, members@, election_timeout, heartbeat_interval)
                    == Some(error),
            }
        },
{
    if join_as_learner && storage.is_fresh() {
        return Node::new_learner(id, election_timeout, heartbeat_interval);
    }
    let log = clone_entries(storage.log(), 0);
    assert(log.deep_view() =~= storage@.log);
    Node::recover(
        id,
        members,
        election_timeout,
        heartbeat_interval,
        storage.hard_state(),
        log,
        Snapshot {
            metadata: storage.snapshot(),
            data: vstd::slice::slice_to_vec(storage.snapshot_data()),
            config: storage.snapshot_config().clone(),
        },
        vstd::slice::slice_to_vec(storage.learners()),
    )
}

/// A node started from its storage has everything it must not lose there.
pub proof fn started_node_is_durable(
    storage: DurableView,
    id: NodeId,
    members: Seq<NodeId>,
    election_timeout: u64,
    heartbeat_interval: u64,
)
    ensures
        storage.holds(
            durable::recovered(storage, id, members, election_timeout, heartbeat_interval),
        ),
{
}

/// The store after every command of `log`, in order; nothing if one of them
/// is malformed.
pub open spec fn replayed(
    entries: Map<Seq<u8>, Seq<u8>>,
    log: Seq<LogEntryView>,
) -> Option<Map<Seq<u8>, Seq<u8>>>
    decreases log.len(),
{
    if log.len() == 0 {
        Some(entries)
    } else {
        match log[0].payload {
            LogPayloadView::Command(bytes) => match command::decoded(bytes) {
                Ok(c) => replayed(state_machine::after(entries, c), log.drop_first()),
                Err(_) => None,
            },
            LogPayloadView::Configuration(_) => replayed(entries, log.drop_first()),
        }
    }
}

/// The store that storage holds: its snapshot, and every command of its log.
pub open spec fn stored_entries(storage: DurableView) -> Option<Map<Seq<u8>, Seq<u8>>> {
    if storage.snapshot.last_included_index > 0 {
        match state_machine::restored(storage.snapshot_data) {
            Some(entries) => replayed(entries, storage.log),
            None => None,
        }
    } else {
        replayed(Map::empty(), storage.log)
    }
}

/// Rebuilds the store from storage alone. Entries of the log need not be
/// committed; the snapshot may already reflect some of them.
pub fn replicated_state(storage: &Storage) -> (state: Option<StateMachine>)
    requires
        storage@.snapshot.last_included_index + storage@.log.len() <= u64::MAX,
    ensures
        match state {
            Some(machine) => machine.wf() && stored_entries(storage@) == Some(machine@.entries),
            None => stored_entries(storage@) is None,
        },
{
    let mut state = StateMachine::new();
    let boundary: u64 = storage.snapshot().last_included_index;
    if boundary > 0 {
        match state.restore(boundary, storage.snapshot_data()) {
            Ok(_) => {},
            Err(_) => {
                return None;
            },
        }
    }
    let log = storage.log();
    let ghost all = storage@.log;
    let mut i: usize = 0;
    assert(all.skip(0) =~= all);
    while i < log.len()
        invariant
            i <= log@.len(),
            all == storage@.log,
            all == types::view_entries(log@),
            state.wf(),
            storage@.snapshot.last_included_index + all.len() <= u64::MAX,
            state@.last_applied <= storage@.snapshot.last_included_index + i,
            stored_entries(storage@) == replayed(state@.entries, all.skip(i as int)),
        decreases log.len() - i,
    {
        proof {
            assert(all.skip(i as int).drop_first() =~= all.skip(i + 1));
            assert(all.skip(i as int)[0] == log@[i as int].deep_view());
        }
        match &log[i].payload {
            LogPayload::Command(bytes) => match Command::decode(bytes) {
                Ok(command) => {
                    let _ = state.apply(&command);
                },
                Err(_) => {
                    return None;
                },
            },
            LogPayload::Configuration(_) => {},
        }
        i += 1;
    }
    assert(all.skip(i as int) =~= Seq::empty());
    Some(state)
}

} // verus!
