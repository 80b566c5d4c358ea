//! Durable storage: what a node must not lose, as a record that is written
//! out whole.

use vstd::prelude::*;

use crate::raft::types;
use crate::raft::types::{
    ClusterConfig, Effect, HardState, LogEntry, NodeId, Snapshot, SnapshotMetadata,
};
use crate::runtime::dto;
use crate::runtime::dto::{
    configuration_from_proto, entries_from_proto, entries_to_proto, ids_from_proto, ids_to_proto,
    write_config, MissingLogEntryPayload,
};
use crate::runtime::proto;
use crate::runtime::proto::StorageStateView;
use crate::sim::durable::{DurableState, DurableView};

verus! {

/// What a record holds; nothing if an entry of its log is malformed.
pub open spec fn read_record(record: StorageStateView) -> Option<DurableView> {
    if dto::readable_entries(record.log) {
        Some(
            DurableView {
                hard_state: HardState {
                    current_term: record.current_term,
                    voted_for: match record.voted_for {
                        Some(id) => Some(NodeId(id)),
                        None => None,
                    },
                },
                log: dto::read_entries(record.log),
                snapshot: SnapshotMetadata {
                    last_included_index: record.snapshot_last_included_index,
                    last_included_term: record.snapshot_last_included_term,
                },
                snapshot_data: record.snapshot_data,
                snapshot_config: dto::read_config_or_none(record.snapshot_config),
                learners: dto::read_ids(record.learners),
            },
        )
    } else {
        None
    }
}

/// The record of what is durable.
pub open spec fn written_record(durable: DurableView) -> StorageStateView {
    StorageStateView {
        current_term: durable.hard_state.current_term,
        voted_for: match durable.hard_state.voted_for {
            Some(id) => Some(id.0),
            None => None,
        },
        log: dto::written_entries(durable.log),
        snapshot_last_included_index: durable.snapshot.last_included_index,
        snapshot_last_included_term: durable.snapshot.last_included_term,
        snapshot_data: durable.snapshot_data,
        snapshot_config: Some(dto::written_config(durable.snapshot_config)),
        learners: dto::written_ids(durable.learners),
    }
}

/// Whether every configuration in it can be told from its written form.
pub open spec fn writable(durable: DurableView) -> bool {
    &&& forall|i: int| 0 <= i < durable.log.len() ==> dto::writable_entry(#[trigger] durable.log[i])
    &&& dto::writable_config(durable.snapshot_config)
}

/// A record reads back as what it was written of.
pub proof fn record_reads_back(durable: DurableView)
    requires
        writable(durable),
    ensures
        read_record(written_record(durable)) == Some(durable),
{
    dto::entries_read_back(durable.log);
    dto::config_reads_back(durable.snapshot_config);
    dto::ids_read_back(durable.learners);
    assert(read_record(written_record(durable))->0 =~= durable);
}

/// One node's durable storage. Whoever owns it writes [`Storage::to_record`]
/// out after every change, before anything that depends on the change.
#[derive(Debug)]
pub struct Storage {
    durable: DurableState,
}

impl View for Storage {
    type V = DurableView;

    closed spec fn view(&self) -> DurableView {
        self.durable@
    }
}

impl Storage {
    /// Storage of a fresh node: default hard state, empty log, no snapshot.
    pub fn new() -> (storage: Self)
        ensures
            storage@ == DurableView::blank(),
    {
        Storage { durable: DurableState::default() }
    }

    /// Storage as a record holds it. A malformed log entry is an error.
    pub fn from_record(record: proto::StorageState) -> (result: Result<Self, MissingLogEntryPayload>)
        ensures
            match result {
                Ok(storage) => read_record(record.deep_view()) == Some(storage@),
                Err(_) => read_record(record.deep_view()) is None,
            },
    {
        match entries_from_proto(record.log) {
            Ok(log) => {
                let voted_for = match record.voted_for {
                    Some(id) => Some(NodeId(id)),
                    None => None,
                };
                let config = match record.snapshot_config {
                    Some(config) => configuration_from_proto(config),
                    None => ClusterConfig::default(),
                };
                let storage = Storage {
                    durable: DurableState::restored(
                        HardState { current_term: record.current_term, voted_for },
                        log,
                        Snapshot {
                            metadata: SnapshotMetadata {
                                last_included_index: record.snapshot_last_included_index,
                                last_included_term: record.snapshot_last_included_term,
                            },
                            data: record.snapshot_data,
                            config,
                        },
                        ids_from_proto(&record.learners),
                    ),
                };
                assert(storage@ =~= read_record(record.deep_view())->0);
                Ok(storage)
            },
            Err(error) => Err(error),
        }
    }

    /// The record to write out.
    pub fn to_record(&self) -> (record: proto::StorageState)
        ensures
            record.deep_view() == written_record(self@),
    {
        let hard_state = self.durable.hard_state();
        let voted_for = match hard_state.voted_for {
            Some(id) => Some(id.0),
            None => None,
        };
        let snapshot = self.durable.snapshot();
        let record = proto::StorageState {
            current_term: hard_state.current_term,
            voted_for,
            log: entries_to_proto(self.durable.log()),
            snapshot_last_included_index: snapshot.last_included_index,
            snapshot_last_included_term: snapshot.last_included_term,
            snapshot_data: vstd::slice::slice_to_vec(self.durable.snapshot_data()),
            snapshot_config: Some(write_config(self.durable.snapshot_config())),
            learners: ids_to_proto(self.durable.learners()),
        };
        assert(record.deep_view() =~= written_record(self@));
        record
    }

    pub fn hard_state(&self) -> (state: HardState)
        ensures
            state == self@.hard_state,
    {
        self.durable.hard_state()
    }

    pub fn log(&self) -> (log: &[LogEntry])
        ensures
            types::view_entries(log@) == self@.log,
    {
        self.durable.log()
    }

    pub fn snapshot(&self) -> (metadata: SnapshotMetadata)
        ensures
            metadata == self@.snapshot,
    {
        self.durable.snapshot()
    }

    pub fn snapshot_data(&self) -> (data: &[u8])
        ensures
            data@ == self@.snapshot_data,
    {
        self.durable.snapshot_data()
    }

    pub fn snapshot_config(&self) -> (config: &ClusterConfig)
        ensures
            config.deep_view() == self@.snapshot_config,
    {
        self.durable.snapshot_config()
    }

    pub fn learners(&self) -> (learners: &[NodeId])
        ensures
            learners@ == self@.learners,
    {
        self.durable.learners()
    }

    /// Whether nothing was ever made durable here.
    pub fn is_fresh(&self) -> (fresh: bool)
        ensures
            fresh == (self@.hard_state == (HardState { current_term: 0, voted_for: None })
                && self@.log.len() == 0 && self@.snapshot.last_included_index == 0),
    {
        let hard_state = self.durable.hard_state();
        hard_state.current_term == 0 && hard_state.voted_for.is_none() && self.durable.log().len()
            == 0 && self.durable.snapshot().last_included_index == 0
    }

    /// Records one effect; whether the record has to be written out. A message
    /// is not persistence and is ignored.
    pub fn apply(&mut self, effect: &Effect) -> (changed: bool)
        requires
            old(self)@.can_apply(effect.deep_view()),
        ensures
            final(self)@ == old(self)@.apply(effect.deep_view()),
            changed == !(effect.deep_view() is Send),
    {
        self.durable.apply(effect);
        match effect {
            Effect::Send { .. } => false,
            _ => true,
        }
    }
}

} // verus!
