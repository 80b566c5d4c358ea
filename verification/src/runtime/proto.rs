//! The messages that travel between processes and rest on disk, field by
//! field.

use vstd::prelude::*;

use crate::kv::command::CommandView;
use crate::kv::state_machine;
use crate::kv::state_machine::ApplyResultView;

verus! {

#[derive(Clone, Copy, Debug, Eq, PartialEq, Structural)]
pub struct RequestVoteRequest {
    pub term: u64,
    pub candidate_id: u64,
    pub last_log_index: u64,
    pub last_log_term: u64,
}

#[derive(Clone, Copy, Debug, Eq, PartialEq, Structural)]
pub struct RequestVoteReply {
    pub term: u64,
    pub granted: bool,
}

/// Voters, and the outgoing voters; none of the latter outside a transition.
#[derive(Debug, Eq, PartialEq)]
pub struct Configuration {
    pub voters: Vec<u64>,
    pub old_voters: Vec<u64>,
}

/// The view of a [`Configuration`].
#[verifier::ext_equal]
pub struct ConfigurationView {
    pub voters: Seq<u64>,
    pub old_voters: Seq<u64>,
}

impl DeepView for Configuration {
    type V = ConfigurationView;

    open spec fn deep_view(&self) -> ConfigurationView {
        ConfigurationView { voters: self.voters@, old_voters: self.old_voters@ }
    }
}

#[derive(Debug, Eq, PartialEq)]
pub enum LogEntryPayload {
    Command(Vec<u8>),
    Configuration(Configuration),
}

/// The view of a [`LogEntryPayload`].
#[verifier::ext_equal]
pub enum LogEntryPayloadView {
    Command(Seq<u8>),
    Configuration(ConfigurationView),
}

impl DeepView for LogEntryPayload {
    type V = LogEntryPayloadView;

    open spec fn deep_view(&self) -> LogEntryPayloadView {
        match self {
            LogEntryPayload::Command(bytes) => LogEntryPayloadView::Command(bytes@),
            LogEntryPayload::Configuration(configuration) => LogEntryPayloadView::Configuration(
                configuration.deep_view(),
            ),
        }
    }
}

#[derive(Debug, Eq, PartialEq)]
pub struct LogEntry {
    pub term: u64,
    pub payload: Option<LogEntryPayload>,
}

/// The view of a [`LogEntry`].
#[verifier::ext_equal]
pub struct LogEntryView {
    pub term: u64,
    pub payload: Option<LogEntryPayloadView>,
}

impl DeepView for LogEntry {
    type V = LogEntryView;

    open spec fn deep_view(&self) -> LogEntryView {
        LogEntryView {
            term: self.term,
            payload: match self.payload {
                Some(payload) => Some(payload.deep_view()),
                None => None,
            },
        }
    }
}

#[derive(Debug, Eq, PartialEq)]
pub struct AppendEntriesRequest {
    pub term: u64,
    pub leader_id: u64,
    pub prev_log_index: u64,
    pub prev_log_term: u64,
    pub entries: Vec<LogEntry>,
    pub leader_commit: u64,
}

/// The view of an [`AppendEntriesRequest`].
#[verifier::ext_equal]
pub struct AppendEntriesRequestView {
    pub term: u64,
    pub leader_id: u64,
    pub prev_log_index: u64,
    pub prev_log_term: u64,
    pub entries: Seq<LogEntryView>,
    pub leader_commit: u64,
}

impl DeepView for AppendEntriesRequest {
    type V = AppendEntriesRequestView;

    open spec fn deep_view(&self) -> AppendEntriesRequestView {
        AppendEntriesRequestView {
            term: self.term,
            leader_id: self.leader_id,
            prev_log_index: self.prev_log_index,
            prev_log_term: self.prev_log_term,
            entries: self.entries.deep_view(),
            leader_commit: self.leader_commit,
        }
    }
}

#[derive(Clone, Copy, Debug, Eq, PartialEq, Structural)]
pub struct AppendEntriesReply {
    pub term: u64,
    pub success: bool,
    pub match_index: u64,
}

#[derive(Debug, Eq, PartialEq)]
pub struct InstallSnapshotRequest {
    pub term: u64,
    pub leader_id: u64,
    pub last_included_index: u64,
    pub last_included_term: u64,
    pub data: Vec<u8>,
    pub config: Option<Configuration>,
}

/// The view of an [`InstallSnapshotRequest`].
#[verifier::ext_equal]
pub struct InstallSnapshotRequestView {
    pub term: u64,
    pub leader_id: u64,
    pub last_included_index: u64,
    pub last_included_term: u64,
    pub data: Seq<u8>,
    pub config: Option<ConfigurationView>,
}

/// The view of an optional configuration.
pub open spec fn view_config(config: Option<Configuration>) -> Option<ConfigurationView> {
    match config {
        Some(config) => Some(config.deep_view()),
        None => None,
    }
}

impl DeepView for InstallSnapshotRequest {
    type V = InstallSnapshotRequestView;

    open spec fn deep_view(&self) -> InstallSnapshotRequestView {
        InstallSnapshotRequestView {
            term: self.term,
            leader_id: self.leader_id,
            last_included_index: self.last_included_index,
            last_included_term: self.last_included_term,
            data: self.data@,
            config: view_config(self.config),
        }
    }
}

#[derive(Clone, Copy, Debug, Eq, PartialEq, Structural)]
pub struct InstallSnapshotReply {
    pub term: u64,
    pub last_included_index: u64,
}

#[derive(Debug, Eq, PartialEq)]
pub struct ProposeConfigChangeRequest {
    pub voters: Vec<u64>,
}

#[derive(Debug, Eq, PartialEq)]
pub struct AddLearnerRequest {
    pub node_id: u64,
    pub address: String,
}

#[derive(Debug, Eq, PartialEq)]
pub struct SetCommand {
    pub key: Vec<u8>,
    pub value: Vec<u8>,
}

#[derive(Debug, Eq, PartialEq)]
pub struct DeleteCommand {
    pub key: Vec<u8>,
}

#[derive(Debug, Eq, PartialEq)]
pub struct GetCommand {
    pub key: Vec<u8>,
}

#[derive(Debug, Eq, PartialEq)]
pub enum CommandKind {
    Put(SetCommand),
    Delete(DeleteCommand),
    Get(GetCommand),
}

#[derive(Debug, Eq, PartialEq)]
pub struct Command {
    pub kind: Option<CommandKind>,
}

impl DeepView for Command {
    type V = Option<CommandView>;

    /// The command that is meant, if its kind is there.
    open spec fn deep_view(&self) -> Option<CommandView> {
        match self.kind {
            Some(CommandKind::Put(c)) => Some(CommandView::Put { key: c.key@, value: c.value@ }),
            Some(CommandKind::Delete(c)) => Some(CommandView::Delete { key: c.key@ }),
            Some(CommandKind::Get(c)) => Some(CommandView::Get { key: c.key@ }),
            None => None,
        }
    }
}

#[derive(Debug, Eq, PartialEq)]
pub struct SetResult {
    pub previous: Option<Vec<u8>>,
}

#[derive(Debug, Eq, PartialEq)]
pub struct DeleteResult {
    pub previous: Option<Vec<u8>>,
}

#[derive(Debug, Eq, PartialEq)]
pub struct GetResult {
    pub value: Option<Vec<u8>>,
}

#[derive(Debug, Eq, PartialEq)]
pub enum ApplyResultKind {
    Put(SetResult),
    Delete(DeleteResult),
    Get(GetResult),
}

#[derive(Debug, Eq, PartialEq)]
pub struct ApplyResult {
    pub kind: Option<ApplyResultKind>,
}

impl DeepView for ApplyResult {
    type V = Option<ApplyResultView>;

    /// The result that is meant, if its kind is there.
    open spec fn deep_view(&self) -> Option<ApplyResultView> {
        match self.kind {
            Some(ApplyResultKind::Put(r)) => Some(
                ApplyResultView::Put { previous: state_machine::view_bytes(r.previous) },
            ),
            Some(ApplyResultKind::Delete(r)) => Some(
                ApplyResultView::Delete { previous: state_machine::view_bytes(r.previous) },
            ),
            Some(ApplyResultKind::Get(r)) => Some(
                ApplyResultView::Get { value: state_machine::view_bytes(r.value) },
            ),
            None => None,
        }
    }
}

/// What rests on disk.
#[derive(Debug, Eq, PartialEq)]
pub struct StorageState {
    pub current_term: u64,
    pub voted_for: Option<u64>,
    pub log: Vec<LogEntry>,
    pub snapshot_last_included_index: u64,
    pub snapshot_last_included_term: u64,
    pub snapshot_data: Vec<u8>,
    pub snapshot_config: Option<Configuration>,
    pub learners: Vec<u64>,
}

/// The view of a [`StorageState`].
#[verifier::ext_equal]
pub struct StorageStateView {
    pub current_term: u64,
    pub voted_for: Option<u64>,
    pub log: Seq<LogEntryView>,
    pub snapshot_last_included_index: u64,
    pub snapshot_last_included_term: u64,
    pub snapshot_data: Seq<u8>,
    pub snapshot_config: Option<ConfigurationView>,
    pub learners: Seq<u64>,
}

impl DeepView for StorageState {
    type V = StorageStateView;

    open spec fn deep_view(&self) -> StorageStateView {
        StorageStateView {
            current_term: self.current_term,
            voted_for: self.voted_for,
            log: self.log.deep_view(),
            snapshot_last_included_index: self.snapshot_last_included_index,
            snapshot_last_included_term: self.snapshot_last_included_term,
            snapshot_data: self.snapshot_data@,
            snapshot_config: view_config(self.snapshot_config),
            learners: self.learners@,
        }
    }
}

#[derive(Clone, Copy, Debug, Eq, PartialEq, Structural)]
pub struct NotLeader {
    pub leader_id: Option<u64>,
}

#[derive(Debug, Eq, PartialEq)]
pub struct ProposeApplied {
    pub index: u64,
    pub result: Option<ApplyResult>,
}

#[derive(Debug, Eq, PartialEq)]
pub enum ProposeReply {
    Applied(ProposeApplied),
    NotLeader(NotLeader),
    Indeterminate,
}

#[derive(Clone, Copy, Debug, Eq, PartialEq, Structural)]
pub enum ProposeConfigChangeReply {
    Accepted { index: u64 },
    NotLeader(NotLeader),
}

#[derive(Clone, Copy, Debug, Eq, PartialEq, Structural)]
pub enum AddLearnerReply {
    Accepted,
    NotLeader(NotLeader),
}

} // verus!
