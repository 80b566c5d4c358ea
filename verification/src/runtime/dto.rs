//! Conversions between the wire and the types the library works on.

use vstd::prelude::*;

use crate::kv::command::Command;
use crate::kv::state_machine::ApplyResult;
use crate::raft::types;
use crate::raft::types::{
    AppendEntries, AppendEntriesResponse, AppendEntriesView, ClusterConfig, ClusterConfigView,
    InstallSnapshot, InstallSnapshotResponse, InstallSnapshotView, LogEntry, LogPayload,
    LogPayloadView, NodeId, RequestVote, RequestVoteResponse,
};
use crate::runtime::proto;
use crate::runtime::proto::{
    AppendEntriesRequestView, ConfigurationView, InstallSnapshotRequestView, LogEntryPayloadView,
};

verus! {

pub fn request_vote_from_proto(proto: proto::RequestVoteRequest) -> (value: RequestVote)
    ensures
        value == (RequestVote {
            term: proto.term,
            candidate_id: NodeId(proto.candidate_id),
            last_log_index: proto.last_log_index,
            last_log_term: proto.last_log_term,
        }),
{
    RequestVote {
        term: proto.term,
        candidate_id: NodeId(proto.candidate_id),
        last_log_index: proto.last_log_index,
        last_log_term: proto.last_log_term,
    }
}

pub fn request_vote_to_proto(value: RequestVote) -> (proto: proto::RequestVoteRequest)
    ensures
        proto == (proto::RequestVoteRequest {
            term: value.term,
            candidate_id: value.candidate_id.0,
            last_log_index: value.last_log_index,
            last_log_term: value.last_log_term,
        }),
{
    proto::RequestVoteRequest {
        term: value.term,
        candidate_id: value.candidate_id.0,
        last_log_index: value.last_log_index,
        last_log_term: value.last_log_term,
    }
}

pub fn request_vote_response_from_proto(proto: proto::RequestVoteReply) -> (value:
    RequestVoteResponse)
    ensures
        value == (RequestVoteResponse { term: proto.term, granted: proto.granted }),
{
    RequestVoteResponse { term: proto.term, granted: proto.granted }
}

pub fn request_vote_response_to_proto(value: RequestVoteResponse) -> (proto: proto::RequestVoteReply)
    ensures
        proto == (proto::RequestVoteReply { term: value.term, granted: value.granted }),
{
    proto::RequestVoteReply { term: value.term, granted: value.granted }
}

/// Ids as they are written.
pub open spec fn written_ids(ids: Seq<NodeId>) -> Seq<u64> {
    ids.map_values(|id: NodeId| id.0)
}

/// Ids as they are read.
pub open spec fn read_ids(ids: Seq<u64>) -> Seq<NodeId> {
    ids.map_values(|id: u64| NodeId(id))
}

/// Reading what was written gives the ids back.
pub proof fn ids_read_back(ids: Seq<NodeId>)
    ensures
        read_ids(written_ids(ids)) == ids,
{
    assert(read_ids(written_ids(ids)) =~= ids);
}

pub fn ids_from_proto(ids: &[u64]) -> (read: Vec<NodeId>)
    ensures
        read@ == read_ids(ids@),
{
    let mut read: Vec<NodeId> = Vec::new();
    let mut i: usize = 0;
    while i < ids.len()
        invariant
            i <= ids@.len(),
            read@.len() == i,
            forall|j: int| 0 <= j < i ==> #[trigger] read@[j] == NodeId(ids@[j]),
        decreases ids.len() - i,
    {
        read.push(NodeId(ids[i]));
        i += 1;
    }
    assert(read@ =~= read_ids(ids@));
    read
}

pub fn ids_to_proto(ids: &[NodeId]) -> (written: Vec<u64>)
    ensures
        written@ == written_ids(ids@),
{
    let mut written: Vec<u64> = Vec::new();
    let mut i: usize = 0;
    while i < ids.len()
        invariant
            i <= ids@.len(),
            written@.len() == i,
            forall|j: int| 0 <= j < i ==> #[trigger] written@[j] == ids@[j].0,
        decreases ids.len() - i,
    {
        written.push(ids[i].0);
        i += 1;
    }
    assert(written@ =~= written_ids(ids@));
    written
}

/// A configuration as it is written: without a transition there are no
/// outgoing voters.
pub open spec fn written_config(config: ClusterConfigView) -> ConfigurationView {
    ConfigurationView {
        voters: written_ids(config.voters),
        old_voters: match config.old_voters {
            Some(old) => written_ids(old),
            None => Seq::empty(),
        },
    }
}

/// A configuration as it is read: without outgoing voters there is no
/// transition.
pub open spec fn read_config(config: ConfigurationView) -> ClusterConfigView {
    ClusterConfigView {
        voters: read_ids(config.voters),
        old_voters: if config.old_voters.len() == 0 {
            None
        } else {
            Some(read_ids(config.old_voters))
        },
    }
}

/// Whether a configuration can be told from its written form: one in
/// transition has outgoing voters.
pub open spec fn writable_config(config: ClusterConfigView) -> bool {
    config.old_voters matches Some(old) ==> old.len() > 0
}

/// A configuration reads back. One in transition from no voters at all would
/// read as no transition.
pub proof fn config_reads_back(config: ClusterConfigView)
    requires
        writable_config(config),
    ensures
        read_config(written_config(config)) == config,
{
    ids_read_back(config.voters);
    match config.old_voters {
        Some(old) => {
            ids_read_back(old);
        },
        None => {},
    }
}

pub fn configuration_from_proto(proto: proto::Configuration) -> (value: ClusterConfig)
    ensures
        value.deep_view() == read_config(proto.deep_view()),
{
    let old_voters = if proto.old_voters.len() == 0 {
        None
    } else {
        Some(ids_from_proto(&proto.old_voters))
    };
    ClusterConfig { voters: ids_from_proto(&proto.voters), old_voters }
}

pub fn configuration_to_proto(value: ClusterConfig) -> (proto: proto::Configuration)
    ensures
        proto.deep_view() == written_config(value.deep_view()),
{
    write_config(&value)
}

/// [`configuration_to_proto`] for a configuration that is still needed.
pub fn write_config(value: &ClusterConfig) -> (proto: proto::Configuration)
    ensures
        proto.deep_view() == written_config(value.deep_view()),
{
    let old_voters = match &value.old_voters {
        Some(old) => ids_to_proto(old),
        None => Vec::new(),
    };
    let proto = proto::Configuration { voters: ids_to_proto(&value.voters), old_voters };
    assert(proto.deep_view() =~= written_config(value.deep_view()));
    proto
}

/// A log entry as it is written.
pub open spec fn written_entry(entry: types::LogEntryView) -> proto::LogEntryView {
    proto::LogEntryView {
        term: entry.term,
        payload: Some(
            match entry.payload {
                LogPayloadView::Command(bytes) => LogEntryPayloadView::Command(bytes),
                LogPayloadView::Configuration(config) => LogEntryPayloadView::Configuration(
                    written_config(config),
                ),
            },
        ),
    }
}

/// A log entry as it is read; nothing if its payload is missing.
pub open spec fn read_entry(entry: proto::LogEntryView) -> Option<types::LogEntryView> {
    match entry.payload {
        Some(LogEntryPayloadView::Command(bytes)) => Some(
            types::LogEntryView { term: entry.term, payload: LogPayloadView::Command(bytes) },
        ),
        Some(LogEntryPayloadView::Configuration(config)) => Some(
            types::LogEntryView {
                term: entry.term,
                payload: LogPayloadView::Configuration(read_config(config)),
            },
        ),
        None => None,
    }
}

pub open spec fn writable_entry(entry: types::LogEntryView) -> bool {
    entry.payload matches LogPayloadView::Configuration(config) ==> writable_config(config)
}

/// A log entry reads back.
pub proof fn entry_reads_back(entry: types::LogEntryView)
    requires
        writable_entry(entry),
    ensures
        read_entry(written_entry(entry)) == Some(entry),
{
    match entry.payload {
        LogPayloadView::Configuration(config) => {
            config_reads_back(config);
        },
        _ => {},
    }
}

/// A log entry message with no payload set -- malformed input.
#[derive(Clone, Copy, Debug, Eq, PartialEq, Structural)]
pub struct MissingLogEntryPayload;

impl MissingLogEntryPayload {
    /// The reason, for a person to read.
    pub fn message(&self) -> (text: &'static str)
        ensures
            text@ == "LogEntry message is missing its payload"@,
    {
        "LogEntry message is missing its payload"
    }
}

pub fn log_entry_from_proto(proto: proto::LogEntry) -> (result: Result<
    LogEntry,
    MissingLogEntryPayload,
>)
    ensures
        match result {
            Ok(entry) => read_entry(proto.deep_view()) == Some(entry.deep_view()),
            Err(_) => read_entry(proto.deep_view()) is None,
        },
{
    match proto.payload {
        Some(proto::LogEntryPayload::Command(bytes)) => Ok(
            LogEntry { term: proto.term, payload: LogPayload::Command(bytes) },
        ),
        Some(proto::LogEntryPayload::Configuration(configuration)) => Ok(
            LogEntry {
                term: proto.term,
                payload: LogPayload::Configuration(configuration_from_proto(configuration)),
            },
        ),
        None => Err(MissingLogEntryPayload),
    }
}

pub fn log_entry_to_proto(value: LogEntry) -> (proto: proto::LogEntry)
    ensures
        proto.deep_view() == written_entry(value.deep_view()),
{
    write_entry(&value)
}

/// [`log_entry_to_proto`] for an entry that is still needed.
pub fn write_entry(value: &LogEntry) -> (proto: proto::LogEntry)
    ensures
        proto.deep_view() == written_entry(value.deep_view()),
{
    let payload = match &value.payload {
        LogPayload::Command(bytes) => proto::LogEntryPayload::Command(bytes.clone()),
        LogPayload::Configuration(config) => proto::LogEntryPayload::Configuration(
            write_config(config),
        ),
    };
    proto::LogEntry { term: value.term, payload: Some(payload) }
}

/// Entries as they are written.
pub open spec fn written_entries(entries: Seq<types::LogEntryView>) -> Seq<proto::LogEntryView> {
    entries.map_values(|entry: types::LogEntryView| written_entry(entry))
}

/// Whether every entry has its payload.
pub open spec fn readable_entries(entries: Seq<proto::LogEntryView>) -> bool {
    forall|i: int| 0 <= i < entries.len() ==> read_entry(#[trigger] entries[i]) is Some
}

/// Entries as they are read, if every one has its payload.
pub open spec fn read_entries(entries: Seq<proto::LogEntryView>) -> Seq<types::LogEntryView> {
    entries.map_values(|entry: proto::LogEntryView| read_entry(entry)->0)
}

/// Entries read back.
pub proof fn entries_read_back(entries: Seq<types::LogEntryView>)
    requires
        forall|i: int| 0 <= i < entries.len() ==> writable_entry(#[trigger] entries[i]),
    ensures
        readable_entries(written_entries(entries)),
        read_entries(written_entries(entries)) == entries,
{
    let written = written_entries(entries);
    assert forall|i: int| 0 <= i < written.len() implies read_entry(#[trigger] written[i]) == Some(
        entries[i],
    ) by {
        entry_reads_back(entries[i]);
    }
    assert(read_entries(written) =~= entries);
}

/// Reads every entry, in order.
pub fn entries_from_proto(entries: Vec<proto::LogEntry>) -> (result: Result<
    Vec<LogEntry>,
    MissingLogEntryPayload,
>)
    ensures
        match result {
            Ok(read) => readable_entries(entries.deep_view()) && read.deep_view() == read_entries(
                entries.deep_view(),
            ),
            Err(_) => !readable_entries(entries.deep_view()),
        },
{
    let ghost all = entries.deep_view();
    let mut rest = entries;
    let mut backward: Vec<LogEntry> = Vec::new();
    while rest.len() > 0
        invariant
            all == entries.deep_view(),
            rest@.len() + backward@.len() == all.len(),
            rest.deep_view() == all.take(rest@.len() as int),
            forall|i: int| 0 <= i < backward@.len() ==> Some((#[trigger] backward@[i]).deep_view())
                == read_entry(all[all.len() - 1 - i]),
        decreases rest.len(),
    {
        let ghost n = rest@.len();
        assert(rest.deep_view()[n - 1] == all[n - 1]);
        match rest.pop() {
            Some(entry) => {
                assert(entry.deep_view() == all[n - 1]);
                assert(rest.deep_view() =~= all.take(n - 1));
                match log_entry_from_proto(entry) {
                    Ok(entry) => {
                        backward.push(entry);
                    },
                    Err(error) => {
                        assert(read_entry(all[n - 1]) is None);
                        return Err(error);
                    },
                }
            },
            None => {},
        }
    }
    let mut read: Vec<LogEntry> = Vec::new();
    while backward.len() > 0
        invariant
            backward@.len() + read@.len() == all.len(),
            forall|i: int| 0 <= i < backward@.len() ==> Some((#[trigger] backward@[i]).deep_view())
                == read_entry(all[all.len() - 1 - i]),
            forall|i: int| 0 <= i < read@.len() ==> Some((#[trigger] read@[i]).deep_view())
                == read_entry(all[i]),
        decreases backward.len(),
    {
        match backward.pop() {
            Some(entry) => {
                read.push(entry);
            },
            None => {},
        }
    }
    proof {
        assert forall|i: int| 0 <= i < all.len() implies read_entry(#[trigger] all[i]) is Some by {
            assert(Some(read@[i].deep_view()) == read_entry(all[i]));
        }
        assert(read.deep_view() =~= read_entries(all));
    }
    Ok(read)
}

/// Writes every entry, in order.
pub fn entries_to_proto(entries: &[LogEntry]) -> (written: Vec<proto::LogEntry>)
    ensures
        written.deep_view() == written_entries(types::view_entries(entries@)),
{
    let mut written: Vec<proto::LogEntry> = Vec::new();
    let mut i: usize = 0;
    while i < entries.len()
        invariant
            i <= entries@.len(),
            written@.len() == i,
            forall|j: int| 0 <= j < i ==> (#[trigger] written@[j]).deep_view() == written_entry(
                entries@[j].deep_view(),
            ),
        decreases entries.len() - i,
    {
        written.push(write_entry(&entries[i]));
        i += 1;
    }
    assert(written.deep_view() =~= written_entries(types::view_entries(entries@)));
    written
}

/// A replication message as it is written.
pub open spec fn written_append(value: AppendEntriesView) -> AppendEntriesRequestView {
    AppendEntriesRequestView {
        term: value.term,
        leader_id: value.leader_id.0,
        prev_log_index: value.prev_log_index,
        prev_log_term: value.prev_log_term,
        entries: written_entries(value.entries),
        leader_commit: value.leader_commit,
    }
}

/// A replication message as it is read; nothing if an entry is malformed.
pub open spec fn read_append(value: AppendEntriesRequestView) -> Option<AppendEntriesView> {
    if readable_entries(value.entries) {
        Some(
            AppendEntriesView {
                term: value.term,
                leader_id: NodeId(value.leader_id),
                prev_log_index: value.prev_log_index,
                prev_log_term: value.prev_log_term,
                entries: read_entries(value.entries),
                leader_commit: value.leader_commit,
            },
        )
    } else {
        None
    }
}

/// A replication message reads back.
pub proof fn append_reads_back(value: AppendEntriesView)
    requires
        forall|i: int| 0 <= i < value.entries.len() ==> writable_entry(#[trigger] value.entries[i]),
    ensures
        read_append(written_append(value)) == Some(value),
{
    entries_read_back(value.entries);
}

pub fn append_entries_from_proto(proto: proto::AppendEntriesRequest) -> (result: Result<
    AppendEntries,
    MissingLogEntryPayload,
>)
    ensures
        match result {
            Ok(value) => read_append(proto.deep_view()) == Some(value.deep_view()),
            Err(_) => read_append(proto.deep_view()) is None,
        },
{
    match entries_from_proto(proto.entries) {
        Ok(entries) => Ok(
            AppendEntries {
                term: proto.term,
                leader_id: NodeId(proto.leader_id),
                prev_log_index: proto.prev_log_index,
                prev_log_term: proto.prev_log_term,
                entries,
                leader_commit: proto.leader_commit,
            },
        ),
        Err(error) => Err(error),
    }
}

pub fn append_entries_to_proto(value: AppendEntries) -> (proto: proto::AppendEntriesRequest)
    ensures
        proto.deep_view() == written_append(value.deep_view()),
{
    assert(types::view_entries(value.entries@) =~= value.entries.deep_view());
    proto::AppendEntriesRequest {
        term: value.term,
        leader_id: value.leader_id.0,
        prev_log_index: value.prev_log_index,
        prev_log_term: value.prev_log_term,
        entries: entries_to_proto(&value.entries),
        leader_commit: value.leader_commit,
    }
}

pub fn append_entries_response_from_proto(proto: proto::AppendEntriesReply) -> (value:
    AppendEntriesResponse)
    ensures
        value == (AppendEntriesResponse {
            term: proto.term,
            success: proto.success,
            match_index: proto.match_index,
        }),
{
    AppendEntriesResponse {
        term: proto.term,
        success: proto.success,
        match_index: proto.match_index,
    }
}

pub fn append_entries_response_to_proto(value: AppendEntriesResponse) -> (proto:
    proto::AppendEntriesReply)
    ensures
        proto == (proto::AppendEntriesReply {
            term: value.term,
            success: value.success,
            match_index: value.match_index,
        }),
{
    proto::AppendEntriesReply {
        term: value.term,
        success: value.success,
        match_index: value.match_index,
    }
}

/// A snapshot as it is written.
pub open spec fn written_snapshot(value: InstallSnapshotView) -> InstallSnapshotRequestView {
    InstallSnapshotRequestView {
        term: value.term,
        leader_id: value.leader_id.0,
        last_included_index: value.last_included_index,
        last_included_term: value.last_included_term,
        data: value.data,
        config: Some(written_config(value.config)),
    }
}

/// An optional configuration as it is read: a missing one has no voters.
pub open spec fn read_config_or_none(config: Option<ConfigurationView>) -> ClusterConfigView {
    match config {
        Some(config) => read_config(config),
        None => ClusterConfigView { voters: Seq::empty(), old_voters: None },
    }
}

/// A snapshot as it is read.
pub open spec fn read_snapshot(value: InstallSnapshotRequestView) -> InstallSnapshotView {
    InstallSnapshotView {
        term: value.term,
        leader_id: NodeId(value.leader_id),
        last_included_index: value.last_included_index,
        last_included_term: value.last_included_term,
        data: value.data,
        config: read_config_or_none(value.config),
    }
}

/// A snapshot reads back.
pub proof fn snapshot_reads_back(value: InstallSnapshotView)
    requires
        writable_config(value.config),
    ensures
        read_snapshot(written_snapshot(value)) == value,
{
    config_reads_back(value.config);
}

pub fn install_snapshot_from_proto(proto: proto::InstallSnapshotRequest) -> (value: InstallSnapshot)
    ensures
        value.deep_view() == read_snapshot(proto.deep_view()),
{
    let config = match proto.config {
        Some(config) => configuration_from_proto(config),
        None => ClusterConfig::default(),
    };
    InstallSnapshot {
        term: proto.term,
        leader_id: NodeId(proto.leader_id),
        last_included_index: proto.last_included_index,
        last_included_term: proto.last_included_term,
        data: proto.data,
        config,
    }
}

pub fn install_snapshot_to_proto(value: InstallSnapshot) -> (proto: proto::InstallSnapshotRequest)
    ensures
        proto.deep_view() == written_snapshot(value.deep_view()),
{
    proto::InstallSnapshotRequest {
        term: value.term,
        leader_id: value.leader_id.0,
        last_included_index: value.last_included_index,
        last_included_term: value.last_included_term,
        data: value.data,
        config: Some(write_config(&value.config)),
    }
}

pub fn install_snapshot_response_from_proto(proto: proto::InstallSnapshotReply) -> (value:
    InstallSnapshotResponse)
    ensures
        value == (InstallSnapshotResponse {
            term: proto.term,
            last_included_index: proto.last_included_index,
        }),
{
    InstallSnapshotResponse {
        term: proto.term,
        last_included_index: proto.last_included_index,
    }
}

pub fn install_snapshot_response_to_proto(value: InstallSnapshotResponse) -> (proto:
    proto::InstallSnapshotReply)
    ensures
        proto == (proto::InstallSnapshotReply {
            term: value.term,
            last_included_index: value.last_included_index,
        }),
{
    proto::InstallSnapshotReply {
        term: value.term,
        last_included_index: value.last_included_index,
    }
}

pub fn propose_config_change_from_proto(proto: proto::ProposeConfigChangeRequest) -> (voters: Vec<
    NodeId,
>)
    ensures
        voters@ == read_ids(proto.voters@),
{
    ids_from_proto(&proto.voters)
}

pub fn propose_config_change_to_proto(voters: Vec<NodeId>) -> (proto:
    proto::ProposeConfigChangeRequest)
    ensures
        proto.voters@ == written_ids(voters@),
{
    proto::ProposeConfigChangeRequest { voters: ids_to_proto(&voters) }
}

/// The learner's id and its address, which only the transport cares about.
pub fn add_learner_from_proto(proto: proto::AddLearnerRequest) -> (learner: (NodeId, String))
    ensures
        learner == (NodeId(proto.node_id), proto.address),
{
    (NodeId(proto.node_id), proto.address)
}

pub fn add_learner_to_proto(id: NodeId, address: String) -> (proto: proto::AddLearnerRequest)
    ensures
        proto == (proto::AddLearnerRequest { node_id: id.0, address }),
{
    proto::AddLearnerRequest { node_id: id.0, address }
}

/// A command message with no kind set -- malformed input.
#[derive(Clone, Copy, Debug, Eq, PartialEq, Structural)]
pub struct MissingCommandKind;

impl MissingCommandKind {
    /// The reason, for a person to read.
    pub fn message(&self) -> (text: &'static str)
        ensures
            text@ == "Command message is missing its kind"@,
    {
        "Command message is missing its kind"
    }
}

pub fn command_from_proto(proto: proto::Command) -> (result: Result<Command, MissingCommandKind>)
    ensures
        match result {
            Ok(command) => proto.deep_view() == Some(command.deep_view()),
            Err(_) => proto.deep_view() is None,
        },
{
    match proto.kind {
        Some(proto::CommandKind::Put(c)) => Ok(Command::Put { key: c.key, value: c.value }),
        Some(proto::CommandKind::Delete(c)) => Ok(Command::Delete { key: c.key }),
        Some(proto::CommandKind::Get(c)) => Ok(Command::Get { key: c.key }),
        None => Err(MissingCommandKind),
    }
}

/// The written command reads back as the command that was meant.
pub fn command_to_proto(value: Command) -> (proto: proto::Command)
    ensures
        proto.deep_view() == Some(value.deep_view()),
{
    let kind = match value {
        Command::Put { key, value } => proto::CommandKind::Put(proto::SetCommand { key, value }),
        Command::Delete { key } => proto::CommandKind::Delete(proto::DeleteCommand { key }),
        Command::Get { key } => proto::CommandKind::Get(proto::GetCommand { key }),
    };
    proto::Command { kind: Some(kind) }
}

/// A result message with no kind set -- malformed input.
#[derive(Clone, Copy, Debug, Eq, PartialEq, Structural)]
pub struct MissingApplyResultKind;

impl MissingApplyResultKind {
    /// The reason, for a person to read.
    pub fn message(&self) -> (text: &'static str)
        ensures
            text@ == "ApplyResult message is missing its kind"@,
    {
        "ApplyResult message is missing its kind"
    }
}

pub fn apply_result_from_proto(proto: proto::ApplyResult) -> (result: Result<
    ApplyResult,
    MissingApplyResultKind,
>)
    ensures
        match result {
            Ok(applied) => proto.deep_view() == Some(applied.deep_view()),
            Err(_) => proto.deep_view() is None,
        },
{
    match proto.kind {
        Some(proto::ApplyResultKind::Put(r)) => Ok(ApplyResult::Put { previous: r.previous }),
        Some(proto::ApplyResultKind::Delete(r)) => Ok(
            ApplyResult::Delete { previous: r.previous },
        ),
        Some(proto::ApplyResultKind::Get(r)) => Ok(ApplyResult::Get { value: r.value }),
        None => Err(MissingApplyResultKind),
    }
}

/// The written result reads back as the result that was meant.
pub fn apply_result_to_proto(value: ApplyResult) -> (proto: proto::ApplyResult)
    ensures
        proto.deep_view() == Some(value.deep_view()),
{
    let kind = match value {
        ApplyResult::Put { previous } => proto::ApplyResultKind::Put(
            proto::SetResult { previous },
        ),
        ApplyResult::Delete { previous } => proto::ApplyResultKind::Delete(
            proto::DeleteResult { previous },
        ),
        ApplyResult::Get { value } => proto::ApplyResultKind::Get(proto::GetResult { value }),
    };
    proto::ApplyResult { kind: Some(kind) }
}

} // verus!
