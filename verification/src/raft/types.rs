//! The values nodes exchange, persist and report, each with its view.

use vstd::prelude::*;

verus! {

/// Stable identity of one member in a Raft configuration.
#[derive(Clone, Copy, Debug, Eq, Ord, PartialEq, PartialOrd, Hash, Structural)]
pub struct NodeId(pub u64);

impl DeepView for NodeId {
    type V = NodeId;

    open spec fn deep_view(&self) -> NodeId {
        *self
    }
}

/// A node's current Raft role.
#[derive(Clone, Copy, Debug, Eq, PartialEq, Structural)]
pub enum Role {
    Follower,
    Candidate,
    Leader,
}

/// A vote request delivered by another configured node.
#[derive(Clone, Copy, Debug, Eq, PartialEq, Structural)]
pub struct RequestVote {
    pub term: u64,
    pub candidate_id: NodeId,
    pub last_log_index: u64,
    pub last_log_term: u64,
}

/// The response to a vote request.
#[derive(Clone, Copy, Debug, Eq, PartialEq, Structural)]
pub struct RequestVoteResponse {
    pub term: u64,
    pub granted: bool,
}

/// A cluster's voting membership. `voters` is the active (or, during a
/// joint-consensus transition, the *new*) set; `old_voters` is `Some` only
/// while a transition is in flight, holding the set being replaced. Both
/// sets must independently reach majority for anything -- an election or a
/// commit -- to succeed while `old_voters` is `Some`.
#[derive(Debug, Eq, PartialEq)]
pub struct ClusterConfig {
    pub voters: Vec<NodeId>,
    pub old_voters: Option<Vec<NodeId>>,
}

/// The view of a [`ClusterConfig`].
#[verifier::ext_equal]
pub struct ClusterConfigView {
    pub voters: Seq<NodeId>,
    pub old_voters: Option<Seq<NodeId>>,
}

impl ClusterConfigView {
    /// Whether `id` is a voter under either set this configuration carries.
    pub open spec fn is_voter(self, id: NodeId) -> bool {
        self.voters.contains(id) || match self.old_voters {
            Some(old) => old.contains(id),
            None => false,
        }
    }

    /// Everyone who is a voter under either set.
    pub open spec fn members(self) -> Set<NodeId> {
        match self.old_voters {
            Some(old) => self.voters.to_set().union(old.to_set()),
            None => self.voters.to_set(),
        }
    }

    /// Whether a joint-consensus transition is in flight.
    pub open spec fn is_joint(self) -> bool {
        self.old_voters is Some
    }

    /// The configuration of a node that belongs to no cluster yet.
    pub open spec fn unconfigured(self) -> bool {
        self.voters.len() == 0 && self.old_voters is None
    }
}

impl DeepView for ClusterConfig {
    type V = ClusterConfigView;

    open spec fn deep_view(&self) -> ClusterConfigView {
        ClusterConfigView {
            voters: self.voters@,
            old_voters: match self.old_voters {
                Some(old) => Some(old@),
                None => None,
            },
        }
    }
}

/// Whether `id` occurs in `ids`.
pub fn contains_id(ids: &[NodeId], id: NodeId) -> (found: bool)
    ensures
        found == ids@.contains(id),
{
    let mut i: usize = 0;
    while i < ids.len()
        invariant
            i <= ids.len(),
            forall|j: int| 0 <= j < i ==> ids@[j] != id,
        decreases ids.len() - i,
    {
        if ids[i] == id {
            return true;
        }
        i += 1;
    }
    false
}

impl ClusterConfig {
    /// Whether `id` is a voter under either set this config carries.
    pub fn is_voter(&self, id: NodeId) -> (result: bool)
        ensures
            result == self.deep_view().is_voter(id),
    {
        if contains_id(&self.voters, id) {
            return true;
        }
        match &self.old_voters {
            Some(old) => contains_id(old, id),
            None => false,
        }
    }

    /// Whether this config is mid-transition (`C_old,new`) rather than stable.
    pub fn is_joint(&self) -> (result: bool)
        ensures
            result == self.deep_view().is_joint(),
    {
        self.old_voters.is_some()
    }
}

impl Clone for ClusterConfig {
    fn clone(&self) -> (copy: Self)
        ensures
            copy.deep_view() == self.deep_view(),
    {
        let old_voters = match &self.old_voters {
            Some(old) => Some(old.clone()),
            None => None,
        };
        let copy = ClusterConfig { voters: self.voters.clone(), old_voters };
        assert(copy.deep_view() =~= self.deep_view());
        copy
    }
}

impl Default for ClusterConfig {
    fn default() -> (config: Self)
        ensures
            config.deep_view() == (ClusterConfigView { voters: Seq::empty(), old_voters: None }),
    {
        ClusterConfig { voters: Vec::new(), old_voters: None }
    }
}

/// A log entry's payload. `Command` bytes are opaque to this module;
/// `Configuration` is core protocol state and takes effect the moment it is
/// appended, even before it commits.
#[derive(Debug, Eq, PartialEq)]
pub enum LogPayload {
    Command(Vec<u8>),
    Configuration(ClusterConfig),
}

/// The view of a [`LogPayload`].
#[verifier::ext_equal]
pub enum LogPayloadView {
    Command(Seq<u8>),
    Configuration(ClusterConfigView),
}

impl DeepView for LogPayload {
    type V = LogPayloadView;

    open spec fn deep_view(&self) -> LogPayloadView {
        match self {
            LogPayload::Command(bytes) => LogPayloadView::Command(bytes@),
            LogPayload::Configuration(config) => LogPayloadView::Configuration(config.deep_view()),
        }
    }
}

impl Clone for LogPayload {
    fn clone(&self) -> (copy: Self)
        ensures
            copy.deep_view() == self.deep_view(),
    {
        match self {
            LogPayload::Command(bytes) => LogPayload::Command(bytes.clone()),
            LogPayload::Configuration(config) => LogPayload::Configuration(config.clone()),
        }
    }
}

/// One entry in a node's replicated log.
#[derive(Debug, Eq, PartialEq)]
pub struct LogEntry {
    pub term: u64,
    pub payload: LogPayload,
}

/// The view of a [`LogEntry`].
#[verifier::ext_equal]
pub struct LogEntryView {
    pub term: u64,
    pub payload: LogPayloadView,
}

impl DeepView for LogEntry {
    type V = LogEntryView;

    open spec fn deep_view(&self) -> LogEntryView {
        LogEntryView { term: self.term, payload: self.payload.deep_view() }
    }
}

impl Clone for LogEntry {
    fn clone(&self) -> (copy: Self)
        ensures
            copy.deep_view() == self.deep_view(),
    {
        LogEntry { term: self.term, payload: self.payload.clone() }
    }
}

/// A copy of `entries` from position `from` to the end.
pub fn clone_entries(entries: &[LogEntry], from: usize) -> (copy: Vec<LogEntry>)
    requires
        from <= entries@.len(),
    ensures
        copy.deep_view() == view_entries(entries@).skip(from as int),
{
    let mut copy: Vec<LogEntry> = Vec::new();
    let mut i: usize = from;
    while i < entries.len()
        invariant
            from <= i <= entries@.len(),
            copy@.len() == i - from,
            forall|j: int| 0 <= j < copy@.len() ==> (#[trigger] copy@[j]).deep_view()
                == entries@[from + j].deep_view(),
        decreases entries.len() - i,
    {
        copy.push(entries[i].clone());
        i += 1;
    }
    assert(copy.deep_view() =~= view_entries(entries@).skip(from as int));
    copy
}

/// The views of a sequence of entries.
pub open spec fn view_entries(entries: Seq<LogEntry>) -> Seq<LogEntryView> {
    Seq::new(entries.len(), |i: int| entries[i].deep_view())
}

/// A leader's replication message. Empty `entries` is a heartbeat.
#[derive(Debug, Eq, PartialEq)]
pub struct AppendEntries {
    pub term: u64,
    pub leader_id: NodeId,
    pub prev_log_index: u64,
    pub prev_log_term: u64,
    pub entries: Vec<LogEntry>,
    pub leader_commit: u64,
}

/// The view of an [`AppendEntries`].
#[verifier::ext_equal]
pub struct AppendEntriesView {
    pub term: u64,
    pub leader_id: NodeId,
    pub prev_log_index: u64,
    pub prev_log_term: u64,
    pub entries: Seq<LogEntryView>,
    pub leader_commit: u64,
}

impl DeepView for AppendEntries {
    type V = AppendEntriesView;

    open spec fn deep_view(&self) -> AppendEntriesView {
        AppendEntriesView {
            term: self.term,
            leader_id: self.leader_id,
            prev_log_index: self.prev_log_index,
            prev_log_term: self.prev_log_term,
            entries: self.entries.deep_view(),
            leader_commit: self.leader_commit,
        }
    }
}

impl Clone for AppendEntries {
    fn clone(&self) -> (copy: Self)
        ensures
            copy.deep_view() == self.deep_view(),
    {
        let copy = AppendEntries {
            term: self.term,
            leader_id: self.leader_id,
            prev_log_index: self.prev_log_index,
            prev_log_term: self.prev_log_term,
            entries: clone_entries(&self.entries, 0),
            leader_commit: self.leader_commit,
        };
        assert(copy.deep_view() =~= self.deep_view());
        copy
    }
}

/// The response to an `AppendEntries`. `match_index` is meaningful only when
/// `success` is true: how far the responder's log now matches the leader's.
#[derive(Clone, Copy, Debug, Eq, PartialEq, Structural)]
pub struct AppendEntriesResponse {
    pub term: u64,
    pub success: bool,
    pub match_index: u64,
}

/// A leader's message installing a full snapshot on a follower whose
/// `next_index` has fallen at or behind the leader's own compaction boundary.
/// `data` is opaque; `config` is the membership active as of the boundary.
#[derive(Debug, Eq, PartialEq)]
pub struct InstallSnapshot {
    pub term: u64,
    pub leader_id: NodeId,
    pub last_included_index: u64,
    pub last_included_term: u64,
    pub data: Vec<u8>,
    pub config: ClusterConfig,
}

/// The view of an [`InstallSnapshot`].
#[verifier::ext_equal]
pub struct InstallSnapshotView {
    pub term: u64,
    pub leader_id: NodeId,
    pub last_included_index: u64,
    pub last_included_term: u64,
    pub data: Seq<u8>,
    pub config: ClusterConfigView,
}

impl DeepView for InstallSnapshot {
    type V = InstallSnapshotView;

    open spec fn deep_view(&self) -> InstallSnapshotView {
        InstallSnapshotView {
            term: self.term,
            leader_id: self.leader_id,
            last_included_index: self.last_included_index,
            last_included_term: self.last_included_term,
            data: self.data@,
            config: self.config.deep_view(),
        }
    }
}

impl Clone for InstallSnapshot {
    fn clone(&self) -> (copy: Self)
        ensures
            copy.deep_view() == self.deep_view(),
    {
        let copy = InstallSnapshot {
            term: self.term,
            leader_id: self.leader_id,
            last_included_index: self.last_included_index,
            last_included_term: self.last_included_term,
            data: self.data.clone(),
            config: self.config.clone(),
        };
        assert(copy.deep_view() =~= self.deep_view());
        copy
    }
}

/// The response to an `InstallSnapshot`. `last_included_index` echoes back
/// the point now covered.
#[derive(Clone, Copy, Debug, Eq, PartialEq, Structural)]
pub struct InstallSnapshotResponse {
    pub term: u64,
    pub last_included_index: u64,
}

/// A message understood by the transport-free Raft core.
#[derive(Debug, Eq, PartialEq)]
pub enum Message {
    RequestVote(RequestVote),
    RequestVoteResponse(RequestVoteResponse),
    AppendEntries(AppendEntries),
    AppendEntriesResponse(AppendEntriesResponse),
    InstallSnapshot(InstallSnapshot),
    InstallSnapshotResponse(InstallSnapshotResponse),
}

/// The view of a [`Message`].
#[verifier::ext_equal]
pub enum MessageView {
    RequestVote(RequestVote),
    RequestVoteResponse(RequestVoteResponse),
    AppendEntries(AppendEntriesView),
    AppendEntriesResponse(AppendEntriesResponse),
    InstallSnapshot(InstallSnapshotView),
    InstallSnapshotResponse(InstallSnapshotResponse),
}

impl DeepView for Message {
    type V = MessageView;

    open spec fn deep_view(&self) -> MessageView {
        match self {
            Message::RequestVote(m) => MessageView::RequestVote(*m),
            Message::RequestVoteResponse(m) => MessageView::RequestVoteResponse(*m),
            Message::AppendEntries(m) => MessageView::AppendEntries(m.deep_view()),
            Message::AppendEntriesResponse(m) => MessageView::AppendEntriesResponse(*m),
            Message::InstallSnapshot(m) => MessageView::InstallSnapshot(m.deep_view()),
            Message::InstallSnapshotResponse(m) => MessageView::InstallSnapshotResponse(*m),
        }
    }
}

impl Clone for Message {
    fn clone(&self) -> (copy: Self)
        ensures
            copy.deep_view() == self.deep_view(),
    {
        match self {
            Message::RequestVote(m) => Message::RequestVote(*m),
            Message::RequestVoteResponse(m) => Message::RequestVoteResponse(*m),
            Message::AppendEntries(m) => Message::AppendEntries(m.clone()),
            Message::AppendEntriesResponse(m) => Message::AppendEntriesResponse(*m),
            Message::InstallSnapshot(m) => Message::InstallSnapshot(m.clone()),
            Message::InstallSnapshotResponse(m) => Message::InstallSnapshotResponse(*m),
        }
    }
}

/// One explicit input to a node transition.
#[derive(Debug, Eq, PartialEq)]
pub enum Event {
    Tick { next_timeout: u64 },
    Step { from: NodeId, message: Message },
}

/// The view of an [`Event`].
#[verifier::ext_equal]
pub enum EventView {
    Tick { next_timeout: u64 },
    Step { from: NodeId, message: MessageView },
}

impl DeepView for Event {
    type V = EventView;

    open spec fn deep_view(&self) -> EventView {
        match self {
            Event::Tick { next_timeout } => EventView::Tick { next_timeout: *next_timeout },
            Event::Step { from, message } => EventView::Step {
                from: *from,
                message: message.deep_view(),
            },
        }
    }
}

impl Clone for Event {
    fn clone(&self) -> (copy: Self)
        ensures
            copy.deep_view() == self.deep_view(),
    {
        match self {
            Event::Tick { next_timeout } => Event::Tick { next_timeout: *next_timeout },
            Event::Step { from, message } => Event::Step { from: *from, message: message.clone() },
        }
    }
}

/// One side effect emitted by a node transition for its owner to interpret.
/// Every `Persist*` effect must be made durable before any later `Send` of the
/// same batch is honored.
#[derive(Debug, Eq, PartialEq)]
pub enum Effect {
    Send { to: NodeId, message: Message },
    PersistHardState { term: u64, voted_for: Option<NodeId> },
    /// Splice: the durable log discards every entry at or after `from_index`,
    /// then has `entries` appended in its place.
    PersistLog { from_index: u64, entries: Vec<LogEntry> },
    /// Replaces the durable snapshot. Always immediately followed by a
    /// `PersistLog` that pins down exactly what remains above the boundary.
    PersistSnapshot {
        last_included_index: u64,
        last_included_term: u64,
        data: Vec<u8>,
        config: ClusterConfig,
    },
    /// Replaces the durable learner set with `learners`.
    PersistLearners { learners: Vec<NodeId> },
}

/// The view of an [`Effect`].
#[verifier::ext_equal]
pub enum EffectView {
    Send { to: NodeId, message: MessageView },
    PersistHardState { term: u64, voted_for: Option<NodeId> },
    PersistLog { from_index: u64, entries: Seq<LogEntryView> },
    PersistSnapshot {
        last_included_index: u64,
        last_included_term: u64,
        data: Seq<u8>,
        config: ClusterConfigView,
    },
    PersistLearners { learners: Seq<NodeId> },
}

impl DeepView for Effect {
    type V = EffectView;

    open spec fn deep_view(&self) -> EffectView {
        match self {
            Effect::Send { to, message } => EffectView::Send {
                to: *to,
                message: message.deep_view(),
            },
            Effect::PersistHardState { term, voted_for } => EffectView::PersistHardState {
                term: *term,
                voted_for: *voted_for,
            },
            Effect::PersistLog { from_index, entries } => EffectView::PersistLog {
                from_index: *from_index,
                entries: entries.deep_view(),
            },
            Effect::PersistSnapshot { last_included_index, last_included_term, data, config } =>
                EffectView::PersistSnapshot {
                    last_included_index: *last_included_index,
                    last_included_term: *last_included_term,
                    data: data@,
                    config: config.deep_view(),
                },
            Effect::PersistLearners { learners } => EffectView::PersistLearners {
                learners: learners@,
            },
        }
    }
}

impl Clone for Effect {
    fn clone(&self) -> (copy: Self)
        ensures
            copy.deep_view() == self.deep_view(),
    {
        match self {
            Effect::Send { to, message } => Effect::Send { to: *to, message: message.clone() },
            Effect::PersistHardState { term, voted_for } => Effect::PersistHardState {
                term: *term,
                voted_for: *voted_for,
            },
            Effect::PersistLog { from_index, entries } => {
                let copy = Effect::PersistLog {
                    from_index: *from_index,
                    entries: clone_entries(entries, 0),
                };
                assert(copy.deep_view() =~= self.deep_view());
                copy
            },
            Effect::PersistSnapshot { last_included_index, last_included_term, data, config } =>
                Effect::PersistSnapshot {
                    last_included_index: *last_included_index,
                    last_included_term: *last_included_term,
                    data: data.clone(),
                    config: config.clone(),
                },
            Effect::PersistLearners { learners } => Effect::PersistLearners {
                learners: learners.clone(),
            },
        }
    }
}

/// The subset of a node's state that must survive a crash besides its log and
/// snapshot: its current term and which candidate (if any) it voted for.
#[derive(Clone, Copy, Debug, Eq, PartialEq, Structural)]
pub struct HardState {
    pub current_term: u64,
    pub voted_for: Option<NodeId>,
}

impl Default for HardState {
    fn default() -> (state: Self)
        ensures
            state == (HardState { current_term: 0, voted_for: None }),
    {
        HardState { current_term: 0, voted_for: None }
    }
}

/// Metadata about the most recent snapshot a node holds. Log indices at or
/// before `last_included_index` have been compacted away;
/// `last_included_index == 0` means no snapshot exists yet.
#[derive(Clone, Copy, Debug, Eq, PartialEq, Structural)]
pub struct SnapshotMetadata {
    pub last_included_index: u64,
    pub last_included_term: u64,
}

impl Default for SnapshotMetadata {
    fn default() -> (metadata: Self)
        ensures
            metadata == (SnapshotMetadata { last_included_index: 0, last_included_term: 0 }),
    {
        SnapshotMetadata { last_included_index: 0, last_included_term: 0 }
    }
}

/// A snapshot boundary paired with its opaque bytes and the membership active
/// as of the boundary.
#[derive(Debug, Eq, PartialEq)]
pub struct Snapshot {
    pub metadata: SnapshotMetadata,
    pub data: Vec<u8>,
    pub config: ClusterConfig,
}

impl Clone for Snapshot {
    fn clone(&self) -> (copy: Self)
        ensures
            copy.metadata == self.metadata,
            copy.data@ == self.data@,
            copy.config.deep_view() == self.config.deep_view(),
    {
        Snapshot {
            metadata: self.metadata,
            data: self.data.clone(),
            config: self.config.clone(),
        }
    }
}

impl Default for Snapshot {
    fn default() -> (snapshot: Self)
        ensures
            snapshot.metadata == (SnapshotMetadata {
                last_included_index: 0,
                last_included_term: 0,
            }),
            snapshot.data@ == Seq::<u8>::empty(),
            snapshot.config.deep_view() == (ClusterConfigView {
                voters: Seq::empty(),
                old_voters: None,
            }),
    {
        Snapshot {
            metadata: SnapshotMetadata::default(),
            data: Vec::new(),
            config: ClusterConfig::default(),
        }
    }
}

/// Invalid construction of a Raft node.
#[derive(Clone, Copy, Debug, Eq, PartialEq, Structural)]
pub enum ConfigError {
    EmptyConfiguration,
    MembersNotStrictlyOrdered,
    LocalNodeMissing,
    ZeroElectionTimeout,
    ZeroHeartbeatInterval,
    HeartbeatIntervalExceedsElectionTimeout,
}

impl ConfigError {
    /// The reason, for a person to read.
    pub fn message(&self) -> (text: &'static str)
        ensures
            text@ == match self {
                ConfigError::EmptyConfiguration =>
                    "Raft configuration must contain at least one node"@,
                ConfigError::MembersNotStrictlyOrdered =>
                    "Raft configuration must be sorted and contain no duplicate node IDs"@,
                ConfigError::LocalNodeMissing =>
                    "Raft configuration must contain the local node ID"@,
                ConfigError::ZeroElectionTimeout => "election timeout must be greater than zero"@,
                ConfigError::ZeroHeartbeatInterval =>
                    "heartbeat interval must be greater than zero"@,
                ConfigError::HeartbeatIntervalExceedsElectionTimeout =>
                    "heartbeat interval must not exceed the election timeout"@,
            },
    {
        match self {
            ConfigError::EmptyConfiguration => "Raft configuration must contain at least one node",
            ConfigError::MembersNotStrictlyOrdered =>
                "Raft configuration must be sorted and contain no duplicate node IDs",
            ConfigError::LocalNodeMissing => "Raft configuration must contain the local node ID",
            ConfigError::ZeroElectionTimeout => "election timeout must be greater than zero",
            ConfigError::ZeroHeartbeatInterval => "heartbeat interval must be greater than zero",
            ConfigError::HeartbeatIntervalExceedsElectionTimeout =>
                "heartbeat interval must not exceed the election timeout",
        }
    }
}

/// Invalid compaction request.
#[derive(Clone, Copy, Debug, Eq, PartialEq, Structural)]
pub enum CompactError {
    /// `up_to_index` is past `commit_index` -- compacting it would discard
    /// state no majority has actually agreed on yet.
    IndexNotCommitted,
}

impl CompactError {
    /// The reason, for a person to read.
    pub fn message(&self) -> (text: &'static str)
        ensures
            text@ == "cannot compact past the commit index"@,
    {
        "cannot compact past the commit index"
    }
}

} // verus!
