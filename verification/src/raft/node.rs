//! One Raft node: a state machine that consumes events and emits effects.

use vstd::prelude::*;

use crate::raft::ids;
use crate::raft::ids::{NodeMap, NodeSet};
use crate::raft::laws;
use crate::raft::model;
use crate::raft::model::NodeState;
use crate::raft::types;
use crate::raft::types::{
    clone_entries, contains_id, AppendEntries, AppendEntriesResponse, ClusterConfig, CompactError,
    ConfigError, Effect, Event, HardState, InstallSnapshot, InstallSnapshotResponse, LogEntry,
    LogPayload, Message, NodeId, RequestVote, RequestVoteResponse, Role, Snapshot,
    SnapshotMetadata,
};

verus! {

/// All mutable protocol state owned by one Raft node.
#[derive(Debug)]
pub struct Node {
    id: NodeId,
    role: Role,
    current_term: u64,
    voted_for: Option<NodeId>,
    election_elapsed: u64,
    election_timeout: u64,
    votes_granted: NodeSet,
    heartbeat_elapsed: u64,
    heartbeat_interval: u64,
    /// Ticks since this node last accepted a message from a leader. Granting a
    /// vote or starting an election does not reset it.
    leader_contact_elapsed: u64,
    log: Vec<LogEntry>,
    commit_index: u64,
    next_index: NodeMap<u64>,
    match_index: NodeMap<u64>,
    snapshot: SnapshotMetadata,
    snapshot_data: Vec<u8>,
    /// The configuration as of the snapshot boundary.
    snapshot_config: ClusterConfig,
    /// The configuration in force, kept in step with the log and snapshot.
    current_config: ClusterConfig,
    /// The absolute log index at which `current_config` was set.
    current_config_index: u64,
    learners: NodeSet,
}

impl View for Node {
    type V = NodeState;

    closed spec fn view(&self) -> NodeState {
        NodeState {
            id: self.id,
            role: self.role,
            current_term: self.current_term,
            voted_for: self.voted_for,
            election_elapsed: self.election_elapsed,
            election_timeout: self.election_timeout,
            votes_granted: self.votes_granted@,
            heartbeat_elapsed: self.heartbeat_elapsed,
            heartbeat_interval: self.heartbeat_interval,
            leader_contact_elapsed: self.leader_contact_elapsed,
            log: self.log.deep_view(),
            commit_index: self.commit_index,
            next_index: self.next_index@,
            match_index: self.match_index@,
            snapshot: self.snapshot,
            snapshot_data: self.snapshot_data@,
            snapshot_config: self.snapshot_config.deep_view(),
            learners: self.learners@,
        }
    }
}

/// The most recent configuration in `log`, with its absolute index; the first
/// entry of `log` sits just above `boundary`.
fn latest_configuration_in(log: &[LogEntry], boundary: u64) -> (latest: Option<(ClusterConfig, u64)>)
    requires
        boundary + log@.len() <= u64::MAX,
    ensures
        match latest {
            Some((config, index)) => model::latest_configuration(types::view_entries(log@)) == Some(
                (config.deep_view(), index - boundary - 1),
            ),
            None => model::latest_configuration(types::view_entries(log@)) is None,
        },
{
    let ghost entries = types::view_entries(log@);
    let mut end: usize = log.len();
    assert(entries.take(end as int) =~= entries);
    while end > 0
        invariant
            end <= log@.len(),
            boundary + log@.len() <= u64::MAX,
            entries == types::view_entries(log@),
            model::latest_configuration(entries.take(end as int)) == model::latest_configuration(
                entries,
            ),
        decreases end,
    {
        assert(entries.take(end as int).drop_last() =~= entries.take(end - 1));
        assert(entries.take(end as int).last() == log@[end - 1].deep_view());
        match &log[end - 1].payload {
            LogPayload::Configuration(config) => {
                return Some((config.clone(), boundary + end as u64));
            },
            LogPayload::Command(_) => {},
        }
        end -= 1;
    }
    None
}

/// How many members of `votes` occur in `voters`.
fn count_votes(votes: &[NodeId], voters: &[NodeId]) -> (count: usize)
    requires
        ids::ascending(votes@),
    ensures
        count == votes@.to_set().intersect(voters@.to_set()).len(),
{
    let mut count: usize = 0;
    let mut i: usize = 0;
    proof {
        assert(votes@.take(0).to_set().intersect(voters@.to_set()) =~= Set::empty());
    }
    while i < votes.len()
        invariant
            i <= votes@.len(),
            count <= i,
            ids::ascending(votes@),
            votes@.take(i as int).to_set().intersect(voters@.to_set()).finite(),
            count == votes@.take(i as int).to_set().intersect(voters@.to_set()).len(),
        decreases votes.len() - i,
    {
        let ghost seen = votes@.take(i as int).to_set();
        let ghost vote = votes@[i as int];
        proof {
            assert(votes@.take(i + 1) =~= votes@.take(i as int).push(vote));
            votes@.take(i as int).lemma_push_to_set_commute(vote);
            assert(!seen.contains(vote)) by {
                if seen.contains(vote) {
                    let j = choose|j: int| 0 <= j < i && votes@.take(i as int)[j] == vote;
                    assert(votes@[j].0 < votes@[i as int].0);
                }
            }
        }
        if contains_id(voters, votes[i]) {
            count += 1;
            assert(seen.insert(vote).intersect(voters@.to_set()) =~= seen.intersect(
                voters@.to_set(),
            ).insert(vote));
        } else {
            assert(seen.insert(vote).intersect(voters@.to_set()) =~= seen.intersect(
                voters@.to_set(),
            ));
        }
        i += 1;
    }
    assert(votes@.take(votes@.len() as int) =~= votes@);
    count
}

/// Whether a strict majority of `set` is in `votes`.
fn majority_granted(set: &[NodeId], votes: &NodeSet) -> (reached: bool)
    requires
        votes.wf(),
    ensures
        reached == (model::count_in(set@, votes@) >= model::quorum(set@)),
{
    let mut count: usize = 0;
    let mut i: usize = 0;
    while i < set.len()
        invariant
            i <= set@.len(),
            count <= i,
            votes.wf(),
            count == model::count_in(set@.take(i as int), votes@),
        decreases set.len() - i,
    {
        proof {
            assert(set@.take(i + 1) =~= set@.take(i as int).push(set@[i as int]));
            model::lemma_count_in_push(set@.take(i as int), set@[i as int], votes@);
        }
        if votes.contains(set[i]) {
            count += 1;
        }
        i += 1;
    }
    assert(set@.take(set@.len() as int) =~= set@);
    count > set.len() / 2
}

/// How many of `values` are at least `floor`.
fn count_reached(values: &[u64], floor: u64) -> (count: usize)
    ensures
        count == model::count_at_least(values@, floor),
        count <= values@.len(),
{
    let mut count: usize = 0;
    let mut i: usize = 0;
    while i < values.len()
        invariant
            i <= values@.len(),
            count <= i,
            count == model::count_at_least(values@.take(i as int), floor),
        decreases values.len() - i,
    {
        proof {
            assert(values@.take(i + 1) =~= values@.take(i as int).push(values@[i as int]));
            model::lemma_count_at_least_push(values@.take(i as int), values@[i as int], floor);
        }
        if values[i] >= floor {
            count += 1;
        }
        i += 1;
    }
    assert(values@.take(values@.len() as int) =~= values@);
    count
}

/// The highest of `values` that a strict majority of them has reached.
fn majority_value(values: &[u64]) -> (value: u64)
    requires
        values@.len() > 0,
    ensures
        value == model::majority_value(values@),
        model::is_majority_value(values@, value),
{
    let mut best: Option<u64> = None;
    let mut lowest: usize = 0;
    let mut i: usize = 0;
    while i < values.len()
        invariant
            values@.len() > 0,
            i <= values@.len(),
            lowest < values@.len(),
            forall|j: int| 0 <= j < i ==> values@[lowest as int] <= #[trigger] values@[j],
            match best {
                Some(value) => {
                    &&& values@.contains(value)
                    &&& model::majority_reached(values@, value)
                    &&& forall|j: int|
                        0 <= j < i && model::majority_reached(values@, #[trigger] values@[j])
                            ==> values@[j] <= value
                },
                None => forall|j: int|
                    0 <= j < i ==> !model::majority_reached(values@, #[trigger] values@[j]),
            },
        decreases values.len() - i,
    {
        if values[i] < values[lowest] {
            lowest = i;
        }
        if count_reached(values, values[i]) > values.len() / 2 {
            assert(model::majority_reached(values@, values@[i as int]));
            match best {
                Some(value) => {
                    if values[i] > value {
                        best = Some(values[i]);
                    }
                },
                None => {
                    best = Some(values[i]);
                },
            }
        }
        i += 1;
    }
    match best {
        Some(value) => {
            proof {
                assert(model::is_majority_value(values@, value));
                model::lemma_majority_value(values@, value);
            }
            value
        },
        None => {
            proof {
                model::lemma_count_at_least_all(values@, values@[lowest as int]);
                assert(model::majority_reached(values@, values@[lowest as int]));
            }
            0
        },
    }
}

impl Node {
    /// What every node keeps, see [`NodeState::wf`].
    pub open spec fn wf(&self) -> bool {
        self@.wf() && self.inv()
    }

    /// The bookkeeping is in order and the configuration in force up to date.
    pub closed spec fn inv(&self) -> bool {
        &&& self.sound()
        &&& self.current_config.deep_view() == self@.config()
        &&& self.current_config_index == self@.config_index()
    }

    spec fn sound(&self) -> bool {
        &&& self.votes_granted.wf()
        &&& self.learners.wf()
        &&& self.next_index.wf()
        &&& self.match_index.wf()
    }

    /// The state of a node that starts, or restarts, from what is durable.
    pub open spec fn initial(
        id: NodeId,
        election_timeout: u64,
        heartbeat_interval: u64,
        hard_state: HardState,
        log: Seq<types::LogEntryView>,
        snapshot: SnapshotMetadata,
        snapshot_data: Seq<u8>,
        snapshot_config: types::ClusterConfigView,
        learners: Set<NodeId>,
    ) -> NodeState {
        NodeState {
            id,
            role: Role::Follower,
            current_term: hard_state.current_term,
            voted_for: hard_state.voted_for,
            election_elapsed: 0,
            election_timeout,
            votes_granted: Set::empty(),
            heartbeat_elapsed: 0,
            heartbeat_interval,
            leader_contact_elapsed: heartbeat_interval,
            log,
            commit_index: snapshot.last_included_index,
            next_index: Map::empty(),
            match_index: Map::empty(),
            snapshot,
            snapshot_data,
            snapshot_config,
            learners,
        }
    }

    /// The first reason, if any, to refuse a node's timing.
    pub open spec fn timing_error(election_timeout: u64, heartbeat_interval: u64) -> Option<
        ConfigError,
    > {
        if election_timeout == 0 {
            Some(ConfigError::ZeroElectionTimeout)
        } else if heartbeat_interval == 0 {
            Some(ConfigError::ZeroHeartbeatInterval)
        } else if heartbeat_interval > election_timeout {
            Some(ConfigError::HeartbeatIntervalExceedsElectionTimeout)
        } else {
            None
        }
    }

    /// The first reason, if any, to refuse a node's configuration.
    pub open spec fn config_error(
        id: NodeId,
        peers: Seq<NodeId>,
        election_timeout: u64,
        heartbeat_interval: u64,
    ) -> Option<ConfigError> {
        if peers.len() == 0 {
            Some(ConfigError::EmptyConfiguration)
        } else if !ids::ascending(peers) {
            Some(ConfigError::MembersNotStrictlyOrdered)
        } else if !peers.contains(id) {
            Some(ConfigError::LocalNodeMissing)
        } else {
            Node::timing_error(election_timeout, heartbeat_interval)
        }
    }

    /// The configuration a restarting node starts from: the snapshot's own,
    /// where there is a snapshot, else its peers.
    pub open spec fn base_config(peers: Seq<NodeId>, snapshot: Snapshot) -> types::ClusterConfigView {
        if snapshot.metadata.last_included_index > 0 {
            snapshot.config.deep_view()
        } else {
            types::ClusterConfigView { voters: peers, old_voters: None }
        }
    }

    fn check_timing(election_timeout: u64, heartbeat_interval: u64) -> (result: Result<(), ConfigError>)
        ensures
            match result {
                Ok(_) => Node::timing_error(election_timeout, heartbeat_interval) is None,
                Err(error) => Node::timing_error(election_timeout, heartbeat_interval) == Some(error),
            },
    {
        if election_timeout == 0 {
            return Err(ConfigError::ZeroElectionTimeout);
        }
        if heartbeat_interval == 0 {
            return Err(ConfigError::ZeroHeartbeatInterval);
        }
        if heartbeat_interval > election_timeout {
            return Err(ConfigError::HeartbeatIntervalExceedsElectionTimeout);
        }
        Ok(())
    }

    /// Whether `peers` and the timing make a valid configuration for each of
    /// `peers`.
    pub fn valid_bootstrap(peers: &[NodeId], election_timeout: u64, heartbeat_interval: u64) -> (valid:
        bool)
        ensures
            valid == (ids::ascending(peers@) && Node::timing_error(
                election_timeout,
                heartbeat_interval,
            ) is None),
    {
        Self::is_ascending(peers) && Self::check_timing(
            election_timeout,
            heartbeat_interval,
        ).is_ok()
    }

    fn is_ascending(peers: &[NodeId]) -> (result: bool)
        ensures
            result == ids::ascending(peers@),
    {
        let mut i: usize = 1;
        while i < peers.len()
            invariant
                1 <= i,
                i <= peers@.len() || peers@.len() == 0,
                forall|a: int, b: int|
                    0 <= a < b < i && b < peers@.len() ==> (#[trigger] peers@[a]).0 < (
                    #[trigger] peers@[b]).0,
            decreases peers.len() - i,
        {
            if peers[i - 1].0 >= peers[i].0 {
                return false;
            }
            assert forall|a: int, b: int| 0 <= a < b < i + 1 implies (#[trigger] peers@[a]).0 < (
            #[trigger] peers@[b]).0 by {
                if b == i && a < i - 1 {
                    assert(peers@[a].0 < peers@[i - 1].0);
                }
            }
            i += 1;
        }
        true
    }

    /// Constructs a follower in term zero from a fixed, canonical membership.
    /// A fresh node is just the degenerate case of having recovered from no
    /// prior hard state and an empty log.
    pub fn new(id: NodeId, peers: Vec<NodeId>, election_timeout: u64, heartbeat_interval: u64) -> (result:
        Result<Self, ConfigError>)
        ensures
            match result {
                Ok(node) => {
                    &&& Node::config_error(id, peers@, election_timeout, heartbeat_interval) is None
                    &&& node.wf()
                    &&& node@ == Node::initial(
                        id,
                        election_timeout,
                        heartbeat_interval,
                        (HardState { current_term: 0, voted_for: None }),
                        Seq::empty(),
                        (SnapshotMetadata { last_included_index: 0, last_included_term: 0 }),
                        Seq::empty(),
                        (types::ClusterConfigView { voters: peers@, old_voters: None }),
                        Set::empty(),
                    )
                },
                Err(error) => Node::config_error(id, peers@, election_timeout, heartbeat_interval)
                    == Some(error),
            },
    {
        let log: Vec<LogEntry> = Vec::new();
        let learners: Vec<NodeId> = Vec::new();
        proof {
            assert(log.deep_view() =~= Seq::<types::LogEntryView>::empty());
            assert(learners@.to_set() =~= Set::<NodeId>::empty());
        }
        Self::recover(
            id,
            peers,
            election_timeout,
            heartbeat_interval,
            HardState::default(),
            log,
            Snapshot::default(),
            learners,
        )
    }

    /// Reconstructs a node from durably persisted hard state, log, snapshot
    /// and learners. Always a follower: role is not persistent, so a recovered
    /// node must win a fresh election to lead again. The commit index starts
    /// at the snapshot boundary, since a snapshot only ever covers committed
    /// entries.
    pub fn recover(
        id: NodeId,
        peers: Vec<NodeId>,
        election_timeout: u64,
        heartbeat_interval: u64,
        hard_state: HardState,
        log: Vec<LogEntry>,
        snapshot: Snapshot,
        learners: Vec<NodeId>,
    ) -> (result: Result<Self, ConfigError>)
        requires
            snapshot.metadata.last_included_index + log@.len() <= u64::MAX,
        ensures
            match result {
                Ok(node) => {
                    &&& Node::config_error(id, peers@, election_timeout, heartbeat_interval) is None
                    &&& node.wf()
                    &&& node@ == Node::initial(
                        id,
                        election_timeout,
                        heartbeat_interval,
                        hard_state,
                        log.deep_view(),
                        snapshot.metadata,
                        snapshot.data@,
                        Node::base_config(peers@, snapshot),
                        learners@.to_set(),
                    )
                },
                Err(error) => Node::config_error(id, peers@, election_timeout, heartbeat_interval)
                    == Some(error),
            },
    {
        if peers.len() == 0 {
            return Err(ConfigError::EmptyConfiguration);
        }
        if !Self::is_ascending(&peers) {
            return Err(ConfigError::MembersNotStrictlyOrdered);
        }
        if !contains_id(&peers, id) {
            return Err(ConfigError::LocalNodeMissing);
        }
        match Self::check_timing(election_timeout, heartbeat_interval) {
            Ok(_) => {},
            Err(error) => {
                return Err(error);
            },
        }
        let metadata = snapshot.metadata;
        let snapshot_config = if metadata.last_included_index > 0 {
            snapshot.config
        } else {
            ClusterConfig { voters: peers, old_voters: None }
        };
        Ok(
            Self::with_state(
                id,
                election_timeout,
                heartbeat_interval,
                hard_state,
                log,
                metadata,
                snapshot.data,
                snapshot_config,
                NodeSet::from_ids(&learners),
            ),
        )
    }

    fn with_state(
        id: NodeId,
        election_timeout: u64,
        heartbeat_interval: u64,
        hard_state: HardState,
        log: Vec<LogEntry>,
        snapshot: SnapshotMetadata,
        snapshot_data: Vec<u8>,
        snapshot_config: ClusterConfig,
        learners: NodeSet,
    ) -> (node: Self)
        requires
            snapshot.last_included_index + log@.len() <= u64::MAX,
            learners.wf(),
        ensures
            node.wf(),
            node@ == Node::initial(
                id,
                election_timeout,
                heartbeat_interval,
                hard_state,
                log.deep_view(),
                snapshot,
                snapshot_data@,
                snapshot_config.deep_view(),
                learners@,
            ),
    {
        let _ = learners.len();
        let current_config = snapshot_config.clone();
        let mut node = Node {
            id,
            role: Role::Follower,
            current_term: hard_state.current_term,
            voted_for: hard_state.voted_for,
            election_elapsed: 0,
            election_timeout,
            votes_granted: NodeSet::new(),
            heartbeat_elapsed: 0,
            heartbeat_interval,
            leader_contact_elapsed: heartbeat_interval,
            log,
            commit_index: snapshot.last_included_index,
            next_index: NodeMap::new(),
            match_index: NodeMap::new(),
            snapshot,
            snapshot_data,
            snapshot_config,
            current_config,
            current_config_index: snapshot.last_included_index,
            learners,
        };
        node.recompute_config();
        node
    }

    /// Constructs a brand-new node joining an existing cluster: no durable
    /// state, and a voter under no configuration, so it never campaigns. It
    /// waits until a leader's messages admit it.
    pub fn new_learner(id: NodeId, election_timeout: u64, heartbeat_interval: u64) -> (result: Result<
        Self,
        ConfigError,
    >)
        ensures
            match result {
                Ok(node) => {
                    &&& Node::timing_error(election_timeout, heartbeat_interval) is None
                    &&& node.wf()
                    &&& node@ == Node::initial(
                        id,
                        election_timeout,
                        heartbeat_interval,
                        (HardState { current_term: 0, voted_for: None }),
                        Seq::empty(),
                        (SnapshotMetadata { last_included_index: 0, last_included_term: 0 }),
                        Seq::empty(),
                        (types::ClusterConfigView { voters: Seq::empty(), old_voters: None }),
                        Set::empty(),
                    )
                },
                Err(error) => Node::timing_error(election_timeout, heartbeat_interval) == Some(error),
            },
    {
        match Self::check_timing(election_timeout, heartbeat_interval) {
            Ok(_) => {},
            Err(error) => {
                return Err(error);
            },
        }
        let log: Vec<LogEntry> = Vec::new();
        assert(log.deep_view() =~= Seq::<types::LogEntryView>::empty());
        Ok(
            Self::with_state(
                id,
                election_timeout,
                heartbeat_interval,
                HardState::default(),
                log,
                SnapshotMetadata::default(),
                Vec::new(),
                ClusterConfig::default(),
                NodeSet::new(),
            ),
        )
    }

    /// Brings `current_config` up to date with the log and the snapshot.
    fn recompute_config(&mut self)
        requires
            old(self).sound(),
            old(self)@.wf(),
        ensures
            final(self).wf(),
            final(self)@ == old(self)@,
    {
        assert(types::view_entries(self.log@) =~= self.log.deep_view());
        match latest_configuration_in(&self.log, self.snapshot.last_included_index) {
            Some((config, index)) => {
                self.current_config = config;
                self.current_config_index = index;
            },
            None => {
                self.current_config = self.snapshot_config.clone();
                self.current_config_index = self.snapshot.last_included_index;
            },
        }
    }

    pub fn id(&self) -> (id: NodeId)
        ensures
            id == self@.id,
    {
        self.id
    }

    /// The configuration currently governing quorum and voting eligibility.
    pub fn current_config(&self) -> (config: &ClusterConfig)
        requires
            self.wf(),
        ensures
            config.deep_view() == self@.config(),
    {
        &self.current_config
    }

    /// The active voter set under `current_config()`.
    pub fn voters(&self) -> (voters: &[NodeId])
        requires
            self.wf(),
        ensures
            voters@ == self@.config().voters,
    {
        &self.current_config.voters
    }

    pub fn role(&self) -> (role: Role)
        ensures
            role == self@.role,
    {
        self.role
    }

    pub fn current_term(&self) -> (term: u64)
        ensures
            term == self@.current_term,
    {
        self.current_term
    }

    pub fn voted_for(&self) -> (vote: Option<NodeId>)
        ensures
            vote == self@.voted_for,
    {
        self.voted_for
    }

    pub fn election_elapsed(&self) -> (ticks: u64)
        ensures
            ticks == self@.election_elapsed,
    {
        self.election_elapsed
    }

    pub fn election_timeout(&self) -> (ticks: u64)
        ensures
            ticks == self@.election_timeout,
    {
        self.election_timeout
    }

    /// Who granted this node their vote, in ascending order.
    pub fn votes_granted(&self) -> (votes: &[NodeId])
        requires
            self.wf(),
        ensures
            votes@ == ids::sorted_ids(self@.votes_granted),
            votes@.to_set() == self@.votes_granted,
    {
        self.votes_granted.as_slice()
    }

    pub fn heartbeat_elapsed(&self) -> (ticks: u64)
        ensures
            ticks == self@.heartbeat_elapsed,
    {
        self.heartbeat_elapsed
    }

    pub fn heartbeat_interval(&self) -> (ticks: u64)
        ensures
            ticks == self@.heartbeat_interval,
    {
        self.heartbeat_interval
    }

    pub fn leader_contact_elapsed(&self) -> (ticks: u64)
        ensures
            ticks == self@.leader_contact_elapsed,
    {
        self.leader_contact_elapsed
    }

    pub fn last_log_index(&self) -> (index: u64)
        requires
            self@.wf(),
        ensures
            index == self@.last_log_index(),
    {
        self.snapshot.last_included_index + self.log.len() as u64
    }

    pub fn last_log_term(&self) -> (term: u64)
        ensures
            term == self@.last_log_term(),
    {
        if self.log.len() == 0 {
            self.snapshot.last_included_term
        } else {
            self.log[self.log.len() - 1].term
        }
    }

    /// The entries above the snapshot boundary.
    pub fn log(&self) -> (log: &[LogEntry])
        ensures
            types::view_entries(log@) == self@.log,
    {
        assert(types::view_entries(self.log@) =~= self.log.deep_view());
        &self.log
    }

    pub fn commit_index(&self) -> (index: u64)
        ensures
            index == self@.commit_index,
    {
        self.commit_index
    }

    pub fn snapshot(&self) -> (metadata: SnapshotMetadata)
        ensures
            metadata == self@.snapshot,
    {
        self.snapshot
    }

    pub fn snapshot_data(&self) -> (data: &[u8])
        ensures
            data@ == self@.snapshot_data,
    {
        &self.snapshot_data
    }

    /// The configuration active as of the current snapshot boundary.
    pub fn snapshot_config(&self) -> (config: &ClusterConfig)
        ensures
            config.deep_view() == self@.snapshot_config,
    {
        &self.snapshot_config
    }

    /// Non-voting members currently tracked for replication, in ascending
    /// order.
    pub fn learners(&self) -> (learners: &[NodeId])
        requires
            self.wf(),
        ensures
            learners@ == ids::sorted_ids(self@.learners),
            learners@.to_set() == self@.learners,
    {
        self.learners.as_slice()
    }

    /// Whether `id` is trusted as the sender of anything but a leader's own
    /// messages.
    fn is_member(&self, id: NodeId) -> (result: bool)
        requires
            self.wf(),
        ensures
            result == self@.is_member(id),
    {
        self.current_config.is_voter(id) || self.learners.contains(id) || (
        self.current_config.voters.len() == 0 && self.current_config.old_voters.is_none())
    }

    /// The log entry at absolute `index`, if it's still held in the log.
    pub fn entry_at(&self, index: u64) -> (entry: Option<&LogEntry>)
        requires
            self@.wf(),
        ensures
            match entry {
                Some(e) => self@.entry_at(index as int) == Some(e.deep_view()),
                None => self@.entry_at(index as int) is None,
            },
    {
        if index <= self.snapshot.last_included_index {
            return None;
        }
        let offset: u64 = index - self.snapshot.last_included_index - 1;
        if offset < self.log.len() as u64 {
            Some(&self.log[offset as usize])
        } else {
            None
        }
    }

    fn term_at(&self, index: u64) -> (term: Option<u64>)
        requires
            self@.wf(),
        ensures
            term == self@.term_at(index as int),
    {
        if index != 0 && index == self.snapshot.last_included_index {
            return Some(self.snapshot.last_included_term);
        }
        match self.entry_at(index) {
            Some(entry) => Some(entry.term),
            None => None,
        }
    }

    /// Every entry from absolute `index` to the end of the log.
    fn entries_from(&self, index: u64) -> (entries: Vec<LogEntry>)
        requires
            self@.wf(),
            self@.boundary() < index <= self@.last_log_index() + 1,
        ensures
            entries.deep_view() == self@.entries_from(index as int),
    {
        assert(types::view_entries(self.log@) =~= self.log.deep_view());
        let held: usize = self.log.len();
        let after: u64 = index - self.snapshot.last_included_index - 1;
        assert(after <= held);
        clone_entries(&self.log, after as usize)
    }

    /// Applies one explicit input to this node's protocol state, returning the
    /// effects its owner must interpret (e.g. sending a message to a peer).
    pub fn step(&mut self, event: Event) -> (effects: Vec<Effect>)
        requires
            old(self).wf(),
            old(self)@.can_step(event.deep_view()),
        ensures
            final(self).wf(),
            (final(self)@, effects.deep_view()) == old(self)@.step(event.deep_view()),
    {
        match event {
            Event::Tick { next_timeout } => self.on_tick(next_timeout),
            Event::Step { from, message } => self.on_message(from, message),
        }
    }

    /// Dispatches one message. What a leader sends is not gated by local
    /// membership, so that a node partitioned across a membership change can
    /// rejoin.
    fn on_message(&mut self, from: NodeId, message: Message) -> (effects: Vec<Effect>)
        requires
            old(self).wf(),
            old(self)@.can_take(from, message.deep_view()),
        ensures
            final(self).wf(),
            (final(self)@, effects.deep_view()) == old(self)@.on_message(from, message.deep_view()),
    {
        let none: Vec<Effect> = Vec::new();
        assert(none.deep_view() =~= Seq::empty());
        match message {
            Message::AppendEntries(request) => {
                if request.leader_id != from {
                    return none;
                }
                self.on_append_entries(from, request)
            },
            Message::InstallSnapshot(request) => {
                if request.leader_id != from {
                    return none;
                }
                self.on_install_snapshot(from, request)
            },
            Message::RequestVote(request) => {
                if !self.is_member(from) || request.candidate_id != from {
                    return none;
                }
                self.on_request_vote(from, request)
            },
            Message::RequestVoteResponse(response) => {
                if !self.is_member(from) {
                    return none;
                }
                self.on_request_vote_response(from, response)
            },
            Message::AppendEntriesResponse(response) => {
                if !self.is_member(from) {
                    return none;
                }
                self.on_append_entries_response(from, response)
            },
            Message::InstallSnapshotResponse(response) => {
                if !self.is_member(from) {
                    return none;
                }
                self.on_install_snapshot_response(from, response)
            },
        }
    }

    fn on_tick(&mut self, next_timeout: u64) -> (effects: Vec<Effect>)
        requires
            old(self).wf(),
            old(self)@.can_tick(),
        ensures
            final(self).wf(),
            (final(self)@, effects.deep_view()) == old(self)@.on_tick(next_timeout),
    {
        if self.role == Role::Leader {
            return self.on_leader_tick();
        }
        self.election_elapsed += 1;
        self.leader_contact_elapsed += 1;
        assert(self@ =~= old(self)@.tick_follower());
        if self.election_elapsed < self.election_timeout {
            let none: Vec<Effect> = Vec::new();
            assert(none.deep_view() =~= Seq::empty());
            return none;
        }
        self.start_election(next_timeout)
    }

    fn on_leader_tick(&mut self) -> (effects: Vec<Effect>)
        requires
            old(self).wf(),
            old(self)@.can_tick(),
            old(self)@.role == Role::Leader,
        ensures
            final(self).wf(),
            forall|next_timeout: u64|
                (final(self)@, effects.deep_view()) == #[trigger] old(self)@.on_tick(next_timeout),
    {
        self.heartbeat_elapsed += 1;
        self.leader_contact_elapsed += 1;
        assert(self@ =~= old(self)@.tick_leader());
        if self.heartbeat_elapsed < self.heartbeat_interval {
            let none: Vec<Effect> = Vec::new();
            assert(none.deep_view() =~= Seq::empty());
            return none;
        }
        self.heartbeat_elapsed = 0;
        assert(self@ =~= (NodeState { heartbeat_elapsed: 0, ..old(self)@.tick_leader() }));
        assert(self@.replication_targets() =~= old(self)@.replication_targets());
        assert(self@.can_broadcast()) by {
            assert forall|peer: NodeId| self@.replication_targets().contains(peer) implies self@.can_replicate_to(peer) by {
                assert(old(self)@.replication_targets().contains(peer));
            }
        }
        self.broadcast_replication()
    }

    /// Builds the message this node, as leader, owes `peer` right now: entries
    /// where its log still covers `peer`'s next index, else its snapshot.
    fn replicate_to(&self, peer: NodeId) -> (effect: Effect)
        requires
            self.wf(),
            self@.can_replicate_to(peer),
        ensures
            effect.deep_view() == self@.replicate_to(peer),
    {
        let next_index: u64 = match self.next_index.get(peer) {
            Some(next_index) => *next_index,
            None => 0,
        };
        if next_index <= self.snapshot.last_included_index {
            let effect = Effect::Send {
                to: peer,
                message: Message::InstallSnapshot(
                    InstallSnapshot {
                        term: self.current_term,
                        leader_id: self.id,
                        last_included_index: self.snapshot.last_included_index,
                        last_included_term: self.snapshot.last_included_term,
                        data: self.snapshot_data.clone(),
                        config: self.snapshot_config.clone(),
                    },
                ),
            };
            assert(effect.deep_view() =~= self@.replicate_to(peer));
            return effect;
        }
        let prev_log_index: u64 = next_index - 1;
        let prev_log_term: u64 = match self.term_at(prev_log_index) {
            Some(term) => term,
            None => 0,
        };
        let effect = Effect::Send {
            to: peer,
            message: Message::AppendEntries(
                AppendEntries {
                    term: self.current_term,
                    leader_id: self.id,
                    prev_log_index,
                    prev_log_term,
                    entries: self.entries_from(next_index),
                    leader_commit: self.commit_index,
                },
            ),
        };
        assert(effect.deep_view() =~= self@.replicate_to(peer));
        effect
    }

    /// Every peer this node, as leader, owes ordinary replication to.
    fn replication_targets(&self) -> (targets: NodeSet)
        requires
            self.wf(),
        ensures
            targets.wf(),
            targets@ == self@.replication_targets(),
    {
        let mut targets = NodeSet::from_ids(&self.current_config.voters);
        match &self.current_config.old_voters {
            Some(old) => {
                Self::insert_all(&mut targets, old);
            },
            None => {},
        }
        assert(targets@ =~= self@.config().members());
        Self::insert_all(&mut targets, self.learners.as_slice());
        targets.remove(self.id);
        assert(targets@ =~= self@.replication_targets());
        targets
    }

    fn insert_all(set: &mut NodeSet, ids: &[NodeId])
        requires
            old(set).wf(),
        ensures
            final(set).wf(),
            final(set)@ == old(set)@.union(ids@.to_set()),
    {
        let mut i: usize = 0;
        assert(set@ =~= old(set)@.union(ids@.take(0).to_set()));
        while i < ids.len()
            invariant
                i <= ids@.len(),
                set.wf(),
                set@ == old(set)@.union(ids@.take(i as int).to_set()),
            decreases ids.len() - i,
        {
            set.insert(ids[i]);
            proof {
                assert(ids@.take(i + 1) =~= ids@.take(i as int).push(ids@[i as int]));
                ids@.take(i as int).lemma_push_to_set_commute(ids@[i as int]);
                assert(set@ =~= old(set)@.union(ids@.take(i + 1).to_set()));
            }
            i += 1;
        }
        assert(ids@.take(ids@.len() as int) =~= ids@);
    }

    fn broadcast_replication(&self) -> (effects: Vec<Effect>)
        requires
            self.wf(),
            self@.can_broadcast(),
        ensures
            effects.deep_view() == self@.broadcast(),
    {
        let targets = self.replication_targets();
        let peers = targets.as_slice();
        let mut effects: Vec<Effect> = Vec::new();
        let mut i: usize = 0;
        while i < peers.len()
            invariant
                i <= peers@.len(),
                self.wf(),
                self@.can_broadcast(),
                peers@.to_set() == self@.replication_targets(),
                effects@.len() == i,
                forall|j: int| 0 <= j < i ==> (#[trigger] effects@[j]).deep_view()
                    == self@.replicate_to(peers@[j]),
            decreases peers.len() - i,
        {
            assert(peers@.to_set().contains(peers@[i as int]));
            effects.push(self.replicate_to(peers[i]));
            i += 1;
        }
        assert(effects.deep_view() =~= self@.broadcast());
        effects
    }

    /// Transitions this node to leader, seeding per-peer replication state,
    /// and returns the immediate replication round that establishes its
    /// authority.
    fn become_leader(&mut self) -> (effects: Vec<Effect>)
        requires
            old(self).wf(),
            old(self)@.can_extend(),
        ensures
            final(self).wf(),
            (final(self)@, effects.deep_view()) == old(self)@.become_leader(),
    {
        let targets = self.replication_targets();
        let _ = targets.len();
        self.role = Role::Leader;
        self.heartbeat_elapsed = 0;
        let next_index: u64 = self.last_log_index() + 1;
        self.next_index.clear();
        self.match_index.clear();
        let peers = targets.as_slice();
        let ghost seeded = old(self)@.seed_leader();
        let mut i: usize = 0;
        assert(self.next_index@.dom() =~= peers@.take(0).to_set());
        assert(self.match_index@.dom() =~= peers@.take(0).to_set());
        while i < peers.len()
            invariant
                i <= peers@.len(),
                self.sound(),
                self.current_config == old(self).current_config,
                self.current_config_index == old(self).current_config_index,
                self@ == (NodeState {
                    role: Role::Leader,
                    heartbeat_elapsed: 0,
                    next_index: self.next_index@,
                    match_index: self.match_index@,
                    ..old(self)@
                }),
                self.next_index@.dom() == peers@.take(i as int).to_set(),
                self.match_index@.dom() == peers@.take(i as int).to_set(),
                forall|peer: NodeId| #[trigger]
                    self.next_index@.contains_key(peer) ==> self.next_index@[peer] == next_index,
                forall|peer: NodeId| #[trigger]
                    self.match_index@.contains_key(peer) ==> self.match_index@[peer] == 0,
            decreases peers.len() - i,
        {
            self.next_index.insert(peers[i], next_index);
            self.match_index.insert(peers[i], 0);
            proof {
                assert(peers@.take(i + 1) =~= peers@.take(i as int).push(peers@[i as int]));
                peers@.take(i as int).lemma_push_to_set_commute(peers@[i as int]);
                assert(self.next_index@.dom() =~= peers@.take(i + 1).to_set());
                assert(self.match_index@.dom() =~= peers@.take(i + 1).to_set());
            }
            i += 1;
        }
        proof {
            assert(peers@.take(peers@.len() as int) =~= peers@);
            assert(self.next_index@ =~= seeded.next_index);
            assert(self.match_index@ =~= seeded.match_index);
            assert(self@ =~= seeded);
            assert(self@.replication_targets() =~= old(self)@.replication_targets());
        }
        self.broadcast_replication()
    }

    /// Handles an election timeout. A no-op unless this node is a voter under
    /// the configuration in force.
    fn start_election(&mut self, next_timeout: u64) -> (effects: Vec<Effect>)
        requires
            old(self).wf(),
            old(self)@.can_start_election(),
        ensures
            final(self).wf(),
            (final(self)@, effects.deep_view()) == old(self)@.start_election(next_timeout),
    {
        let mut effects: Vec<Effect> = Vec::new();
        assert(effects.deep_view() =~= Seq::empty());
        if !self.current_config.is_voter(self.id) {
            return effects;
        }
        self.role = Role::Candidate;
        self.current_term += 1;
        self.voted_for = Some(self.id);
        self.votes_granted.clear();
        self.votes_granted.insert(self.id);
        self.election_elapsed = 0;
        self.election_timeout = next_timeout;
        let ghost candidate = old(self)@.candidacy(next_timeout);
        assert(self@ =~= candidate);
        effects.push(self.persist_hard_state());
        assert(effects.deep_view() =~= seq![candidate.persist_hard_state()]);
        if self.has_quorum() {
            let mut rest = self.become_leader();
            effects.append(&mut rest);
            assert(effects.deep_view() =~= seq![candidate.persist_hard_state()]
                + candidate.become_leader().1);
            return effects;
        }
        let mut rest = self.vote_requests();
        effects.append(&mut rest);
        assert(effects.deep_view() =~= seq![candidate.persist_hard_state()]
            + candidate.vote_requests());
        effects
    }

    fn vote_requests(&self) -> (effects: Vec<Effect>)
        requires
            self.wf(),
        ensures
            effects.deep_view() == self@.vote_requests(),
    {
        let voters = &self.current_config.voters;
        let request = RequestVote {
            term: self.current_term,
            candidate_id: self.id,
            last_log_index: self.last_log_index(),
            last_log_term: self.last_log_term(),
        };
        assert(request == self@.vote_request());
        let ghost other = |peer: NodeId| peer != self@.id;
        let mut effects: Vec<Effect> = Vec::new();
        let mut i: usize = 0;
        assert(voters@.take(0).filter(other) =~= Seq::empty()) by {
            reveal(Seq::filter);
        }
        while i < voters.len()
            invariant
                i <= voters@.len(),
                request == self@.vote_request(),
                other == |peer: NodeId| peer != self@.id,
                effects@.len() == voters@.take(i as int).filter(other).len(),
                forall|j: int| 0 <= j < effects@.len() ==> (#[trigger] effects@[j]).deep_view()
                    == (types::EffectView::Send {
                    to: voters@.take(i as int).filter(other)[j],
                    message: types::MessageView::RequestVote(request),
                }),
            decreases voters.len() - i,
        {
            proof {
                reveal(Seq::filter);
                assert(voters@.take(i + 1).drop_last() =~= voters@.take(i as int));
            }
            if voters[i] != self.id {
                effects.push(Effect::Send { to: voters[i], message: Message::RequestVote(request) });
            }
            i += 1;
        }
        assert(voters@.take(voters@.len() as int) =~= voters@);
        assert(effects.deep_view() =~= self@.vote_requests());
        effects
    }

    fn persist_hard_state(&self) -> (effect: Effect)
        ensures
            effect.deep_view() == self@.persist_hard_state(),
    {
        Effect::PersistHardState { term: self.current_term, voted_for: self.voted_for }
    }

    fn vote_response(&self, to: NodeId, granted: bool) -> (effect: Effect)
        ensures
            effect.deep_view() == self@.vote_response(to, granted),
    {
        Effect::Send {
            to,
            message: Message::RequestVoteResponse(
                RequestVoteResponse { term: self.current_term, granted },
            ),
        }
    }

    fn on_request_vote(&mut self, from: NodeId, request: RequestVote) -> (effects: Vec<Effect>)
        requires
            old(self).wf(),
        ensures
            final(self).wf(),
            (final(self)@, effects.deep_view()) == old(self)@.on_request_vote(from, request),
    {
        let mut effects: Vec<Effect> = Vec::new();
        if request.term < self.current_term || self.role == Role::Leader || (
        self.current_config.old_voters.is_some() && self.leader_contact_elapsed
            < self.heartbeat_interval) {
            effects.push(self.vote_response(from, false));
            assert(effects.deep_view() =~= seq![self@.vote_response(from, false)]);
            return effects;
        }
        let stepped_down = request.term > self.current_term;
        if stepped_down {
            self.step_down(request.term);
        }
        let last_log_term: u64 = self.last_log_term();
        let up_to_date = request.last_log_term > last_log_term || (request.last_log_term
            == last_log_term && request.last_log_index >= self.last_log_index());
        let granted = up_to_date && match self.voted_for {
            None => true,
            Some(vote) => vote == request.candidate_id,
        };
        assert(granted == self@.grants_vote(request));
        let ghost current = self@;
        if granted {
            self.voted_for = Some(request.candidate_id);
            self.election_elapsed = 0;
            assert(self@ =~= (NodeState {
                voted_for: Some(request.candidate_id),
                election_elapsed: 0,
                ..current
            }));
        }
        if stepped_down || granted {
            effects.push(self.persist_hard_state());
        }
        effects.push(self.vote_response(from, granted));
        assert(effects.deep_view() =~= old(self)@.on_request_vote(from, request).1);
        effects
    }

    fn on_request_vote_response(&mut self, from: NodeId, response: RequestVoteResponse) -> (effects:
        Vec<Effect>)
        requires
            old(self).wf(),
            old(self)@.can_take_vote_response(from, response),
        ensures
            final(self).wf(),
            (final(self)@, effects.deep_view()) == old(self)@.on_request_vote_response(
                from,
                response,
            ),
    {
        let mut effects: Vec<Effect> = Vec::new();
        assert(effects.deep_view() =~= Seq::empty());
        if response.term > self.current_term {
            self.step_down(response.term);
            effects.push(self.persist_hard_state());
            assert(effects.deep_view() =~= seq![self@.persist_hard_state()]);
            return effects;
        }
        if response.term < self.current_term || self.role != Role::Candidate || !response.granted {
            return effects;
        }
        self.votes_granted.insert(from);
        assert(self@ =~= (NodeState {
            votes_granted: old(self)@.votes_granted.insert(from),
            ..old(self)@
        }));
        if self.has_quorum() {
            return self.become_leader();
        }
        effects
    }

    fn step_down(&mut self, term: u64)
        requires
            old(self).wf(),
        ensures
            final(self).wf(),
            final(self)@ == old(self)@.step_down(term),
    {
        self.role = Role::Follower;
        self.current_term = term;
        self.voted_for = None;
        self.votes_granted.clear();
        self.next_index.clear();
        self.match_index.clear();
        assert(self@ =~= old(self)@.step_down(term));
    }

    /// Demotes a leader left out of a committed configuration. Unlike
    /// `step_down` this keeps term and vote.
    fn retire_from_leadership(&mut self)
        requires
            old(self).wf(),
        ensures
            final(self).wf(),
            final(self)@ == old(self)@.retire(),
    {
        self.role = Role::Follower;
        self.votes_granted.clear();
        self.next_index.clear();
        self.match_index.clear();
        assert(self@ =~= old(self)@.retire());
    }

    /// Whether an election has been won. During a transition this takes a
    /// majority of the outgoing voters as well as of the voters.
    fn has_quorum(&self) -> (won: bool)
        requires
            self.wf(),
        ensures
            won == self@.has_quorum(),
    {
        self.is_quorum(&self.votes_granted)
    }

    /// Whether `votes` win an election.
    fn is_quorum(&self, votes: &NodeSet) -> (won: bool)
        requires
            self.wf(),
            votes.wf(),
        ensures
            won == (NodeState { votes_granted: votes@, ..self@ }).has_quorum(),
    {
        let count: usize = count_votes(votes.as_slice(), &self.current_config.voters);
        if count <= self.current_config.voters.len() / 2 {
            return false;
        }
        match &self.current_config.old_voters {
            Some(old) => majority_granted(old, votes),
            None => true,
        }
    }

    fn append_response(&self, to: NodeId, success: bool, match_index: u64) -> (effect: Effect)
        ensures
            effect.deep_view() == self@.append_response(to, success, match_index),
    {
        Effect::Send {
            to,
            message: Message::AppendEntriesResponse(
                AppendEntriesResponse { term: self.current_term, success, match_index },
            ),
        }
    }

    fn snapshot_response(&self, to: NodeId, last_included_index: u64) -> (effect: Effect)
        ensures
            effect.deep_view() == self@.snapshot_response(to, last_included_index),
    {
        Effect::Send {
            to,
            message: Message::InstallSnapshotResponse(
                InstallSnapshotResponse { term: self.current_term, last_included_index },
            ),
        }
    }

    /// A leader of a current or later term has been heard; the effects owed if
    /// its term is new.
    fn follow(&mut self, term: u64) -> (effects: Vec<Effect>)
        requires
            old(self).wf(),
            term >= old(self)@.current_term,
        ensures
            final(self).wf(),
            final(self)@ == old(self)@.follow(term),
            effects.deep_view() == final(self)@.persist_new_term(old(self)@),
    {
        let mut effects: Vec<Effect> = Vec::new();
        if term > self.current_term {
            self.step_down(term);
            effects.push(self.persist_hard_state());
        } else if self.role == Role::Candidate {
            self.role = Role::Follower;
        }
        self.election_elapsed = 0;
        self.leader_contact_elapsed = 0;
        assert(self@ =~= old(self)@.follow(term));
        assert(effects.deep_view() =~= self@.persist_new_term(old(self)@));
        effects
    }

    /// The position of the first entry sent that differs from what this log
    /// holds at its index.
    fn find_divergence(&self, request: &AppendEntries) -> (position: Option<usize>)
        requires
            self.wf(),
            request.prev_log_index + request.entries@.len() <= u64::MAX,
        ensures
            match position {
                Some(k) => self@.first_divergence(request.deep_view(), k as int),
                None => forall|k: int| !#[trigger] self@.diverges_at(request.deep_view(), k),
            },
    {
        let ghost sent = request.deep_view();
        let mut k: usize = 0;
        while k < request.entries.len()
            invariant
                k <= request.entries@.len(),
                self.wf(),
                request.prev_log_index + request.entries@.len() <= u64::MAX,
                sent == request.deep_view(),
                forall|j: int| 0 <= j < k ==> !#[trigger] self@.diverges_at(sent, j),
            decreases request.entries.len() - k,
        {
            let index: u64 = request.prev_log_index + k as u64 + 1;
            let ghost held = sent.entries[k as int];
            assert(held == request.entries@[k as int].deep_view());
            if index > self.snapshot.last_included_index {
                let matches = match self.term_at(index) {
                    Some(term) => term == request.entries[k].term,
                    None => false,
                };
                if !matches {
                    assert(self@.diverges_at(sent, k as int));
                    return Some(k);
                }
            }
            assert(!self@.diverges_at(sent, k as int));
            k += 1;
        }
        None
    }

    fn on_append_entries(&mut self, from: NodeId, request: AppendEntries) -> (effects: Vec<Effect>)
        requires
            old(self).wf(),
            old(self)@.can_append_entries(request.deep_view()),
        ensures
            final(self).wf(),
            (final(self)@, effects.deep_view()) == old(self)@.on_append_entries(
                from,
                request.deep_view(),
            ),
    {
        let ghost sent = request.deep_view();
        if request.term < self.current_term {
            let mut effects: Vec<Effect> = Vec::new();
            effects.push(self.append_response(from, false, 0));
            assert(effects.deep_view() =~= seq![self@.append_response(from, false, 0)]);
            return effects;
        }
        let mut effects = self.follow(request.term);
        let ghost current = self@;
        let ghost persist_term = current.persist_new_term(old(self)@);
        let matches = request.prev_log_index <= self.snapshot.last_included_index
            || match self.term_at(request.prev_log_index) {
            Some(term) => term == request.prev_log_term,
            None => false,
        };
        assert(matches == current.prev_log_matches(sent));
        if !matches {
            effects.push(self.append_response(from, false, 0));
            assert(effects.deep_view() =~= persist_term + seq![
                current.append_response(from, false, 0),
            ]);
            return effects;
        }
        let match_index: u64 = request.prev_log_index + request.entries.len() as u64;
        let leader_commit: u64 = request.leader_commit;
        let changed_from = self.merge(request);
        let ghost grown = self@;
        if leader_commit > self.commit_index {
            let last: u64 = self.last_log_index();
            self.commit_index = if leader_commit <= last {
                leader_commit
            } else {
                last
            };
            assert(self@ =~= (NodeState {
                commit_index: model::min_u64(leader_commit, last),
                ..grown
            }));
        }
        let ghost persist_log = match changed_from {
            Some(from_index) => seq![
                types::EffectView::PersistLog {
                    from_index,
                    entries: self@.entries_from(from_index as int),
                },
            ],
            None => Seq::empty(),
        };
        match changed_from {
            Some(from_index) => {
                effects.push(
                    Effect::PersistLog { from_index, entries: self.entries_from(from_index) },
                );
            },
            None => {},
        }
        assert(effects.deep_view() =~= persist_term + persist_log);
        let ghost before_response = effects.deep_view();
        effects.push(self.append_response(from, true, match_index));
        assert(effects.deep_view() =~= before_response + seq![
            self@.append_response(from, true, match_index),
        ]);
        effects
    }

    /// Merges the entries of `request` into the log; the index from which the
    /// log changed, if it did.
    fn merge(&mut self, request: AppendEntries) -> (changed_from: Option<u64>)
        requires
            old(self).wf(),
            old(self)@.prev_log_matches(request.deep_view()),
            request.prev_log_index + request.entries@.len() <= u64::MAX,
        ensures
            final(self).wf(),
            final(self)@ == (NodeState { log: old(self)@.merged(request.deep_view()).0, ..old(self)@ }),
            changed_from == old(self)@.merged(request.deep_view()).1,
            changed_from matches Some(index) ==> old(self)@.boundary() < index
                <= final(self)@.last_log_index(),
    {
        let ghost sent = request.deep_view();
        let ghost before = self@;
        match self.find_divergence(&request) {
            Some(k) => {
                let index: u64 = request.prev_log_index + k as u64 + 1;
                let kept: u64 = index - self.snapshot.last_included_index - 1;
                proof {
                    let chosen = choose|j: int| before.first_divergence(sent, j);
                    assert(before.first_divergence(sent, k as int));
                    assert(before.first_divergence(sent, chosen));
                    assert(chosen == k) by {
                        if chosen < k {
                            assert(!before.diverges_at(sent, chosen));
                        } else if k < chosen {
                            assert(!before.diverges_at(sent, k as int));
                        }
                    }
                    if k > 0 {
                        assert(!before.diverges_at(sent, k - 1));
                    }
                    assert(index <= before.last_log_index() + 1);
                }
                let held: usize = self.log.len();
                assert(kept <= held);
                self.log.truncate(kept as usize);
                let ghost head = self.log.deep_view();
                assert(head =~= before.log.take(kept as int));
                let mut tail = clone_entries(&request.entries, k);
                let ghost added = tail.deep_view();
                assert(added =~= sent.entries.skip(k as int)) by {
                    assert(types::view_entries(request.entries@) =~= sent.entries);
                }
                self.log.append(&mut tail);
                assert(self.log.deep_view() =~= head + added);
                self.recompute_config();
                assert(self@ =~= (NodeState { log: before.merged(sent).0, ..before }));
                Some(index)
            },
            None => {
                assert(!(exists|k: int| before.first_divergence(sent, k))) by {
                    if exists|k: int| before.first_divergence(sent, k) {
                        let k = choose|k: int| before.first_divergence(sent, k);
                        assert(before.diverges_at(sent, k));
                    }
                }
                None
            },
        }
    }

    fn on_install_snapshot(&mut self, from: NodeId, request: InstallSnapshot) -> (effects: Vec<Effect>)
        requires
            old(self).wf(),
            old(self)@.can_install_snapshot(request.deep_view()),
        ensures
            final(self).wf(),
            (final(self)@, effects.deep_view()) == old(self)@.on_install_snapshot(
                from,
                request.deep_view(),
            ),
    {
        let ghost sent = request.deep_view();
        if request.term < self.current_term {
            let mut effects: Vec<Effect> = Vec::new();
            effects.push(self.snapshot_response(from, self.snapshot.last_included_index));
            assert(effects.deep_view() =~= seq![
                self@.snapshot_response(from, self@.snapshot.last_included_index),
            ]);
            return effects;
        }
        let mut effects = self.follow(request.term);
        let ghost current = self@;
        let ghost persist_term = effects.deep_view();
        let index: u64 = request.last_included_index;
        // A point this node already has, compacted or not, is stale or
        // duplicate news.
        let covered = index < self.snapshot.last_included_index || match self.term_at(index) {
            Some(term) => term == request.last_included_term,
            None => false,
        };
        assert(covered == current.covers(sent));
        if covered {
            effects.push(self.snapshot_response(from, index));
            assert(effects.deep_view() =~= persist_term + seq![
                current.snapshot_response(from, index),
            ]);
            return effects;
        }
        self.log.clear();
        self.snapshot = SnapshotMetadata {
            last_included_index: index,
            last_included_term: request.last_included_term,
        };
        self.snapshot_data = request.data.clone();
        self.snapshot_config = request.config.clone();
        if self.commit_index < index {
            self.commit_index = index;
        }
        assert(self.log.deep_view() =~= Seq::empty());
        assert(self@ =~= current.install(sent));
        self.recompute_config();
        effects.push(
            Effect::PersistSnapshot {
                last_included_index: index,
                last_included_term: request.last_included_term,
                data: request.data,
                config: request.config,
            },
        );
        let none: Vec<LogEntry> = Vec::new();
        assert(none.deep_view() =~= Seq::empty());
        effects.push(Effect::PersistLog { from_index: index + 1, entries: none });
        effects.push(self.snapshot_response(from, index));
        assert(effects.deep_view() =~= persist_term + model::persist_snapshot(sent) + seq![
            current.snapshot_response(from, index),
        ]);
        effects
    }

    fn progress_of(&self, peers: &[NodeId]) -> (progress: Vec<u64>)
        requires
            self.wf(),
        ensures
            progress@ == self@.progress_of(peers@),
    {
        let mut progress: Vec<u64> = Vec::new();
        let mut i: usize = 0;
        while i < peers.len()
            invariant
                i <= peers@.len(),
                self.wf(),
                progress@.len() == i,
                forall|j: int| 0 <= j < i ==> #[trigger] progress@[j] == self@.progress(peers@[j]),
            decreases peers.len() - i,
        {
            let reached: u64 = if peers[i] == self.id {
                self.last_log_index()
            } else {
                match self.match_index.get(peers[i]) {
                    Some(index) => *index,
                    None => 0,
                }
            };
            progress.push(reached);
            i += 1;
        }
        assert(progress@ =~= self@.progress_of(peers@));
        progress
    }

    /// Commits what a majority holds -- of both sets, during a transition --
    /// if its last entry is of the current term: an entry of an earlier term
    /// never commits by count alone.
    fn commit_replicated(&mut self)
        requires
            old(self).wf(),
            old(self)@.config().voters.len() > 0,
            old(self)@.config().old_voters matches Some(set) ==> set.len() > 0,
        ensures
            final(self).wf(),
            final(self)@ == old(self)@.commit_replicated(),
    {
        let progress = self.progress_of(&self.current_config.voters);
        let mut candidate: u64 = majority_value(&progress);
        match &self.current_config.old_voters {
            Some(outgoing) => {
                let old_progress = self.progress_of(outgoing);
                let old_candidate: u64 = majority_value(&old_progress);
                if old_candidate < candidate {
                    candidate = old_candidate;
                }
            },
            None => {},
        }
        assert(candidate == self@.replicated_index());
        let of_current_term = match self.term_at(candidate) {
            Some(term) => term == self.current_term,
            None => false,
        };
        if candidate > self.commit_index && of_current_term {
            self.commit_index = candidate;
        }
        assert(self@ =~= old(self)@.commit_replicated());
    }

    /// Appends an entry of the current term; the effect that makes it durable.
    fn append(&mut self, payload: LogPayload) -> (effect: Effect)
        requires
            old(self).wf(),
            old(self)@.can_extend(),
        ensures
            final(self).wf(),
            final(self)@ == old(self)@.append(payload.deep_view()),
            effect.deep_view() == final(self)@.persist_last(),
    {
        let entry = LogEntry { term: self.current_term, payload };
        let copy = entry.clone();
        self.log.push(entry);
        assert(self.log.deep_view() =~= old(self)@.append(payload.deep_view()).log);
        self.recompute_config();
        assert(self@ =~= old(self)@.append(payload.deep_view()));
        let mut entries: Vec<LogEntry> = Vec::new();
        entries.push(copy);
        let effect = Effect::PersistLog { from_index: self.last_log_index(), entries };
        assert(effect.deep_view() =~= self@.persist_last()) by {
            assert(entries.deep_view() =~= seq![self@.log.last()]);
        }
        effect
    }

    fn retire_if_excluded(&mut self)
        requires
            old(self).wf(),
        ensures
            final(self).wf(),
            final(self)@ == old(self)@.retire_if_excluded(),
    {
        if self.current_config.old_voters.is_none() && self.commit_index >= self.current_config_index
            && !contains_id(&self.current_config.voters, self.id) {
            self.retire_from_leadership();
        }
    }

    /// The leader's commit rule. Once a transition commits, the leader appends
    /// the configuration that ends it; once a configuration without the leader
    /// commits, the leader retires.
    fn advance_commit_index(&mut self) -> (effects: Vec<Effect>)
        requires
            old(self).wf(),
            old(self)@.can_advance(),
        ensures
            final(self).wf(),
            (final(self)@, effects.deep_view()) == old(self)@.advance_commit(),
    {
        let mut effects: Vec<Effect> = Vec::new();
        self.commit_replicated();
        let ghost committed = self@;
        assert(committed.config() == old(self)@.config());
        if self.current_config.old_voters.is_some() && self.commit_index
            >= self.current_config_index {
            let settled = ClusterConfig {
                voters: self.current_config.voters.clone(),
                old_voters: None,
            };
            assert(settled.deep_view() =~= committed.settled_config());
            effects.push(self.append(LogPayload::Configuration(settled)));
            assert(effects.deep_view() =~= seq![self@.persist_last()]);
            proof {
                model::lemma_latest_push(committed.log, self@.log.last());
            }
            self.commit_replicated();
        }
        self.retire_if_excluded();
        assert(effects.deep_view() =~= old(self)@.advance_commit().1);
        effects
    }

    /// A further message to `peer`, if this node still leads and owes entries.
    fn retry(&self, peer: NodeId, effects: &mut Vec<Effect>)
        requires
            self.wf(),
            self@.role == Role::Leader ==> self@.next_index.contains_key(peer),
        ensures
            final(effects).deep_view() == old(effects).deep_view() + self@.retry(peer),
    {
        if self.role == Role::Leader {
            let next_index: u64 = match self.next_index.get(peer) {
                Some(next_index) => *next_index,
                None => 0,
            };
            if next_index <= self.last_log_index() {
                effects.push(self.replicate_to(peer));
            }
        }
        assert(effects.deep_view() =~= old(effects).deep_view() + self@.retry(peer));
    }

    /// `peer`'s log is known to match this leader's up to `index`.
    fn on_acknowledged(&mut self, peer: NodeId, index: u64) -> (effects: Vec<Effect>)
        requires
            old(self).wf(),
            old(self)@.role == Role::Leader,
            old(self)@.can_acknowledge(peer, index),
        ensures
            final(self).wf(),
            (final(self)@, effects.deep_view()) == old(self)@.on_acknowledged(peer, index),
    {
        let matched: u64 = match self.match_index.get(peer) {
            Some(matched) => *matched,
            None => 0,
        };
        let reached: u64 = if matched >= index {
            matched
        } else {
            index
        };
        self.match_index.insert(peer, reached);
        self.next_index.insert(peer, reached + 1);
        assert(self@ =~= old(self)@.acknowledge(peer, index));
        let mut effects = self.advance_commit_index();
        self.retry(peer, &mut effects);
        effects
    }

    fn on_install_snapshot_response(&mut self, from: NodeId, response: InstallSnapshotResponse) -> (effects:
        Vec<Effect>)
        requires
            old(self).wf(),
            old(self)@.can_take_snapshot_response(from, response),
        ensures
            final(self).wf(),
            (final(self)@, effects.deep_view()) == old(self)@.on_install_snapshot_response(
                from,
                response,
            ),
    {
        let mut effects: Vec<Effect> = Vec::new();
        assert(effects.deep_view() =~= Seq::empty());
        if response.term > self.current_term {
            self.step_down(response.term);
            effects.push(self.persist_hard_state());
            assert(effects.deep_view() =~= seq![self@.persist_hard_state()]);
            return effects;
        }
        if response.term < self.current_term || self.role != Role::Leader {
            return effects;
        }
        self.on_acknowledged(from, response.last_included_index)
    }

    fn on_append_entries_response(&mut self, from: NodeId, response: AppendEntriesResponse) -> (effects:
        Vec<Effect>)
        requires
            old(self).wf(),
            old(self)@.can_take_append_response(from, response),
        ensures
            final(self).wf(),
            (final(self)@, effects.deep_view()) == old(self)@.on_append_entries_response(
                from,
                response,
            ),
    {
        let mut effects: Vec<Effect> = Vec::new();
        assert(effects.deep_view() =~= Seq::empty());
        if response.term > self.current_term {
            self.step_down(response.term);
            effects.push(self.persist_hard_state());
            assert(effects.deep_view() =~= seq![self@.persist_hard_state()]);
            return effects;
        }
        if response.term < self.current_term || self.role != Role::Leader {
            return effects;
        }
        if response.success {
            return self.on_acknowledged(from, response.match_index);
        }
        let next_index: u64 = match self.next_index.get(from) {
            Some(next_index) => *next_index,
            None => 0,
        };
        let earlier: u64 = if next_index > 1 {
            next_index - 1
        } else {
            1
        };
        self.next_index.insert(from, earlier);
        assert(self@ =~= old(self)@.back_off(from));
        self.retry(from, &mut effects);
        assert(effects.deep_view() =~= self@.retry(from));
        effects
    }

    /// Appends `command` to this node's log if it is the leader, returning the
    /// entry's index and the effects needed to make it durable. Replication to
    /// peers rides the periodic replication cycle.
    pub fn propose(&mut self, command: Vec<u8>) -> (outcome: Option<(u64, Vec<Effect>)>)
        requires
            old(self).wf(),
            old(self)@.can_propose(),
        ensures
            final(self).wf(),
            match outcome {
                Some((index, effects)) => {
                    &&& old(self)@.role == Role::Leader
                    &&& index == old(self)@.last_log_index() + 1
                    &&& (final(self)@, effects.deep_view()) == old(self)@.append_and_advance(
                        types::LogPayloadView::Command(command@),
                    )
                },
                None => old(self)@.role != Role::Leader && final(self)@ == old(self)@,
            },
    {
        if self.role != Role::Leader {
            return None;
        }
        proof {
            model::lemma_can_propose(self@, command@);
        }
        Some(self.append_and_advance(LogPayload::Command(command)))
    }

    fn append_and_advance(&mut self, payload: LogPayload) -> (outcome: (u64, Vec<Effect>))
        requires
            old(self).wf(),
            old(self)@.can_append_and_advance(payload.deep_view()),
        ensures
            final(self).wf(),
            outcome.0 == old(self)@.last_log_index() + 1,
            (final(self)@, outcome.1.deep_view()) == old(self)@.append_and_advance(
                payload.deep_view(),
            ),
    {
        let mut effects: Vec<Effect> = Vec::new();
        effects.push(self.append(payload));
        let ghost grown = self@;
        let index: u64 = self.last_log_index();
        let mut rest = self.advance_commit_index();
        effects.append(&mut rest);
        assert(effects.deep_view() =~= seq![grown.persist_last()] + grown.advance_commit().1);
        (index, effects)
    }

    /// Leader-only: begins a joint-consensus change to `new_voters`. The joint
    /// configuration takes effect as soon as it is appended; what ends the
    /// transition follows from the commit rule. Refused by anyone but the
    /// leader, and for an empty voter set. Learners named in `new_voters` stop
    /// being learners.
    pub fn propose_config_change(&mut self, new_voters: Vec<NodeId>) -> (outcome: Option<
        (u64, Vec<Effect>),
    >)
        requires
            old(self).wf(),
            old(self)@.role == Role::Leader && new_voters@.len() > 0
                ==> old(self)@.can_change_config(new_voters@),
        ensures
            final(self).wf(),
            match outcome {
                Some((index, effects)) => {
                    &&& old(self)@.role == Role::Leader
                    &&& new_voters@.len() > 0
                    &&& index == old(self)@.last_log_index() + 1
                    &&& (final(self)@, effects.deep_view()) == old(self)@.change_config(new_voters@)
                },
                None => {
                    &&& old(self)@.role != Role::Leader || new_voters@.len() == 0
                    &&& final(self)@ == old(self)@
                },
            },
    {
        if self.role != Role::Leader || new_voters.len() == 0 {
            return None;
        }
        let ghost kept = old(self)@.without_promoted(new_voters@);
        let mut effects: Vec<Effect> = Vec::new();
        let before: usize = self.learners.len();
        let mut i: usize = 0;
        assert(self@.learners.difference(new_voters@.take(0).to_set()) =~= self@.learners);
        while i < new_voters.len()
            invariant
                i <= new_voters@.len(),
                old(self).wf(),
                self.sound(),
                self.current_config == old(self).current_config,
                self.current_config_index == old(self).current_config_index,
                self@ == (NodeState { learners: self.learners@, ..old(self)@ }),
                self.learners@ == old(self)@.learners.difference(new_voters@.take(i as int).to_set()),
            decreases new_voters.len() - i,
        {
            self.learners.remove(new_voters[i]);
            proof {
                assert(new_voters@.take(i + 1) =~= new_voters@.take(i as int).push(
                    new_voters@[i as int],
                ));
                new_voters@.take(i as int).lemma_push_to_set_commute(new_voters@[i as int]);
                assert(self.learners@ =~= old(self)@.learners.difference(
                    new_voters@.take(i + 1).to_set(),
                ));
            }
            i += 1;
        }
        let after: usize = self.learners.len();
        proof {
            assert(new_voters@.take(new_voters@.len() as int) =~= new_voters@);
            assert(self@ =~= kept);
            if before == after {
                vstd::set_lib::lemma_subset_equality(kept.learners, old(self)@.learners);
            }
        }
        if after != before {
            let learners = self.persist_learners();
            effects.push(learners);
            assert(effects.deep_view() =~= seq![kept.persist_learners()]);
        }
        let ghost persist = effects.deep_view();
        assert(persist =~= if kept.learners == old(self)@.learners {
            Seq::empty()
        } else {
            seq![kept.persist_learners()]
        });
        let joint = ClusterConfig {
            voters: new_voters,
            old_voters: Some(self.current_config.voters.clone()),
        };
        assert(joint.deep_view() =~= old(self)@.joint_config(new_voters@));
        let payload = LogPayload::Configuration(joint);
        proof {
            laws::lemma_can_change(old(self)@, kept, payload.deep_view());
        }
        let (index, mut rest) = self.append_and_advance(payload);
        let ghost tail = rest.deep_view();
        effects.append(&mut rest);
        assert(effects.deep_view() =~= persist + tail);
        Some((index, effects))
    }

    fn persist_learners(&self) -> (effect: Effect)
        requires
            self.wf(),
        ensures
            effect.deep_view() == self@.persist_learners(),
    {
        Effect::PersistLearners { learners: vstd::slice::slice_to_vec(self.learners.as_slice()) }
    }

    /// Leader-only: starts tracking `id` as a non-voting learner, so that it
    /// receives ordinary replication without counting toward any quorum. A
    /// no-op if `id` is tracked already or a voter. Progress known from an
    /// earlier tenure is kept.
    pub fn add_learner(&mut self, id: NodeId) -> (effects: Vec<Effect>)
        requires
            old(self).wf(),
            old(self)@.takes_learner(id) ==> old(self)@.can_extend(),
        ensures
            final(self).wf(),
            if old(self)@.takes_learner(id) {
                &&& final(self)@ == old(self)@.add_learner(id)
                &&& effects.deep_view() == seq![final(self)@.persist_learners()]
            } else {
                &&& final(self)@ == old(self)@
                &&& effects.deep_view() == Seq::<types::EffectView>::empty()
            },
    {
        let mut effects: Vec<Effect> = Vec::new();
        assert(effects.deep_view() =~= Seq::empty());
        if self.role != Role::Leader || self.learners.contains(id) || self.current_config.is_voter(
            id,
        ) {
            return effects;
        }
        self.learners.insert(id);
        let next_index: u64 = self.last_log_index() + 1;
        if !self.next_index.contains_key(id) {
            self.next_index.insert(id, next_index);
        }
        if !self.match_index.contains_key(id) {
            self.match_index.insert(id, 0);
        }
        assert(self@ =~= old(self)@.add_learner(id));
        effects.push(self.persist_learners());
        assert(effects.deep_view() =~= seq![self@.persist_learners()]);
        effects
    }

    /// Leader-only: stops tracking `id` as a learner. A no-op if it isn't one.
    /// Replication progress stays: `id` may since have become a voter.
    pub fn remove_learner(&mut self, id: NodeId) -> (effects: Vec<Effect>)
        requires
            old(self).wf(),
        ensures
            final(self).wf(),
            if old(self)@.role == Role::Leader && old(self)@.learners.contains(id) {
                &&& final(self)@ == old(self)@.remove_learner(id)
                &&& effects.deep_view() == seq![final(self)@.persist_learners()]
            } else {
                &&& final(self)@ == old(self)@
                &&& effects.deep_view() == Seq::<types::EffectView>::empty()
            },
    {
        let mut effects: Vec<Effect> = Vec::new();
        assert(effects.deep_view() =~= Seq::empty());
        if self.role != Role::Leader || !self.learners.contains(id) {
            return effects;
        }
        self.learners.remove(id);
        assert(self@ =~= old(self)@.remove_learner(id));
        effects.push(self.persist_learners());
        assert(effects.deep_view() =~= seq![self@.persist_learners()]);
        effects
    }

    /// Compacts every log entry up to and including `up_to_index` into a
    /// snapshot whose bytes are opaque to this module. Any role may do so. A
    /// no-op at or before the current boundary, an error past the commit
    /// index.
    pub fn compact(&mut self, up_to_index: u64, snapshot_data: Vec<u8>) -> (result: Result<
        Vec<Effect>,
        CompactError,
    >)
        requires
            old(self).wf(),
            old(self)@.boundary() < up_to_index <= old(self)@.commit_index ==> up_to_index
                <= old(self)@.last_log_index() && up_to_index < u64::MAX,
        ensures
            final(self).wf(),
            match result {
                Ok(effects) => if up_to_index <= old(self)@.boundary() {
                    &&& final(self)@ == old(self)@
                    &&& effects.deep_view() == Seq::<types::EffectView>::empty()
                } else {
                    &&& up_to_index <= old(self)@.commit_index
                    &&& final(self)@ == old(self)@.compact(up_to_index as int, snapshot_data@)
                    &&& effects.deep_view() == final(self)@.persist_compacted()
                },
                Err(error) => {
                    &&& error == CompactError::IndexNotCommitted
                    &&& up_to_index > old(self)@.boundary()
                    &&& up_to_index > old(self)@.commit_index
                    &&& final(self)@ == old(self)@
                },
            },
    {
        let mut effects: Vec<Effect> = Vec::new();
        if up_to_index <= self.snapshot.last_included_index {
            assert(effects.deep_view() =~= Seq::empty());
            return Ok(effects);
        }
        if up_to_index > self.commit_index {
            return Err(CompactError::IndexNotCommitted);
        }
        let ghost before = self@;
        let covered: u64 = up_to_index - self.snapshot.last_included_index;
        let held: usize = self.log.len();
        assert(covered <= held);
        let covered: usize = covered as usize;
        let last_included_term: u64 = self.log[covered - 1].term;
        let rest = self.log.split_off(covered);
        assert(types::view_entries(self.log@) =~= before.log.take(covered as int));
        assert(rest.deep_view() =~= before.log.skip(covered as int));
        match latest_configuration_in(&self.log, self.snapshot.last_included_index) {
            Some((config, _)) => {
                self.snapshot_config = config;
            },
            None => {},
        }
        self.log = rest;
        self.snapshot = SnapshotMetadata { last_included_index: up_to_index, last_included_term };
        self.snapshot_data = snapshot_data.clone();
        assert(self@ =~= before.compact(up_to_index as int, snapshot_data@));
        self.recompute_config();
        effects.push(
            Effect::PersistSnapshot {
                last_included_index: up_to_index,
                last_included_term,
                data: snapshot_data,
                config: self.snapshot_config.clone(),
            },
        );
        let entries = self.entries_from(up_to_index + 1);
        assert(entries.deep_view() =~= self@.log);
        effects.push(Effect::PersistLog { from_index: up_to_index + 1, entries });
        assert(effects.deep_view() =~= self@.persist_compacted());
        Ok(effects)
    }

    /// Whether [`Node::step`] can take `event`: no counter overflows, and a
    /// leader keeps track of whoever it hears from or replicates to.
    pub fn can_step(&self, event: &Event) -> (can: bool)
        requires
            self.wf(),
        ensures
            can == self@.can_step(event.deep_view()),
    {
        match event {
            Event::Tick { .. } => self.can_tick(),
            Event::Step { from, message } => self.can_take(*from, message),
        }
    }

    fn can_tick(&self) -> (can: bool)
        requires
            self.wf(),
        ensures
            can == self@.can_tick(),
    {
        if self.leader_contact_elapsed == u64::MAX {
            return false;
        }
        if self.role == Role::Leader {
            if self.heartbeat_elapsed == u64::MAX {
                return false;
            }
            return self.heartbeat_elapsed + 1 < self.heartbeat_interval || self.can_broadcast();
        }
        if self.election_elapsed == u64::MAX {
            return false;
        }
        if self.election_elapsed + 1 < self.election_timeout || !self.current_config.is_voter(
            self.id,
        ) {
            return true;
        }
        if self.current_term == u64::MAX {
            return false;
        }
        let mut own = NodeSet::new();
        own.insert(self.id);
        assert(own@ =~= self@.candidacy(0).votes_granted);
        assert((NodeState { votes_granted: own@, ..self@ }).has_quorum() == self@.candidacy(
            0,
        ).has_quorum());
        self.last_log_index() < u64::MAX || !self.is_quorum(&own)
    }

    fn can_broadcast(&self) -> (can: bool)
        requires
            self.wf(),
        ensures
            can == self@.can_broadcast(),
    {
        let targets = self.replication_targets();
        let peers = targets.as_slice();
        let mut i: usize = 0;
        while i < peers.len()
            invariant
                i <= peers@.len(),
                self.wf(),
                peers@.to_set() == self@.replication_targets(),
                forall|j: int| 0 <= j < i ==> self@.can_replicate_to(#[trigger] peers@[j]),
            decreases peers.len() - i,
        {
            let can = match self.next_index.get(peers[i]) {
                Some(next_index) => *next_index == 0 || *next_index - 1 <= self.last_log_index(),
                None => false,
            };
            if !can {
                assert(peers@.to_set().contains(peers@[i as int]));
                return false;
            }
            i += 1;
        }
        assert forall|peer: NodeId| #[trigger] self@.replication_targets().contains(peer) implies self@.can_replicate_to(peer) by {
            assert(peers@.to_set().contains(peer));
        }
        true
    }

    fn can_acknowledge(&self, peer: NodeId, index: u64) -> (can: bool)
        requires
            self.wf(),
        ensures
            can == self@.can_acknowledge(peer, index),
    {
        let fits = match self.match_index.get(peer) {
            Some(matched) => *matched < u64::MAX && index < u64::MAX,
            None => false,
        };
        assert(self@.acknowledge(peer, index).config() == self@.config());
        fits && self.can_advance()
    }

    fn can_take(&self, from: NodeId, message: &Message) -> (can: bool)
        requires
            self.wf(),
        ensures
            can == self@.can_take(from, message.deep_view()),
    {
        match message {
            Message::RequestVote(_) => true,
            Message::RequestVoteResponse(response) => {
                if !self.is_member(from) || response.term != self.current_term || self.role
                    != Role::Candidate || !response.granted {
                    return true;
                }
                let mut votes = self.votes_granted.clone();
                votes.insert(from);
                self.last_log_index() < u64::MAX || !self.is_quorum(&votes)
            },
            Message::AppendEntries(request) => {
                if request.leader_id != from || request.term < self.current_term {
                    return true;
                }
                let matches = request.prev_log_index <= self.snapshot.last_included_index
                    || match self.term_at(request.prev_log_index) {
                    Some(term) => term == request.prev_log_term,
                    None => false,
                };
                !matches || request.entries.len() as u64 <= u64::MAX - request.prev_log_index
            },
            Message::InstallSnapshot(request) => {
                if request.leader_id != from || request.term < self.current_term
                    || request.last_included_index < u64::MAX {
                    return true;
                }
                match self.term_at(request.last_included_index) {
                    Some(term) => term == request.last_included_term,
                    None => false,
                }
            },
            Message::AppendEntriesResponse(response) => {
                if !self.is_member(from) || response.term != self.current_term || self.role
                    != Role::Leader {
                    return true;
                }
                if response.success {
                    self.can_acknowledge(from, response.match_index)
                } else {
                    self.next_index.contains_key(from)
                }
            },
            Message::InstallSnapshotResponse(response) => {
                !self.is_member(from) || response.term != self.current_term || self.role
                    != Role::Leader || self.can_acknowledge(from, response.last_included_index)
            },
        }
    }

    fn can_advance(&self) -> (can: bool)
        requires
            self.wf(),
        ensures
            can == self@.can_advance(),
    {
        let outgoing = match &self.current_config.old_voters {
            Some(old) => old.len() > 0 && self.last_log_index() < u64::MAX,
            None => true,
        };
        self.current_config.voters.len() > 0 && outgoing
    }

    /// Whether [`Node::propose`] can take a command.
    pub fn can_propose(&self) -> (can: bool)
        requires
            self.wf(),
        ensures
            can == self@.can_propose(),
    {
        if self.role != Role::Leader {
            return true;
        }
        let last: u64 = self.last_log_index();
        let outgoing = match &self.current_config.old_voters {
            Some(old) => old.len() > 0 && last < u64::MAX - 1,
            None => true,
        };
        last < u64::MAX && self.current_config.voters.len() > 0 && outgoing
    }

    /// Whether [`Node::propose_config_change`] can take `new_voters`.
    pub fn can_propose_config_change(&self, new_voters: &[NodeId]) -> (can: bool)
        requires
            self.wf(),
        ensures
            can == (self@.role == Role::Leader && new_voters@.len() > 0
                ==> self@.can_change_config(new_voters@)),
    {
        if self.role != Role::Leader || new_voters.len() == 0 {
            return true;
        }
        proof {
            let payload = types::LogPayloadView::Configuration(self@.joint_config(new_voters@));
            let grown = self@.append(payload);
            model::lemma_latest_push(self@.log, grown.log.last());
        }
        self.current_config.voters.len() > 0 && self.last_log_index() < u64::MAX - 1
    }
}

} // verus!
