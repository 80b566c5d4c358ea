//! The mathematical model of a Raft node: its state and every transition of
//! it, as functions from a state and an input to the next state and the
//! effects owed.

use vstd::prelude::*;

use crate::raft::ids;
use crate::raft::types::{
    AppendEntriesResponse, AppendEntriesView, ClusterConfigView, EffectView, EventView,
    InstallSnapshotResponse, InstallSnapshotView, LogEntryView, LogPayloadView, MessageView,
    NodeId, RequestVote, RequestVoteResponse, Role, SnapshotMetadata,
};

verus! {

/// The protocol state of one node. The configuration in force is not part of
/// it: that follows from the log and the snapshot, see
/// [`NodeState::config`].
#[verifier::ext_equal]
pub struct NodeState {
    pub id: NodeId,
    pub role: Role,
    pub current_term: u64,
    pub voted_for: Option<NodeId>,
    pub election_elapsed: u64,
    pub election_timeout: u64,
    pub votes_granted: Set<NodeId>,
    pub heartbeat_elapsed: u64,
    pub heartbeat_interval: u64,
    pub leader_contact_elapsed: u64,
    /// The entries above the snapshot boundary.
    pub log: Seq<LogEntryView>,
    pub commit_index: u64,
    pub next_index: Map<NodeId, u64>,
    pub match_index: Map<NodeId, u64>,
    pub snapshot: SnapshotMetadata,
    pub snapshot_data: Seq<u8>,
    pub snapshot_config: ClusterConfigView,
    pub learners: Set<NodeId>,
}

/// The last configuration in `log` and its position, if there is one.
pub open spec fn latest_configuration(log: Seq<LogEntryView>) -> Option<(ClusterConfigView, int)>
    decreases log.len(),
{
    if log.len() == 0 {
        None
    } else {
        match log.last().payload {
            LogPayloadView::Configuration(config) => Some((config, log.len() - 1)),
            LogPayloadView::Command(_) => latest_configuration(log.drop_last()),
        }
    }
}

/// How many voters make a strict majority of `voters`.
pub open spec fn quorum(voters: Seq<NodeId>) -> nat {
    voters.len() / 2 + 1
}

/// How many elements of `ids` belong to `set`.
pub open spec fn count_in(ids: Seq<NodeId>, set: Set<NodeId>) -> nat
    decreases ids.len(),
{
    if ids.len() == 0 {
        0
    } else {
        count_in(ids.drop_last(), set) + if set.contains(ids.last()) {
            1nat
        } else {
            0nat
        }
    }
}

/// How many elements of `values` are at least `floor`.
pub open spec fn count_at_least(values: Seq<u64>, floor: u64) -> nat
    decreases values.len(),
{
    if values.len() == 0 {
        0
    } else {
        count_at_least(values.drop_last(), floor) + if values.last() >= floor {
            1nat
        } else {
            0nat
        }
    }
}

/// Whether a strict majority of `values` has reached `value`.
pub open spec fn majority_reached(values: Seq<u64>, value: u64) -> bool {
    count_at_least(values, value) >= values.len() / 2 + 1
}

/// Whether `value` is the highest of `values` that a strict majority of them
/// has reached.
pub open spec fn is_majority_value(values: Seq<u64>, value: u64) -> bool {
    &&& values.contains(value)
    &&& majority_reached(values, value)
    &&& forall|other: u64| values.contains(other) && #[trigger] majority_reached(values, other) ==> other <= value
}

/// The highest of `values` that a strict majority of them has reached.
pub open spec fn majority_value(values: Seq<u64>) -> u64 {
    choose|value: u64| is_majority_value(values, value)
}

/// The lesser of two numbers.
pub open spec fn min_u64(a: u64, b: u64) -> u64 {
    if a <= b {
        a
    } else {
        b
    }
}

/// The greater of two numbers.
pub open spec fn max_u64(a: u64, b: u64) -> u64 {
    if a >= b {
        a
    } else {
        b
    }
}

impl NodeState {
    /// What every node keeps: finite bookkeeping, log indices that fit, and a
    /// commit index at or past the snapshot boundary.
    pub open spec fn wf(self) -> bool {
        &&& self.votes_granted.finite()
        &&& self.learners.finite()
        &&& self.next_index.dom().finite()
        &&& self.match_index.dom().finite()
        &&& self.boundary() + self.log.len() <= u64::MAX
        &&& self.boundary() <= self.commit_index
    }

    /// The last index covered by the snapshot, zero if there is none.
    pub open spec fn boundary(self) -> int {
        self.snapshot.last_included_index as int
    }

    pub open spec fn last_log_index(self) -> int {
        self.boundary() + self.log.len()
    }

    pub open spec fn last_log_term(self) -> u64 {
        if self.log.len() > 0 {
            self.log.last().term
        } else {
            self.snapshot.last_included_term
        }
    }

    /// The entry at an absolute index, if the log still holds it.
    pub open spec fn entry_at(self, index: int) -> Option<LogEntryView> {
        if self.boundary() < index <= self.last_log_index() {
            Some(self.log[index - self.boundary() - 1])
        } else {
            None
        }
    }

    /// The term of the entry at an absolute index, where it is still known.
    pub open spec fn term_at(self, index: int) -> Option<u64> {
        if index != 0 && index == self.boundary() {
            Some(self.snapshot.last_included_term)
        } else {
            match self.entry_at(index) {
                Some(entry) => Some(entry.term),
                None => None,
            }
        }
    }

    /// The entries from an absolute index to the end of the log.
    pub open spec fn entries_from(self, index: int) -> Seq<LogEntryView> {
        self.log.skip(index - self.boundary() - 1)
    }

    /// The configuration in force: the last one in the log, committed or not,
    /// else the one the snapshot carries.
    pub open spec fn config(self) -> ClusterConfigView {
        match latest_configuration(self.log) {
            Some((config, _)) => config,
            None => self.snapshot_config,
        }
    }

    /// The absolute index at which the configuration in force was set.
    pub open spec fn config_index(self) -> int {
        match latest_configuration(self.log) {
            Some((_, position)) => self.boundary() + position + 1,
            None => self.boundary(),
        }
    }

    /// Whether messages other than a leader's own are accepted from `id`.
    pub open spec fn is_member(self, id: NodeId) -> bool {
        self.config().is_voter(id) || self.learners.contains(id) || self.config().unconfigured()
    }

    /// Everyone a leader replicates to: voters, outgoing voters and learners,
    /// without itself.
    pub open spec fn replication_targets(self) -> Set<NodeId> {
        self.config().members().union(self.learners).remove(self.id)
    }

    /// What a leader owes `peer` now: entries from its next index on, or the
    /// snapshot where those are compacted away.
    pub open spec fn replicate_to(self, peer: NodeId) -> EffectView {
        let next = self.next_index[peer];
        if next <= self.boundary() {
            EffectView::Send {
                to: peer,
                message: MessageView::InstallSnapshot(
                    InstallSnapshotView {
                        term: self.current_term,
                        leader_id: self.id,
                        last_included_index: self.snapshot.last_included_index,
                        last_included_term: self.snapshot.last_included_term,
                        data: self.snapshot_data,
                        config: self.snapshot_config,
                    },
                ),
            }
        } else {
            EffectView::Send {
                to: peer,
                message: MessageView::AppendEntries(
                    AppendEntriesView {
                        term: self.current_term,
                        leader_id: self.id,
                        prev_log_index: (next - 1) as u64,
                        prev_log_term: match self.term_at(next - 1) {
                            Some(term) => term,
                            None => 0,
                        },
                        entries: self.entries_from(next as int),
                        leader_commit: self.commit_index,
                    },
                ),
            }
        }
    }

    /// One replication message to each target, in ascending order.
    pub open spec fn broadcast(self) -> Seq<EffectView> {
        ids::sorted_ids(self.replication_targets()).map_values(
            |peer: NodeId| self.replicate_to(peer),
        )
    }

    /// Whether `peer` is tracked, and its next index within the log or just
    /// past it.
    pub open spec fn can_replicate_to(self, peer: NodeId) -> bool {
        self.next_index.contains_key(peer) && self.next_index[peer] <= self.last_log_index() + 1
    }

    pub open spec fn can_broadcast(self) -> bool {
        forall|peer: NodeId| #[trigger]
            self.replication_targets().contains(peer) ==> self.can_replicate_to(peer)
    }

    /// The effect that makes term and vote durable.
    pub open spec fn persist_hard_state(self) -> EffectView {
        EffectView::PersistHardState { term: self.current_term, voted_for: self.voted_for }
    }

    /// Back to follower in a later term, with no vote cast in it.
    pub open spec fn step_down(self, term: u64) -> NodeState {
        NodeState {
            role: Role::Follower,
            current_term: term,
            voted_for: None,
            votes_granted: Set::empty(),
            next_index: Map::empty(),
            match_index: Map::empty(),
            ..self
        }
    }

    /// Back to follower in the same term.
    pub open spec fn retire(self) -> NodeState {
        NodeState {
            role: Role::Follower,
            votes_granted: Set::empty(),
            next_index: Map::empty(),
            match_index: Map::empty(),
            ..self
        }
    }

    /// Whether the votes granted win an election: a majority of the voters
    /// and, during a transition, a majority of the outgoing voters as well.
    pub open spec fn has_quorum(self) -> bool {
        let config = self.config();
        &&& self.votes_granted.intersect(config.voters.to_set()).len() >= quorum(config.voters)
        &&& match config.old_voters {
            Some(old) => count_in(old, self.votes_granted) >= quorum(old),
            None => true,
        }
    }

    /// Leader state, with every target's log taken to match up to its end.
    pub open spec fn seed_leader(self) -> NodeState {
        let targets = self.replication_targets();
        NodeState {
            role: Role::Leader,
            heartbeat_elapsed: 0,
            next_index: Map::new(
                |peer: NodeId| targets.contains(peer),
                |peer: NodeId| (self.last_log_index() + 1) as u64,
            ),
            match_index: Map::new(|peer: NodeId| targets.contains(peer), |peer: NodeId| 0u64),
            ..self
        }
    }

    pub open spec fn become_leader(self) -> (NodeState, Seq<EffectView>) {
        (self.seed_leader(), self.seed_leader().broadcast())
    }

    /// The next index fits.
    pub open spec fn can_extend(self) -> bool {
        self.last_log_index() < u64::MAX
    }

    /// Candidate in the next term, with its own vote.
    pub open spec fn candidacy(self, next_timeout: u64) -> NodeState {
        NodeState {
            role: Role::Candidate,
            current_term: (self.current_term + 1) as u64,
            voted_for: Some(self.id),
            votes_granted: Set::empty().insert(self.id),
            election_elapsed: 0,
            election_timeout: next_timeout,
            ..self
        }
    }

    /// The vote request a candidate sends.
    pub open spec fn vote_request(self) -> RequestVote {
        RequestVote {
            term: self.current_term,
            candidate_id: self.id,
            last_log_index: self.last_log_index() as u64,
            last_log_term: self.last_log_term(),
        }
    }

    /// A vote request to every voter but the candidate itself.
    pub open spec fn vote_requests(self) -> Seq<EffectView> {
        self.config().voters.filter(|peer: NodeId| peer != self.id).map_values(
            |peer: NodeId|
                EffectView::Send {
                    to: peer,
                    message: MessageView::RequestVote(self.vote_request()),
                },
        )
    }

    /// An election timeout. Only a voter campaigns; its own vote may already
    /// win.
    pub open spec fn start_election(self, next_timeout: u64) -> (NodeState, Seq<EffectView>) {
        if !self.config().is_voter(self.id) {
            (self, Seq::empty())
        } else {
            let candidate = self.candidacy(next_timeout);
            let persist = seq![candidate.persist_hard_state()];
            if candidate.has_quorum() {
                let (leader, effects) = candidate.become_leader();
                (leader, persist + effects)
            } else {
                (candidate, persist + candidate.vote_requests())
            }
        }
    }

    pub open spec fn can_start_election(self) -> bool {
        self.config().is_voter(self.id) ==> {
            &&& self.current_term < u64::MAX
            &&& self.candidacy(0).has_quorum() ==> self.can_extend()
        }
    }

    pub open spec fn tick_follower(self) -> NodeState {
        NodeState {
            election_elapsed: (self.election_elapsed + 1) as u64,
            leader_contact_elapsed: (self.leader_contact_elapsed + 1) as u64,
            ..self
        }
    }

    pub open spec fn tick_leader(self) -> NodeState {
        NodeState {
            heartbeat_elapsed: (self.heartbeat_elapsed + 1) as u64,
            leader_contact_elapsed: (self.leader_contact_elapsed + 1) as u64,
            ..self
        }
    }

    /// One tick: a leader replicates at its heartbeat interval, anyone else
    /// campaigns at its election timeout.
    pub open spec fn on_tick(self, next_timeout: u64) -> (NodeState, Seq<EffectView>) {
        if self.role == Role::Leader {
            let ticked = self.tick_leader();
            if ticked.heartbeat_elapsed < ticked.heartbeat_interval {
                (ticked, Seq::empty())
            } else {
                let due = NodeState { heartbeat_elapsed: 0, ..ticked };
                (due, due.broadcast())
            }
        } else {
            let ticked = self.tick_follower();
            if ticked.election_elapsed < ticked.election_timeout {
                (ticked, Seq::empty())
            } else {
                ticked.start_election(next_timeout)
            }
        }
    }

    pub open spec fn can_tick(self) -> bool {
        &&& self.leader_contact_elapsed < u64::MAX
        &&& if self.role == Role::Leader {
            &&& self.heartbeat_elapsed < u64::MAX
            &&& self.heartbeat_elapsed + 1 >= self.heartbeat_interval ==> self.can_broadcast()
        } else {
            &&& self.election_elapsed < u64::MAX
            &&& self.election_elapsed + 1 >= self.election_timeout ==> self.can_start_election()
        }
    }

    pub open spec fn vote_response(self, to: NodeId, granted: bool) -> EffectView {
        EffectView::Send {
            to,
            message: MessageView::RequestVoteResponse(
                RequestVoteResponse { term: self.current_term, granted },
            ),
        }
    }

    /// Whether a vote request is turned down without a look at its term: by a
    /// leader, and during a transition by a node that has just heard from one.
    pub open spec fn disregards_votes(self) -> bool {
        ||| self.role == Role::Leader
        ||| self.config().is_joint() && self.leader_contact_elapsed < self.heartbeat_interval
    }

    /// Whether the candidate's log is at least as up to date as this one.
    pub open spec fn log_up_to_date(self, request: RequestVote) -> bool {
        ||| request.last_log_term > self.last_log_term()
        ||| request.last_log_term == self.last_log_term() && request.last_log_index >= self.last_log_index()
    }

    pub open spec fn grants_vote(self, request: RequestVote) -> bool {
        self.log_up_to_date(request) && (self.voted_for is None || self.voted_for == Some(
            request.candidate_id,
        ))
    }

    pub open spec fn on_request_vote(self, from: NodeId, request: RequestVote) -> (
        NodeState,
        Seq<EffectView>,
    ) {
        if request.term < self.current_term || self.disregards_votes() {
            (self, seq![self.vote_response(from, false)])
        } else {
            let stepped_down = request.term > self.current_term;
            let current = if stepped_down {
                self.step_down(request.term)
            } else {
                self
            };
            let granted = current.grants_vote(request);
            let next = if granted {
                NodeState {
                    voted_for: Some(request.candidate_id),
                    election_elapsed: 0,
                    ..current
                }
            } else {
                current
            };
            if stepped_down || granted {
                (next, seq![next.persist_hard_state(), next.vote_response(from, granted)])
            } else {
                (next, seq![next.vote_response(from, granted)])
            }
        }
    }

    pub open spec fn on_request_vote_response(
        self,
        from: NodeId,
        response: RequestVoteResponse,
    ) -> (NodeState, Seq<EffectView>) {
        if response.term > self.current_term {
            let next = self.step_down(response.term);
            (next, seq![next.persist_hard_state()])
        } else if response.term < self.current_term || self.role != Role::Candidate
            || !response.granted {
            (self, Seq::empty())
        } else {
            let counted = NodeState { votes_granted: self.votes_granted.insert(from), ..self };
            if counted.has_quorum() {
                counted.become_leader()
            } else {
                (counted, Seq::empty())
            }
        }
    }

    pub open spec fn can_take_vote_response(
        self,
        from: NodeId,
        response: RequestVoteResponse,
    ) -> bool {
        response.term == self.current_term && self.role == Role::Candidate && response.granted && (
        NodeState { votes_granted: self.votes_granted.insert(from), ..self }).has_quorum()
            ==> self.can_extend()
    }

    /// A message from the leader of a current or later term has been
    /// accepted: this node follows it, unless it leads the same term.
    pub open spec fn follow(self, term: u64) -> NodeState {
        let followed = if term > self.current_term {
            self.step_down(term)
        } else if self.role == Role::Candidate {
            NodeState { role: Role::Follower, ..self }
        } else {
            self
        };
        NodeState { election_elapsed: 0, leader_contact_elapsed: 0, ..followed }
    }

    /// What makes a newly entered term durable.
    pub open spec fn persist_new_term(self, before: NodeState) -> Seq<EffectView> {
        if self.current_term > before.current_term {
            seq![self.persist_hard_state()]
        } else {
            Seq::empty()
        }
    }

    pub open spec fn append_response(self, to: NodeId, success: bool, match_index: u64) -> EffectView {
        EffectView::Send {
            to,
            message: MessageView::AppendEntriesResponse(
                AppendEntriesResponse { term: self.current_term, success, match_index },
            ),
        }
    }

    /// Whether the entry before the ones sent is known to match. Whatever the
    /// snapshot covers is committed, and so matches any leader's log.
    pub open spec fn prev_log_matches(self, request: AppendEntriesView) -> bool {
        ||| request.prev_log_index <= self.boundary()
        ||| self.term_at(request.prev_log_index as int) == Some(request.prev_log_term)
    }

    /// Whether the `k`th entry sent differs from what this log holds there.
    pub open spec fn diverges_at(self, request: AppendEntriesView, k: int) -> bool {
        let index = request.prev_log_index + k + 1;
        &&& 0 <= k < request.entries.len()
        &&& index > self.boundary()
        &&& self.term_at(index) != Some(request.entries[k].term)
    }

    /// Whether the `k`th entry sent is the first that differs.
    pub open spec fn first_divergence(self, request: AppendEntriesView, k: int) -> bool {
        &&& self.diverges_at(request, k)
        &&& forall|j: int| 0 <= j < k ==> !#[trigger] self.diverges_at(request, j)
    }

    /// The log after merging the entries sent: from the first that differs
    /// on, they replace what is there. Also the index from which it changed.
    pub open spec fn merged(self, request: AppendEntriesView) -> (Seq<LogEntryView>, Option<u64>) {
        if exists|k: int| self.first_divergence(request, k) {
            let k = choose|k: int| self.first_divergence(request, k);
            let index = request.prev_log_index + k + 1;
            (
                self.log.take(index - self.boundary() - 1) + request.entries.skip(k),
                Some(index as u64),
            )
        } else {
            (self.log, None)
        }
    }

    pub open spec fn on_append_entries(self, from: NodeId, request: AppendEntriesView) -> (
        NodeState,
        Seq<EffectView>,
    ) {
        if request.term < self.current_term {
            (self, seq![self.append_response(from, false, 0)])
        } else {
            let current = self.follow(request.term);
            let persist_term = current.persist_new_term(self);
            if !current.prev_log_matches(request) {
                (current, persist_term + seq![current.append_response(from, false, 0)])
            } else {
                let (log, changed_from) = current.merged(request);
                let grown = NodeState { log, ..current };
                let next = if request.leader_commit > grown.commit_index {
                    NodeState {
                        commit_index: min_u64(request.leader_commit, grown.last_log_index() as u64),
                        ..grown
                    }
                } else {
                    grown
                };
                let persist_log = match changed_from {
                    Some(from_index) => seq![
                        EffectView::PersistLog {
                            from_index,
                            entries: next.entries_from(from_index as int),
                        },
                    ],
                    None => Seq::empty(),
                };
                let match_index = (request.prev_log_index + request.entries.len()) as u64;
                (
                    next,
                    persist_term + persist_log + seq![next.append_response(from, true, match_index)],
                )
            }
        }
    }

    pub open spec fn can_append_entries(self, request: AppendEntriesView) -> bool {
        request.term >= self.current_term && self.prev_log_matches(request)
            ==> request.prev_log_index + request.entries.len() <= u64::MAX
    }

    pub open spec fn snapshot_response(self, to: NodeId, last_included_index: u64) -> EffectView {
        EffectView::Send {
            to,
            message: MessageView::InstallSnapshotResponse(
                InstallSnapshotResponse { term: self.current_term, last_included_index },
            ),
        }
    }

    /// Whether this node already has the point a snapshot ends at, in its log
    /// or compacted into its own snapshot.
    pub open spec fn covers(self, request: InstallSnapshotView) -> bool {
        ||| request.last_included_index < self.boundary()
        ||| self.term_at(request.last_included_index as int) == Some(request.last_included_term)
    }

    /// The snapshot takes the place of the whole log.
    pub open spec fn install(self, request: InstallSnapshotView) -> NodeState {
        NodeState {
            log: Seq::empty(),
            snapshot: SnapshotMetadata {
                last_included_index: request.last_included_index,
                last_included_term: request.last_included_term,
            },
            snapshot_data: request.data,
            snapshot_config: request.config,
            commit_index: max_u64(self.commit_index, request.last_included_index),
            ..self
        }
    }

    pub open spec fn on_install_snapshot(self, from: NodeId, request: InstallSnapshotView) -> (
        NodeState,
        Seq<EffectView>,
    ) {
        if request.term < self.current_term {
            (self, seq![self.snapshot_response(from, self.snapshot.last_included_index)])
        } else {
            let current = self.follow(request.term);
            let persist_term = current.persist_new_term(self);
            let response = seq![current.snapshot_response(from, request.last_included_index)];
            if current.covers(request) {
                (current, persist_term + response)
            } else {
                (current.install(request), persist_term + persist_snapshot(request) + response)
            }
        }
    }

    pub open spec fn can_install_snapshot(self, request: InstallSnapshotView) -> bool {
        request.term >= self.current_term && !self.covers(request)
            ==> request.last_included_index < u64::MAX
    }

    /// How far the log of `peer` is known to match this leader's.
    pub open spec fn progress(self, peer: NodeId) -> u64 {
        if peer == self.id {
            self.last_log_index() as u64
        } else if self.match_index.contains_key(peer) {
            self.match_index[peer]
        } else {
            0
        }
    }

    pub open spec fn progress_of(self, peers: Seq<NodeId>) -> Seq<u64> {
        peers.map_values(|peer: NodeId| self.progress(peer))
    }

    /// The highest index a majority of the voters holds, and during a
    /// transition a majority of the outgoing voters as well.
    pub open spec fn replicated_index(self) -> u64 {
        let config = self.config();
        let reached = majority_value(self.progress_of(config.voters));
        match config.old_voters {
            Some(old) => min_u64(reached, majority_value(self.progress_of(old))),
            None => reached,
        }
    }

    /// Commits what a majority holds, if its last entry is of this term.
    pub open spec fn commit_replicated(self) -> NodeState {
        let candidate = self.replicated_index();
        if candidate > self.commit_index && self.term_at(candidate as int) == Some(
            self.current_term,
        ) {
            NodeState { commit_index: candidate, ..self }
        } else {
            self
        }
    }

    /// The log grown by one entry of the current term.
    pub open spec fn append(self, payload: LogPayloadView) -> NodeState {
        NodeState { log: self.log.push(LogEntryView { term: self.current_term, payload }), ..self }
    }

    /// What makes the last log entry durable.
    pub open spec fn persist_last(self) -> EffectView {
        EffectView::PersistLog {
            from_index: self.last_log_index() as u64,
            entries: seq![self.log.last()],
        }
    }

    /// The configuration that ends the transition in force.
    pub open spec fn settled_config(self) -> ClusterConfigView {
        ClusterConfigView { voters: self.config().voters, old_voters: None }
    }

    /// A leader left out of a committed configuration retires.
    pub open spec fn retire_if_excluded(self) -> NodeState {
        if !self.config().is_joint() && self.commit_index >= self.config_index()
            && !self.config().voters.contains(self.id) {
            self.retire()
        } else {
            self
        }
    }

    /// Whether the transition in force is committed.
    pub open spec fn transition_committed(self) -> bool {
        self.config().is_joint() && self.commit_index >= self.config_index()
    }

    /// A leader's commit rule. Committing a transition appends the
    /// configuration that ends it, which may commit at once.
    pub open spec fn advance_commit(self) -> (NodeState, Seq<EffectView>) {
        let committed = self.commit_replicated();
        if committed.transition_committed() {
            let settled = committed.append(LogPayloadView::Configuration(committed.settled_config()));
            (settled.commit_replicated().retire_if_excluded(), seq![settled.persist_last()])
        } else {
            (committed.retire_if_excluded(), Seq::empty())
        }
    }

    /// Whether the commit rule applies: there are voters to count and, during
    /// a transition, room for the entry that ends it.
    pub open spec fn can_advance(self) -> bool {
        &&& self.config().voters.len() > 0
        &&& self.config().old_voters matches Some(old) ==> old.len() > 0 && self.can_extend()
    }

    /// The peer's log is known to match up to `index`, or further.
    pub open spec fn acknowledge(self, peer: NodeId, index: u64) -> NodeState {
        let reached = max_u64(self.match_index[peer], index);
        NodeState {
            match_index: self.match_index.insert(peer, reached),
            next_index: self.next_index.insert(peer, (reached + 1) as u64),
            ..self
        }
    }

    pub open spec fn can_acknowledge(self, peer: NodeId, index: u64) -> bool {
        &&& self.match_index.contains_key(peer)
        &&& max_u64(self.match_index[peer], index) < u64::MAX
        &&& self.acknowledge(peer, index).can_advance()
    }

    /// A further message to `peer`, if this node still leads and owes entries.
    pub open spec fn retry(self, peer: NodeId) -> Seq<EffectView> {
        if self.role == Role::Leader && self.next_index[peer] <= self.last_log_index() {
            seq![self.replicate_to(peer)]
        } else {
            Seq::empty()
        }
    }

    pub open spec fn on_acknowledged(self, peer: NodeId, index: u64) -> (NodeState, Seq<EffectView>) {
        let (next, effects) = self.acknowledge(peer, index).advance_commit();
        (next, effects + next.retry(peer))
    }

    pub open spec fn on_install_snapshot_response(
        self,
        from: NodeId,
        response: InstallSnapshotResponse,
    ) -> (NodeState, Seq<EffectView>) {
        if response.term > self.current_term {
            let next = self.step_down(response.term);
            (next, seq![next.persist_hard_state()])
        } else if response.term < self.current_term || self.role != Role::Leader {
            (self, Seq::empty())
        } else {
            self.on_acknowledged(from, response.last_included_index)
        }
    }

    pub open spec fn can_take_snapshot_response(
        self,
        from: NodeId,
        response: InstallSnapshotResponse,
    ) -> bool {
        response.term == self.current_term && self.role == Role::Leader ==> self.can_acknowledge(
            from,
            response.last_included_index,
        )
    }

    /// The peer's log does not match: try one entry earlier.
    pub open spec fn back_off(self, peer: NodeId) -> NodeState {
        let next = self.next_index[peer];
        NodeState {
            next_index: self.next_index.insert(
                peer,
                if next > 1 {
                    (next - 1) as u64
                } else {
                    1
                },
            ),
            ..self
        }
    }

    pub open spec fn on_append_entries_response(
        self,
        from: NodeId,
        response: AppendEntriesResponse,
    ) -> (NodeState, Seq<EffectView>) {
        if response.term > self.current_term {
            let next = self.step_down(response.term);
            (next, seq![next.persist_hard_state()])
        } else if response.term < self.current_term || self.role != Role::Leader {
            (self, Seq::empty())
        } else if response.success {
            self.on_acknowledged(from, response.match_index)
        } else {
            let next = self.back_off(from);
            (next, next.retry(from))
        }
    }

    pub open spec fn can_take_append_response(
        self,
        from: NodeId,
        response: AppendEntriesResponse,
    ) -> bool {
        response.term == self.current_term && self.role == Role::Leader ==> if response.success {
            self.can_acknowledge(from, response.match_index)
        } else {
            self.next_index.contains_key(from)
        }
    }

    /// One message from a peer. A leader's own messages need no local
    /// membership: whoever missed a membership change must still be able to
    /// learn of it.
    pub open spec fn on_message(self, from: NodeId, message: MessageView) -> (
        NodeState,
        Seq<EffectView>,
    ) {
        match message {
            MessageView::AppendEntries(request) => if request.leader_id == from {
                self.on_append_entries(from, request)
            } else {
                (self, Seq::empty())
            },
            MessageView::InstallSnapshot(request) => if request.leader_id == from {
                self.on_install_snapshot(from, request)
            } else {
                (self, Seq::empty())
            },
            MessageView::RequestVote(request) => if self.is_member(from) && request.candidate_id
                == from {
                self.on_request_vote(from, request)
            } else {
                (self, Seq::empty())
            },
            MessageView::RequestVoteResponse(response) => if self.is_member(from) {
                self.on_request_vote_response(from, response)
            } else {
                (self, Seq::empty())
            },
            MessageView::AppendEntriesResponse(response) => if self.is_member(from) {
                self.on_append_entries_response(from, response)
            } else {
                (self, Seq::empty())
            },
            MessageView::InstallSnapshotResponse(response) => if self.is_member(from) {
                self.on_install_snapshot_response(from, response)
            } else {
                (self, Seq::empty())
            },
        }
    }

    /// Whether a message can be taken: no counter overflows, and a leader
    /// tracks the peers that answer it, none past the end of its log.
    pub open spec fn can_take(self, from: NodeId, message: MessageView) -> bool {
        match message {
            MessageView::AppendEntries(request) => request.leader_id == from
                ==> self.can_append_entries(request),
            MessageView::InstallSnapshot(request) => request.leader_id == from
                ==> self.can_install_snapshot(request),
            MessageView::RequestVote(_) => true,
            MessageView::RequestVoteResponse(response) => self.is_member(from)
                ==> self.can_take_vote_response(from, response),
            MessageView::AppendEntriesResponse(response) => self.is_member(from)
                ==> self.can_take_append_response(from, response),
            MessageView::InstallSnapshotResponse(response) => self.is_member(from)
                ==> self.can_take_snapshot_response(from, response),
        }
    }

    /// One transition.
    pub open spec fn step(self, event: EventView) -> (NodeState, Seq<EffectView>) {
        match event {
            EventView::Tick { next_timeout } => self.on_tick(next_timeout),
            EventView::Step { from, message } => self.on_message(from, message),
        }
    }

    /// Whether [`NodeState::step`] is defined for `event`.
    pub open spec fn can_step(self, event: EventView) -> bool {
        match event {
            EventView::Tick { .. } => self.can_tick(),
            EventView::Step { from, message } => self.can_take(from, message),
        }
    }

    /// A leader appends `payload`.
    pub open spec fn append_and_advance(self, payload: LogPayloadView) -> (
        NodeState,
        Seq<EffectView>,
    ) {
        let grown = self.append(payload);
        let (next, effects) = grown.advance_commit();
        (next, seq![grown.persist_last()] + effects)
    }

    pub open spec fn can_append_and_advance(self, payload: LogPayloadView) -> bool {
        self.can_extend() && self.append(payload).can_advance()
    }

    /// Whether a proposal can be taken: a leader needs room for the entry,
    /// voters to count and, during a transition, room for the entry that ends
    /// it.
    pub open spec fn can_propose(self) -> bool {
        self.role == Role::Leader ==> {
            &&& self.can_extend()
            &&& self.config().voters.len() > 0
            &&& self.config().old_voters matches Some(old) ==> old.len() > 0
                && self.last_log_index() + 1 < u64::MAX
        }
    }

    /// The configuration that begins a transition to `new_voters`.
    pub open spec fn joint_config(self, new_voters: Seq<NodeId>) -> ClusterConfigView {
        ClusterConfigView { voters: new_voters, old_voters: Some(self.config().voters) }
    }

    /// The learners that do not become voters.
    pub open spec fn without_promoted(self, new_voters: Seq<NodeId>) -> NodeState {
        NodeState { learners: self.learners.difference(new_voters.to_set()), ..self }
    }

    pub open spec fn persist_learners(self) -> EffectView {
        EffectView::PersistLearners { learners: ids::sorted_ids(self.learners) }
    }

    /// A leader begins a transition to `new_voters`.
    pub open spec fn change_config(self, new_voters: Seq<NodeId>) -> (NodeState, Seq<EffectView>) {
        let kept = self.without_promoted(new_voters);
        let persist = if kept.learners == self.learners {
            Seq::empty()
        } else {
            seq![kept.persist_learners()]
        };
        let (next, effects) = kept.append_and_advance(
            LogPayloadView::Configuration(self.joint_config(new_voters)),
        );
        (next, persist + effects)
    }

    pub open spec fn can_change_config(self, new_voters: Seq<NodeId>) -> bool {
        self.can_append_and_advance(LogPayloadView::Configuration(self.joint_config(new_voters)))
    }

    /// Whether adding `id` as a learner changes anything.
    pub open spec fn takes_learner(self, id: NodeId) -> bool {
        self.role == Role::Leader && !self.learners.contains(id) && !self.config().is_voter(id)
    }

    pub open spec fn add_learner(self, id: NodeId) -> NodeState {
        NodeState {
            learners: self.learners.insert(id),
            next_index: if self.next_index.contains_key(id) {
                self.next_index
            } else {
                self.next_index.insert(id, (self.last_log_index() + 1) as u64)
            },
            match_index: if self.match_index.contains_key(id) {
                self.match_index
            } else {
                self.match_index.insert(id, 0)
            },
            ..self
        }
    }

    pub open spec fn remove_learner(self, id: NodeId) -> NodeState {
        NodeState { learners: self.learners.remove(id), ..self }
    }

    /// The snapshot now covers everything up to `up_to`.
    pub open spec fn compact(self, up_to: int, data: Seq<u8>) -> NodeState {
        let covered = up_to - self.boundary();
        NodeState {
            log: self.log.skip(covered),
            snapshot: SnapshotMetadata {
                last_included_index: up_to as u64,
                last_included_term: self.log[covered - 1].term,
            },
            snapshot_data: data,
            snapshot_config: match latest_configuration(self.log.take(covered)) {
                Some((config, _)) => config,
                None => self.snapshot_config,
            },
            ..self
        }
    }

    /// What makes a compaction durable: the snapshot, then the log above it.
    pub open spec fn persist_compacted(self) -> Seq<EffectView> {
        seq![
            EffectView::PersistSnapshot {
                last_included_index: self.snapshot.last_included_index,
                last_included_term: self.snapshot.last_included_term,
                data: self.snapshot_data,
                config: self.snapshot_config,
            },
            EffectView::PersistLog {
                from_index: (self.boundary() + 1) as u64,
                entries: self.log,
            },
        ]
    }
}

/// What makes an installed snapshot durable: the snapshot, then an empty log
/// above it.
pub open spec fn persist_snapshot(request: InstallSnapshotView) -> Seq<EffectView> {
    seq![
        EffectView::PersistSnapshot {
            last_included_index: request.last_included_index,
            last_included_term: request.last_included_term,
            data: request.data,
            config: request.config,
        },
        EffectView::PersistLog {
            from_index: (request.last_included_index + 1) as u64,
            entries: Seq::empty(),
        },
    ]
}

/// Dropping the last entry of a log either drops its last configuration or
/// leaves it in place.
pub proof fn lemma_latest_push(log: Seq<LogEntryView>, entry: LogEntryView)
    ensures
        latest_configuration(log.push(entry)) == match entry.payload {
            LogPayloadView::Configuration(config) => Some((config, log.len() as int)),
            LogPayloadView::Command(_) => latest_configuration(log),
        },
{
    assert(log.push(entry).drop_last() =~= log);
}

/// The position of the last configuration lies within the log.
pub proof fn lemma_latest_bounds(log: Seq<LogEntryView>)
    ensures
        latest_configuration(log) matches Some((config, position)) ==> 0 <= position < log.len()
            && log[position].payload == LogPayloadView::Configuration(config),
    decreases log.len(),
{
    if log.len() > 0 {
        lemma_latest_bounds(log.drop_last());
    }
}

/// The last configuration of two logs in a row is that of the second, where
/// it has one.
pub proof fn lemma_latest_concat(a: Seq<LogEntryView>, b: Seq<LogEntryView>)
    ensures
        latest_configuration(a + b) == match latest_configuration(b) {
            Some((config, position)) => Some((config, a.len() + position)),
            None => latest_configuration(a),
        },
    decreases b.len(),
{
    if b.len() == 0 {
        assert(a + b =~= a);
    } else {
        assert((a + b).drop_last() =~= a + b.drop_last());
        lemma_latest_concat(a, b.drop_last());
    }
}

/// A command leaves the configuration in force, so a leader that can propose
/// can append any command.
pub proof fn lemma_can_propose(s: NodeState, command: Seq<u8>)
    requires
        s.role == Role::Leader,
    ensures
        s.can_propose() == s.can_append_and_advance(LogPayloadView::Command(command)),
{
    let grown = s.append(LogPayloadView::Command(command));
    lemma_latest_push(s.log, grown.log.last());
}

/// Compacting keeps the configuration in force.
pub proof fn lemma_compact_config(s: NodeState, up_to: int, data: Seq<u8>)
    requires
        s.boundary() < up_to <= s.last_log_index(),
        s.last_log_index() <= u64::MAX,
    ensures
        s.compact(up_to, data).config() == s.config(),
{
    let covered = up_to - s.boundary();
    assert(s.log =~= s.log.take(covered) + s.log.skip(covered));
    lemma_latest_concat(s.log.take(covered), s.log.skip(covered));
}

/// The counts grow element by element.
pub proof fn lemma_count_in_push(ids: Seq<NodeId>, id: NodeId, set: Set<NodeId>)
    ensures
        count_in(ids.push(id), set) == count_in(ids, set) + if set.contains(id) {
            1nat
        } else {
            0nat
        },
{
    assert(ids.push(id).drop_last() =~= ids);
}

pub proof fn lemma_count_at_least_push(values: Seq<u64>, value: u64, floor: u64)
    ensures
        count_at_least(values.push(value), floor) == count_at_least(values, floor) + if value
            >= floor {
            1nat
        } else {
            0nat
        },
{
    assert(values.push(value).drop_last() =~= values);
}

/// No more elements reach a higher floor.
pub proof fn lemma_count_at_least_antitone(values: Seq<u64>, low: u64, high: u64)
    requires
        low <= high,
    ensures
        count_at_least(values, high) <= count_at_least(values, low) <= values.len(),
    decreases values.len(),
{
    if values.len() > 0 {
        lemma_count_at_least_antitone(values.drop_last(), low, high);
    }
}

/// All elements reach a floor below all of them.
pub proof fn lemma_count_at_least_all(values: Seq<u64>, floor: u64)
    requires
        forall|i: int| 0 <= i < values.len() ==> values[i] >= floor,
    ensures
        count_at_least(values, floor) == values.len(),
    decreases values.len(),
{
    if values.len() > 0 {
        lemma_count_at_least_all(values.drop_last(), floor);
    }
}

/// The majority value is unique.
pub proof fn lemma_majority_value(values: Seq<u64>, value: u64)
    requires
        is_majority_value(values, value),
    ensures
        majority_value(values) == value,
{
    let chosen = majority_value(values);
    assert(is_majority_value(values, chosen));
    assert(majority_reached(values, value));
    assert(majority_reached(values, chosen));
}

} // verus!
