//! What a cluster has done so far: the votes cast, the leaders elected, what
//! each of them has appended, and how far each node has taken that over. Nodes
//! forget most of it; none of it is ever undone.

use vstd::prelude::*;

use crate::raft::model;
use crate::raft::model::NodeState;
use crate::raft::types::{
    AppendEntriesView, ClusterConfigView, InstallSnapshotView, LogEntryView, LogPayloadView,
    MessageView, NodeId, RequestVote, Role,
};

verus! {

/// Everything decided so far, by term.
#[verifier::ext_equal]
pub struct Record {
    /// Whom each node has voted for.
    pub votes: Map<(NodeId, u64), NodeId>,
    /// The log each candidate campaigned with.
    pub campaigns: Map<(NodeId, u64), Seq<LogEntryView>>,
    /// The log of each voter when it voted.
    pub ballots: Map<(NodeId, u64), Seq<LogEntryView>>,
    pub leaders: Map<u64, NodeId>,
    /// Whose votes elected the leader.
    pub electors: Map<u64, Set<NodeId>>,
    /// The log of the leader, as long as it has become.
    pub logs: Map<u64, Seq<LogEntryView>>,
    /// How much of the leader's log each node has taken over during its term.
    pub acks: Map<(NodeId, u64), nat>,
    /// The entries that each node's snapshot covers.
    pub bases: Map<NodeId, Seq<LogEntryView>>,
}

/// Whether both logs hold the same entries up to `n`.
pub open spec fn agree(a: Seq<LogEntryView>, b: Seq<LogEntryView>, n: int) -> bool {
    &&& n <= a.len()
    &&& n <= b.len()
    &&& forall|j: int|
        #![trigger a[j]]
        #![trigger b[j]]
        0 <= j < n ==> a[j] == b[j]
}

/// Whether every entry is of term `term` or earlier.
pub open spec fn terms_within(log: Seq<LogEntryView>, term: int) -> bool {
    forall|i: int| 0 <= i < log.len() ==> (#[trigger] log[i]).term <= term
}

/// The term of the last entry.
pub open spec fn last_term(log: Seq<LogEntryView>) -> u64 {
    if log.len() > 0 {
        log.last().term
    } else {
        0
    }
}

/// Whether log `a` is at least as up to date as log `b`.
pub open spec fn up_to_date(a: Seq<LogEntryView>, b: Seq<LogEntryView>) -> bool {
    last_term(a) > last_term(b) || (last_term(a) == last_term(b) && a.len() >= b.len())
}

/// The configuration outside a transition.
pub open spec fn stable(voters: Seq<NodeId>) -> ClusterConfigView {
    ClusterConfigView { voters, old_voters: None }
}

/// The configuration a log puts in force, in a cluster that began with the
/// voters `genesis`.
pub open spec fn config_of(genesis: Seq<NodeId>, log: Seq<LogEntryView>) -> ClusterConfigView {
    match model::latest_configuration(log) {
        Some((config, _)) => config,
        None => stable(genesis),
    }
}

/// The index at which a log last changed the configuration, zero if it never
/// did.
pub open spec fn config_end(log: Seq<LogEntryView>) -> int {
    match model::latest_configuration(log) {
        Some((_, position)) => position + 1,
        None => 0,
    }
}

/// Whether `set` holds a strict majority of `voters`.
pub open spec fn majority(voters: Seq<NodeId>, set: Set<NodeId>) -> bool {
    model::count_in(voters, set) >= model::quorum(voters)
}

/// Whether `set` can decide under a configuration: a majority of the voters
/// and, during a transition, of the outgoing voters as well.
pub open spec fn decides(config: ClusterConfigView, set: Set<NodeId>) -> bool {
    &&& majority(config.voters, set)
    &&& config.old_voters matches Some(old) ==> majority(old, set)
}

impl Record {
    /// Nothing has happened yet.
    pub open spec fn blank() -> Record {
        Record {
            votes: Map::empty(),
            campaigns: Map::empty(),
            ballots: Map::empty(),
            leaders: Map::empty(),
            electors: Map::empty(),
            logs: Map::empty(),
            acks: Map::empty(),
            bases: Map::empty(),
        }
    }

    pub open spec fn voted(self, id: NodeId, term: u64) -> Option<NodeId> {
        if self.votes.contains_key((id, term)) {
            Some(self.votes[(id, term)])
        } else {
            None
        }
    }

    /// Whether a term has had a leader.
    pub open spec fn led(self, term: u64) -> bool {
        self.leaders.contains_key(term)
    }

    pub open spec fn campaigned(self, id: NodeId, term: u64) -> bool {
        self.campaigns.contains_key((id, term))
    }

    pub open spec fn campaign(self, id: NodeId, term: u64) -> Seq<LogEntryView> {
        self.campaigns[(id, term)]
    }

    pub open spec fn balloted(self, id: NodeId, term: u64) -> bool {
        self.ballots.contains_key((id, term))
    }

    pub open spec fn ballot(self, id: NodeId, term: u64) -> Seq<LogEntryView> {
        self.ballots[(id, term)]
    }

    pub open spec fn acked(self, id: NodeId, term: u64) -> nat {
        if self.acks.contains_key((id, term)) {
            self.acks[(id, term)]
        } else {
            0
        }
    }

    /// What a node's snapshot covers.
    pub open spec fn base(self, id: NodeId) -> Seq<LogEntryView> {
        if self.bases.contains_key(id) {
            self.bases[id]
        } else {
            Seq::empty()
        }
    }

    /// A node's log from the beginning, with what its snapshot covers.
    pub open spec fn full(self, s: NodeState) -> Seq<LogEntryView> {
        self.base(s.id) + s.log
    }

    /// The log a leader was elected with.
    pub open spec fn elected_with(self, term: u64) -> Seq<LogEntryView> {
        self.campaign(self.leaders[term], term)
    }

    /// Whether every entry of a log stems from the leader of its term, along
    /// with everything before it.
    #[verifier::opaque]
    pub open spec fn rooted(self, log: Seq<LogEntryView>) -> bool {
        forall|i: int|
            0 <= i < log.len() ==> self.led((#[trigger] log[i]).term) && agree(
                log,
                self.logs[log[i].term],
                i + 1,
            )
    }

    /// Whether every leader from after `term` to `last` was elected with the
    /// first `n` entries of the leader of `term`.
    pub open spec fn kept(self, term: u64, n: int, last: int) -> bool {
        forall|later: u64| #[trigger]
            self.led(later) && term < later <= last ==> agree(
                self.elected_with(later),
                self.logs[term],
                n,
            )
    }

    /// The nodes that have taken over the first `n` entries of the leader of
    /// `term`.
    pub open spec fn holders(self, term: u64, n: int) -> Set<NodeId> {
        Set::new(|id: NodeId| self.acked(id, term) >= n)
    }

    /// Whether those have taken over the first `n` entries of the leader of
    /// `term` who decide under the configuration it had when its log was `at`
    /// long. The last of those entries is of that term.
    pub open spec fn certified(self, genesis: Seq<NodeId>, term: u64, n: int, at: int) -> bool {
        &&& self.led(term)
        &&& 0 < n <= at <= self.logs[term].len()
        &&& self.logs[term][n - 1].term == term
        &&& decides(config_of(genesis, self.logs[term].take(at)), self.holders(term, n))
    }

    /// Whether the first `n` entries of `log` are certified by some leader of
    /// `term` or earlier.
    pub open spec fn committed(
        self,
        genesis: Seq<NodeId>,
        term: u64,
        n: int,
        log: Seq<LogEntryView>,
    ) -> bool {
        n <= 0 || exists|by: u64, upto: int, at: int| #[trigger]
            self.certified(genesis, by, upto, at) && by <= term && n <= upto && agree(
                log,
                self.logs[by],
                n,
            )
    }

    /// Whether some leader of `term` or earlier has certified `n` entries.
    pub open spec fn reached(self, genesis: Seq<NodeId>, term: u64, n: int) -> bool {
        n <= 0 || exists|by: u64, upto: int, at: int| #[trigger]
            self.certified(genesis, by, upto, at) && by <= term && n <= upto
    }

    /// Whether the leader of `term` could know `n` of its entries to be
    /// certified when its log was `limit` long.
    pub open spec fn known(self, genesis: Seq<NodeId>, term: u64, n: int, limit: int) -> bool {
        exists|by: u64, upto: int, at: int| #[trigger]
            self.certified(genesis, by, upto, at) && (by < term || (by == term && at <= limit))
                && n <= upto && agree(self.logs[term], self.logs[by], n)
    }

    /// What is recorded of an entry that a leader appended: a command is
    /// anything, a change of configuration begins a transition where there is
    /// none, or ends one that is certified.
    pub open spec fn change_recorded(self, genesis: Seq<NodeId>, term: u64, i: int) -> bool {
        let log = self.logs[term];
        let before = config_of(genesis, log.take(i));
        log[i].payload matches LogPayloadView::Configuration(config) ==> if before.is_joint() {
            config == stable(before.voters) && self.known(
                genesis,
                term,
                config_end(log.take(i)),
                i,
            )
        } else {
            config.old_voters == Some(before.voters)
        }
    }

    /// Whether a voter's log has whatever the leaders up to `last` kept of
    /// what it had taken over.
    pub open spec fn ballot_holds(self, id: NodeId, term: u64, last: int) -> bool {
        forall|before: u64, n: int|
            before < term && 0 < n <= self.acked(id, before) && #[trigger] self.kept(
                before,
                n,
                last,
            ) ==> agree(self.ballot(id, term), self.logs[before], n)
    }

    /// What is recorded of a leader: who elected it, and with what log.
    pub open spec fn leader_recorded(self, genesis: Seq<NodeId>, term: u64) -> bool {
        let leader = self.leaders[term];
        &&& self.campaigned(leader, term)
        &&& self.electors.contains_key(term)
        &&& decides(config_of(genesis, self.elected_with(term)), self.electors[term])
        &&& forall|id: NodeId| #[trigger]
            self.electors[term].contains(id) ==> self.voted(id, term) == Some(leader)
                && self.balloted(id, term) && self.ballot_holds(id, term, term - 1)
    }

    /// What is recorded of a leader's log: what it was elected with, and its
    /// own entries behind that.
    pub open spec fn log_recorded(self, genesis: Seq<NodeId>, term: u64) -> bool {
        let log = self.logs[term];
        let start = self.elected_with(term).len();
        &&& self.logs.contains_key(term)
        &&& agree(self.elected_with(term), log, start as int)
        &&& forall|i: int| start <= i < log.len() ==> (#[trigger] log[i]).term == term
        &&& forall|i: int|
            start <= i < log.len() ==> #[trigger] self.change_recorded(genesis, term, i)
        &&& self.rooted(log)
        &&& log.len() <= u64::MAX
        &&& self.acked(self.leaders[term], term) == log.len()
    }

    pub open spec fn campaign_recorded(self, id: NodeId, term: u64) -> bool {
        &&& self.voted(id, term) == Some(id)
        &&& self.rooted(self.campaign(id, term))
        &&& terms_within(self.campaign(id, term), term - 1)
    }

    /// What is recorded of a vote: a candidate whose log is at least as up to
    /// date, and a voter's log that still has whatever the leaders since kept.
    pub open spec fn ballot_recorded(self, id: NodeId, term: u64) -> bool {
        &&& self.rooted(self.ballot(id, term))
        &&& self.voted(id, term) is Some
        &&& self.campaigned(self.votes[(id, term)], term)
        &&& up_to_date(self.campaign(self.votes[(id, term)], term), self.ballot(id, term))
        &&& self.ballot_holds(id, term, term as int)
    }

    /// Whether the record is consistent in itself.
    pub open spec fn consistent(self, genesis: Seq<NodeId>) -> bool {
        &&& forall|term: u64| #[trigger]
            self.led(term) ==> self.leader_recorded(genesis, term) && self.log_recorded(
                genesis,
                term,
            )
        &&& forall|id: NodeId, term: u64| #[trigger]
            self.campaigned(id, term) ==> self.campaign_recorded(id, term)
        &&& forall|id: NodeId, term: u64| #[trigger]
            self.balloted(id, term) ==> self.ballot_recorded(id, term)
        &&& forall|id: NodeId, term: u64|
            (#[trigger] self.voted(id, term)) is Some ==> self.balloted(id, term)
        &&& forall|id: NodeId, term: u64|
            (#[trigger] self.acked(id, term)) > 0 ==> self.led(term) && self.acked(id, term)
                <= self.logs[term].len()
    }

    /// Whether `next` records all of this, and perhaps more.
    pub open spec fn grows_to(self, next: Record) -> bool {
        &&& forall|id: NodeId, term: u64|
            (#[trigger] self.voted(id, term)) is Some ==> next.voted(id, term) == self.voted(
                id,
                term,
            )
        &&& forall|id: NodeId, term: u64| #[trigger]
            self.campaigned(id, term) ==> next.campaigned(id, term) && next.campaign(id, term)
                == self.campaign(id, term)
        &&& forall|id: NodeId, term: u64| #[trigger]
            self.balloted(id, term) ==> next.balloted(id, term) && next.ballot(id, term)
                == self.ballot(id, term)
        &&& forall|term: u64| #[trigger]
            self.led(term) ==> {
                &&& next.led(term)
                &&& next.leaders[term] == self.leaders[term]
                &&& next.electors[term] == self.electors[term]
                &&& agree(self.logs[term], next.logs[term], self.logs[term].len() as int)
            }
        &&& forall|id: NodeId, term: u64|
            (#[trigger] self.acked(id, term)) <= next.acked(id, term)
    }

    /// Whether what `next` adds is the doing of `id` alone: its votes, its
    /// elections, its entries, its snapshot and what it has taken over.
    pub open spec fn adds_only(self, next: Record, id: NodeId) -> bool {
        &&& forall|other: NodeId, term: u64|
            other != id ==> (#[trigger] next.voted(other, term)) == self.voted(other, term)
        &&& forall|other: NodeId, term: u64|
            other != id ==> (#[trigger] next.acked(other, term)) == self.acked(other, term)
        &&& forall|other: NodeId|
            other != id ==> (#[trigger] next.base(other)) == self.base(other)
        &&& forall|term: u64| #[trigger]
            next.led(term) && next.leaders[term] != id ==> self.led(term) && next.logs[term]
                == self.logs[term]
    }

    /// Whether no leader has appended anything between this and `next`.
    pub open spec fn adds_no_entry(self, next: Record) -> bool {
        forall|term: u64| #[trigger]
            next.led(term) ==> if self.led(term) {
                next.logs[term] == self.logs[term] && next.elected_with(term)
                    == self.elected_with(term)
            } else {
                next.logs[term] == next.elected_with(term)
            }
    }
}

/// Whether a node knows the configuration that its log puts in force, or does
/// not know of any.
pub open spec fn knows(genesis: Seq<NodeId>, log: Seq<LogEntryView>, config: ClusterConfigView) -> bool {
    config == config_of(genesis, log) || config == stable(Seq::empty())
}

/// Whether a node's snapshot is of what it is recorded to cover.
pub open spec fn snapshot_matches(genesis: Seq<NodeId>, r: Record, s: NodeState) -> bool {
    &&& s.wf()
    &&& s.boundary() == r.base(s.id).len()
    &&& s.snapshot.last_included_term == last_term(r.base(s.id))
    &&& knows(genesis, r.base(s.id), s.snapshot_config)
}

/// Whether a node's vote is the one recorded, and it has cast none in a later
/// term.
pub open spec fn votes_match(r: Record, s: NodeState) -> bool {
    &&& s.voted_for == r.voted(s.id, s.current_term)
    &&& forall|term: u64| term > s.current_term ==> (#[trigger] r.voted(s.id, term)) is None
}

/// Whether a candidate campaigns with its log, and counts only votes cast.
pub open spec fn candidacy_matches(genesis: Seq<NodeId>, r: Record, s: NodeState) -> bool {
    s.role == Role::Candidate ==> {
        &&& s.config() == config_of(genesis, r.full(s))
        &&& r.campaigned(s.id, s.current_term)
        &&& r.campaign(s.id, s.current_term) == r.full(s)
        &&& s.votes_granted.contains(s.id)
        &&& forall|id: NodeId| #[trigger]
            s.votes_granted.contains(id) ==> r.voted(id, s.current_term) == Some(s.id)
        &&& r.led(s.current_term) ==> r.leaders[s.current_term] != s.id
    }
}

/// Whether a leader is the one recorded, with its log, and credits no one with
/// more than they have taken over or is certified.
pub open spec fn leadership_matches(genesis: Seq<NodeId>, r: Record, s: NodeState) -> bool {
    s.role == Role::Leader ==> {
        &&& s.config() == config_of(genesis, r.full(s))
        &&& r.led(s.current_term)
        &&& r.leaders[s.current_term] == s.id
        &&& r.full(s) == r.logs[s.current_term]
        &&& forall|id: NodeId| #[trigger]
            s.match_index.contains_key(id) ==> s.match_index[id] <= r.full(s).len() && (
            s.match_index[id] <= r.acked(id, s.current_term) || r.reached(
                genesis,
                s.current_term,
                s.match_index[id] as int,
            ))
        &&& forall|id: NodeId| #[trigger]
            s.next_index.contains_key(id) ==> 1 <= s.next_index[id] <= r.full(s).len() + 1
    }
}

/// Whether a node's log stems from leaders up to its term.
pub open spec fn log_matches(r: Record, s: NodeState) -> bool {
    r.rooted(r.full(s)) && terms_within(r.full(s), s.current_term as int)
}

/// Whether a node still has what it took over from a leader, as far as the
/// leaders since have kept it.
pub open spec fn acks_match(r: Record, s: NodeState) -> bool {
    &&& forall|term: u64| (#[trigger] r.acked(s.id, term)) > 0 ==> term <= s.current_term
    &&& forall|term: u64, n: int|
        0 < n <= r.acked(s.id, term) && #[trigger] r.kept(term, n, s.current_term as int) ==> agree(
            r.full(s),
            r.logs[term],
            n,
        )
}

/// Whether whatever a node has committed is certified.
pub open spec fn commits_match(genesis: Seq<NodeId>, r: Record, s: NodeState) -> bool {
    &&& s.commit_index <= r.full(s).len()
    &&& r.committed(genesis, s.current_term, s.commit_index as int, r.full(s))
}

/// Whether a node is as recorded.
pub open spec fn node_matches(genesis: Seq<NodeId>, r: Record, s: NodeState) -> bool {
    &&& snapshot_matches(genesis, r, s)
    &&& votes_match(r, s)
    &&& candidacy_matches(genesis, r, s)
    &&& leadership_matches(genesis, r, s)
    &&& log_matches(r, s)
    &&& acks_match(r, s)
    &&& commits_match(genesis, r, s)
}

/// Whether a vote request is that of a recorded campaign.
pub open spec fn request_matches(r: Record, from: NodeId, request: RequestVote) -> bool {
    &&& request.candidate_id == from
    &&& r.campaigned(from, request.term)
    &&& request.last_log_index == r.campaign(from, request.term).len()
    &&& request.last_log_term == last_term(r.campaign(from, request.term))
}

/// Whether entries sent are those of the leader of their term, from a known
/// point on, with a commit index that they reach.
pub open spec fn entries_match(
    genesis: Seq<NodeId>,
    r: Record,
    from: NodeId,
    request: AppendEntriesView,
) -> bool {
    let log = r.logs[request.term];
    let start = request.prev_log_index as int;
    let end = start + request.entries.len();
    &&& request.leader_id == from
    &&& r.led(request.term)
    &&& r.leaders[request.term] == from
    &&& end <= log.len()
    &&& end <= u64::MAX
    &&& forall|k: int|
        0 <= k < request.entries.len() ==> (#[trigger] request.entries[k]) == log[start + k]
    &&& start > 0 ==> request.prev_log_term == log[start - 1].term
    &&& request.leader_commit <= end
    &&& r.committed(genesis, request.term, request.leader_commit as int, log)
}

/// Whether a snapshot sent is of what the leader of its term has committed.
pub open spec fn transfer_matches(
    genesis: Seq<NodeId>,
    r: Record,
    from: NodeId,
    request: InstallSnapshotView,
) -> bool {
    let log = r.logs[request.term];
    let end = request.last_included_index as int;
    &&& request.leader_id == from
    &&& r.led(request.term)
    &&& r.leaders[request.term] == from
    &&& 0 < end <= log.len()
    &&& request.last_included_term == log[end - 1].term
    &&& r.committed(genesis, request.term, end, log)
    &&& knows(genesis, log.take(end), request.config)
}

/// Whether a message says nothing but what is recorded.
pub open spec fn message_matches(
    genesis: Seq<NodeId>,
    r: Record,
    from: NodeId,
    to: NodeId,
    message: MessageView,
) -> bool {
    match message {
        MessageView::RequestVote(request) => request_matches(r, from, request),
        MessageView::RequestVoteResponse(response) => response.granted ==> r.voted(
            from,
            response.term,
        ) == Some(to),
        MessageView::AppendEntries(request) => from != to && entries_match(
            genesis,
            r,
            from,
            request,
        ),
        MessageView::AppendEntriesResponse(response) => from != to && (response.success
            ==> response.match_index <= r.acked(from, response.term) && r.led(response.term)),
        MessageView::InstallSnapshot(request) => from != to && transfer_matches(
            genesis,
            r,
            from,
            request,
        ),
        MessageView::InstallSnapshotResponse(response) => from != to && (
        response.last_included_index <= r.acked(from, response.term) || r.reached(
            genesis,
            response.term,
            response.last_included_index as int,
        )),
    }
}

} // verus!
