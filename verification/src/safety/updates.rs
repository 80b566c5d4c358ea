//! The ways the record grows, and that it stays consistent as it does.

use vstd::prelude::*;

use crate::raft::model;
use crate::raft::model::NodeState;
use crate::raft::types::{LogEntryView, LogPayloadView, NodeId, Role};
use crate::safety::facts;
use crate::safety::growth;
use crate::safety::record;
use crate::safety::record::Record;

verus! {

impl Record {
    /// Node `id` votes for `candidate`.
    pub open spec fn with_vote(
        self,
        id: NodeId,
        term: u64,
        candidate: NodeId,
        log: Seq<LogEntryView>,
    ) -> Record {
        Record {
            votes: self.votes.insert((id, term), candidate),
            ballots: self.ballots.insert((id, term), log),
            ..self
        }
    }

    /// Node `id` campaigns, with its own vote.
    pub open spec fn with_campaign(self, id: NodeId, term: u64, log: Seq<LogEntryView>) -> Record {
        Record {
            votes: self.votes.insert((id, term), id),
            campaigns: self.campaigns.insert((id, term), log),
            ballots: self.ballots.insert((id, term), log),
            ..self
        }
    }

    /// Node `id` is elected by `electors`.
    pub open spec fn with_leader(
        self,
        id: NodeId,
        term: u64,
        electors: Set<NodeId>,
        log: Seq<LogEntryView>,
    ) -> Record {
        Record {
            leaders: self.leaders.insert(term, id),
            electors: self.electors.insert(term, electors),
            logs: self.logs.insert(term, log),
            acks: self.acks.insert((id, term), log.len()),
            ..self
        }
    }

    /// The leader of `term` appends an entry.
    pub open spec fn with_entry(self, term: u64, entry: LogEntryView) -> Record {
        Record {
            logs: self.logs.insert(term, self.logs[term].push(entry)),
            acks: self.acks.insert((self.leaders[term], term), self.logs[term].len() + 1),
            ..self
        }
    }

    /// Leader `s` ends the transition it is in.
    pub open spec fn with_end(self, s: NodeState) -> Record {
        self.with_entry(
            s.current_term,
            LogEntryView {
                term: s.current_term,
                payload: LogPayloadView::Configuration(s.settled_config()),
            },
        )
    }

    /// Node `id` has taken over the first `n` entries of the leader of `term`.
    pub open spec fn with_ack(self, id: NodeId, term: u64, n: nat) -> Record {
        Record {
            acks: self.acks.insert(
                (id, term),
                if n > self.acked(id, term) {
                    n
                } else {
                    self.acked(id, term)
                },
            ),
            ..self
        }
    }

    /// The snapshot of node `id` covers `log`.
    pub open spec fn with_base(self, id: NodeId, log: Seq<LogEntryView>) -> Record {
        Record { bases: self.bases.insert(id, log), ..self }
    }
}

/// A consistent record stays so if whatever is new in it is as it must be
/// recorded.
proof fn lemma_consistent(genesis: Seq<NodeId>, r: Record, next: Record)
    requires
        r.consistent(genesis),
        r.grows_to(next),
        forall|id: NodeId, term: u64, before: u64| #[trigger]
            r.balloted(id, term) && before < term ==> #[trigger] next.acked(id, before) == r.acked(
                id,
                before,
            ),
        forall|term: u64| #[trigger]
            next.led(term) ==> if r.led(term) {
                &&& next.electors.contains_key(term)
                &&& next.logs.contains_key(term)
                &&& next.log_recorded(genesis, term) || (next.logs[term] == r.logs[term]
                    && next.acked(r.leaders[term], term) == r.acked(r.leaders[term], term))
            } else {
                next.leader_recorded(genesis, term) && next.log_recorded(genesis, term)
            },
        forall|id: NodeId, term: u64| #[trigger]
            next.campaigned(id, term) ==> r.campaigned(id, term) || next.campaign_recorded(
                id,
                term,
            ),
        forall|id: NodeId, term: u64| #[trigger]
            next.balloted(id, term) ==> r.balloted(id, term) || next.ballot_recorded(id, term),
        forall|id: NodeId, term: u64|
            (#[trigger] next.voted(id, term)) is Some ==> r.voted(id, term) is Some
                || next.balloted(id, term),
        forall|id: NodeId, term: u64|
            (#[trigger] next.acked(id, term)) > 0 ==> next.acked(id, term) == r.acked(id, term) || (
            next.led(term) && next.acked(id, term) <= next.logs[term].len()),
    ensures
        next.consistent(genesis),
{
    assert forall|term: u64| #[trigger] r.led(term) implies next.electors.contains_key(term) by {
        assert(next.led(term));
    }
    growth::lemma_stays(genesis, r, next);
    assert forall|term: u64| #[trigger] next.led(term) implies next.leader_recorded(genesis, term)
        && next.log_recorded(genesis, term) by {
        if r.led(term) && !next.log_recorded(genesis, term) {
            growth::lemma_log_stays(genesis, r, next, term);
        }
    }
    assert forall|id: NodeId, term: u64|
        (#[trigger] next.voted(id, term)) is Some implies next.balloted(id, term) by {
        if r.voted(id, term) is Some {
            assert(r.balloted(id, term));
        }
    }
    assert forall|id: NodeId, term: u64| (#[trigger] next.acked(id, term)) > 0 implies next.led(
        term,
    ) && next.acked(id, term) <= next.logs[term].len() by {
        if next.acked(id, term) == r.acked(id, term) {
            assert(r.acked(id, term) > 0);
            assert(r.led(term));
        }
    }
}

/// A ballot just cast is as it must be recorded.
proof fn lemma_new_ballot(genesis: Seq<NodeId>, r: Record, next: Record, s: NodeState)
    requires
        r.consistent(genesis),
        r.grows_to(next),
        record::log_matches(r, s),
        record::acks_match(r, s),
        next.leaders == r.leaders,
        next.logs == r.logs,
        next.acks == r.acks,
        next.voted(s.id, s.current_term) is Some,
        next.campaigned(next.votes[(s.id, s.current_term)], s.current_term),
        record::up_to_date(
            next.campaign(next.votes[(s.id, s.current_term)], s.current_term),
            r.full(s),
        ),
        next.ballots == r.ballots.insert((s.id, s.current_term), r.full(s)),
    ensures
        next.ballot_recorded(s.id, s.current_term),
{
    let term = s.current_term;
    growth::lemma_rooted_grows(r, next, r.full(s));
    assert forall|before: u64, n: int|
        before < term && 0 < n <= next.acked(s.id, before) && #[trigger] next.kept(
            before,
            n,
            term as int,
        ) implies record::agree(next.ballot(s.id, term), next.logs[before], n) by {
        assert(r.acked(s.id, before) > 0);
        assert(r.led(before));
        growth::lemma_kept_before(genesis, r, next, before, n, term as int);
    }
}

/// A node votes for a candidate whose log is at least as up to date.
pub proof fn lemma_vote(genesis: Seq<NodeId>, r: Record, s: NodeState, candidate: NodeId)
    requires
        r.consistent(genesis),
        record::log_matches(r, s),
        record::acks_match(r, s),
        r.voted(s.id, s.current_term) is None,
        r.campaigned(candidate, s.current_term),
        record::up_to_date(r.campaign(candidate, s.current_term), r.full(s)),
    ensures
        ({
            let next = r.with_vote(s.id, s.current_term, candidate, r.full(s));
            next.consistent(genesis) && r.grows_to(next) && r.adds_only(next, s.id)
        }),
{
    let term = s.current_term;
    let next = r.with_vote(s.id, term, candidate, r.full(s));
    if r.balloted(s.id, term) {
        assert(r.ballot_recorded(s.id, term));
    }
    assert(r.grows_to(next)) by {
        assert forall|t: u64| #[trigger] r.led(t) implies next.led(t) by {}
    }
    assert forall|t: u64| #[trigger] next.led(t) implies r.led(t) && r.leader_recorded(genesis, t)
        && r.log_recorded(genesis, t) by {
        assert(r.led(t));
    }
    lemma_new_ballot(genesis, r, next, s);
    assert forall|id: NodeId, t: u64| (#[trigger] next.acked(id, t)) == r.acked(id, t) by {}
    assert forall|id: NodeId, t: u64| #[trigger] next.campaigned(id, t) implies r.campaigned(
        id,
        t,
    ) by {}
    assert forall|id: NodeId, t: u64| #[trigger] next.balloted(id, t) implies r.balloted(id, t)
        || next.ballot_recorded(id, t) by {}
    assert forall|id: NodeId, t: u64| (#[trigger] next.voted(id, t)) is Some implies r.voted(
        id,
        t,
    ) is Some || next.balloted(id, t) by {}
    lemma_consistent(genesis, r, next);
}

/// A node campaigns in a term it has just entered.
pub proof fn lemma_campaign(genesis: Seq<NodeId>, r: Record, s: NodeState)
    requires
        r.consistent(genesis),
        record::votes_match(r, s),
        record::log_matches(r, s),
        record::acks_match(r, s),
        s.voted_for is None,
        record::terms_within(r.full(s), s.current_term - 1),
    ensures
        ({
            let next = r.with_campaign(s.id, s.current_term, r.full(s));
            next.consistent(genesis) && r.grows_to(next) && r.adds_only(next, s.id)
        }),
{
    let term = s.current_term;
    let next = r.with_campaign(s.id, term, r.full(s));
    assert(r.voted(s.id, term) is None);
    if r.campaigned(s.id, term) {
        assert(r.campaign_recorded(s.id, term));
    }
    if r.balloted(s.id, term) {
        assert(r.ballot_recorded(s.id, term));
    }
    assert(r.grows_to(next)) by {
        assert forall|t: u64| #[trigger] r.led(t) implies next.led(t) by {}
    }
    assert forall|t: u64| #[trigger] next.led(t) implies r.led(t) && r.leader_recorded(genesis, t)
        && r.log_recorded(genesis, t) by {
        assert(r.led(t));
    }
    lemma_new_ballot(genesis, r, next, s);
    growth::lemma_rooted_grows(r, next, r.full(s));
    assert forall|id: NodeId, t: u64| (#[trigger] next.acked(id, t)) == r.acked(id, t) by {}
    assert forall|id: NodeId, t: u64| #[trigger] next.campaigned(id, t) implies r.campaigned(id, t)
        || next.campaign_recorded(id, t) by {}
    assert forall|id: NodeId, t: u64| #[trigger] next.balloted(id, t) implies r.balloted(id, t)
        || next.ballot_recorded(id, t) by {}
    assert forall|id: NodeId, t: u64| (#[trigger] next.voted(id, t)) is Some implies r.voted(
        id,
        t,
    ) is Some || next.balloted(id, t) by {}
    lemma_consistent(genesis, r, next);
}

/// Counting the members of a set among the voters counts each at least once.
proof fn lemma_counted_once(voters: Seq<NodeId>, set: Set<NodeId>)
    requires
        set.finite(),
    ensures
        set.intersect(voters.to_set()).len() <= model::count_in(voters, set),
    decreases voters.len(),
{
    if voters.len() == 0 {
        assert(set.intersect(voters.to_set()) =~= Set::empty());
    } else {
        let rest = voters.drop_last();
        let last = voters.last();
        lemma_counted_once(rest, set);
        let all = set.intersect(voters.to_set());
        let some = set.intersect(rest.to_set());
        assert forall|id: NodeId| all.contains(id) implies some.insert(last).contains(id) by {
            let i = choose|i: int| 0 <= i < voters.len() && voters[i] == id;
            if i < rest.len() {
                assert(rest[i] == id);
            }
        }
        if set.contains(last) {
            vstd::set_lib::lemma_len_subset(all, some.insert(last));
        } else {
            assert(all.subset_of(some));
            vstd::set_lib::lemma_len_subset(all, some);
        }
    }
}

/// A candidate with a quorum has been elected.
pub proof fn lemma_quorum_decides(s: NodeState)
    requires
        s.votes_granted.finite(),
        s.has_quorum(),
    ensures
        record::decides(s.config(), s.votes_granted),
{
    lemma_counted_once(s.config().voters, s.votes_granted);
}

/// Election safety: a candidate that wins is the first to win its term.
pub proof fn elections_have_one_winner(genesis: Seq<NodeId>, r: Record, s: NodeState)
    requires
        r.consistent(genesis),
        record::candidacy_matches(genesis, r, s),
        s.role == Role::Candidate,
        record::decides(s.config(), s.votes_granted),
    ensures
        !r.led(s.current_term),
{
    let term = s.current_term;
    if r.led(term) {
        assert(facts::wins(genesis, r, s.id, term, s.votes_granted, term as int)) by {
            assert forall|voter: NodeId| #[trigger]
                s.votes_granted.contains(voter) implies r.voted(voter, term) == Some(s.id)
                && r.balloted(voter, term) && r.ballot_holds(voter, term, term as int) by {
                assert(r.voted(voter, term) == Some(s.id));
                assert(r.balloted(voter, term));
                assert(r.ballot_recorded(voter, term));
            }
        }
        facts::terms_have_one_winner(genesis, r, s.id, term, s.votes_granted);
    }
}

/// As long as a term has no leader, what its voters had does not depend on
/// one.
proof fn lemma_firm_ballot(r: Record, id: NodeId, term: u64)
    requires
        r.ballot_holds(id, term, term as int),
        !r.led(term),
    ensures
        r.ballot_holds(id, term, term - 1),
{
    assert forall|before: u64, n: int|
        before < term && 0 < n <= r.acked(id, before) && #[trigger] r.kept(
            before,
            n,
            term - 1,
        ) implies record::agree(r.ballot(id, term), r.logs[before], n) by {
        assert(r.kept(before, n, term as int)) by {
            assert forall|later: u64| #[trigger] r.led(later) && before < later
                <= term implies record::agree(r.elected_with(later), r.logs[before], n) by {
                assert(later <= term - 1);
            }
        }
    }
}

/// A leader just elected is as it must be recorded.
proof fn lemma_new_leader(genesis: Seq<NodeId>, r: Record, next: Record, s: NodeState)
    requires
        r.consistent(genesis),
        record::candidacy_matches(genesis, r, s),
        record::log_matches(r, s),
        s.role == Role::Candidate,
        record::decides(s.config(), s.votes_granted),
        !r.led(s.current_term),
        next == r.with_leader(s.id, s.current_term, s.votes_granted, r.full(s)),
        r.grows_to(next),
        r.full(s).len() <= u64::MAX,
        forall|id: NodeId, before: u64|
            r.balloted(id, s.current_term) && before < s.current_term ==> (#[trigger] next.acked(
                id,
                before,
            )) == r.acked(id, before),
    ensures
        next.leader_recorded(genesis, s.current_term),
        next.log_recorded(genesis, s.current_term),
{
    let term = s.current_term;
    let log = r.full(s);
    growth::lemma_rooted_grows(r, next, log);
    assert(r.campaigned(s.id, term));
    assert(next.campaigned(s.id, term));
    assert(next.elected_with(term) == log);
    assert(next.log_recorded(genesis, term));
    assert forall|id: NodeId| #[trigger] next.electors[term].contains(id) implies next.voted(
        id,
        term,
    ) == Some(s.id) && next.balloted(id, term) && next.ballot_holds(id, term, term - 1) by {
        assert(s.votes_granted.contains(id));
        assert(r.voted(id, term) == Some(s.id));
        assert(r.balloted(id, term));
        assert(r.ballot_recorded(id, term));
        lemma_firm_ballot(r, id, term);
        growth::lemma_ballot_holds_grows(genesis, r, next, id, term, term - 1);
    }
}

/// A candidate with a quorum becomes leader.
pub proof fn lemma_elect(genesis: Seq<NodeId>, r: Record, s: NodeState)
    requires
        r.consistent(genesis),
        record::node_matches(genesis, r, s),
        s.role == Role::Candidate,
        record::decides(s.config(), s.votes_granted),
    ensures
        !r.led(s.current_term),
        ({
            let next = r.with_leader(s.id, s.current_term, s.votes_granted, r.full(s));
            next.consistent(genesis) && r.grows_to(next) && r.adds_only(next, s.id)
        }),
{
    let term = s.current_term;
    let next = r.with_leader(s.id, term, s.votes_granted, r.full(s));
    elections_have_one_winner(genesis, r, s);
    assert forall|id: NodeId| (#[trigger] r.acked(id, term)) == 0 by {}
    assert(r.grows_to(next)) by {
        assert forall|id: NodeId, t: u64| (#[trigger] r.acked(id, t)) <= next.acked(id, t) by {}
        assert forall|t: u64| #[trigger] r.led(t) implies next.led(t) by {}
    }
    assert(r.adds_only(next, s.id));
    assert forall|id: NodeId, t: u64, before: u64| #[trigger]
        r.balloted(id, t) && before < t implies #[trigger] next.acked(id, before) == r.acked(
        id,
        before,
    ) by {
        assert(r.ballot_recorded(id, t));
        if id == s.id && before == term {
            assert(r.voted(s.id, t) is None);
        }
    }
    lemma_new_leader(genesis, r, next, s);
    assert forall|t: u64| #[trigger] next.led(t) && t != term implies r.led(t)
        && r.leader_recorded(genesis, t) && r.log_recorded(genesis, t) by {
        assert(r.led(t));
    }
    lemma_consistent(genesis, r, next);
}

/// Whether a leader may append an entry: a command, the beginning of a
/// transition where there is none, or the end of one that is committed.
pub open spec fn may_append(s: NodeState, entry: LogEntryView) -> bool {
    entry.term == s.current_term && (entry.payload matches LogPayloadView::Configuration(config)
        ==> if s.config().is_joint() {
        config == s.settled_config() && s.commit_index >= s.config_index()
    } else {
        config.old_voters == Some(s.config().voters)
    })
}

/// The configuration in force was set no later than a node takes it to be.
proof fn lemma_config_end(genesis: Seq<NodeId>, r: Record, s: NodeState)
    requires
        record::snapshot_matches(genesis, r, s),
    ensures
        record::config_end(r.full(s)) <= s.config_index(),
        s.config() == record::config_of(genesis, r.full(s)) || s.config() == record::stable(
            Seq::empty(),
        ),
{
    let base = r.base(s.id);
    model::lemma_latest_concat(base, s.log);
    model::lemma_latest_bounds(base);
}

/// A node's configuration is the one its log puts in force, unless it knows of
/// none.
pub proof fn lemma_knows(genesis: Seq<NodeId>, r: Record, s: NodeState)
    requires
        record::snapshot_matches(genesis, r, s),
    ensures
        record::knows(genesis, r.full(s), s.config()),
{
    lemma_config_end(genesis, r, s);
}

/// An entry that a leader may append can be recorded.
proof fn lemma_new_entry(genesis: Seq<NodeId>, r: Record, s: NodeState, entry: LogEntryView)
    requires
        r.consistent(genesis),
        record::node_matches(genesis, r, s),
        s.role == Role::Leader,
        may_append(s, entry),
        r.grows_to(r.with_entry(s.current_term, entry)),
    ensures
        r.with_entry(s.current_term, entry).change_recorded(
            genesis,
            s.current_term,
            r.logs[s.current_term].len() as int,
        ),
{
    let term = s.current_term;
    let next = r.with_entry(term, entry);
    let log = r.logs[term];
    let i = log.len() as int;
    assert(next.logs[term].take(i) =~= log);
    assert(next.logs[term][i] == entry);
    if entry.payload is Configuration && s.config().is_joint() {
        lemma_config_end(genesis, r, s);
        let end = record::config_end(log);
        let n = s.commit_index as int;
        model::lemma_latest_bounds(log);
        assert(0 < end <= n);
        let (by, upto, at) = choose|by: u64, upto: int, at: int| #[trigger]
            r.certified(genesis, by, upto, at) && by <= term && n <= upto && record::agree(
                log,
                r.logs[by],
                n,
            );
        growth::lemma_certified_grows(genesis, r, next, by, upto, at);
        assert(record::agree(next.logs[term], next.logs[by], end)) by {
            assert forall|j: int| 0 <= j < end implies next.logs[term][j] == next.logs[by][j] by {
                assert(log[j] == r.logs[by][j]);
                assert(r.logs[by][j] == next.logs[by][j]);
            }
        }
        assert(next.known(genesis, term, end, i));
    }
}

/// A leader appends an entry.
pub proof fn lemma_entry(genesis: Seq<NodeId>, r: Record, s: NodeState, entry: LogEntryView)
    requires
        r.consistent(genesis),
        record::node_matches(genesis, r, s),
        s.role == Role::Leader,
        s.can_extend(),
        may_append(s, entry),
    ensures
        ({
            let next = r.with_entry(s.current_term, entry);
            next.consistent(genesis) && r.grows_to(next) && r.adds_only(next, s.id)
        }),
{
    let term = s.current_term;
    let next = r.with_entry(term, entry);
    assert(r.led(term) && r.leaders[term] == s.id);
    assert(r.leader_recorded(genesis, term) && r.log_recorded(genesis, term));
    assert(r.grows_to(next)) by {
        assert forall|id: NodeId, t: u64| (#[trigger] r.acked(id, t)) <= next.acked(id, t) by {}
        assert forall|t: u64| #[trigger] r.led(t) implies next.led(t) by {}
    }
    assert(r.adds_only(next, s.id)) by {
        assert forall|t: u64| #[trigger] next.led(t) && next.leaders[t] != s.id implies r.led(t)
            && next.logs[t] == r.logs[t] by {
            assert(t != term);
        }
    }
    assert forall|id: NodeId, t: u64, before: u64| #[trigger]
        r.balloted(id, t) && before < t implies #[trigger] next.acked(id, before) == r.acked(
        id,
        before,
    ) by {
        assert(r.ballot_recorded(id, t));
        if id == s.id && before == term {
            assert(r.voted(s.id, t) is None);
        }
    }
    assert(next.log_recorded(genesis, term)) by {
        let log = r.logs[term];
        let grown = next.logs[term];
        assert(next.elected_with(term) == r.elected_with(term)) by {
            assert(r.campaigned(s.id, term));
        }
        growth::lemma_rooted_grows(r, next, log);
        assert(next.rooted(grown)) by {
            reveal(Record::rooted);
            assert forall|i: int| 0 <= i < grown.len() implies next.led((#[trigger] grown[i]).term)
                && record::agree(grown, next.logs[grown[i].term], i + 1) by {
                if i < log.len() {
                    assert(grown[i] == log[i]);
                    assert(record::agree(log, next.logs[log[i].term], i + 1));
                }
            }
        }
        assert forall|i: int|
            next.elected_with(term).len() <= i < grown.len() implies #[trigger] next.change_recorded(
            genesis,
            term,
            i,
        ) by {
            if i < log.len() {
                assert(r.change_recorded(genesis, term, i));
                growth::lemma_change_grows(genesis, r, next, term, i);
            } else {
                lemma_new_entry(genesis, r, s, entry);
            }
        }
        assert(grown.len() == s.last_log_index() + 1);
    }
    assert forall|t: u64| #[trigger] next.led(t) implies r.led(t) && r.leader_recorded(genesis, t)
        && r.log_recorded(genesis, t) by {
        assert(r.led(t));
    }
    lemma_consistent(genesis, r, next);
}

/// A node has taken over entries of the leader of its term.
pub proof fn lemma_ack(genesis: Seq<NodeId>, r: Record, s: NodeState, n: nat)
    requires
        r.consistent(genesis),
        record::votes_match(r, s),
        r.led(s.current_term),
        r.leaders[s.current_term] != s.id,
        n <= r.logs[s.current_term].len(),
    ensures
        ({
            let next = r.with_ack(s.id, s.current_term, n);
            next.consistent(genesis) && r.grows_to(next) && r.adds_only(next, s.id)
        }),
{
    let term = s.current_term;
    let next = r.with_ack(s.id, term, n);
    assert(r.grows_to(next)) by {
        assert forall|id: NodeId, t: u64| (#[trigger] r.acked(id, t)) <= next.acked(id, t) by {}
        assert forall|t: u64| #[trigger] r.led(t) implies next.led(t) by {}
    }
    assert forall|id: NodeId, t: u64, before: u64| #[trigger]
        r.balloted(id, t) && before < t implies #[trigger] next.acked(id, before) == r.acked(
        id,
        before,
    ) by {
        assert(r.ballot_recorded(id, t));
        if id == s.id && before == term {
            assert(r.voted(s.id, t) is None);
        }
    }
    assert forall|t: u64| #[trigger] next.led(t) implies r.led(t) && r.leader_recorded(genesis, t)
        && r.log_recorded(genesis, t) by {
        assert(r.led(t));
    }
    lemma_consistent(genesis, r, next);
}

/// A node's snapshot covers something else.
pub proof fn lemma_base(genesis: Seq<NodeId>, r: Record, id: NodeId, log: Seq<LogEntryView>)
    requires
        r.consistent(genesis),
    ensures
        r.with_base(id, log).consistent(genesis),
        r.grows_to(r.with_base(id, log)),
        r.adds_only(r.with_base(id, log), id),
        r.adds_no_entry(r.with_base(id, log)),
{
    let next = r.with_base(id, log);
    assert(r.grows_to(next)) by {
        assert forall|t: u64| #[trigger] r.led(t) implies next.led(t) by {}
    }
    assert forall|t: u64| #[trigger] next.led(t) implies r.led(t) && r.leader_recorded(genesis, t)
        && r.log_recorded(genesis, t) by {
        assert(r.led(t));
    }
    assert forall|who: NodeId, t: u64| (#[trigger] next.acked(who, t)) == r.acked(who, t) by {}
    lemma_consistent(genesis, r, next);
}

} // verus!
