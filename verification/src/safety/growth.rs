//! What stays so as the record grows.

use vstd::prelude::*;

use crate::raft::model;
use crate::raft::model::NodeState;
use crate::raft::types::{LogEntryView, MessageView, NodeId, Role};
use crate::safety::facts;
use crate::safety::record;
use crate::safety::record::Record;

verus! {

/// Growing twice is growing.
pub proof fn lemma_grows(a: Record, b: Record, c: Record)
    requires
        a.grows_to(b),
        b.grows_to(c),
    ensures
        a.grows_to(c),
{
    assert forall|who: NodeId, term: u64| (#[trigger] a.voted(who, term)) is Some implies c.voted(
        who,
        term,
    ) == a.voted(who, term) by {
        assert(b.voted(who, term) is Some);
    }
    assert forall|who: NodeId, term: u64| #[trigger] a.campaigned(who, term) implies c.campaigned(
        who,
        term,
    ) && c.campaign(who, term) == a.campaign(who, term) by {
        assert(b.campaigned(who, term));
    }
    assert forall|who: NodeId, term: u64| #[trigger] a.balloted(who, term) implies c.balloted(
        who,
        term,
    ) && c.ballot(who, term) == a.ballot(who, term) by {
        assert(b.balloted(who, term));
    }
    assert forall|term: u64| #[trigger] a.led(term) implies {
        &&& c.led(term)
        &&& c.leaders[term] == a.leaders[term]
        &&& c.electors[term] == a.electors[term]
        &&& record::agree(a.logs[term], c.logs[term], a.logs[term].len() as int)
    } by {
        assert(b.led(term));
        assert forall|j: int| 0 <= j < a.logs[term].len() implies a.logs[term][j]
            == c.logs[term][j] by {
            assert(a.logs[term][j] == b.logs[term][j]);
            assert(b.logs[term][j] == c.logs[term][j]);
        }
    }
    assert forall|who: NodeId, term: u64| (#[trigger] a.acked(who, term)) <= c.acked(
        who,
        term,
    ) by {
        assert(a.acked(who, term) <= b.acked(who, term));
        assert(b.acked(who, term) <= c.acked(who, term));
    }
}

/// Growing twice by the doing of one node is growing by its doing.
pub proof fn lemma_grows_twice(a: Record, b: Record, c: Record, id: NodeId)
    requires
        a.grows_to(b),
        b.grows_to(c),
        a.adds_only(b, id),
        b.adds_only(c, id),
    ensures
        a.grows_to(c),
        a.adds_only(c, id),
{
    lemma_grows(a, b, c);
    assert forall|other: NodeId, term: u64| other != id implies (#[trigger] c.voted(other, term))
        == a.voted(other, term) by {
        assert(b.voted(other, term) == a.voted(other, term));
    }
    assert forall|other: NodeId, term: u64| other != id implies (#[trigger] c.acked(other, term))
        == a.acked(other, term) by {
        assert(b.acked(other, term) == a.acked(other, term));
    }
    assert forall|other: NodeId| other != id implies (#[trigger] c.base(other)) == a.base(
        other,
    ) by {
        assert(b.base(other) == a.base(other));
    }
    assert forall|term: u64| #[trigger] c.led(term) && c.leaders[term] != id implies a.led(term)
        && c.logs[term] == a.logs[term] by {
        assert(b.led(term));
    }
}

pub proof fn lemma_rooted_grows(r: Record, next: Record, log: Seq<LogEntryView>)
    requires
        r.grows_to(next),
        r.rooted(log),
    ensures
        next.rooted(log),
{
    reveal(Record::rooted);
    assert forall|i: int| 0 <= i < log.len() implies next.led((#[trigger] log[i]).term)
        && record::agree(log, next.logs[log[i].term], i + 1) by {
        let term = log[i].term;
        assert(r.led(term) && record::agree(log, r.logs[term], i + 1));
        assert forall|j: int| 0 <= j < i + 1 implies log[j] == next.logs[term][j] by {
            assert(log[j] == r.logs[term][j]);
        }
    }
}

/// What later leaders have kept, the earlier among them had kept.
pub proof fn lemma_kept_before(
    genesis: Seq<NodeId>,
    r: Record,
    next: Record,
    term: u64,
    n: int,
    last: int,
)
    requires
        r.consistent(genesis),
        r.grows_to(next),
        r.led(term),
        n <= r.logs[term].len(),
        next.kept(term, n, last),
    ensures
        r.kept(term, n, last),
{
    assert forall|later: u64| #[trigger] r.led(later) && term < later <= last implies record::agree(
        r.elected_with(later),
        r.logs[term],
        n,
    ) by {
        assert(r.leader_recorded(genesis, later));
        assert(next.led(later));
        assert(r.campaigned(r.leaders[later], later));
        assert(record::agree(next.elected_with(later), next.logs[term], n));
        assert forall|j: int| 0 <= j < n implies r.elected_with(later)[j] == r.logs[term][j] by {
            assert(next.elected_with(later)[j] == next.logs[term][j]);
            assert(r.logs[term][j] == next.logs[term][j]);
        }
    }
}

/// A larger set counts at least as many.
proof fn lemma_count_monotone(ids: Seq<NodeId>, a: Set<NodeId>, b: Set<NodeId>)
    requires
        a.subset_of(b),
    ensures
        model::count_in(ids, a) <= model::count_in(ids, b),
    decreases ids.len(),
{
    if ids.len() > 0 {
        lemma_count_monotone(ids.drop_last(), a, b);
    }
}

pub proof fn lemma_certified_grows(
    genesis: Seq<NodeId>,
    r: Record,
    next: Record,
    term: u64,
    n: int,
    at: int,
)
    requires
        r.grows_to(next),
        r.certified(genesis, term, n, at),
    ensures
        next.certified(genesis, term, n, at),
        record::agree(r.logs[term], next.logs[term], n),
{
    let before = r.holders(term, n);
    let after = next.holders(term, n);
    assert(r.led(term));
    assert(r.logs[term][n - 1] == next.logs[term][n - 1]);
    facts::lemma_same_config(genesis, r.logs[term], next.logs[term], at);
    assert forall|id: NodeId| before.contains(id) implies after.contains(id) by {
        assert(r.acked(id, term) <= next.acked(id, term));
    }
    let config = record::config_of(genesis, r.logs[term].take(at));
    lemma_count_monotone(config.voters, before, after);
    if config.old_voters is Some {
        lemma_count_monotone(config.old_voters->0, before, after);
    }
}

pub proof fn lemma_committed_grows(
    genesis: Seq<NodeId>,
    r: Record,
    next: Record,
    term: u64,
    n: int,
    log: Seq<LogEntryView>,
    later: u64,
)
    requires
        r.grows_to(next),
        r.committed(genesis, term, n, log),
        term <= later,
    ensures
        next.committed(genesis, later, n, log),
{
    if n > 0 {
        let (by, upto, at) = choose|by: u64, upto: int, at: int| #[trigger]
            r.certified(genesis, by, upto, at) && by <= term && n <= upto && record::agree(
                log,
                r.logs[by],
                n,
            );
        lemma_certified_grows(genesis, r, next, by, upto, at);
        assert forall|j: int| 0 <= j < n implies log[j] == next.logs[by][j] by {
            assert(log[j] == r.logs[by][j]);
            assert(r.logs[by][j] == next.logs[by][j]);
        }
        assert(next.certified(genesis, by, upto, at));
    }
}

pub proof fn lemma_reached_grows(
    genesis: Seq<NodeId>,
    r: Record,
    next: Record,
    term: u64,
    n: int,
)
    requires
        r.grows_to(next),
        r.reached(genesis, term, n),
    ensures
        next.reached(genesis, term, n),
{
    if n > 0 {
        let (by, upto, at) = choose|by: u64, upto: int, at: int| #[trigger]
            r.certified(genesis, by, upto, at) && by <= term && n <= upto;
        lemma_certified_grows(genesis, r, next, by, upto, at);
    }
}

/// What is committed in one log is committed in another that agrees with it.
pub proof fn lemma_committed_elsewhere(
    genesis: Seq<NodeId>,
    r: Record,
    term: u64,
    n: int,
    log: Seq<LogEntryView>,
    other: Seq<LogEntryView>,
)
    requires
        r.committed(genesis, term, n, log),
        n > 0 ==> record::agree(log, other, n),
    ensures
        r.committed(genesis, term, n, other),
{
    if n > 0 {
        let (by, upto, at) = choose|by: u64, upto: int, at: int| #[trigger]
            r.certified(genesis, by, upto, at) && by <= term && n <= upto && record::agree(
                log,
                r.logs[by],
                n,
            );
        assert(record::agree(other, r.logs[by], n)) by {
            assert forall|j: int| 0 <= j < n implies other[j] == r.logs[by][j] by {
                assert(log[j] == r.logs[by][j]);
            }
        }
    }
}

/// What is committed is committed in part.
pub proof fn lemma_committed_part(
    genesis: Seq<NodeId>,
    r: Record,
    term: u64,
    n: int,
    log: Seq<LogEntryView>,
    part: int,
)
    requires
        r.committed(genesis, term, n, log),
        part <= n,
    ensures
        r.committed(genesis, term, part, log),
        r.reached(genesis, term, part),
{
    if part > 0 {
        let (by, upto, at) = choose|by: u64, upto: int, at: int| #[trigger]
            r.certified(genesis, by, upto, at) && by <= term && n <= upto && record::agree(
                log,
                r.logs[by],
                n,
            );
        assert(record::agree(log, r.logs[by], part));
    }
}

/// What a leader could know to be certified, it still could.
proof fn lemma_known_grows(
    genesis: Seq<NodeId>,
    r: Record,
    next: Record,
    term: u64,
    n: int,
    limit: int,
)
    requires
        r.grows_to(next),
        r.led(term),
        r.known(genesis, term, n, limit),
    ensures
        next.known(genesis, term, n, limit),
{
    let (by, upto, at) = choose|by: u64, upto: int, at: int| #[trigger]
        r.certified(genesis, by, upto, at) && (by < term || (by == term && at <= limit)) && n
            <= upto && record::agree(r.logs[term], r.logs[by], n);
    lemma_certified_grows(genesis, r, next, by, upto, at);
    assert(record::agree(next.logs[term], next.logs[by], n)) by {
        assert forall|j: int| 0 <= j < n implies next.logs[term][j] == next.logs[by][j] by {
            assert(r.logs[term][j] == r.logs[by][j]);
            assert(r.logs[term][j] == next.logs[term][j]);
            assert(r.logs[by][j] == next.logs[by][j]);
        }
    }
}

/// A recorded change of configuration stays one.
pub proof fn lemma_change_grows(
    genesis: Seq<NodeId>,
    r: Record,
    next: Record,
    term: u64,
    i: int,
)
    requires
        r.grows_to(next),
        r.led(term),
        0 <= i < r.logs[term].len(),
        r.change_recorded(genesis, term, i),
    ensures
        next.change_recorded(genesis, term, i),
{
    assert(r.logs[term][i] == next.logs[term][i]);
    assert(record::agree(r.logs[term], next.logs[term], i));
    facts::lemma_same_config(genesis, r.logs[term], next.logs[term], i);
    let log = r.logs[term];
    let before = record::config_of(genesis, log.take(i));
    if log[i].payload is Configuration && before.is_joint() {
        lemma_known_grows(genesis, r, next, term, record::config_end(log.take(i)), i);
    }
}

/// A voter's log that had what was kept still has it.
pub proof fn lemma_ballot_holds_grows(
    genesis: Seq<NodeId>,
    r: Record,
    next: Record,
    id: NodeId,
    term: u64,
    last: int,
)
    requires
        r.consistent(genesis),
        r.grows_to(next),
        r.balloted(id, term),
        r.ballot_holds(id, term, last),
        forall|before: u64|
            before < term ==> (#[trigger] next.acked(id, before)) == r.acked(id, before),
    ensures
        next.ballot_holds(id, term, last),
{
    assert forall|before: u64, n: int|
        before < term && 0 < n <= next.acked(id, before) && #[trigger] next.kept(
            before,
            n,
            last,
        ) implies record::agree(next.ballot(id, term), next.logs[before], n) by {
        assert(next.acked(id, before) == r.acked(id, before));
        assert(r.acked(id, before) > 0);
        assert(r.led(before));
        lemma_kept_before(genesis, r, next, before, n, last);
        assert(record::agree(r.ballot(id, term), r.logs[before], n));
        assert forall|j: int| 0 <= j < n implies next.ballot(id, term)[j]
            == next.logs[before][j] by {
            assert(r.ballot(id, term)[j] == r.logs[before][j]);
            assert(r.logs[before][j] == next.logs[before][j]);
        }
    }
}

/// What was recorded of votes and campaigns stays so.
pub proof fn lemma_stays(genesis: Seq<NodeId>, r: Record, next: Record)
    requires
        r.consistent(genesis),
        r.grows_to(next),
        forall|id: NodeId, term: u64, before: u64| #[trigger]
            r.balloted(id, term) && before < term ==> #[trigger] next.acked(id, before) == r.acked(
                id,
                before,
            ),
        forall|term: u64| #[trigger] r.led(term) ==> next.electors.contains_key(term),
    ensures
        forall|term: u64| #[trigger] r.led(term) ==> next.leader_recorded(genesis, term),
        forall|id: NodeId, term: u64| #[trigger]
            r.campaigned(id, term) ==> next.campaign_recorded(id, term),
        forall|id: NodeId, term: u64| #[trigger]
            r.balloted(id, term) ==> next.ballot_recorded(id, term),
{
    assert forall|term: u64| #[trigger] r.led(term) implies next.leader_recorded(
        genesis,
        term,
    ) by {
        assert(r.leader_recorded(genesis, term));
        let leader = r.leaders[term];
        assert(r.campaigned(leader, term));
        assert(next.electors.contains_key(term));
        assert forall|id: NodeId| #[trigger] next.electors[term].contains(id) implies next.voted(
            id,
            term,
        ) == Some(leader) && next.balloted(id, term) && next.ballot_holds(id, term, term - 1) by {
            assert(r.electors[term].contains(id));
            assert(r.voted(id, term) is Some);
            assert(r.balloted(id, term));
            lemma_ballot_holds_grows(genesis, r, next, id, term, term - 1);
        }
    }
    assert forall|id: NodeId, term: u64| #[trigger]
        r.campaigned(id, term) implies next.campaign_recorded(id, term) by {
        assert(r.campaign_recorded(id, term));
        assert(r.voted(id, term) is Some);
        lemma_rooted_grows(r, next, r.campaign(id, term));
    }
    assert forall|id: NodeId, term: u64| #[trigger]
        r.balloted(id, term) implies next.ballot_recorded(id, term) by {
        assert(r.ballot_recorded(id, term));
        lemma_rooted_grows(r, next, r.ballot(id, term));
        assert(r.voted(id, term) is Some);
        assert(r.campaigned(r.votes[(id, term)], term));
        lemma_ballot_holds_grows(genesis, r, next, id, term, term as int);
    }
}

/// What was recorded of a leader's log stays so where that log does.
pub proof fn lemma_log_stays(genesis: Seq<NodeId>, r: Record, next: Record, term: u64)
    requires
        r.consistent(genesis),
        r.grows_to(next),
        r.led(term),
        next.logs.contains_key(term),
        next.logs[term] == r.logs[term],
        next.acked(r.leaders[term], term) == r.acked(r.leaders[term], term),
    ensures
        next.log_recorded(genesis, term),
{
    assert(r.leader_recorded(genesis, term) && r.log_recorded(genesis, term));
    assert(r.campaigned(r.leaders[term], term));
    assert(next.elected_with(term) == r.elected_with(term));
    lemma_rooted_grows(r, next, r.logs[term]);
    assert forall|i: int|
        next.elected_with(term).len() <= i < next.logs[term].len() implies #[trigger] next.change_recorded(
        genesis,
        term,
        i,
    ) by {
        assert(r.change_recorded(genesis, term, i));
        lemma_change_grows(genesis, r, next, term, i);
    }
}

/// What a node took over, and the leaders since have kept, it still has.
pub proof fn lemma_acks_stay(
    genesis: Seq<NodeId>,
    r: Record,
    next: Record,
    s: NodeState,
    after: NodeState,
)
    requires
        r.consistent(genesis),
        r.grows_to(next),
        record::acks_match(r, s),
        after.id == s.id,
        s.current_term <= after.current_term,
        next.full(after) == r.full(s),
        forall|term: u64|
            (#[trigger] next.acked(s.id, term)) == r.acked(s.id, term) || (term
                == after.current_term && next.logs[term] == next.full(after) && next.acked(s.id, term)
                <= next.full(after).len()),
    ensures
        record::acks_match(next, after),
{
    assert forall|term: u64| (#[trigger] next.acked(s.id, term)) > 0 implies term
        <= after.current_term by {
        if term != after.current_term {
            assert(r.acked(s.id, term) > 0);
        }
    }
    assert forall|term: u64, n: int|
        0 < n <= next.acked(s.id, term) && #[trigger] next.kept(
            term,
            n,
            after.current_term as int,
        ) implies record::agree(
        next.full(after),
        next.logs[term],
        n,
    ) by {
        if next.acked(s.id, term) == r.acked(s.id, term) {
            assert(r.acked(s.id, term) > 0);
            assert(r.led(term));
            lemma_kept_before(genesis, r, next, term, n, after.current_term as int);
            assert(r.kept(term, n, s.current_term as int));
            assert(record::agree(r.full(s), r.logs[term], n));
            assert forall|j: int| 0 <= j < n implies r.full(s)[j] == next.logs[term][j] by {
                assert(r.full(s)[j] == r.logs[term][j]);
                assert(r.logs[term][j] == next.logs[term][j]);
            }
        }
    }
}

/// A node that has not acted stays as recorded.
pub proof fn lemma_unaffected(genesis: Seq<NodeId>, r: Record, next: Record, s: NodeState)
    requires
        r.consistent(genesis),
        r.grows_to(next),
        record::node_matches(genesis, r, s),
        forall|term: u64| (#[trigger] next.voted(s.id, term)) == r.voted(s.id, term),
        forall|term: u64| (#[trigger] next.acked(s.id, term)) == r.acked(s.id, term),
        next.base(s.id) == r.base(s.id),
        s.role == Role::Candidate && next.led(s.current_term) ==> next.leaders[s.current_term]
            != s.id,
        s.role == Role::Leader ==> next.logs[s.current_term] == r.logs[s.current_term],
    ensures
        record::node_matches(genesis, next, s),
{
    let log = r.full(s);
    assert(next.full(s) == log);
    lemma_rooted_grows(r, next, log);
    lemma_committed_grows(
        genesis,
        r,
        next,
        s.current_term,
        s.commit_index as int,
        log,
        s.current_term,
    );
    if s.role == Role::Candidate {
        assert(r.campaigned(s.id, s.current_term));
        assert forall|id: NodeId| #[trigger] s.votes_granted.contains(id) implies next.voted(
            id,
            s.current_term,
        ) == Some(s.id) by {
            assert(r.voted(id, s.current_term) is Some);
        }
    }
    lemma_credit_grows(genesis, r, next, s);
    lemma_acks_stay(genesis, r, next, s, s);
}

/// What a leader credits others with, it still may.
proof fn lemma_credit_grows(genesis: Seq<NodeId>, r: Record, next: Record, s: NodeState)
    requires
        r.grows_to(next),
        record::leadership_matches(genesis, r, s),
        next.base(s.id) == r.base(s.id),
        s.role == Role::Leader ==> next.logs[s.current_term] == r.logs[s.current_term],
    ensures
        record::leadership_matches(genesis, next, s),
{
    if s.role == Role::Leader {
        let term = s.current_term;
        assert(r.led(term));
        assert forall|id: NodeId| #[trigger]
            s.match_index.contains_key(id) implies s.match_index[id] <= next.full(s).len() && (
        s.match_index[id] <= next.acked(id, term) || next.reached(
            genesis,
            term,
            s.match_index[id] as int,
        )) by {
            assert(r.acked(id, term) <= next.acked(id, term));
            if s.match_index[id] > r.acked(id, term) {
                lemma_reached_grows(genesis, r, next, term, s.match_index[id] as int);
            }
        }
    }
}

/// A message stays true.
pub proof fn lemma_message_stays(
    genesis: Seq<NodeId>,
    r: Record,
    next: Record,
    from: NodeId,
    to: NodeId,
    message: MessageView,
)
    requires
        r.consistent(genesis),
        r.grows_to(next),
        record::message_matches(genesis, r, from, to, message),
    ensures
        record::message_matches(genesis, next, from, to, message),
{
    match message {
        MessageView::RequestVote(request) => {
            assert(r.campaigned(from, request.term));
        },
        MessageView::RequestVoteResponse(response) => {
            if response.granted {
                assert(r.voted(from, response.term) is Some);
            }
        },
        MessageView::AppendEntries(request) => {
            let term = request.term;
            let log = r.logs[term];
            assert(r.led(term));
            let start = request.prev_log_index as int;
            assert forall|k: int| 0 <= k < request.entries.len() implies (
            #[trigger] request.entries[k]) == next.logs[term][start + k] by {
                assert(log[start + k] == next.logs[term][start + k]);
            }
            if start > 0 {
                assert(log[start - 1] == next.logs[term][start - 1]);
            }
            let commit = request.leader_commit as int;
            lemma_committed_grows(genesis, r, next, term, commit, log, term);
            lemma_committed_elsewhere(genesis, next, term, commit, log, next.logs[term]);
        },
        MessageView::AppendEntriesResponse(response) => {
            if response.success {
                assert(r.acked(from, response.term) <= next.acked(from, response.term));
                assert(r.led(response.term));
            }
        },
        MessageView::InstallSnapshot(request) => {
            let term = request.term;
            let log = r.logs[term];
            let end = request.last_included_index as int;
            assert(r.led(term));
            assert(log[end - 1] == next.logs[term][end - 1]);
            lemma_committed_grows(genesis, r, next, term, end, log, term);
            lemma_committed_elsewhere(genesis, next, term, end, log, next.logs[term]);
            assert(log.take(end) =~= next.logs[term].take(end));
        },
        MessageView::InstallSnapshotResponse(response) => {
            let term = response.term;
            assert(r.acked(from, term) <= next.acked(from, term));
            if response.last_included_index > r.acked(from, term) {
                lemma_reached_grows(genesis, r, next, term, response.last_included_index as int);
            }
        },
    }
}

} // verus!
