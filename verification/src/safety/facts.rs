//! What follows from a consistent record: logs that share an entry share
//! everything before it, those who decide under two configurations that can be
//! in force at once have a member in common, and every leader has whatever was
//! certified before its term.

use vstd::prelude::*;

use crate::raft::model;
use crate::raft::types::{ClusterConfigView, LogEntryView, NodeId};
use crate::safety::record;
use crate::safety::record::Record;

verus! {

/// Two majorities of the same voters have a member in common.
pub proof fn majorities_meet(voters: Seq<NodeId>, a: Set<NodeId>, b: Set<NodeId>)
    requires
        record::majority(voters, a),
        record::majority(voters, b),
    ensures
        exists|id: NodeId| a.contains(id) && b.contains(id),
{
    lemma_count_both(voters, a, b);
}

/// Where two sets have no common member, no more voters are in either than
/// there are.
proof fn lemma_count_both(voters: Seq<NodeId>, a: Set<NodeId>, b: Set<NodeId>)
    ensures
        model::count_in(voters, a) + model::count_in(voters, b) <= voters.len() || exists|
            id: NodeId,
        |
            a.contains(id) && b.contains(id),
    decreases voters.len(),
{
    if voters.len() > 0 {
        lemma_count_both(voters.drop_last(), a, b);
        let last = voters.last();
        if a.contains(last) && b.contains(last) {
            assert(exists|id: NodeId| a.contains(id) && b.contains(id));
        }
    }
}

/// Log matching: logs that hold an entry of the same term at the same index
/// hold the same entries up to there.
pub proof fn same_entry_same_history(r: Record, a: Seq<LogEntryView>, b: Seq<LogEntryView>, i: int)
    requires
        r.rooted(a),
        r.rooted(b),
        0 <= i < a.len(),
        i < b.len(),
        a[i].term == b[i].term,
    ensures
        record::agree(a, b, i + 1),
{
    reveal(Record::rooted);
    let log = r.logs[a[i].term];
    assert(record::agree(a, log, i + 1));
    assert(record::agree(b, log, i + 1));
}

/// Logs that agree put the same configuration in force up to there.
pub proof fn lemma_same_config(
    genesis: Seq<NodeId>,
    a: Seq<LogEntryView>,
    b: Seq<LogEntryView>,
    n: int,
)
    requires
        record::agree(a, b, n),
        0 <= n,
    ensures
        a.take(n) == b.take(n),
        record::config_of(genesis, a.take(n)) == record::config_of(genesis, b.take(n)),
{
    assert(a.take(n) =~= b.take(n));
}

/// A leader's log holds nothing of a later term.
pub proof fn lemma_leader_terms(genesis: Seq<NodeId>, r: Record, term: u64)
    requires
        r.consistent(genesis),
        r.led(term),
    ensures
        record::terms_within(r.logs[term], term as int),
        record::terms_within(r.elected_with(term), term - 1),
{
    let start = r.elected_with(term);
    let log = r.logs[term];
    assert(r.leader_recorded(genesis, term) && r.log_recorded(genesis, term));
    assert(r.campaign_recorded(r.leaders[term], term));
    assert forall|i: int| 0 <= i < log.len() implies (#[trigger] log[i]).term <= term by {
        if i < start.len() {
            assert(start[i] == log[i]);
        }
    }
}

/// The last term of a log bounds the terms of all its entries.
proof fn lemma_last_term(genesis: Seq<NodeId>, r: Record, log: Seq<LogEntryView>, i: int)
    requires
        r.consistent(genesis),
        r.rooted(log),
        0 <= i < log.len(),
    ensures
        log[i].term <= record::last_term(log),
        r.led(record::last_term(log)),
        record::agree(log, r.logs[record::last_term(log)], log.len() as int),
{
    reveal(Record::rooted);
    let last = record::last_term(log);
    assert(log[log.len() - 1].term == last);
    assert(record::agree(log, r.logs[last], log.len() as int));
    lemma_leader_terms(genesis, r, last);
    assert(log[i] == r.logs[last][i]);
}

/// Every change of configuration in a log is one that its leader could make.
proof fn lemma_change(genesis: Seq<NodeId>, r: Record, log: Seq<LogEntryView>, i: int)
    requires
        r.consistent(genesis),
        r.rooted(log),
        0 <= i < log.len(),
    ensures
        r.led(log[i].term),
        record::agree(log, r.logs[log[i].term], i + 1),
        r.change_recorded(genesis, log[i].term, i),
        log.take(i) == r.logs[log[i].term].take(i),
        log[i] == r.logs[log[i].term][i],
{
    reveal(Record::rooted);
    let term = log[i].term;
    let theirs = r.logs[term];
    assert(r.led(term) && record::agree(log, theirs, i + 1));
    assert(r.log_recorded(genesis, term));
    lemma_leader_terms(genesis, r, term);
    let start = r.elected_with(term);
    if i < start.len() {
        assert(start[i] == theirs[i]);
    }
    assert(log[i] == theirs[i]);
    assert(log.take(i) =~= theirs.take(i));
}

/// Whether a configuration counts a majority of `voters`.
pub open spec fn counts(config: ClusterConfigView, voters: Seq<NodeId>) -> bool {
    config.voters == voters || config.old_voters == Some(voters)
}

/// Whether a log ends a transition between `from` and `to`: at `i`, of the
/// transition begun behind `from`.
pub open spec fn ends_transition(
    genesis: Seq<NodeId>,
    log: Seq<LogEntryView>,
    from: int,
    to: int,
    i: int,
) -> bool {
    &&& from <= i < to
    &&& log[i].payload is Configuration
    &&& record::config_of(genesis, log.take(i)).is_joint()
    &&& record::config_end(log.take(i)) > from
}

/// As long as no transition begun since is ended, a majority of the voters in
/// force counts.
proof fn lemma_voters_still_count(
    genesis: Seq<NodeId>,
    r: Record,
    log: Seq<LogEntryView>,
    from: int,
    to: int,
)
    requires
        r.consistent(genesis),
        r.rooted(log),
        0 <= from <= to <= log.len(),
        forall|i: int| !#[trigger] ends_transition(genesis, log, from, to, i),
    ensures
        counts(
            record::config_of(genesis, log.take(to)),
            record::config_of(genesis, log.take(from)).voters,
        ),
    decreases to - from,
{
    if from < to {
        let i = to - 1;
        let before = log.take(i);
        assert forall|k: int| !#[trigger] ends_transition(genesis, log, from, i, k) by {
            assert(!ends_transition(genesis, log, from, to, k));
        }
        lemma_voters_still_count(genesis, r, log, from, i);
        assert(log.take(to) =~= before.push(log[i]));
        model::lemma_latest_push(before, log[i]);
        lemma_change(genesis, r, log, i);
        assert(!ends_transition(genesis, log, from, to, i));
        let current = record::config_of(genesis, before);
        if log[i].payload is Configuration && current.is_joint() {
            lemma_config_since(genesis, log, from, i);
        }
    }
}

/// Between the last change of configuration and the end of a log, the
/// configuration is the same.
proof fn lemma_config_since(genesis: Seq<NodeId>, log: Seq<LogEntryView>, from: int, to: int)
    requires
        0 <= from <= to <= log.len(),
        record::config_end(log.take(to)) <= from,
    ensures
        record::config_of(genesis, log.take(from)) == record::config_of(genesis, log.take(to)),
    decreases to - from,
{
    if from < to {
        assert(log.take(to) =~= log.take(to - 1).push(log[to - 1]));
        model::lemma_latest_push(log.take(to - 1), log[to - 1]);
        lemma_config_since(genesis, log, from, to - 1);
    }
}

/// How much of two logs is the same.
pub open spec fn common(a: Seq<LogEntryView>, b: Seq<LogEntryView>, from: int) -> int
    decreases a.len() - from,
{
    if 0 <= from < a.len() && from < b.len() && a[from] == b[from] {
        common(a, b, from + 1)
    } else {
        from
    }
}

proof fn lemma_common(a: Seq<LogEntryView>, b: Seq<LogEntryView>, from: int)
    requires
        record::agree(a, b, from),
        0 <= from,
    ensures
        from <= common(a, b, from),
        record::agree(a, b, common(a, b, from)),
        forall|n: int| #[trigger] record::agree(a, b, n) ==> n <= common(a, b, from),
    decreases a.len() - from,
{
    if from < a.len() && from < b.len() && a[from] == b[from] {
        lemma_common(a, b, from + 1);
    }
}

/// Whether every leader up to `last` has whatever was certified before its
/// term.
pub open spec fn all_kept(genesis: Seq<NodeId>, r: Record, last: int) -> bool {
    forall|by: u64, upto: int, at: int| #[trigger]
        r.certified(genesis, by, upto, at) ==> r.kept(by, upto, last)
}

/// Whether `electors` have elected a candidate: they decide under its
/// configuration, and each still had what it had taken over.
pub open spec fn wins(
    genesis: Seq<NodeId>,
    r: Record,
    id: NodeId,
    term: u64,
    electors: Set<NodeId>,
    last: int,
) -> bool {
    &&& r.campaigned(id, term)
    &&& record::decides(record::config_of(genesis, r.campaign(id, term)), electors)
    &&& forall|voter: NodeId| #[trigger]
        electors.contains(voter) ==> r.voted(voter, term) == Some(id) && r.balloted(voter, term)
            && r.ballot_holds(voter, term, last)
}

/// A log that ends a transition has it certified: by whom, and how far.
proof fn lemma_transition_certified(
    genesis: Seq<NodeId>,
    r: Record,
    log: Seq<LogEntryView>,
    from: int,
    to: int,
    i: int,
) -> (by: (u64, int, int))
    requires
        r.consistent(genesis),
        r.rooted(log),
        0 <= from <= to <= log.len(),
        ends_transition(genesis, log, from, to, i),
    ensures
        r.certified(genesis, by.0, by.1, by.2),
        by.0 < log[i].term || (by.0 == log[i].term && by.2 <= i),
        from < record::config_end(log.take(i)) <= by.1,
        record::config_end(log.take(i)) <= i,
        record::agree(log, r.logs[by.0], record::config_end(log.take(i))),
{
    lemma_change(genesis, r, log, i);
    let term = log[i].term;
    let end = record::config_end(log.take(i));
    model::lemma_latest_bounds(log.take(i));
    assert(r.known(genesis, term, end, i));
    let (by, upto, at) = choose|by: u64, upto: int, at: int| #[trigger]
        r.certified(genesis, by, upto, at) && (by < term || (by == term && at <= i)) && end <= upto
            && record::agree(r.logs[term], r.logs[by], end);
    assert forall|j: int| 0 <= j < end implies log[j] == r.logs[by][j] by {
        assert(log[j] == r.logs[term][j]);
        assert(r.logs[term][j] == r.logs[by][j]);
    }
    (by, upto, at)
}

/// Whoever wins an election has whatever was certified before its term.
proof fn lemma_winner(
    genesis: Seq<NodeId>,
    r: Record,
    id: NodeId,
    term: u64,
    electors: Set<NodeId>,
    last: int,
    by: u64,
    n: int,
    at: int,
)
    requires
        r.consistent(genesis),
        all_kept(genesis, r, last),
        wins(genesis, r, id, term, electors, last),
        term - 1 <= last,
        r.certified(genesis, by, n, at),
        by < term,
    ensures
        record::agree(r.campaign(id, term), r.logs[by], n),
    decreases by, at,
{
    let start = r.campaign(id, term);
    let theirs = r.logs[by];
    let log = theirs.take(at);
    let p = common(start, log, 0);
    lemma_common(start, log, 0);
    assert(r.campaign_recorded(id, term));
    assert(r.log_recorded(genesis, by));
    assert(r.kept(by, n, last));
    if p < n {
        assert(r.rooted(log)) by {
            reveal(Record::rooted);
            assert forall|i: int| 0 <= i < log.len() implies r.led((#[trigger] log[i]).term)
                && record::agree(log, r.logs[log[i].term], i + 1) by {
                assert(log[i] == theirs[i]);
                assert(record::agree(theirs, r.logs[theirs[i].term], i + 1));
            }
        }
        lemma_leader_terms(genesis, r, by);
        assert forall|i: int| !#[trigger] ends_transition(genesis, log, p, at, i) by {
            if ends_transition(genesis, log, p, at, i) {
                let (other, upto, other_at) = lemma_transition_certified(
                    genesis,
                    r,
                    log,
                    p,
                    at,
                    i,
                );
                let end = record::config_end(log.take(i));
                assert(log[i].term <= by) by {
                    assert(log[i] == theirs[i]);
                }
                lemma_winner(genesis, r, id, term, electors, last, other, upto, other_at);
                assert(record::agree(start, log, end)) by {
                    assert forall|j: int| 0 <= j < end implies start[j] == log[j] by {
                        assert(start[j] == r.logs[other][j]);
                        assert(log[j] == r.logs[other][j]);
                    }
                }
            }
        }
        let whole = start.len() as int;
        assert forall|i: int| !#[trigger] ends_transition(genesis, start, p, whole, i) by {
            if ends_transition(genesis, start, p, whole, i) {
                let (other, upto, other_at) = lemma_transition_certified(
                    genesis,
                    r,
                    start,
                    p,
                    whole,
                    i,
                );
                let end = record::config_end(start.take(i));
                assert(start[i].term <= term - 1);
                lemma_certified_meets(genesis, r, last, start, end, other, upto, other_at, by, n, at);
                assert(record::agree(start, theirs, end) || record::agree(start, theirs, n));
                if record::agree(start, theirs, n) {
                    assert(record::agree(start, log, n));
                } else if end <= at {
                    assert(record::agree(start, log, end));
                } else {
                    assert(record::agree(start, log, at));
                }
            }
        }
        lemma_voters_still_count(genesis, r, log, p, at);
        lemma_voters_still_count(genesis, r, start, p, whole);
        lemma_same_config(genesis, start, log, p);
        assert(start.take(whole) =~= start);
        assert(log.take(at) =~= log);
        let voters = record::config_of(genesis, log.take(p)).voters;
        majorities_meet(voters, electors, r.holders(by, n));
        let voter = choose|voter: NodeId|
            electors.contains(voter) && r.holders(by, n).contains(voter);
        lemma_elector(genesis, r, id, term, electors, last, by, n, at, voter);
        assert(record::agree(start, log, n));
    }
}

/// Where a log ends with what one leader certified, and another certifies more
/// or less, one of the two is in both.
proof fn lemma_certified_meets(
    genesis: Seq<NodeId>,
    r: Record,
    last: int,
    start: Seq<LogEntryView>,
    end: int,
    other: u64,
    upto: int,
    other_at: int,
    by: u64,
    n: int,
    at: int,
)
    requires
        r.consistent(genesis),
        all_kept(genesis, r, last),
        r.certified(genesis, other, upto, other_at),
        r.certified(genesis, by, n, at),
        other <= last,
        by <= last,
        end <= upto,
        record::agree(start, r.logs[other], end),
    ensures
        record::agree(start, r.logs[by], end) || record::agree(start, r.logs[by], n),
{
    if other < by {
        assert(r.kept(other, upto, last));
        assert(r.led(by));
        assert(r.log_recorded(genesis, by));
        let elected = r.elected_with(by);
        assert(record::agree(elected, r.logs[other], upto));
        assert(record::agree(start, r.logs[by], end)) by {
            assert forall|j: int| 0 <= j < end implies start[j] == r.logs[by][j] by {
                assert(start[j] == r.logs[other][j]);
                assert(elected[j] == r.logs[other][j]);
                assert(elected[j] == r.logs[by][j]);
            }
        }
    } else if by < other {
        assert(r.kept(by, n, last));
        assert(r.led(other));
        assert(r.log_recorded(genesis, other));
        let elected = r.elected_with(other);
        assert(record::agree(elected, r.logs[by], n));
        let least = if end <= n {
            end
        } else {
            n
        };
        assert(record::agree(start, r.logs[by], least)) by {
            assert forall|j: int| 0 <= j < least implies start[j] == r.logs[by][j] by {
                assert(start[j] == r.logs[other][j]);
                assert(elected[j] == r.logs[other][j]);
                assert(elected[j] == r.logs[by][j]);
            }
        }
    }
}

/// A voter that has taken over what is certified elects only a candidate that
/// has it.
proof fn lemma_elector(
    genesis: Seq<NodeId>,
    r: Record,
    id: NodeId,
    term: u64,
    electors: Set<NodeId>,
    last: int,
    by: u64,
    n: int,
    at: int,
    voter: NodeId,
)
    requires
        r.consistent(genesis),
        all_kept(genesis, r, last),
        wins(genesis, r, id, term, electors, last),
        term - 1 <= last,
        r.certified(genesis, by, n, at),
        by < term,
        electors.contains(voter),
        r.holders(by, n).contains(voter),
    ensures
        record::agree(r.campaign(id, term), r.logs[by], n),
{
    let log = r.logs[by];
    let start = r.campaign(id, term);
    let held = r.ballot(voter, term);
    assert(r.voted(voter, term) == Some(id) && r.balloted(voter, term));
    assert(r.ballot_recorded(voter, term));
    assert(r.ballot_holds(voter, term, last));
    assert(r.kept(by, n, last));
    assert(record::agree(held, log, n));
    assert(held[n - 1].term == by);
    lemma_last_term(genesis, r, held, n - 1);
    assert(record::up_to_date(start, held));
    assert(start.len() > 0);
    assert(r.campaign_recorded(id, term));
    lemma_last_term(genesis, r, start, 0);
    let newest = record::last_term(start);
    if newest == record::last_term(held) {
        assert(record::agree(start, log, n));
    } else {
        assert(start[start.len() - 1].term == newest);
        assert(record::agree(r.elected_with(newest), log, n));
        assert(r.log_recorded(genesis, newest));
        lemma_leader_terms(genesis, r, newest);
        let earlier = r.elected_with(newest);
        if start.len() <= earlier.len() {
            assert(start[start.len() - 1] == r.logs[newest][start.len() - 1]);
            assert(earlier[start.len() - 1] == r.logs[newest][start.len() - 1]);
        }
        assert forall|j: int| 0 <= j < n implies start[j] == log[j] by {
            assert(earlier[j] == log[j]);
            assert(earlier[j] == r.logs[newest][j]);
            assert(start[j] == r.logs[newest][j]);
        }
        assert(record::agree(start, log, n));
    }
}

/// Leader completeness: every leader has whatever was certified before its
/// term.
pub proof fn leaders_have_what_is_certified(genesis: Seq<NodeId>, r: Record, last: int)
    requires
        r.consistent(genesis),
        last <= u64::MAX,
    ensures
        all_kept(genesis, r, last),
    decreases last + 1,
{
    if last < 0 {
        assert(all_kept(genesis, r, last));
    } else {
        leaders_have_what_is_certified(genesis, r, last - 1);
        assert forall|by: u64, upto: int, at: int| #[trigger]
            r.certified(genesis, by, upto, at) implies r.kept(by, upto, last) by {
            assert(r.kept(by, upto, last - 1));
            assert forall|later: u64| #[trigger]
                r.led(later) && by < later <= last implies record::agree(
                r.elected_with(later),
                r.logs[by],
                upto,
            ) by {
                if later == last {
                    assert(r.leader_recorded(genesis, later));
                    let id = r.leaders[later];
                    assert(wins(genesis, r, id, later, r.electors[later], last - 1));
                    lemma_winner(
                        genesis,
                        r,
                        id,
                        later,
                        r.electors[later],
                        last - 1,
                        by,
                        upto,
                        at,
                    );
                }
            }
        }
    }
}

/// Election safety: no two candidates win the same term.
pub proof fn terms_have_one_winner(
    genesis: Seq<NodeId>,
    r: Record,
    id: NodeId,
    term: u64,
    electors: Set<NodeId>,
)
    requires
        r.consistent(genesis),
        r.led(term),
        wins(genesis, r, id, term, electors, term as int),
    ensures
        r.leaders[term] == id,
{
    leaders_have_what_is_certified(genesis, r, term as int);
    let first = r.elected_with(term);
    let second = r.campaign(id, term);
    assert(r.leader_recorded(genesis, term));
    assert(r.campaign_recorded(r.leaders[term], term));
    assert(r.campaign_recorded(id, term));
    let p = common(first, second, 0);
    lemma_common(first, second, 0);
    let n = first.len() as int;
    let m = second.len() as int;
    assert forall|i: int| !#[trigger] ends_transition(genesis, first, p, n, i) by {
        if ends_transition(genesis, first, p, n, i) {
            let (by, upto, at) = lemma_transition_certified(genesis, r, first, p, n, i);
            let end = record::config_end(first.take(i));
            assert(first[i].term <= term - 1);
            lemma_winner(genesis, r, id, term, electors, term as int, by, upto, at);
            assert(record::agree(first, second, end)) by {
                assert forall|j: int| 0 <= j < end implies first[j] == second[j] by {
                    assert(first[j] == r.logs[by][j]);
                    assert(second[j] == r.logs[by][j]);
                }
            }
        }
    }
    assert forall|i: int| !#[trigger] ends_transition(genesis, second, p, m, i) by {
        if ends_transition(genesis, second, p, m, i) {
            let (by, upto, at) = lemma_transition_certified(genesis, r, second, p, m, i);
            let end = record::config_end(second.take(i));
            assert(second[i].term <= term - 1);
            assert(r.kept(by, upto, term as int));
            assert(record::agree(first, r.logs[by], upto));
            assert(record::agree(first, second, end)) by {
                assert forall|j: int| 0 <= j < end implies first[j] == second[j] by {
                    assert(first[j] == r.logs[by][j]);
                    assert(second[j] == r.logs[by][j]);
                }
            }
        }
    }
    lemma_voters_still_count(genesis, r, first, p, n);
    lemma_voters_still_count(genesis, r, second, p, m);
    lemma_same_config(genesis, first, second, p);
    assert(first.take(n) =~= first);
    assert(second.take(m) =~= second);
    let voters = record::config_of(genesis, first.take(p)).voters;
    majorities_meet(voters, r.electors[term], electors);
    let voter = choose|voter: NodeId|
        r.electors[term].contains(voter) && electors.contains(voter);
    assert(r.voted(voter, term) == Some(r.leaders[term]));
    assert(r.voted(voter, term) == Some(id));
}

/// What one leader has certified is in the log of every later one.
proof fn lemma_certified_in_leader(
    genesis: Seq<NodeId>,
    r: Record,
    by: u64,
    n: int,
    at: int,
    later: u64,
)
    requires
        r.consistent(genesis),
        r.certified(genesis, by, n, at),
        r.led(later),
        by <= later,
    ensures
        record::agree(r.logs[later], r.logs[by], n),
        by < later ==> n <= r.elected_with(later).len(),
{
    if by < later {
        let start = r.elected_with(later);
        let log = r.logs[later];
        assert(record::agree(start, r.logs[by], n)) by {
            leaders_have_what_is_certified(genesis, r, later as int);
            assert(r.kept(by, n, later as int));
        }
        assert(record::agree(start, log, start.len() as int)) by {
            assert(r.log_recorded(genesis, later));
        }
        assert forall|j: int| 0 <= j < n implies log[j] == r.logs[by][j] by {
            assert(start[j] == r.logs[by][j]);
            assert(start[j] == log[j]);
        }
    }
}

/// Whatever is certified by one leader is in the log of every later one, and
/// short of whatever a later one has certified.
proof fn lemma_certified_order(
    genesis: Seq<NodeId>,
    r: Record,
    term: u64,
    n: int,
    at: int,
    later: u64,
    m: int,
    later_at: int,
)
    requires
        r.consistent(genesis),
        r.certified(genesis, term, n, at),
        r.certified(genesis, later, m, later_at),
        term <= later,
    ensures
        record::agree(r.logs[term], r.logs[later], n),
        term < later ==> n < m,
{
    lemma_certified_in_leader(genesis, r, term, n, at, later);
    if term < later {
        assert(r.log_recorded(genesis, later));
        lemma_leader_terms(genesis, r, later);
        let start = r.elected_with(later);
        if m - 1 < start.len() {
            assert(start[m - 1] == r.logs[later][m - 1]);
        }
    }
}

/// What some leader has certified is in the log of every later one.
pub proof fn lemma_reached_in_leader(
    genesis: Seq<NodeId>,
    r: Record,
    term: u64,
    n: int,
    later: u64,
)
    requires
        r.consistent(genesis),
        r.reached(genesis, term, n),
        r.led(later),
        term <= later,
    ensures
        n <= r.logs[later].len(),
        r.committed(genesis, later, n, r.logs[later]),
{
    if n > 0 {
        let (by, upto, at) = choose|by: u64, upto: int, at: int| #[trigger]
            r.certified(genesis, by, upto, at) && by <= term && n <= upto;
        lemma_certified_in_leader(genesis, r, by, upto, at, later);
        assert(record::agree(r.logs[later], r.logs[by], n));
    }
}

/// Whatever is committed by a term is in the log of the leader of that term
/// and of every later one.
pub proof fn lemma_committed_in_leader(
    genesis: Seq<NodeId>,
    r: Record,
    term: u64,
    n: int,
    log: Seq<LogEntryView>,
    later: u64,
)
    requires
        r.consistent(genesis),
        r.committed(genesis, term, n, log),
        r.led(later),
        term <= later,
        n > 0,
    ensures
        record::agree(log, r.logs[later], n),
{
    let (by, upto, at) = choose|by: u64, upto: int, at: int| #[trigger]
        r.certified(genesis, by, upto, at) && by <= term && n <= upto && record::agree(
            log,
            r.logs[by],
            n,
        );
    lemma_certified_in_leader(genesis, r, by, upto, at, later);
    assert forall|j: int| 0 <= j < n implies log[j] == r.logs[later][j] by {
        assert(r.logs[later][j] == r.logs[by][j]);
        assert(log[j] == r.logs[by][j]);
    }
}

/// State machine safety: two logs agree on whatever both have committed.
pub proof fn committed_entries_agree(
    genesis: Seq<NodeId>,
    r: Record,
    term: u64,
    n: int,
    log: Seq<LogEntryView>,
    other_term: u64,
    m: int,
    other_log: Seq<LogEntryView>,
)
    requires
        r.consistent(genesis),
        r.committed(genesis, term, n, log),
        r.committed(genesis, other_term, m, other_log),
        0 < n <= m,
    ensures
        record::agree(log, other_log, n),
{
    let (by, upto, at) = choose|by: u64, upto: int, at: int| #[trigger]
        r.certified(genesis, by, upto, at) && by <= term && n <= upto && record::agree(
            log,
            r.logs[by],
            n,
        );
    let (other_by, other_upto, other_at) = choose|by: u64, upto: int, at: int| #[trigger]
        r.certified(genesis, by, upto, at) && by <= other_term && m <= upto && record::agree(
            other_log,
            r.logs[by],
            m,
        );
    if by <= other_by {
        lemma_certified_order(genesis, r, by, upto, at, other_by, other_upto, other_at);
    } else {
        lemma_certified_order(genesis, r, other_by, other_upto, other_at, by, upto, at);
    }
    assert forall|j: int| 0 <= j < n implies log[j] == other_log[j] by {
        assert(log[j] == r.logs[by][j]);
        assert(other_log[j] == r.logs[other_by][j]);
        assert(r.logs[by][j] == r.logs[other_by][j]);
    }
}

} // verus!
