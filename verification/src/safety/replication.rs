//! What followers take over keeps them and the record in accord: entries and
//! snapshots.

use vstd::prelude::*;

use crate::raft::model::NodeState;
use crate::raft::types::{
    AppendEntriesView, EffectView, InstallSnapshotView, LogEntryView, NodeId, Role,
};
use crate::safety::facts;
use crate::safety::growth;
use crate::safety::record;
use crate::safety::record::Record;
use crate::safety::steps;
use crate::safety::updates;

verus! {

/// Where some entry sent diverges, there is a first one.
proof fn lemma_first_divergence(s: NodeState, request: AppendEntriesView, k: int)
    requires
        s.diverges_at(request, k),
    ensures
        exists|first: int| s.first_divergence(request, first),
    decreases k,
{
    if exists|j: int| 0 <= j < k && #[trigger] s.diverges_at(request, j) {
        let j = choose|j: int| 0 <= j < k && #[trigger] s.diverges_at(request, j);
        lemma_first_divergence(s, request, j);
    } else {
        assert(s.first_divergence(request, k));
    }
}

/// The term of an entry at or above the snapshot boundary, as its node knows
/// it.
pub proof fn lemma_term_at(genesis: Seq<NodeId>, r: Record, s: NodeState, index: int)
    requires
        record::snapshot_matches(genesis, r, s),
        s.boundary() <= index,
        0 < index,
    ensures
        s.term_at(index) == if index <= r.full(s).len() {
            Some(r.full(s)[index - 1].term)
        } else {
            None
        },
{
    if index == s.boundary() {
        assert(r.full(s)[index - 1] == r.base(s.id).last());
    }
}

/// The part of a leader's log that a node has committed is in the node's own.
proof fn lemma_committed_shared(genesis: Seq<NodeId>, r: Record, s: NodeState, n: int)
    requires
        r.consistent(genesis),
        record::commits_match(genesis, r, s),
        r.led(s.current_term),
        0 <= n <= s.commit_index,
    ensures
        record::agree(r.full(s), r.logs[s.current_term], n),
{
    if s.commit_index > 0 {
        facts::lemma_committed_in_leader(
            genesis,
            r,
            s.current_term,
            s.commit_index as int,
            r.full(s),
            s.current_term,
        );
    }
}

/// Logs that hold an entry of the same term at the same index hold the same
/// entries up to there, if one is a node's and the other its leader's.
proof fn lemma_same_as_leader(genesis: Seq<NodeId>, r: Record, s: NodeState, n: int)
    requires
        r.consistent(genesis),
        record::log_matches(r, s),
        r.led(s.current_term),
        0 < n <= r.full(s).len(),
        n <= r.logs[s.current_term].len(),
        r.full(s)[n - 1].term == r.logs[s.current_term][n - 1].term,
    ensures
        record::agree(r.full(s), r.logs[s.current_term], n),
{
    assert(r.log_recorded(genesis, s.current_term));
    facts::same_entry_same_history(r, r.full(s), r.logs[s.current_term], n - 1);
}

/// Up to where the entries sent start, both logs are the same; and up to any
/// entry sent that does not diverge.
proof fn lemma_common_start(
    genesis: Seq<NodeId>,
    r: Record,
    s: NodeState,
    request: AppendEntriesView,
    k: int,
)
    requires
        r.consistent(genesis),
        record::node_matches(genesis, r, s),
        s.current_term == request.term,
        record::entries_match(genesis, r, request.leader_id, request),
        s.prev_log_matches(request),
        0 <= k <= request.entries.len(),
        k > 0 ==> !s.diverges_at(request, k - 1),
    ensures
        record::agree(r.full(s), r.logs[request.term], request.prev_log_index + k),
{
    let index = request.prev_log_index + k;
    if index <= s.boundary() {
        lemma_committed_shared(genesis, r, s, index);
    } else if index > 0 {
        lemma_term_at(genesis, r, s, index);
        if k > 0 {
            assert(request.entries[k - 1] == r.logs[request.term][request.prev_log_index + (k - 1)]);
        }
        lemma_same_as_leader(genesis, r, s, index);
    }
}

/// A node's log from the beginning, once the entries sent are merged.
pub open spec fn merged_full(r: Record, s: NodeState, request: AppendEntriesView) -> Seq<
    LogEntryView,
> {
    r.base(s.id) + s.merged(request).0
}

/// What merging entries sent leaves: either the log as it was, with all of
/// them in it, or the leader's log up to their end. Either way nothing that
/// the two logs had in common is lost.
proof fn lemma_merged(
    genesis: Seq<NodeId>,
    r: Record,
    s: NodeState,
    request: AppendEntriesView,
    n: int,
)
    requires
        r.consistent(genesis),
        record::node_matches(genesis, r, s),
        s.current_term == request.term,
        record::entries_match(genesis, r, request.leader_id, request),
        s.prev_log_matches(request),
    ensures
        ({
            let log = merged_full(r, s, request);
            let theirs = r.logs[request.term];
            let end = request.prev_log_index + request.entries.len();
            &&& record::agree(log, theirs, end)
            &&& log == r.full(s) || log == theirs.take(end)
            &&& record::agree(r.full(s), theirs, n) ==> record::agree(r.full(s), log, n)
        }),
{
    let start = request.prev_log_index as int;
    let end = start + request.entries.len();
    let theirs = r.logs[request.term];
    let ours = r.full(s);
    let log = merged_full(r, s, request);
    if exists|k: int| s.first_divergence(request, k) {
        let k = choose|k: int| s.first_divergence(request, k);
        if k > 0 {
            assert(!s.diverges_at(request, k - 1));
        }
        lemma_common_start(genesis, r, s, request, k);
        lemma_term_at(genesis, r, s, start + k + 1);
        assert(request.entries[k] == theirs[start + k]);
        assert(log =~= ours.take(start + k) + request.entries.skip(k));
        assert forall|j: int| 0 <= j < end implies log[j] == theirs[j] by {
            if j < start + k {
                assert(ours[j] == theirs[j]);
            } else {
                assert(log[j] == request.entries[j - start]);
            }
        }
        assert(log =~= theirs.take(end));
        if record::agree(ours, theirs, n) {
            if n > start + k {
                assert(ours[start + k] == theirs[start + k]);
            }
            assert forall|j: int| 0 <= j < n implies ours[j] == log[j] by {
                assert(ours[j] == theirs[j]);
            }
        }
    } else {
        let k = request.entries.len() as int;
        if k > 0 && s.diverges_at(request, k - 1) {
            lemma_first_divergence(s, request, k - 1);
        }
        lemma_common_start(genesis, r, s, request, k);
    }
}

/// Following the leader of the current or a later term.
proof fn lemma_follow(genesis: Seq<NodeId>, r: Record, s: NodeState, term: u64)
    requires
        r.consistent(genesis),
        record::node_matches(genesis, r, s),
        term >= s.current_term,
        r.led(term),
        r.leaders[term] != s.id,
    ensures
        record::node_matches(genesis, r, s.follow(term)),
        s.follow(term).role == Role::Follower,
        s.follow(term).current_term == term,
        s.follow(term).commit_index == s.commit_index,
        r.full(s.follow(term)) == r.full(s),
        s.follow(term).id == s.id,
{
    let followed = if term > s.current_term {
        s.step_down(term)
    } else {
        NodeState { role: Role::Follower, ..s }
    };
    if term > s.current_term {
        steps::lemma_step_down(genesis, r, s, term);
    }
    assert(s.role != Role::Leader || term > s.current_term);
    assert(record::node_matches(genesis, r, followed));
    steps::lemma_timers(genesis, r, followed, s.follow(term));
}

/// Whether a node that took over the first `n` entries of its leader still has
/// whatever it has taken over.
proof fn lemma_acks_taken_over(
    genesis: Seq<NodeId>,
    r: Record,
    next: Record,
    s: NodeState,
    after: NodeState,
    n: nat,
)
    requires
        r.consistent(genesis),
        record::acks_match(r, s),
        r.led(s.current_term),
        after.id == s.id,
        after.current_term == s.current_term,
        r.grows_to(next),
        next.logs == r.logs,
        next.leaders == r.leaders,
        next.acks == r.with_ack(s.id, s.current_term, n).acks,
        record::agree(next.full(after), r.logs[s.current_term], n as int),
        forall|m: int| #[trigger]
            record::agree(r.full(s), r.logs[s.current_term], m) ==> record::agree(
                r.full(s),
                next.full(after),
                m,
            ),
    ensures
        record::acks_match(next, after),
{
    let id = s.id;
    let term = s.current_term;
    let theirs = r.logs[term];
    let log = next.full(after);
    assert(r.log_recorded(genesis, term));
    assert forall|t: u64| (#[trigger] next.acked(id, t)) > 0 implies t <= term by {
        if t != term {
            assert(r.acked(id, t) > 0);
        }
    }
    assert forall|t: u64, m: int|
        0 < m <= next.acked(id, t) && #[trigger] next.kept(t, m, term as int) implies record::agree(
        log,
        next.logs[t],
        m,
    ) by {
        if m <= r.acked(id, t) {
            assert(r.led(t));
            growth::lemma_kept_before(genesis, r, next, t, m, term as int);
            assert(record::agree(r.full(s), r.logs[t], m));
            assert(record::agree(r.full(s), theirs, m)) by {
                if t != term {
                    assert(t < term);
                    let start = r.elected_with(term);
                    assert(record::agree(start, r.logs[t], m));
                    assert forall|j: int| 0 <= j < m implies r.full(s)[j] == theirs[j] by {
                        assert(start[j] == theirs[j]);
                        assert(start[j] == r.logs[t][j]);
                        assert(r.full(s)[j] == r.logs[t][j]);
                    }
                }
            }
            assert(record::agree(r.full(s), log, m));
            assert forall|j: int| 0 <= j < m implies log[j] == next.logs[t][j] by {
                assert(r.full(s)[j] == r.logs[t][j]);
                assert(r.full(s)[j] == log[j]);
            }
        } else {
            assert(t == term);
            assert(m <= n);
        }
    }
}

/// Part of a leader's log stems from leaders up to its term.
proof fn lemma_part_rooted(genesis: Seq<NodeId>, r: Record, term: u64, end: int)
    requires
        r.consistent(genesis),
        r.led(term),
        0 <= end <= r.logs[term].len(),
    ensures
        r.rooted(r.logs[term].take(end)),
        record::terms_within(r.logs[term].take(end), term as int),
{
    let theirs = r.logs[term];
    let log = theirs.take(end);
    assert(r.log_recorded(genesis, term));
    facts::lemma_leader_terms(genesis, r, term);
    assert(r.rooted(log)) by {
        reveal(Record::rooted);
        assert forall|i: int| 0 <= i < log.len() implies r.led((#[trigger] log[i]).term)
            && record::agree(log, r.logs[log[i].term], i + 1) by {
            assert(log[i] == theirs[i]);
            assert(record::agree(theirs, r.logs[theirs[i].term], i + 1));
        }
    }
    assert forall|i: int| 0 <= i < log.len() implies (#[trigger] log[i]).term <= term by {
        assert(log[i] == theirs[i]);
    }
}

/// A node that has taken over the leader's entries is as recorded.
proof fn lemma_taken_over(
    genesis: Seq<NodeId>,
    r: Record,
    current: NodeState,
    request: AppendEntriesView,
    after: NodeState,
) -> (next: Record)
    requires
        r.consistent(genesis),
        record::node_matches(genesis, r, current),
        record::entries_match(genesis, r, request.leader_id, request),
        request.leader_id != current.id,
        current.role == Role::Follower,
        current.current_term == request.term,
        current.prev_log_matches(request),
        after == (NodeState {
            log: current.merged(request).0,
            commit_index: if request.leader_commit > current.commit_index {
                request.leader_commit
            } else {
                current.commit_index
            },
            ..current
        }),
        after.wf(),
    ensures
        next == r.with_ack(
            current.id,
            request.term,
            request.prev_log_index as nat + request.entries.len(),
        ),
        next.consistent(genesis),
        r.grows_to(next),
        r.adds_only(next, current.id),
        record::node_matches(genesis, next, after),
        record::agree(r.full(current), next.full(after), current.commit_index as int),
{
    let term = request.term;
    let id = current.id;
    let theirs = r.logs[term];
    let ours = r.full(current);
    let end = (request.prev_log_index + request.entries.len()) as nat;
    updates::lemma_ack(genesis, r, current, end);
    let next = r.with_ack(id, term, end);
    let log = merged_full(r, current, request);
    assert(next.full(after) == log);
    lemma_merged(genesis, r, current, request, 0);
    lemma_part_rooted(genesis, r, term, end as int);
    growth::lemma_rooted_grows(r, next, log);
    assert forall|m: int| #[trigger] record::agree(ours, theirs, m) implies record::agree(
        ours,
        log,
        m,
    ) by {
        lemma_merged(genesis, r, current, request, m);
    }
    lemma_acks_taken_over(genesis, r, next, current, after, end);
    let commit = current.commit_index as int;
    lemma_committed_shared(genesis, r, current, commit);
    assert(record::agree(ours, log, commit));
    assert(record::commits_match(genesis, next, after)) by {
        growth::lemma_committed_grows(genesis, r, next, term, commit, ours, term);
        growth::lemma_committed_elsewhere(genesis, next, term, commit, ours, log);
        let leader_commit = request.leader_commit as int;
        growth::lemma_committed_grows(genesis, r, next, term, leader_commit, theirs, term);
        growth::lemma_committed_elsewhere(genesis, next, term, leader_commit, theirs, log);
    }
    lemma_same_votes(r, next, current, after);
    next
}

/// A node that has neither voted nor changed its term has the same votes.
pub proof fn lemma_same_votes(r: Record, next: Record, s: NodeState, after: NodeState)
    requires
        record::votes_match(r, s),
        next.votes == r.votes,
        after.id == s.id,
        after.current_term == s.current_term,
        after.voted_for == s.voted_for,
    ensures
        record::votes_match(next, after),
{
    assert forall|t: u64| t > s.current_term implies (#[trigger] next.voted(s.id, t)) is None by {
        assert(r.voted(s.id, t) is None);
    }
    assert(next.voted(s.id, s.current_term) == r.voted(s.id, s.current_term));
}

/// Entries from a leader.
pub proof fn lemma_append_entries(
    genesis: Seq<NodeId>,
    r: Record,
    s: NodeState,
    from: NodeId,
    request: AppendEntriesView,
) -> (next: Record)
    requires
        r.consistent(genesis),
        record::node_matches(genesis, r, s),
        from != s.id,
        record::entries_match(genesis, r, from, request),
        s.on_append_entries(from, request).0.wf(),
    ensures
        steps::accounted(
            genesis,
            r,
            next,
            s,
            s.on_append_entries(from, request).0,
            s.on_append_entries(from, request).1,
        ),
        r.adds_no_entry(next),
{
    let (after, effects) = s.on_append_entries(from, request);
    if request.term < s.current_term {
        r
    } else {
        let current = s.follow(request.term);
        lemma_follow(genesis, r, s, request.term);
        let persist_term = current.persist_new_term(s);
        if !current.prev_log_matches(request) {
            let reply = current.append_response(from, false, 0);
            assert forall|i: int| 0 <= i < effects.len() implies ((
            #[trigger] effects[i]) matches EffectView::Send { to, message }
                ==> record::message_matches(genesis, r, s.id, to, message)) by {
                if i < persist_term.len() {
                    assert(effects[i] == persist_term[i]);
                } else {
                    assert(effects[i] == reply);
                }
            }
            r
        } else {
            let end = request.prev_log_index + request.entries.len();
            lemma_merged(genesis, r, current, request, 0);
            let log = current.merged(request).0;
            assert(r.base(s.id).len() + log.len() >= end);
            assert(after == (NodeState {
                log,
                commit_index: if request.leader_commit > current.commit_index {
                    request.leader_commit
                } else {
                    current.commit_index
                },
                ..current
            }));
            let next = lemma_taken_over(genesis, r, current, request, after);
            let reply = after.append_response(from, true, end as u64);
            assert forall|i: int| 0 <= i < effects.len() implies ((
            #[trigger] effects[i]) matches EffectView::Send { to, message }
                ==> record::message_matches(genesis, next, s.id, to, message)) by {
                if i < persist_term.len() {
                    assert(effects[i] == persist_term[i]);
                } else if i == effects.len() - 1 {
                    assert(effects[i] == reply);
                    assert(next.led(request.term));
                    assert(next.acked(s.id, request.term) >= end);
                } else {
                    assert(effects[i] is PersistLog);
                }
            }
            next
        }
    }
}

/// A node that has the point a snapshot ends at shares the leader's log up to
/// there; one that has not does not share it that far.
proof fn lemma_covers(
    genesis: Seq<NodeId>,
    r: Record,
    s: NodeState,
    request: InstallSnapshotView,
)
    requires
        r.consistent(genesis),
        record::node_matches(genesis, r, s),
        s.current_term == request.term,
        record::transfer_matches(genesis, r, request.leader_id, request),
    ensures
        s.covers(request) == record::agree(
            r.full(s),
            r.logs[request.term],
            request.last_included_index as int,
        ),
{
    let end = request.last_included_index as int;
    if end < s.boundary() {
        lemma_committed_shared(genesis, r, s, end);
    } else {
        lemma_term_at(genesis, r, s, end);
        if s.covers(request) {
            lemma_same_as_leader(genesis, r, s, end);
        }
    }
}

/// A node that already has what a snapshot covers.
proof fn lemma_covered(
    genesis: Seq<NodeId>,
    r: Record,
    s: NodeState,
    request: InstallSnapshotView,
) -> (next: Record)
    requires
        r.consistent(genesis),
        record::node_matches(genesis, r, s),
        s.current_term == request.term,
        s.role == Role::Follower,
        request.leader_id != s.id,
        record::transfer_matches(genesis, r, request.leader_id, request),
        s.covers(request),
    ensures
        next.consistent(genesis),
        r.grows_to(next),
        r.adds_only(next, s.id),
        r.adds_no_entry(next),
        record::node_matches(genesis, next, s),
        next.full(s) == r.full(s),
        request.last_included_index <= next.acked(s.id, request.term),
{
    let term = request.term;
    let end = request.last_included_index as nat;
    updates::lemma_ack(genesis, r, s, end);
    let next = r.with_ack(s.id, term, end);
    lemma_covers(genesis, r, s, request);
    growth::lemma_rooted_grows(r, next, r.full(s));
    growth::lemma_committed_grows(
        genesis,
        r,
        next,
        term,
        s.commit_index as int,
        r.full(s),
        term,
    );
    lemma_acks_taken_over(genesis, r, next, s, s, end);
    lemma_same_votes(r, next, s, s);
    next
}

/// A node takes over a snapshot.
proof fn lemma_installed(
    genesis: Seq<NodeId>,
    r: Record,
    s: NodeState,
    request: InstallSnapshotView,
) -> (next: Record)
    requires
        r.consistent(genesis),
        record::node_matches(genesis, r, s),
        s.current_term == request.term,
        s.role == Role::Follower,
        request.leader_id != s.id,
        record::transfer_matches(genesis, r, request.leader_id, request),
        !s.covers(request),
    ensures
        next.consistent(genesis),
        r.grows_to(next),
        r.adds_only(next, s.id),
        r.adds_no_entry(next),
        record::node_matches(genesis, next, s.install(request)),
        record::agree(r.full(s), next.full(s.install(request)), s.commit_index as int),
        request.last_included_index <= next.acked(s.id, request.term),
{
    let term = request.term;
    let end = request.last_included_index as nat;
    let theirs = r.logs[term];
    let ours = r.full(s);
    let log = theirs.take(end as int);
    updates::lemma_ack(genesis, r, s, end);
    let acked = r.with_ack(s.id, term, end);
    updates::lemma_base(genesis, acked, s.id, log);
    let next = acked.with_base(s.id, log);
    growth::lemma_grows_twice(r, acked, next, s.id);
    let after = s.install(request);
    assert(next.full(after) =~= log);
    lemma_covers(genesis, r, s, request);
    lemma_part_rooted(genesis, r, term, end as int);
    growth::lemma_rooted_grows(r, next, log);
    assert forall|m: int| #[trigger] record::agree(ours, theirs, m) implies record::agree(
        ours,
        log,
        m,
    ) by {
        if m >= end {
            assert(record::agree(ours, theirs, end as int));
        }
        assert forall|j: int| 0 <= j < m implies ours[j] == log[j] by {
            assert(ours[j] == theirs[j]);
        }
    }
    lemma_acks_taken_over(genesis, r, next, s, after, end);
    let commit = s.commit_index as int;
    lemma_committed_shared(genesis, r, s, commit);
    assert(record::agree(ours, theirs, commit));
    assert(record::agree(ours, log, commit));
    assert(record::commits_match(genesis, next, after)) by {
        growth::lemma_committed_grows(genesis, r, next, term, end as int, theirs, term);
        growth::lemma_committed_elsewhere(genesis, next, term, end as int, theirs, log);
    }
    lemma_same_votes(r, next, s, after);
    assert(log.last() == theirs[end - 1]);
    next
}

/// A snapshot from a leader.
pub proof fn lemma_install_snapshot(
    genesis: Seq<NodeId>,
    r: Record,
    s: NodeState,
    from: NodeId,
    request: InstallSnapshotView,
) -> (next: Record)
    requires
        r.consistent(genesis),
        record::node_matches(genesis, r, s),
        from != s.id,
        record::transfer_matches(genesis, r, from, request),
    ensures
        steps::accounted(
            genesis,
            r,
            next,
            s,
            s.on_install_snapshot(from, request).0,
            s.on_install_snapshot(from, request).1,
        ),
        r.adds_no_entry(next),
{
    let (after, effects) = s.on_install_snapshot(from, request);
    if request.term < s.current_term {
        growth::lemma_committed_part(
            genesis,
            r,
            s.current_term,
            s.commit_index as int,
            r.full(s),
            s.boundary(),
        );
        r
    } else {
        let current = s.follow(request.term);
        lemma_follow(genesis, r, s, request.term);
        let persist_term = current.persist_new_term(s);
        let reply = current.snapshot_response(from, request.last_included_index);
        let next = if current.covers(request) {
            lemma_covered(genesis, r, current, request)
        } else {
            lemma_installed(genesis, r, current, request)
        };
        assert forall|i: int| 0 <= i < effects.len() implies ((
        #[trigger] effects[i]) matches EffectView::Send { to, message } ==> record::message_matches(
            genesis,
            next,
            s.id,
            to,
            message,
        )) by {
            if i < persist_term.len() {
                assert(effects[i] == persist_term[i]);
            } else if i == effects.len() - 1 {
                assert(effects[i] == reply);
            } else {
                assert(effects[i] !is Send);
            }
        }
        next
    }
}

} // verus!
