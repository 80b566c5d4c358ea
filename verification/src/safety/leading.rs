//! What leaders do keeps them and the record in accord: entries appended,
//! answers counted, and commits.

use vstd::prelude::*;

use crate::raft::laws;
use crate::raft::model;
use crate::raft::model::NodeState;
use crate::raft::types::{
    AppendEntriesResponse, EffectView, InstallSnapshotResponse, LogEntryView, LogPayloadView,
    NodeId, Role,
};
use crate::safety::facts;
use crate::safety::growth;
use crate::safety::record;
use crate::safety::record::Record;
use crate::safety::replication;
use crate::safety::steps;
use crate::safety::updates;

verus! {

/// Where everyone whose progress reaches `n` belongs to a set, it is counted
/// at least as often.
proof fn lemma_count_progress(s: NodeState, ids: Seq<NodeId>, n: u64, set: Set<NodeId>)
    requires
        forall|id: NodeId| (#[trigger] s.progress(id)) >= n ==> set.contains(id),
    ensures
        model::count_at_least(s.progress_of(ids), n) <= model::count_in(ids, set),
    decreases ids.len(),
{
    if ids.len() > 0 {
        let rest = ids.drop_last();
        assert(s.progress_of(ids).drop_last() =~= s.progress_of(rest));
        lemma_count_progress(s, rest, n, set);
        assert(s.progress_of(ids).last() == s.progress(ids.last()));
    }
}

/// Whatever a leader counts as replicated is certified.
proof fn lemma_replicated(genesis: Seq<NodeId>, r: Record, s: NodeState)
    requires
        r.consistent(genesis),
        record::node_matches(genesis, r, s),
        s.role == Role::Leader,
        s.config().voters.len() > 0,
        s.config().old_voters matches Some(old) ==> old.len() > 0,
        s.commit_replicated().commit_index > s.commit_index,
    ensures
        s.commit_replicated().commit_index <= r.full(s).len(),
        r.committed(
            genesis,
            s.current_term,
            s.commit_replicated().commit_index as int,
            r.full(s),
        ),
{
    let term = s.current_term;
    let log = r.full(s);
    let n = s.commit_replicated().commit_index;
    laws::commit_takes_a_majority(s);
    replication::lemma_term_at(genesis, r, s, n as int);
    assert(n <= log.len() && log[n - 1].term == term);
    assert(r.log_recorded(genesis, term));
    let holders = r.holders(term, n as int);
    if exists|id: NodeId| s.progress(id) >= n && !holders.contains(id) {
        let id = choose|id: NodeId| s.progress(id) >= n && !holders.contains(id);
        assert(id != s.id);
        assert(s.match_index.contains_key(id));
        facts::lemma_reached_in_leader(genesis, r, term, s.match_index[id] as int, term);
        growth::lemma_committed_part(
            genesis,
            r,
            term,
            s.match_index[id] as int,
            log,
            n as int,
        );
    } else {
        let config = s.config();
        assert(log.take(log.len() as int) =~= log);
        lemma_count_progress(s, config.voters, n, holders);
        if config.old_voters is Some {
            lemma_count_progress(s, config.old_voters->0, n, holders);
        }
        assert(r.certified(genesis, term, n as int, log.len() as int));
    }
}

/// A leader commits what it counts as replicated.
proof fn lemma_commit(genesis: Seq<NodeId>, r: Record, s: NodeState)
    requires
        r.consistent(genesis),
        record::node_matches(genesis, r, s),
        s.role == Role::Leader,
        s.config().voters.len() > 0,
        s.config().old_voters matches Some(old) ==> old.len() > 0,
    ensures
        record::node_matches(genesis, r, s.commit_replicated()),
        r.full(s.commit_replicated()) == r.full(s),
        s.commit_index <= s.commit_replicated().commit_index,
{
    if s.commit_replicated().commit_index > s.commit_index {
        lemma_replicated(genesis, r, s);
    }
}

/// A leader's log with one more entry.
proof fn lemma_appended(genesis: Seq<NodeId>, r: Record, s: NodeState, payload: LogPayloadView)
    requires
        record::snapshot_matches(genesis, r, s),
        s.config() == record::config_of(genesis, r.full(s)),
    ensures
        r.full(s.append(payload)) == r.full(s).push(
            (LogEntryView { term: s.current_term, payload }),
        ),
        s.append(payload).config() == record::config_of(genesis, r.full(s.append(payload))),
{
    let entry = LogEntryView { term: s.current_term, payload };
    assert(r.full(s.append(payload)) =~= r.full(s).push(entry));
    model::lemma_latest_push(r.full(s), entry);
    model::lemma_latest_push(s.log, entry);
}

/// A leader appends an entry.
proof fn lemma_append(genesis: Seq<NodeId>, r: Record, s: NodeState, payload: LogPayloadView)
    requires
        r.consistent(genesis),
        record::node_matches(genesis, r, s),
        s.role == Role::Leader,
        s.can_extend(),
        updates::may_append(s, (LogEntryView { term: s.current_term, payload })),
    ensures
        ({
            let next = r.with_entry(
                s.current_term,
                (LogEntryView { term: s.current_term, payload }),
            );
            let grown = s.append(payload);
            &&& next.consistent(genesis)
            &&& r.grows_to(next)
            &&& r.adds_only(next, s.id)
            &&& record::node_matches(genesis, next, grown)
            &&& next.full(grown) == r.full(s).push(
                (LogEntryView { term: s.current_term, payload }),
            )
        }),
{
    let term = s.current_term;
    let entry = LogEntryView { term, payload };
    let log = r.full(s);
    updates::lemma_entry(genesis, r, s, entry);
    let next = r.with_entry(term, entry);
    let grown = s.append(payload);
    lemma_appended(genesis, r, s, payload);
    assert(next.full(grown) == log.push(entry));
    let commit = s.commit_index as int;
    growth::lemma_committed_grows(genesis, r, next, term, commit, log, term);
    growth::lemma_committed_elsewhere(genesis, next, term, commit, log, log.push(entry));
    assert(next.led(term));
    assert(next.log_recorded(genesis, term));
    facts::lemma_leader_terms(genesis, next, term);
    replication::lemma_same_votes(r, next, s, grown);
    assert(record::leadership_matches(genesis, next, grown)) by {
        assert forall|id: NodeId| #[trigger]
            grown.match_index.contains_key(id) implies grown.match_index[id] <= next.full(
            grown,
        ).len() && (grown.match_index[id] <= next.acked(id, term) || next.reached(
            genesis,
            term,
            grown.match_index[id] as int,
        )) by {
            assert(s.match_index.contains_key(id));
            assert(r.acked(id, term) <= next.acked(id, term));
            if s.match_index[id] > r.acked(id, term) {
                growth::lemma_reached_grows(genesis, r, next, term, s.match_index[id] as int);
            }
        }
    }
    assert(record::acks_match(next, grown)) by {
        assert forall|t: u64| (#[trigger] next.acked(s.id, t)) > 0 implies t <= term by {
            if t != term {
                assert(r.acked(s.id, t) > 0);
            }
        }
        assert forall|t: u64, n: int|
            0 < n <= next.acked(s.id, t) && #[trigger] next.kept(t, n, term as int) implies record::agree(
            next.full(grown),
            next.logs[t],
            n,
        ) by {
            if t != term {
                assert(r.acked(s.id, t) > 0);
                assert(r.led(t));
                growth::lemma_kept_before(genesis, r, next, t, n, term as int);
                assert(record::agree(log, r.logs[t], n));
            }
        }
    }
}

/// Whether none of the effects is a message.
pub open spec fn sends_nothing(effects: Seq<EffectView>) -> bool {
    forall|i: int| 0 <= i < effects.len() ==> (#[trigger] effects[i]) !is Send
}

/// A leader left out of a committed configuration retires.
proof fn lemma_retire(genesis: Seq<NodeId>, r: Record, s: NodeState)
    requires
        record::node_matches(genesis, r, s),
    ensures
        record::node_matches(genesis, r, s.retire_if_excluded()),
        r.full(s.retire_if_excluded()) == r.full(s),
{
}

/// A leader advances its commit index, and ends a transition it commits.
proof fn lemma_advance(genesis: Seq<NodeId>, r: Record, s: NodeState) -> (next: Record)
    requires
        r.consistent(genesis),
        record::node_matches(genesis, r, s),
        s.role == Role::Leader,
        s.can_advance(),
    ensures
        ({
            let (after, effects) = s.advance_commit();
            &&& next.consistent(genesis)
            &&& r.grows_to(next)
            &&& r.adds_only(next, s.id)
            &&& next == r || (s.config().is_joint() && next == r.with_end(s))
            &&& after.id == s.id
            &&& s.commit_index <= after.commit_index
            &&& record::agree(r.full(s), next.full(after), s.commit_index as int)
            &&& record::node_matches(genesis, next, after)
            &&& sends_nothing(effects)
            &&& after.role == Role::Leader ==> after.next_index == s.next_index
        }),
{
    let committed = s.commit_replicated();
    lemma_commit(genesis, r, s);
    assert(committed.config() == s.config());
    if committed.transition_committed() {
        let payload = LogPayloadView::Configuration(committed.settled_config());
        lemma_append(genesis, r, committed, payload);
        let next = r.with_entry(
            s.current_term,
            LogEntryView { term: s.current_term, payload },
        );
        let settled = committed.append(payload);
        model::lemma_latest_push(committed.log, settled.log.last());
        assert(settled.config() == committed.settled_config());
        lemma_commit(genesis, next, settled);
        lemma_retire(genesis, next, settled.commit_replicated());
        next
    } else {
        lemma_retire(genesis, r, committed);
        r
    }
}

/// A leader hears how far a peer's log matches its own.
proof fn lemma_acknowledged(
    genesis: Seq<NodeId>,
    r: Record,
    s: NodeState,
    peer: NodeId,
    index: u64,
) -> (next: Record)
    requires
        r.consistent(genesis),
        record::node_matches(genesis, r, s),
        s.role == Role::Leader,
        peer != s.id,
        s.can_acknowledge(peer, index),
        index <= r.acked(peer, s.current_term) || r.reached(genesis, s.current_term, index as int),
    ensures
        steps::accounted(
            genesis,
            r,
            next,
            s,
            s.on_acknowledged(peer, index).0,
            s.on_acknowledged(peer, index).1,
        ),
        next == r || (s.config().is_joint() && next == r.with_end(s)),
{
    let term = s.current_term;
    let known = s.acknowledge(peer, index);
    let reached = model::max_u64(s.match_index[peer], index);
    assert(r.led(term));
    assert(index <= r.full(s).len()) by {
        if index > r.acked(peer, term) {
            facts::lemma_reached_in_leader(genesis, r, term, index as int, term);
        } else if r.acked(peer, term) > 0 {
            assert(r.acked(peer, term) <= r.logs[term].len());
        }
    }
    assert(record::leadership_matches(genesis, r, known)) by {
        assert(s.match_index.contains_key(peer));
        assert forall|id: NodeId| #[trigger]
            known.match_index.contains_key(id) implies known.match_index[id] <= r.full(
            known,
        ).len() && (known.match_index[id] <= r.acked(id, term) || r.reached(
            genesis,
            term,
            known.match_index[id] as int,
        )) by {
            if id != peer {
                assert(s.match_index.contains_key(id));
            }
        }
        assert forall|id: NodeId| #[trigger] known.next_index.contains_key(id) implies 1
            <= known.next_index[id] <= r.full(known).len() + 1 by {
            if id != peer {
                assert(s.next_index.contains_key(id));
            }
        }
    }
    assert(known.wf()) by {
        assert(known.match_index.dom() =~= s.match_index.dom().insert(peer));
        assert(known.next_index.dom() =~= s.next_index.dom().insert(peer));
    }
    assert(record::node_matches(genesis, r, known));
    let next = lemma_advance(genesis, r, known);
    let (after, effects) = known.advance_commit();
    let retry = after.retry(peer);
    let all = effects + retry;
    if after.role == Role::Leader {
        steps::lemma_replicate(genesis, next, after, peer);
    }
    assert forall|i: int| 0 <= i < all.len() implies ((#[trigger] all[i]) matches EffectView::Send {
        to,
        message,
    } ==> record::message_matches(genesis, next, s.id, to, message)) by {
        if i < effects.len() {
            assert(all[i] == effects[i]);
        } else {
            assert(all[i] == retry[i - effects.len()]);
        }
    }
    next
}

/// The answer to entries sent.
pub proof fn lemma_append_response(
    genesis: Seq<NodeId>,
    r: Record,
    s: NodeState,
    from: NodeId,
    response: AppendEntriesResponse,
) -> (next: Record)
    requires
        r.consistent(genesis),
        record::node_matches(genesis, r, s),
        from != s.id,
        response.success ==> response.match_index <= r.acked(from, response.term) && r.led(
            response.term,
        ),
        s.can_take_append_response(from, response),
    ensures
        steps::accounted(
            genesis,
            r,
            next,
            s,
            s.on_append_entries_response(from, response).0,
            s.on_append_entries_response(from, response).1,
        ),
        r.adds_no_entry(next) || (s.role == Role::Leader && s.config().is_joint() && next
            == r.with_end(s)),
{
    if response.term > s.current_term {
        steps::lemma_step_down(genesis, r, s, response.term);
        r
    } else if response.term < s.current_term || s.role != Role::Leader {
        r
    } else if response.success {
        lemma_acknowledged(genesis, r, s, from, response.match_index)
    } else {
        let after = s.back_off(from);
        assert(record::leadership_matches(genesis, r, after)) by {
            assert(s.next_index.contains_key(from));
            assert forall|id: NodeId| #[trigger] after.next_index.contains_key(id) implies 1
                <= after.next_index[id] <= r.full(after).len() + 1 by {
                if id != from {
                    assert(s.next_index.contains_key(id));
                }
            }
        }
        assert(after.next_index.dom() =~= s.next_index.dom().insert(from));
        assert(record::node_matches(genesis, r, after));
        steps::lemma_replicate(genesis, r, after, from);
        r
    }
}

/// The answer to a snapshot sent.
pub proof fn lemma_snapshot_response(
    genesis: Seq<NodeId>,
    r: Record,
    s: NodeState,
    from: NodeId,
    response: InstallSnapshotResponse,
) -> (next: Record)
    requires
        r.consistent(genesis),
        record::node_matches(genesis, r, s),
        from != s.id,
        response.last_included_index <= r.acked(from, response.term) || r.reached(
            genesis,
            response.term,
            response.last_included_index as int,
        ),
        s.can_take_snapshot_response(from, response),
    ensures
        steps::accounted(
            genesis,
            r,
            next,
            s,
            s.on_install_snapshot_response(from, response).0,
            s.on_install_snapshot_response(from, response).1,
        ),
        r.adds_no_entry(next) || (s.role == Role::Leader && s.config().is_joint() && next
            == r.with_end(s)),
{
    if response.term > s.current_term {
        steps::lemma_step_down(genesis, r, s, response.term);
        r
    } else if response.term < s.current_term || s.role != Role::Leader {
        r
    } else {
        lemma_acknowledged(genesis, r, s, from, response.last_included_index)
    }
}

/// A leader appends an entry and commits what it can.
pub proof fn lemma_append_and_advance(
    genesis: Seq<NodeId>,
    r: Record,
    s: NodeState,
    payload: LogPayloadView,
) -> (next: Record)
    requires
        r.consistent(genesis),
        record::node_matches(genesis, r, s),
        s.role == Role::Leader,
        s.can_append_and_advance(payload),
        updates::may_append(s, (LogEntryView { term: s.current_term, payload })),
    ensures
        steps::accounted(
            genesis,
            r,
            next,
            s,
            s.append_and_advance(payload).0,
            s.append_and_advance(payload).1,
        ),
        ({
            let appended = r.with_entry(
                s.current_term,
                (LogEntryView { term: s.current_term, payload }),
            );
            let grown = s.append(payload);
            next == appended || (grown.config().is_joint() && next == appended.with_end(grown))
        }),
{
    let entry = LogEntryView { term: s.current_term, payload };
    let grown = s.append(payload);
    lemma_append(genesis, r, s, payload);
    let appended = r.with_entry(s.current_term, entry);
    let next = lemma_advance(genesis, appended, grown);
    growth::lemma_grows_twice(r, appended, next, s.id);
    let (after, effects) = grown.advance_commit();
    let all = seq![grown.persist_last()] + effects;
    assert forall|i: int| 0 <= i < all.len() implies (#[trigger] all[i]) !is Send by {
        if i > 0 {
            assert(all[i] == effects[i - 1]);
        }
    }
    let commit = s.commit_index as int;
    assert(record::agree(r.full(s), next.full(after), commit)) by {
        assert forall|j: int| 0 <= j < commit implies r.full(s)[j] == next.full(after)[j] by {
            assert(appended.full(grown)[j] == r.full(s)[j]);
            assert(appended.full(grown)[j] == next.full(after)[j]);
        }
    }
    next
}

} // verus!
