//! Membership changes, compaction and recovery keep nodes and record in
//! accord, and so does every event.

use vstd::prelude::*;

use crate::raft::laws;
use crate::raft::model;
use crate::raft::model::NodeState;
use crate::raft::types::{EffectView, EventView, LogEntryView, LogPayloadView, MessageView, NodeId, Role};
use crate::safety::growth;
use crate::safety::leading;
use crate::safety::record;
use crate::safety::record::Record;
use crate::safety::replication;
use crate::safety::steps;
use crate::safety::updates;

verus! {

/// A node whose learners alone have changed is as recorded.
proof fn lemma_learners(genesis: Seq<NodeId>, r: Record, s: NodeState, after: NodeState)
    requires
        record::node_matches(genesis, r, s),
        after == (NodeState { learners: after.learners, ..s }),
        after.learners.finite(),
    ensures
        record::node_matches(genesis, r, after),
        r.full(after) == r.full(s),
        after.config() == s.config(),
{
}

/// A leader begins a transition where there is none.
pub proof fn lemma_config_change(
    genesis: Seq<NodeId>,
    r: Record,
    s: NodeState,
    new_voters: Seq<NodeId>,
) -> (next: Record)
    requires
        r.consistent(genesis),
        record::node_matches(genesis, r, s),
        s.role == Role::Leader,
        !s.config().is_joint(),
        s.can_change_config(new_voters),
    ensures
        steps::accounted(
            genesis,
            r,
            next,
            s,
            s.change_config(new_voters).0,
            s.change_config(new_voters).1,
        ),
        ({
            let payload = LogPayloadView::Configuration(s.joint_config(new_voters));
            let appended = r.with_entry(
                s.current_term,
                (LogEntryView { term: s.current_term, payload }),
            );
            next == appended || next == appended.with_end(s.append(payload))
        }),
{
    let kept = s.without_promoted(new_voters);
    let payload = LogPayloadView::Configuration(s.joint_config(new_voters));
    lemma_learners(genesis, r, s, kept);
    assert(kept.append(payload).config() == s.append(payload).config());
    let next = leading::lemma_append_and_advance(genesis, r, kept, payload);
    let (after, effects) = kept.append_and_advance(payload);
    let all = s.change_config(new_voters).1;
    let skipped = all.len() - effects.len();
    assert forall|i: int| 0 <= i < all.len() implies ((#[trigger] all[i]) matches EffectView::Send {
        to,
        message,
    } ==> record::message_matches(genesis, next, s.id, to, message)) by {
        if i >= skipped {
            assert(all[i] == effects[i - skipped]);
        }
    }
    next
}

/// A leader takes on a learner.
pub proof fn lemma_add_learner(genesis: Seq<NodeId>, r: Record, s: NodeState, id: NodeId)
    requires
        record::node_matches(genesis, r, s),
        s.takes_learner(id),
        s.can_extend(),
    ensures
        record::node_matches(genesis, r, s.add_learner(id)),
        r.full(s.add_learner(id)) == r.full(s),
{
    let after = s.add_learner(id);
    assert(after.next_index.dom() =~= s.next_index.dom().insert(id));
    assert(after.match_index.dom() =~= s.match_index.dom().insert(id));
    assert(record::leadership_matches(genesis, r, after)) by {
        assert forall|other: NodeId| #[trigger]
            after.match_index.contains_key(other) implies after.match_index[other] <= r.full(
            after,
        ).len() && (after.match_index[other] <= r.acked(other, s.current_term) || r.reached(
            genesis,
            s.current_term,
            after.match_index[other] as int,
        )) by {
            assert(other == id || s.match_index.contains_key(other));
        }
        assert forall|other: NodeId| #[trigger] after.next_index.contains_key(other) implies 1
            <= after.next_index[other] <= r.full(after).len() + 1 by {
            assert(other == id || s.next_index.contains_key(other));
        }
    }
}

/// A leader dismisses a learner.
pub proof fn lemma_remove_learner(genesis: Seq<NodeId>, r: Record, s: NodeState, id: NodeId)
    requires
        record::node_matches(genesis, r, s),
    ensures
        record::node_matches(genesis, r, s.remove_learner(id)),
        r.full(s.remove_learner(id)) == r.full(s),
{
    lemma_learners(genesis, r, s, s.remove_learner(id));
}

/// A node compacts part of what it has committed.
pub proof fn lemma_compact(
    genesis: Seq<NodeId>,
    r: Record,
    s: NodeState,
    up_to: int,
    data: Seq<u8>,
) -> (next: Record)
    requires
        r.consistent(genesis),
        record::node_matches(genesis, r, s),
        s.boundary() < up_to <= s.commit_index,
    ensures
        next.consistent(genesis),
        r.grows_to(next),
        r.adds_only(next, s.id),
        r.adds_no_entry(next),
        record::node_matches(genesis, next, s.compact(up_to, data)),
        next.full(s.compact(up_to, data)) == r.full(s),
{
    let log = r.full(s);
    let base = r.base(s.id);
    let covered = up_to - s.boundary();
    let after = s.compact(up_to, data);
    updates::lemma_base(genesis, r, s.id, log.take(up_to));
    let next = r.with_base(s.id, log.take(up_to));
    assert(next.base(s.id) == log.take(up_to));
    assert(log.take(up_to) =~= base + s.log.take(covered));
    assert(next.full(after) =~= log);
    assert(log.take(up_to).last() == s.log[covered - 1]);
    model::lemma_latest_concat(base, s.log.take(covered));
    model::lemma_compact_config(s, up_to, data);
    growth::lemma_rooted_grows(r, next, log);
    growth::lemma_committed_grows(
        genesis,
        r,
        next,
        s.current_term,
        s.commit_index as int,
        log,
        s.current_term,
    );
    assert forall|t: u64| (#[trigger] next.acked(s.id, t)) == r.acked(s.id, t) by {}
    growth::lemma_acks_stay(genesis, r, next, s, after);
    replication::lemma_same_votes(r, next, s, after);
    assert(record::candidacy_matches(genesis, next, after)) by {
        if s.role == Role::Candidate {
            assert forall|id: NodeId| #[trigger] s.votes_granted.contains(id) implies next.voted(
                id,
                s.current_term,
            ) == Some(s.id) by {
                assert(r.voted(id, s.current_term) is Some);
            }
        }
    }
    assert(record::leadership_matches(genesis, next, after)) by {
        if s.role == Role::Leader {
            assert forall|id: NodeId| #[trigger]
                after.match_index.contains_key(id) implies after.match_index[id] <= next.full(
                after,
            ).len() && (after.match_index[id] <= next.acked(id, s.current_term) || next.reached(
                genesis,
                s.current_term,
                after.match_index[id] as int,
            )) by {
                assert(next.acked(id, s.current_term) == r.acked(id, s.current_term));
                if s.match_index[id] > r.acked(id, s.current_term) {
                    growth::lemma_reached_grows(
                        genesis,
                        r,
                        next,
                        s.current_term,
                        s.match_index[id] as int,
                    );
                }
            }
        }
    }
    next
}

/// A node that has lost everything but what it made durable.
pub proof fn lemma_recovered(genesis: Seq<NodeId>, r: Record, s: NodeState, after: NodeState)
    requires
        record::node_matches(genesis, r, s),
        after.id == s.id,
        after.role == Role::Follower,
        after.current_term == s.current_term,
        after.voted_for == s.voted_for,
        after.log == s.log,
        after.snapshot == s.snapshot,
        after.snapshot_config == s.snapshot_config,
        after.commit_index == s.boundary(),
        after.wf(),
    ensures
        record::node_matches(genesis, r, after),
        r.full(after) == r.full(s),
{
    growth::lemma_committed_part(
        genesis,
        r,
        s.current_term,
        s.commit_index as int,
        r.full(s),
        s.boundary(),
    );
}

/// A node that has just come into being, as a voter or as one that does not
/// know of any.
pub proof fn lemma_fresh(genesis: Seq<NodeId>, r: Record, s: NodeState)
    requires
        r == Record::blank(),
        s.wf(),
        s.role == Role::Follower,
        s.current_term == 0,
        s.voted_for is None,
        s.log.len() == 0,
        s.boundary() == 0,
        s.snapshot.last_included_term == 0,
        s.commit_index == 0,
        s.snapshot_config == record::stable(genesis) || s.snapshot_config == record::stable(
            Seq::empty(),
        ),
    ensures
        record::node_matches(genesis, r, s),
{
    reveal(Record::rooted);
    assert(r.full(s) =~= Seq::empty());
}

/// One event.
pub proof fn lemma_step(genesis: Seq<NodeId>, r: Record, s: NodeState, event: EventView) -> (next:
    Record)
    requires
        r.consistent(genesis),
        record::node_matches(genesis, r, s),
        s.can_step(event),
        event matches EventView::Step { from, message } ==> record::message_matches(
            genesis,
            r,
            from,
            s.id,
            message,
        ),
    ensures
        steps::accounted(genesis, r, next, s, s.step(event).0, s.step(event).1),
        r.adds_no_entry(next) || (s.role == Role::Leader && s.config().is_joint() && next
            == r.with_end(s)),
{
    laws::step_keeps_wf(s, event);
    match event {
        EventView::Tick { next_timeout } => steps::lemma_tick(genesis, r, s, next_timeout),
        EventView::Step { from, message } => match message {
            MessageView::RequestVote(request) => if s.is_member(from) {
                steps::lemma_request_vote(genesis, r, s, from, request)
            } else {
                r
            },
            MessageView::RequestVoteResponse(response) => if s.is_member(from) {
                steps::lemma_vote_response(genesis, r, s, from, response)
            } else {
                r
            },
            MessageView::AppendEntries(request) => replication::lemma_append_entries(
                genesis,
                r,
                s,
                from,
                request,
            ),
            MessageView::AppendEntriesResponse(response) => if s.is_member(from) {
                leading::lemma_append_response(genesis, r, s, from, response)
            } else {
                r
            },
            MessageView::InstallSnapshot(request) => replication::lemma_install_snapshot(
                genesis,
                r,
                s,
                from,
                request,
            ),
            MessageView::InstallSnapshotResponse(response) => if s.is_member(from) {
                leading::lemma_snapshot_response(genesis, r, s, from, response)
            } else {
                r
            },
        },
    }
}

} // verus!
