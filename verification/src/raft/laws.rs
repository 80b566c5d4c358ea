//! What holds of every transition of a node.

use vstd::prelude::*;

use crate::raft::ids;
use crate::raft::model;
use crate::raft::model::NodeState;
use crate::raft::types::{
    AppendEntriesView, ClusterConfigView, EffectView, EventView, InstallSnapshotView, LogEntryView,
    LogPayloadView, MessageView, NodeId, RequestVote, Role,
};

verus! {

/// A transition keeps the state well formed.
pub proof fn step_keeps_wf(s: NodeState, event: EventView)
    requires
        s.wf(),
        s.can_step(event),
    ensures
        s.step(event).0.wf(),
{
    match event {
        EventView::Tick { next_timeout } => {
            lemma_tick_keeps_wf(s, next_timeout);
        },
        EventView::Step { from, message } => {
            match message {
                MessageView::RequestVoteResponse(_) => {
                    let counted = NodeState { votes_granted: s.votes_granted.insert(from), ..s };
                    lemma_seed_finite(counted);
                },
                MessageView::AppendEntries(request) => {
                    if request.leader_id == from && request.term >= s.current_term {
                        let current = s.follow(request.term);
                        if current.prev_log_matches(request) {
                            lemma_merged(current, request);
                        }
                    }
                },
                MessageView::AppendEntriesResponse(response) => {
                    lemma_response_keeps_wf(s, from, response.match_index);
                },
                MessageView::InstallSnapshotResponse(response) => {
                    lemma_response_keeps_wf(s, from, response.last_included_index);
                },
                _ => {},
            }
        },
    }
}

proof fn lemma_tick_keeps_wf(s: NodeState, next_timeout: u64)
    requires
        s.wf(),
        s.can_tick(),
    ensures
        s.on_tick(next_timeout).0.wf(),
{
    let candidate = s.tick_follower().candidacy(next_timeout);
    lemma_seed_finite(candidate);
}

proof fn lemma_response_keeps_wf(s: NodeState, peer: NodeId, index: u64)
    requires
        s.wf(),
    ensures
        s.can_acknowledge(peer, index) ==> s.on_acknowledged(peer, index).0.wf(),
{
    if s.can_acknowledge(peer, index) {
        advance_keeps_wf(s.acknowledge(peer, index));
    }
}

/// So does the commit rule.
pub proof fn advance_keeps_wf(s: NodeState)
    requires
        s.wf(),
        s.can_advance(),
    ensures
        s.advance_commit().0.wf(),
{
}

/// So does a proposal.
pub proof fn proposal_keeps_wf(s: NodeState, payload: LogPayloadView)
    requires
        s.wf(),
        s.can_append_and_advance(payload),
    ensures
        s.append_and_advance(payload).0.wf(),
{
    advance_keeps_wf(s.append(payload));
}

/// So does a change of voters.
pub proof fn config_change_keeps_wf(s: NodeState, new_voters: Seq<NodeId>)
    requires
        s.wf(),
        s.can_change_config(new_voters),
    ensures
        s.change_config(new_voters).0.wf(),
{
    let kept = s.without_promoted(new_voters);
    let payload = LogPayloadView::Configuration(s.joint_config(new_voters));
    lemma_can_change(s, kept, payload);
    proposal_keeps_wf(kept, payload);
}

/// Learners have no part in what lets a leader append.
pub proof fn lemma_can_change(s: NodeState, kept: NodeState, payload: LogPayloadView)
    requires
        kept == (NodeState { learners: kept.learners, ..s }),
        s.can_append_and_advance(payload),
    ensures
        kept.can_append_and_advance(payload),
{
}

pub proof fn lemma_targets_finite(s: NodeState)
    requires
        s.learners.finite(),
    ensures
        s.replication_targets().finite(),
{
    let config = s.config();
    vstd::seq_lib::seq_to_set_is_finite(config.voters);
    match config.old_voters {
        Some(old) => {
            vstd::seq_lib::seq_to_set_is_finite(old);
        },
        None => {},
    }
}

pub proof fn lemma_seed_finite(s: NodeState)
    requires
        s.learners.finite(),
    ensures
        s.seed_leader().next_index.dom().finite(),
        s.seed_leader().match_index.dom().finite(),
{
    lemma_targets_finite(s);
    assert(s.seed_leader().next_index.dom() =~= s.replication_targets());
    assert(s.seed_leader().match_index.dom() =~= s.replication_targets());
}

/// Merging leaves a log whose end fits and, where it changed, holds exactly
/// the entries sent from there on.
pub proof fn lemma_merged(s: NodeState, request: AppendEntriesView)
    requires
        s.wf(),
        s.prev_log_matches(request),
        request.prev_log_index + request.entries.len() <= u64::MAX,
    ensures
        s.boundary() + s.merged(request).0.len() <= u64::MAX,
        s.merged(request).1 matches Some(index) ==> {
            &&& s.boundary() < index <= s.last_log_index() + 1
            &&& index == request.prev_log_index + (index - request.prev_log_index - 1) + 1
            &&& s.first_divergence(request, index - request.prev_log_index - 1)
            &&& s.merged(request).0 == s.log.take(index - s.boundary() - 1) + request.entries.skip(
                index - request.prev_log_index - 1,
            )
            &&& s.boundary() + s.merged(request).0.len() == request.prev_log_index + request.entries.len()
        },
        s.merged(request).1 is None ==> s.merged(request).0 == s.log && forall|k: int|
            !#[trigger] s.diverges_at(request, k),
{
    if exists|k: int| s.first_divergence(request, k) {
        let k = choose|k: int| s.first_divergence(request, k);
        if k > 0 {
            assert(!s.diverges_at(request, k - 1));
        }
    } else {
        assert forall|k: int| !#[trigger] s.diverges_at(request, k) by {
            lemma_first_divergence(s, request, k);
        }
    }
}

/// Where an entry differs, some entry is the first to.
proof fn lemma_first_divergence(s: NodeState, request: AppendEntriesView, k: int)
    ensures
        s.diverges_at(request, k) ==> exists|j: int| s.first_divergence(request, j),
    decreases k,
{
    if s.diverges_at(request, k) {
        if !s.first_divergence(request, k) {
            let j = choose|j: int| 0 <= j < k && s.diverges_at(request, j);
            lemma_first_divergence(s, request, j);
        }
    }
}

/// The current term never decreases.
pub proof fn term_never_decreases(s: NodeState, event: EventView)
    requires
        s.wf(),
        s.can_step(event),
    ensures
        s.step(event).0.current_term >= s.current_term,
{
}

/// A node votes at most once in a term: a vote cast stands as long as the
/// term lasts.
pub proof fn vote_is_kept_within_a_term(s: NodeState, event: EventView)
    requires
        s.wf(),
        s.can_step(event),
        s.voted_for is Some,
        s.step(event).0.current_term == s.current_term,
    ensures
        s.step(event).0.voted_for == s.voted_for,
{
}

/// The commit index never decreases, as long as no entry at or below it is
/// truncated.
pub proof fn commit_index_never_decreases(s: NodeState, event: EventView)
    requires
        s.wf(),
        s.can_step(event),
        s.step(event).0.last_log_index() >= s.commit_index,
    ensures
        s.step(event).0.commit_index >= s.commit_index,
{
    match event {
        EventView::Step { from, message: MessageView::AppendEntries(request) } => {
            if request.leader_id == from {
                lemma_merged_if_taken(s, request);
            }
        },
        _ => {},
    }
}

proof fn lemma_merged_if_taken(s: NodeState, request: AppendEntriesView)
    requires
        s.wf(),
        s.can_append_entries(request),
    ensures
        request.term >= s.current_term && s.follow(request.term).prev_log_matches(request)
            ==> s.boundary() + s.follow(request.term).merged(request).0.len() <= u64::MAX,
{
    let current = s.follow(request.term);
    if request.term >= s.current_term && current.prev_log_matches(request) {
        lemma_merged(current, request);
    }
}

/// The snapshot boundary never moves back.
pub proof fn snapshot_boundary_never_decreases(s: NodeState, event: EventView)
    requires
        s.wf(),
        s.can_step(event),
    ensures
        s.step(event).0.boundary() >= s.boundary(),
{
}

/// Whether an event is a leader's own message of term `term`.
pub open spec fn leads(event: EventView, term: u64) -> bool {
    match event {
        EventView::Step { message: MessageView::AppendEntries(request), .. } => request.term
            == term,
        EventView::Step { message: MessageView::InstallSnapshot(request), .. } => request.term
            == term,
        _ => false,
    }
}

/// A leader only appends to its log: as long as it leads, and no one else
/// leads the same term, every entry stays where it is.
pub proof fn leader_only_appends(s: NodeState, event: EventView)
    requires
        s.wf(),
        s.can_step(event),
        s.role == Role::Leader,
        s.step(event).0.role == Role::Leader,
        !leads(event, s.current_term),
    ensures
        s.step(event).0.snapshot == s.snapshot,
        s.log.is_prefix_of(s.step(event).0.log),
{
    match event {
        EventView::Tick { next_timeout } => {},
        EventView::Step { from, message } => {
            match message {
                MessageView::RequestVote(_) => {},
                MessageView::RequestVoteResponse(_) => {},
                MessageView::AppendEntries(_) => {},
                MessageView::InstallSnapshot(_) => {},
                MessageView::AppendEntriesResponse(response) => {
                    advance_only_appends(s.acknowledge(from, response.match_index));
                },
                MessageView::InstallSnapshotResponse(response) => {
                    advance_only_appends(s.acknowledge(from, response.last_included_index));
                },
            }
        },
    }
}

/// The commit rule only appends to the log.
pub proof fn advance_only_appends(s: NodeState)
    ensures
        s.advance_commit().0.snapshot == s.snapshot,
        s.log.is_prefix_of(s.advance_commit().0.log),
        s.advance_commit().0.log.len() <= s.log.len() + 1,
{
    let committed = s.commit_replicated();
    assert(committed.log == s.log);
    let settled = committed.append(LogPayloadView::Configuration(committed.settled_config()));
    assert(settled.log.take(s.log.len() as int) =~= s.log);
}

/// A leader's log keeps every entry when it takes a proposal or a
/// configuration change.
pub proof fn proposal_only_appends(s: NodeState, payload: LogPayloadView)
    requires
        s.wf(),
        s.can_append_and_advance(payload),
    ensures
        s.append_and_advance(payload).0.snapshot == s.snapshot,
        s.log.push(LogEntryView { term: s.current_term, payload }).is_prefix_of(
            s.append_and_advance(payload).0.log,
        ),
{
    advance_only_appends(s.append(payload));
}

/// A node becomes leader only with a quorum of votes.
pub proof fn leadership_takes_a_quorum(s: NodeState, event: EventView)
    requires
        s.wf(),
        s.can_step(event),
        s.role != Role::Leader,
        s.step(event).0.role == Role::Leader,
    ensures
        s.step(event).0.has_quorum(),
{
}

/// A new leader has voted for itself.
pub proof fn leader_voted_for_itself(s: NodeState, event: EventView)
    requires
        s.wf(),
        s.can_step(event),
        s.role == Role::Candidate ==> s.voted_for == Some(s.id),
        s.role != Role::Leader,
        s.step(event).0.role == Role::Leader,
    ensures
        s.step(event).0.voted_for == Some(s.id),
{
}

/// An entry of an earlier term never commits by count alone: where a leader
/// commits on an acknowledgement, the last entry committed is of its own term
/// and is held by a majority of the voters.
pub proof fn leader_commits_its_own_term(s: NodeState, peer: NodeId, index: u64)
    requires
        s.wf(),
        s.role == Role::Leader,
        s.can_acknowledge(peer, index),
        s.on_acknowledged(peer, index).0.commit_index > s.commit_index,
    ensures
        ({
            let next = s.on_acknowledged(peer, index).0;
            next.term_at(next.commit_index as int) == Some(s.current_term)
        }),
{
    let acknowledged = s.acknowledge(peer, index);
    let committed = acknowledged.commit_replicated();
    if committed.transition_committed() {
        let settled = committed.append(LogPayloadView::Configuration(committed.settled_config()));
        model::lemma_latest_push(committed.log, settled.log.last());
    }
}

/// What a majority of the voters holds is what commits: the index a leader
/// commits has been reached by a strict majority of the voters, and during a
/// transition of the outgoing voters too.
pub proof fn commit_takes_a_majority(s: NodeState)
    requires
        s.wf(),
        s.config().voters.len() > 0,
        s.config().old_voters matches Some(old) ==> old.len() > 0,
        s.commit_replicated().commit_index > s.commit_index,
    ensures
        model::majority_reached(
            s.progress_of(s.config().voters),
            s.commit_replicated().commit_index,
        ),
        s.config().old_voters matches Some(old) ==> model::majority_reached(
            s.progress_of(old),
            s.commit_replicated().commit_index,
        ),
        s.term_at(s.commit_replicated().commit_index as int) == Some(s.current_term),
{
    let index = s.commit_replicated().commit_index;
    let values = s.progress_of(s.config().voters);
    lemma_majority_value_exists(values);
    model::lemma_count_at_least_antitone(values, index, model::majority_value(values));
    match s.config().old_voters {
        Some(old) => {
            let old_values = s.progress_of(old);
            lemma_majority_value_exists(old_values);
            model::lemma_count_at_least_antitone(old_values, index, model::majority_value(old_values));
        },
        None => {},
    }
}

/// Every nonempty sequence has a majority value.
pub proof fn lemma_majority_value_exists(values: Seq<u64>)
    requires
        values.len() > 0,
    ensures
        model::is_majority_value(values, model::majority_value(values)),
{
    let value = lemma_best_value(values, values.len() as int);
    assert(model::is_majority_value(values, value));
}

proof fn lemma_best_value(values: Seq<u64>, end: int) -> (value: u64)
    requires
        0 < end <= values.len(),
    ensures
        end == values.len() ==> model::is_majority_value(values, value),
        values.contains(value),
        forall|i: int|
            0 <= i < end && model::majority_reached(values, #[trigger] values[i]) ==> values[i]
                <= value,
        model::majority_reached(values, value) || forall|i: int|
            0 <= i < end ==> value <= #[trigger] values[i] && !model::majority_reached(
                values,
                values[i],
            ),
    decreases end,
{
    let last = values[end - 1];
    assert(values.contains(last));
    let value = if end == 1 {
        last
    } else {
        let before = lemma_best_value(values, end - 1);
        if model::majority_reached(values, last) {
            if model::majority_reached(values, before) && before >= last {
                before
            } else {
                last
            }
        } else if model::majority_reached(values, before) || before <= last {
            before
        } else {
            last
        }
    };
    if end == values.len() {
        if !model::majority_reached(values, value) {
            model::lemma_count_at_least_all(values, value);
        }
        assert forall|other: u64|
            values.contains(other) && #[trigger] model::majority_reached(values, other) implies other
            <= value by {
            let i = choose|i: int| 0 <= i < values.len() && values[i] == other;
            assert(model::majority_reached(values, values[i]));
        }
    }
    value
}

/// Learners have no say in what commits or in who wins an election.
pub proof fn learners_never_count(s: NodeState, learners: Set<NodeId>)
    ensures
        ({
            let t = NodeState { learners, ..s };
            &&& t.config() == s.config()
            &&& t.commit_replicated() == (NodeState { learners, ..s.commit_replicated() })
            &&& t.has_quorum() == s.has_quorum()
        }),
{
    let t = NodeState { learners, ..s };
    assert(t.progress_of(s.config().voters) =~= s.progress_of(s.config().voters));
    match s.config().old_voters {
        Some(old) => {
            assert(t.progress_of(old) =~= s.progress_of(old));
        },
        None => {},
    }
}

/// A vote from outside the configuration in force makes no difference to an
/// election.
pub proof fn outside_votes_never_count(s: NodeState, outsider: NodeId)
    requires
        s.wf(),
        !s.config().is_voter(outsider),
    ensures
        (NodeState { votes_granted: s.votes_granted.insert(outsider), ..s }).has_quorum()
            == s.has_quorum(),
{
    let t = NodeState { votes_granted: s.votes_granted.insert(outsider), ..s };
    let voters = s.config().voters;
    assert(t.votes_granted.intersect(voters.to_set()) =~= s.votes_granted.intersect(
        voters.to_set(),
    ));
    match s.config().old_voters {
        Some(old) => {
            lemma_count_in_outsider(old, s.votes_granted, outsider);
        },
        None => {},
    }
}

proof fn lemma_count_in_outsider(ids: Seq<NodeId>, set: Set<NodeId>, outsider: NodeId)
    requires
        !ids.contains(outsider),
    ensures
        model::count_in(ids, set.insert(outsider)) == model::count_in(ids, set),
    decreases ids.len(),
{
    if ids.len() > 0 {
        assert(ids.contains(ids.last()));
        assert(!ids.drop_last().contains(outsider)) by {
            if ids.drop_last().contains(outsider) {
                let i = choose|i: int| 0 <= i < ids.len() - 1 && ids.drop_last()[i] == outsider;
                assert(ids[i] == outsider);
            }
        }
        lemma_count_in_outsider(ids.drop_last(), set, outsider);
    }
}

/// Two majorities of the same voters share a member.
pub proof fn majorities_intersect(voters: Seq<NodeId>, a: Set<NodeId>, b: Set<NodeId>)
    requires
        ids::ascending(voters),
        a.intersect(voters.to_set()).len() >= model::quorum(voters),
        b.intersect(voters.to_set()).len() >= model::quorum(voters),
    ensures
        exists|id: NodeId| voters.contains(id) && a.contains(id) && b.contains(id),
{
    let all = voters.to_set();
    ids::lemma_ascending_len(voters);
    let x = a.intersect(all);
    let y = b.intersect(all);
    vstd::set_lib::lemma_len_subset(x, all);
    vstd::set_lib::lemma_len_subset(y, all);
    if x.intersect(y) =~= Set::empty() {
        assert(x.disjoint(y)) by {
            assert forall|id: NodeId| x.contains(id) implies !y.contains(id) by {
                assert(!x.intersect(y).contains(id));
            }
        }
        vstd::set_lib::lemma_set_disjoint_lens(x, y);
        assert((x + y).subset_of(all));
        vstd::set_lib::lemma_len_subset(x + y, all);
        assert(false);
    }
    let id = x.intersect(y).choose();
    assert(x.intersect(y).contains(id));
    assert(all.contains(id));
    assert(voters.contains(id) && a.contains(id) && b.contains(id));
}

/// Two nodes that hold a quorum of votes under the same configuration share a
/// voter. With one vote per voter and term, a term has at most one leader.
pub proof fn quorums_intersect(s: NodeState, t: NodeState)
    requires
        s.wf(),
        t.wf(),
        s.config().voters == t.config().voters,
        ids::ascending(s.config().voters),
        s.has_quorum(),
        t.has_quorum(),
    ensures
        exists|id: NodeId|
            s.config().voters.contains(id) && s.votes_granted.contains(id)
                && t.votes_granted.contains(id),
{
    majorities_intersect(s.config().voters, s.votes_granted, t.votes_granted);
}

/// A leader in transition holds a majority of the outgoing voters as well, so
/// it shares a voter with any leader elected by those voters alone.
pub proof fn transition_quorum_meets_the_old_quorum(joint: NodeState, old: NodeState)
    requires
        joint.wf(),
        old.wf(),
        joint.config().old_voters == Some(old.config().voters),
        ids::ascending(old.config().voters),
        joint.has_quorum(),
        old.has_quorum(),
    ensures
        exists|id: NodeId|
            old.config().voters.contains(id) && joint.votes_granted.contains(id)
                && old.votes_granted.contains(id),
{
    let voters = old.config().voters;
    lemma_count_in_is_intersection(voters, joint.votes_granted);
    majorities_intersect(voters, joint.votes_granted, old.votes_granted);
}

/// Counting the elements of an ascending sequence that are in a set is
/// counting the common elements.
proof fn lemma_count_in_is_intersection(ids: Seq<NodeId>, set: Set<NodeId>)
    requires
        ids::ascending(ids),
    ensures
        model::count_in(ids, set) == set.intersect(ids.to_set()).len(),
        set.intersect(ids.to_set()).finite(),
    decreases ids.len(),
{
    if ids.len() == 0 {
        assert(set.intersect(ids.to_set()) =~= Set::empty());
    } else {
        let rest = ids.drop_last();
        let last = ids.last();
        lemma_count_in_is_intersection(rest, set);
        assert(!rest.to_set().contains(last)) by {
            if rest.contains(last) {
                let i = choose|i: int| 0 <= i < rest.len() && rest[i] == last;
                assert(ids[i].0 < ids[ids.len() - 1].0);
            }
        }
        assert(ids =~= rest.push(last));
        rest.lemma_push_to_set_commute(last);
        if set.contains(last) {
            assert(set.intersect(ids.to_set()) =~= set.intersect(rest.to_set()).insert(last));
        } else {
            assert(set.intersect(ids.to_set()) =~= set.intersect(rest.to_set()));
        }
    }
}

/// Only a voter campaigns: a tick changes neither role, term nor vote of
/// anyone else.
pub proof fn only_voters_campaign(s: NodeState, next_timeout: u64)
    requires
        s.wf(),
        s.can_tick(),
        !s.config().is_voter(s.id),
    ensures
        s.on_tick(next_timeout).0.role == s.role,
        s.on_tick(next_timeout).0.current_term == s.current_term,
        s.on_tick(next_timeout).0.voted_for == s.voted_for,
{
}

/// A leader turns down every vote request, of whatever term, and stays as it
/// is.
pub proof fn leader_disregards_vote_requests(s: NodeState, from: NodeId, request: RequestVote)
    requires
        s.role == Role::Leader,
    ensures
        s.on_request_vote(from, request) == (s, seq![s.vote_response(from, false)]),
{
}

/// A node grants its vote only to a candidate whose log is at least as up to
/// date as its own.
pub proof fn votes_go_to_up_to_date_logs(s: NodeState, from: NodeId, request: RequestVote)
    requires
        s.wf(),
        s.voted_for != Some(request.candidate_id),
        s.on_request_vote(from, request).0.voted_for == Some(request.candidate_id),
    ensures
        s.log_up_to_date(request),
{
}

/// Only a leader's own messages are taken from outside the membership.
pub proof fn strangers_are_ignored(s: NodeState, from: NodeId, message: MessageView)
    requires
        !s.is_member(from),
        !(message is AppendEntries),
        !(message is InstallSnapshot),
    ensures
        s.on_message(from, message) == (s, Seq::<EffectView>::empty()),
{
}

/// Whether every effect that makes something durable comes before every
/// message.
pub open spec fn persists_before_sends(effects: Seq<EffectView>) -> bool {
    forall|i: int, j: int|
        0 <= i < j < effects.len() && (#[trigger] effects[i]) is Send ==> (
        #[trigger] effects[j]) is Send
}

/// What a transition must make durable comes before anything it sends.
pub proof fn step_persists_before_it_sends(s: NodeState, event: EventView)
    ensures
        persists_before_sends(s.step(event).1),
{
    match event {
        EventView::Tick { next_timeout } => {
            lemma_tick_persists_first(s, next_timeout);
        },
        EventView::Step { from, message } => {
            match message {
                MessageView::RequestVoteResponse(response) => {
                    let counted = NodeState { votes_granted: s.votes_granted.insert(from), ..s };
                    lemma_all_messages(counted.seed_leader().broadcast());
                },
                MessageView::AppendEntriesResponse(response) => {
                    lemma_acknowledge_persists_first(s, from, response.match_index);
                },
                MessageView::InstallSnapshotResponse(response) => {
                    lemma_acknowledge_persists_first(s, from, response.last_included_index);
                },
                _ => {},
            }
        },
    }
}

proof fn lemma_all_messages(effects: Seq<EffectView>)
    requires
        forall|i: int| 0 <= i < effects.len() ==> (#[trigger] effects[i]) is Send,
    ensures
        persists_before_sends(effects),
{
}

proof fn lemma_tick_persists_first(s: NodeState, next_timeout: u64)
    ensures
        persists_before_sends(s.on_tick(next_timeout).1),
{
    let due = NodeState { heartbeat_elapsed: 0, ..s.tick_leader() };
    lemma_all_messages(due.broadcast());
    let candidate = s.tick_follower().candidacy(next_timeout);
    let persist = seq![candidate.persist_hard_state()];
    let round = candidate.become_leader().1;
    let requests = candidate.vote_requests();
    assert(forall|i: int| 0 <= i < round.len() ==> (#[trigger] round[i]) is Send);
    assert(forall|i: int| 0 <= i < requests.len() ==> (#[trigger] requests[i]) is Send);
    assert(persists_before_sends(persist + round));
    assert(persists_before_sends(persist + requests));
}

proof fn lemma_acknowledge_persists_first(s: NodeState, peer: NodeId, index: u64)
    ensures
        persists_before_sends(s.on_acknowledged(peer, index).1),
{
    let (next, effects) = s.acknowledge(peer, index).advance_commit();
    assert(forall|i: int| 0 <= i < effects.len() ==> !((#[trigger] effects[i]) is Send));
    assert(next.retry(peer).len() <= 1);
}

/// A new term or vote is made durable first of all, and the term never
/// decreases, as long as there is a next one.
pub proof fn step_persists_a_new_term_or_vote(s: NodeState, event: EventView)
    ensures
        ({
            let (next, effects) = s.step(event);
            (next.current_term, next.voted_for) != (s.current_term, s.voted_for) ==> effects.len()
                > 0 && effects[0] == (EffectView::PersistHardState {
                term: next.current_term,
                voted_for: next.voted_for,
            })
        }),
        s.current_term < u64::MAX ==> s.step(event).0.current_term >= s.current_term,
        persists_before_sends(s.step(event).1),
{
    step_persists_before_it_sends(s, event);
}

/// Whether every new snapshot is followed at once by the log above it.
pub open spec fn snapshots_pin_the_log(effects: Seq<EffectView>) -> bool {
    forall|i: int|
        0 <= i < effects.len() ==> ((#[trigger] effects[i]) matches EffectView::PersistSnapshot {
            last_included_index,
            ..
        } ==> i + 1 < effects.len() && (effects[i + 1] matches EffectView::PersistLog {
            from_index,
            ..
        } && from_index == last_included_index + 1))
}

/// A transition that replaces the snapshot says at once what log remains.
pub proof fn step_pins_the_log(s: NodeState, event: EventView)
    requires
        s.can_step(event),
    ensures
        snapshots_pin_the_log(s.step(event).1),
{
}

/// So does a compaction.
pub proof fn compaction_pins_the_log(s: NodeState, up_to: int, data: Seq<u8>)
    requires
        s.boundary() < up_to <= s.last_log_index(),
        up_to < u64::MAX,
    ensures
        snapshots_pin_the_log(s.compact(up_to, data).persist_compacted()),
{
}

/// Compaction changes neither the configuration in force nor any entry above
/// the new boundary.
pub proof fn compaction_keeps_what_it_does_not_cover(
    s: NodeState,
    up_to: int,
    data: Seq<u8>,
    index: int,
)
    requires
        s.wf(),
        s.boundary() < up_to <= s.last_log_index(),
        up_to <= s.commit_index,
    ensures
        s.compact(up_to, data).wf(),
        s.compact(up_to, data).config() == s.config(),
        s.compact(up_to, data).last_log_index() == s.last_log_index(),
        index >= up_to ==> s.compact(up_to, data).term_at(index) == s.term_at(index),
        index > up_to ==> s.compact(up_to, data).entry_at(index) == s.entry_at(index),
{
    model::lemma_compact_config(s, up_to, data);
}

/// Compaction moves neither the end of the log, nor its term, nor the commit
/// index, even where nothing of the log remains.
pub proof fn compaction_keeps_the_end_of_the_log(s: NodeState, up_to: int, data: Seq<u8>)
    requires
        s.wf(),
        s.boundary() < up_to <= s.commit_index,
        up_to <= s.last_log_index(),
    ensures
        s.compact(up_to, data).last_log_index() == s.last_log_index(),
        s.compact(up_to, data).last_log_term() == s.last_log_term(),
        s.compact(up_to, data).commit_index == s.commit_index,
{
    let covered = up_to - s.boundary();
    let after = s.compact(up_to, data);
    if covered < s.log.len() {
        assert(after.log.last() == s.log.last());
    } else {
        assert(s.log[covered - 1] == s.log.last());
    }
}

/// The end of the log is where its last entry is, or where the snapshot ends;
/// its term is that of the entry there.
pub proof fn log_ends_where_it_is_known(s: NodeState)
    requires
        s.last_log_index() > 0,
    ensures
        s.last_log_index() == s.snapshot.last_included_index + s.log.len(),
        s.term_at(s.last_log_index()) == Some(s.last_log_term()),
{
}

/// Adding a learner and removing it again gives back the learners there were,
/// and everyone else is sent what they would have been sent.
pub proof fn removing_a_learner_undoes_adding_it(s: NodeState, id: NodeId, peer: NodeId)
    requires
        s.takes_learner(id),
    ensures
        ({
            let added = s.add_learner(id);
            let removed = added.remove_learner(id);
            &&& added.role == Role::Leader && added.learners.contains(id)
            &&& removed.learners == s.learners
            &&& removed.persist_learners() == s.persist_learners()
            &&& !removed.learners.contains(id)
            &&& removed.remove_learner(id) == removed
            &&& removed.config() == s.config()
            &&& removed.replication_targets() == s.replication_targets()
            &&& s.can_replicate_to(peer) ==> removed.can_replicate_to(peer)
                && removed.replicate_to(peer) == s.replicate_to(peer)
        }),
{
    let removed = s.add_learner(id).remove_learner(id);
    assert(removed.learners =~= s.learners);
    assert(removed.remove_learner(id).learners =~= removed.learners);
}

/// So the next round of a leader is the same.
pub proof fn removing_a_learner_keeps_the_round(s: NodeState, id: NodeId)
    requires
        s.wf(),
        s.takes_learner(id),
        s.can_broadcast(),
    ensures
        s.add_learner(id).remove_learner(id).can_broadcast(),
        s.add_learner(id).remove_learner(id).broadcast() == s.broadcast(),
{
    let removed = s.add_learner(id).remove_learner(id);
    removing_a_learner_undoes_adding_it(s, id, s.id);
    assert forall|peer: NodeId| #[trigger] removed.replication_targets().contains(
        peer,
    ) implies removed.can_replicate_to(peer) && removed.replicate_to(peer) == s.replicate_to(
        peer,
    ) by {
        assert(s.replication_targets().contains(peer));
        assert(s.can_replicate_to(peer));
        removing_a_learner_undoes_adding_it(s, id, peer);
    }
    lemma_targets_finite(s);
    ids::lemma_sorted_exists(s.replication_targets());
    let order = ids::sorted_ids(s.replication_targets());
    assert forall|i: int| 0 <= i < order.len() implies removed.replicate_to(
        #[trigger] order[i],
    ) == s.replicate_to(order[i]) by {
        assert(order.to_set().contains(order[i]));
        assert(removed.replication_targets().contains(order[i]));
    }
    assert(removed.broadcast() =~= s.broadcast());
}

/// A configuration is in force as soon as it is appended.
pub proof fn configuration_is_in_force_at_once(s: NodeState, config: ClusterConfigView)
    ensures
        s.append(LogPayloadView::Configuration(config)).config() == config,
        s.append(LogPayloadView::Configuration(config)).config_index() == s.last_log_index() + 1,
{
    let grown = s.append(LogPayloadView::Configuration(config));
    model::lemma_latest_push(s.log, grown.log.last());
}

/// A leader that commits a transition holds the configuration that ends it
/// from then on, and a transition never ends before it is committed.
pub proof fn transition_ends_once_committed(s: NodeState)
    requires
        s.wf(),
        s.can_advance(),
        s.config().is_joint(),
    ensures
        ({
            let next = s.advance_commit().0;
            if s.commit_replicated().transition_committed() {
                next.config() == s.settled_config()
            } else {
                next.config() == s.config()
            }
        }),
{
    let committed = s.commit_replicated();
    if committed.transition_committed() {
        let settled = committed.append(LogPayloadView::Configuration(committed.settled_config()));
        model::lemma_latest_push(committed.log, settled.log.last());
    }
}

/// A leader that the committed configuration leaves out does not lead on.
pub proof fn excluded_leader_retires(s: NodeState)
    requires
        s.wf(),
        s.can_advance(),
    ensures
        ({
            let next = s.advance_commit().0;
            !next.config().is_joint() && next.commit_index >= next.config_index()
                && !next.config().voters.contains(next.id) ==> next.role == Role::Follower
        }),
{
}

/// After an append that succeeds, the log holds an entry of the right term at
/// the index of every entry sent and not compacted.
pub proof fn accepted_entries_are_in_the_log(
    s: NodeState,
    from: NodeId,
    request: AppendEntriesView,
    k: int,
)
    requires
        s.wf(),
        s.can_append_entries(request),
        request.term >= s.current_term,
        s.follow(request.term).prev_log_matches(request),
        0 <= k < request.entries.len(),
        request.prev_log_index + k + 1 > s.boundary(),
    ensures
        s.on_append_entries(from, request).0.term_at(request.prev_log_index + k + 1) == Some(
            request.entries[k].term,
        ),
{
    let current = s.follow(request.term);
    lemma_merged(current, request);
    let index = request.prev_log_index + k + 1;
    match current.merged(request).1 {
        Some(changed) => {
            let first = changed - request.prev_log_index - 1;
            if k < first {
                assert(!current.diverges_at(request, k));
                assert(current.merged(request).0[index - current.boundary() - 1]
                    == current.log[index - current.boundary() - 1]);
            } else {
                assert(current.merged(request).0[index - current.boundary() - 1]
                    == request.entries[k]);
            }
        },
        None => {
            assert(!current.diverges_at(request, k));
        },
    }
}

/// A leader's replication message delivered twice does what it does once: the
/// second delivery changes nothing, and is answered as the first was.
pub proof fn append_entries_is_idempotent(s: NodeState, from: NodeId, request: AppendEntriesView)
    requires
        s.wf(),
        s.can_append_entries(request),
    ensures
        ({
            let (once, effects) = s.on_append_entries(from, request);
            once.on_append_entries(from, request) == (once, seq![effects.last()])
        }),
{
    let (once, effects) = s.on_append_entries(from, request);
    if request.term >= s.current_term {
        let current = s.follow(request.term);
        if current.prev_log_matches(request) {
            lemma_merged(current, request);
            assert(once.follow(request.term) =~= once);
            assert(once.prev_log_matches(request)) by {
                match current.merged(request).1 {
                    Some(index) => {
                        if request.prev_log_index > current.boundary() {
                            assert(once.log[request.prev_log_index - current.boundary() - 1]
                                == current.log[request.prev_log_index - current.boundary() - 1]);
                        }
                    },
                    None => {},
                }
            }
            assert forall|k: int| !#[trigger] once.diverges_at(request, k) by {
                if 0 <= k < request.entries.len() && request.prev_log_index + k + 1
                    > s.boundary() {
                    accepted_entries_are_in_the_log(s, from, request, k);
                }
            }
            assert(once.merged(request) == (once.log, None::<u64>)) by {
                if exists|k: int| once.first_divergence(request, k) {
                    let k = choose|k: int| once.first_divergence(request, k);
                    assert(once.diverges_at(request, k));
                }
            }
            let response = once.append_response(
                from,
                true,
                (request.prev_log_index + request.entries.len()) as u64,
            );
            assert(effects.last() == response);
            assert((NodeState { log: once.log, ..once }) =~= once);
            assert(once.on_append_entries(from, request).0 =~= once);
            assert(once.on_append_entries(from, request).1 =~= seq![response]);
        } else {
            assert(once.on_append_entries(from, request).0 =~= once);
            assert(once.on_append_entries(from, request).1 =~= seq![effects.last()]);
        }
    } else {
        assert(once.on_append_entries(from, request).1 =~= seq![effects.last()]);
    }
}

/// A snapshot delivered twice does what it does once.
pub proof fn install_snapshot_is_idempotent(s: NodeState, from: NodeId, request: InstallSnapshotView)
    requires
        s.wf(),
        s.can_install_snapshot(request),
        request.last_included_index > 0,
    ensures
        ({
            let (once, effects) = s.on_install_snapshot(from, request);
            once.on_install_snapshot(from, request) == (once, seq![effects.last()])
        }),
{
    let (once, effects) = s.on_install_snapshot(from, request);
    assert(once.on_install_snapshot(from, request).0 =~= once);
    assert(once.on_install_snapshot(from, request).1 =~= seq![effects.last()]);
}

/// A snapshot of a point this node already has changes neither its log nor its
/// snapshot.
pub proof fn stale_snapshot_changes_nothing(s: NodeState, from: NodeId, request: InstallSnapshotView)
    requires
        s.covers(request),
    ensures
        s.on_install_snapshot(from, request).0.log == s.log,
        s.on_install_snapshot(from, request).0.snapshot == s.snapshot,
        s.on_install_snapshot(from, request).0.snapshot_data == s.snapshot_data,
        s.on_install_snapshot(from, request).0.snapshot_config == s.snapshot_config,
        s.on_install_snapshot(from, request).0.commit_index == s.commit_index,
{
}

/// Whether the only message among `effects` is the last of them, and goes to
/// `peer`.
pub open spec fn ends_in_one_reply(effects: Seq<EffectView>, peer: NodeId) -> bool {
    &&& effects.len() > 0
    &&& effects.last() matches EffectView::Send { to, .. } && to == peer
    &&& forall|i: int| 0 <= i < effects.len() - 1 ==> !((#[trigger] effects[i]) is Send)
}

/// Every request that is taken is answered, by exactly one message, after
/// everything that must be durable first.
pub proof fn requests_are_answered_once(s: NodeState, from: NodeId, message: MessageView)
    requires
        match message {
            MessageView::RequestVote(request) => s.is_member(from) && request.candidate_id == from,
            MessageView::AppendEntries(request) => request.leader_id == from,
            MessageView::InstallSnapshot(request) => request.leader_id == from,
            _ => false,
        },
    ensures
        ends_in_one_reply(s.on_message(from, message).1, from),
{
}

} // verus!
