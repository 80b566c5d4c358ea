//! What a node promises its cluster, said of the fields of its state and of the
//! messages themselves.

use vstd::prelude::*;

use crate::raft::ids;
use crate::raft::laws;
use crate::raft::model;
use crate::raft::model::NodeState;
use crate::raft::types::{
    ClusterConfigView, EffectView, EventView, InstallSnapshotView, LogEntryView, LogPayloadView,
    MessageView, NodeId, RequestVote, RequestVoteResponse, Role,
};

verus! {

/// The index of the last entry.
pub open spec fn end_of(s: NodeState) -> int {
    s.snapshot.last_included_index + s.log.len()
}

/// The term of the last entry.
pub open spec fn end_term(s: NodeState) -> u64 {
    if s.log.len() > 0 {
        s.log[s.log.len() - 1].term
    } else {
        s.snapshot.last_included_term
    }
}

/// Whether the entry at `index` is in the log.
pub open spec fn held(s: NodeState, index: int) -> bool {
    s.snapshot.last_included_index < index <= end_of(s)
}

/// The entry at `index`.
pub open spec fn entry(s: NodeState, index: int) -> LogEntryView {
    s.log[index - s.snapshot.last_included_index - 1]
}

/// Whether the configuration at position `i` of a log is its last.
pub open spec fn set_last(log: Seq<LogEntryView>, i: int, config: ClusterConfigView) -> bool {
    &&& 0 <= i < log.len()
    &&& log[i].payload == LogPayloadView::Configuration(config)
    &&& forall|j: int| i < j < log.len() ==> (#[trigger] log[j]).payload is Command
}

/// Whether a configuration is in force: it is the last in the log, committed or
/// not, or the log has none and the snapshot carries it.
pub open spec fn in_force(s: NodeState, config: ClusterConfigView) -> bool {
    ||| exists|i: int| set_last(s.log, i, config)
    ||| s.snapshot_config == config && forall|j: int|
        0 <= j < s.log.len() ==> (#[trigger] s.log[j]).payload is Command
}

/// Whether `id` has a vote under a configuration, old or new.
pub open spec fn votes_in(config: ClusterConfigView, id: NodeId) -> bool {
    config.voters.contains(id) || (config.old_voters matches Some(old) && old.contains(id))
}

/// Whether a node listens to `id`.
pub open spec fn listens_to(s: NodeState, config: ClusterConfigView, id: NodeId) -> bool {
    votes_in(config, id) || s.learners.contains(id) || (config.voters.len() == 0
        && config.old_voters is None)
}

/// Whether `id` is someone a leader replicates to.
pub open spec fn follows(s: NodeState, config: ClusterConfigView, id: NodeId) -> bool {
    id != s.id && (votes_in(config, id) || s.learners.contains(id))
}

/// Whether more than half of the voters are among `votes`, and during a
/// transition more than half of the outgoing voters too.
pub open spec fn more_than_half(config: ClusterConfigView, votes: Set<NodeId>) -> bool {
    &&& votes.intersect(config.voters.to_set()).len() * 2 > config.voters.len()
    &&& config.old_voters matches Some(old) ==> old.filter(
        |id: NodeId| votes.contains(id),
    ).len() * 2 > old.len()
}

proof fn lemma_latest(log: Seq<LogEntryView>)
    ensures
        match model::latest_configuration(log) {
            Some((config, i)) => set_last(log, i, config),
            None => forall|j: int| 0 <= j < log.len() ==> (#[trigger] log[j]).payload is Command,
        },
    decreases log.len(),
{
    if log.len() > 0 {
        let rest = log.drop_last();
        lemma_latest(rest);
        assert forall|j: int| 0 <= j < rest.len() implies log[j] == rest[j] by {}
    }
}

/// The last configuration of the log is in force from the moment it is
/// appended, and none but that one; without one, the snapshot's.
pub proof fn last_configuration_is_in_force(s: NodeState, config: ClusterConfigView)
    ensures
        in_force(s, config) == (s.config() == config),
        model::latest_configuration(s.log) matches Some((last, i)) ==> set_last(s.log, i, last)
            && s.config_index() == s.snapshot.last_included_index + i + 1,
        model::latest_configuration(s.log) is None ==> s.config_index()
            == s.snapshot.last_included_index,
{
    lemma_latest(s.log);
    match model::latest_configuration(s.log) {
        Some((last, i)) => {
            assert(set_last(s.log, i, last));
            if in_force(s, config) {
                if exists|j: int| set_last(s.log, j, config) {
                    let j = choose|j: int| set_last(s.log, j, config);
                    if i < j {
                        assert(s.log[j].payload is Command);
                    } else if j < i {
                        assert(s.log[i].payload is Command);
                    }
                } else {
                    assert(s.log[i].payload is Command);
                }
            }
        },
        None => {
            if exists|j: int| set_last(s.log, j, config) {
                let j = choose|j: int| set_last(s.log, j, config);
                assert(s.log[j].payload is Command);
            }
        },
    }
}

/// Log positions are counted on from the snapshot.
pub proof fn log_is_indexed_from_the_snapshot(s: NodeState, index: int)
    ensures
        s.last_log_index() == end_of(s),
        s.last_log_term() == end_term(s),
        s.entry_at(index) == if held(s, index) {
            Some(entry(s, index))
        } else {
            None
        },
        s.term_at(index) == if held(s, index) {
            Some(entry(s, index).term)
        } else if index > 0 && index == s.snapshot.last_included_index {
            Some(s.snapshot.last_included_term)
        } else {
            None
        },
{
}

proof fn lemma_count_in(ids: Seq<NodeId>, set: Set<NodeId>)
    ensures
        model::count_in(ids, set) == ids.filter(|id: NodeId| set.contains(id)).len(),
    decreases ids.len(),
{
    reveal(Seq::filter);
    if ids.len() > 0 {
        lemma_count_in(ids.drop_last(), set);
    }
}

/// A quorum is more than half of the voters, and of the outgoing ones.
pub proof fn quorum_is_more_than_half(s: NodeState, config: ClusterConfigView)
    requires
        in_force(s, config),
    ensures
        s.has_quorum() == more_than_half(config, s.votes_granted),
{
    last_configuration_is_in_force(s, config);
    if let Some(old) = config.old_voters {
        lemma_count_in(old, s.votes_granted);
    }
}

/// Whether a message is what a leader owes a peer: the entries from the next
/// one on, with what comes just before them, or the whole snapshot where those
/// are no longer in the log.
pub open spec fn brings_up_to_date(s: NodeState, next: u64, message: MessageView) -> bool {
    if next <= s.snapshot.last_included_index {
        message == MessageView::InstallSnapshot(
            InstallSnapshotView {
                term: s.current_term,
                leader_id: s.id,
                last_included_index: s.snapshot.last_included_index,
                last_included_term: s.snapshot.last_included_term,
                data: s.snapshot_data,
                config: s.snapshot_config,
            },
        )
    } else {
        message matches MessageView::AppendEntries(request) && {
            &&& request.term == s.current_term
            &&& request.leader_id == s.id
            &&& request.prev_log_index == next - 1
            &&& request.prev_log_term == if held(s, next - 1) {
                entry(s, next - 1).term
            } else if next - 1 == s.snapshot.last_included_index && next > 1 {
                s.snapshot.last_included_term
            } else {
                0
            }
            &&& request.entries.len() == end_of(s) - next + 1
            &&& forall|k: int|
                0 <= k < request.entries.len() ==> (#[trigger] request.entries[k]) == entry(
                    s,
                    next + k,
                )
            &&& request.leader_commit == s.commit_index
        }
    }
}

/// What a leader sends a peer picks up where the peer's log is known to end.
pub proof fn replication_brings_up_to_date(s: NodeState, peer: NodeId)
    requires
        s.next_index[peer] <= end_of(s) + 1,
    ensures
        s.replicate_to(peer) matches EffectView::Send { to, message } && to == peer
            && brings_up_to_date(s, s.next_index[peer], message),
{
}

/// Whether effects are one message to everyone who follows `s`, in ascending
/// order, each bringing its receiver up to date.
pub open spec fn reaches_everyone(
    s: NodeState,
    config: ClusterConfigView,
    effects: Seq<EffectView>,
) -> bool {
    &&& forall|i: int|
        0 <= i < effects.len() ==> ((#[trigger] effects[i]) matches EffectView::Send { to, message }
            && follows(s, config, to) && brings_up_to_date(s, s.next_index[to], message))
    &&& forall|id: NodeId| #[trigger]
        follows(s, config, id) ==> exists|i: int|
            0 <= i < effects.len() && (#[trigger] effects[i])->to == id
    &&& forall|i: int, j: int|
        0 <= i < j < effects.len() ==> (#[trigger] effects[i])->to.0 < (#[trigger] effects[j])->to.0
}

proof fn lemma_targets(s: NodeState, config: ClusterConfigView, id: NodeId)
    requires
        s.config() == config,
    ensures
        s.replication_targets().contains(id) == follows(s, config, id),
{
}

/// A round of a leader reaches every voter, outgoing voter and learner, and no
/// one else.
pub proof fn rounds_reach_everyone(s: NodeState, config: ClusterConfigView)
    requires
        s.wf(),
        in_force(s, config),
        forall|id: NodeId| #[trigger]
            follows(s, config, id) ==> s.next_index[id] <= end_of(s) + 1,
    ensures
        reaches_everyone(s, config, s.broadcast()),
{
    last_configuration_is_in_force(s, config);
    laws::lemma_targets_finite(s);
    let targets = s.replication_targets();
    ids::lemma_sorted_exists(targets);
    let order = ids::sorted_ids(targets);
    let effects = s.broadcast();
    assert forall|i: int| 0 <= i < effects.len() implies ((
    #[trigger] effects[i]) matches EffectView::Send { to, message } && to == order[i] && follows(
        s,
        config,
        to,
    ) && brings_up_to_date(s, s.next_index[to], message)) by {
        assert(order.to_set().contains(order[i]));
        lemma_targets(s, config, order[i]);
        assert(follows(s, config, order[i]));
        replication_brings_up_to_date(s, order[i]);
    }
    assert forall|id: NodeId| #[trigger] follows(s, config, id) implies exists|i: int|
        0 <= i < effects.len() && (#[trigger] effects[i])->to == id by {
        lemma_targets(s, config, id);
        assert(order.to_set().contains(id));
        let i = choose|i: int| 0 <= i < order.len() && order[i] == id;
        assert(effects[i]->to == id);
    }
}

/// Whether a candidate's log, by its last entry, is at least as up to date: a
/// later term decides, whatever the lengths; in the same term, the index.
pub open spec fn at_least_as_new(request: RequestVote, s: NodeState) -> bool {
    request.last_log_term > end_term(s) || (request.last_log_term == end_term(s)
        && request.last_log_index >= end_of(s))
}

/// Every vote request of a member is answered, and the vote is granted exactly
/// if the node neither leads nor has just heard from a leader in a transition,
/// the term is not over, the candidate's log is at least as up to date, and the
/// node has voted for no one else in that term. A vote granted is kept, and
/// durable before it is sent.
pub proof fn votes_go_to_logs_as_new(
    s: NodeState,
    config: ClusterConfigView,
    from: NodeId,
    request: RequestVote,
)
    requires
        in_force(s, config),
        listens_to(s, config, from),
        request.candidate_id == from,
    ensures
        ({
            let (next, effects) = s.step(
                EventView::Step { from, message: MessageView::RequestVote(request) },
            );
            let deaf = s.role == Role::Leader || (config.old_voters is Some
                && s.leader_contact_elapsed < s.heartbeat_interval);
            let free = request.term > s.current_term || s.voted_for is None || s.voted_for == Some(
                from,
            );
            let heard = !deaf && request.term >= s.current_term;
            let granted = heard && free && at_least_as_new(request, s);
            let term = if heard {
                request.term
            } else {
                s.current_term
            };
            &&& effects.len() > 0
            &&& effects[effects.len() - 1] == (EffectView::Send {
                to: from,
                message: MessageView::RequestVoteResponse(RequestVoteResponse { term, granted }),
            })
            &&& next.current_term == term
            &&& next.voted_for == if granted {
                Some(from)
            } else if term > s.current_term {
                None
            } else {
                s.voted_for
            }
            &&& granted ==> next.election_elapsed == 0 && effects.len() == 2 && effects[0] == (
            EffectView::PersistHardState { term, voted_for: Some(from) })
            &&& !granted ==> next.election_elapsed == s.election_elapsed
            &&& term > s.current_term ==> effects.len() == 2 && effects[0] == (
            EffectView::PersistHardState { term, voted_for: next.voted_for }) && next.role
                == Role::Follower && next.votes_granted == Set::<NodeId>::empty()
            &&& term == s.current_term ==> next.role == s.role && next.votes_granted
                == s.votes_granted
            &&& !granted && term == s.current_term ==> effects.len() == 1 && next == s
            &&& next.log == s.log && next.snapshot == s.snapshot && next.commit_index
                == s.commit_index && next.learners == s.learners
            &&& next.leader_contact_elapsed == s.leader_contact_elapsed && next.election_timeout
                == s.election_timeout
        }),
{
    last_configuration_is_in_force(s, config);
}

/// A message that claims to be someone else's is ignored, and so is whatever a
/// stranger sends, but for a leader's own messages: those need no membership.
pub proof fn impostors_and_strangers_are_ignored(
    s: NodeState,
    config: ClusterConfigView,
    from: NodeId,
    message: MessageView,
)
    requires
        in_force(s, config),
        match message {
            MessageView::AppendEntries(request) => request.leader_id != from,
            MessageView::InstallSnapshot(request) => request.leader_id != from,
            MessageView::RequestVote(request) => request.candidate_id != from || !listens_to(
                s,
                config,
                from,
            ),
            _ => !listens_to(s, config, from),
        },
    ensures
        s.step(EventView::Step { from, message }) == (s, Seq::<EffectView>::empty()),
{
    last_configuration_is_in_force(s, config);
}

/// Whether a node has taken on a later term: as a follower that has not voted
/// in it and leads no one, which is made durable, and nothing else of it has
/// changed.
pub open spec fn follows_term(
    s: NodeState,
    term: u64,
    next: NodeState,
    effects: Seq<EffectView>,
) -> bool {
    &&& next == (NodeState {
        role: Role::Follower,
        current_term: term,
        voted_for: None,
        votes_granted: Set::empty(),
        next_index: Map::empty(),
        match_index: Map::empty(),
        ..s
    })
    &&& effects == seq![EffectView::PersistHardState { term, voted_for: None }]
}

/// A node that leads from now on takes every follower's log to end where its
/// own does, has heard from none of them, and sends a first round at once.
pub open spec fn takes_over(
    s: NodeState,
    config: ClusterConfigView,
    next: NodeState,
    effects: Seq<EffectView>,
) -> bool {
    &&& next.role == Role::Leader
    &&& next.heartbeat_elapsed == 0
    &&& forall|id: NodeId|
        next.next_index.contains_key(id) == (#[trigger] follows(s, config, id))
            && next.match_index.contains_key(id) == follows(s, config, id)
    &&& forall|id: NodeId| #[trigger]
        follows(s, config, id) ==> next.next_index[id] == end_of(s) + 1 && next.match_index[id] == 0
    &&& next == (NodeState {
        role: next.role,
        heartbeat_elapsed: next.heartbeat_elapsed,
        next_index: next.next_index,
        match_index: next.match_index,
        ..s
    })
    &&& reaches_everyone(next, config, effects)
}

proof fn lemma_takes_over(s: NodeState, config: ClusterConfigView)
    requires
        s.wf(),
        in_force(s, config),
        end_of(s) < u64::MAX,
    ensures
        takes_over(s, config, s.become_leader().0, s.become_leader().1),
{
    last_configuration_is_in_force(s, config);
    let next = s.seed_leader();
    last_configuration_is_in_force(next, config);
    laws::lemma_seed_finite(s);
    assert forall|id: NodeId| s.replication_targets().contains(id) == #[trigger] follows(
        s,
        config,
        id,
    ) by {
        lemma_targets(s, config, id);
    }
    assert forall|id: NodeId| #[trigger] follows(next, config, id) implies next.next_index[id]
        <= end_of(next) + 1 by {
        assert(follows(s, config, id));
    }
    rounds_reach_everyone(next, config);
}

/// A candidate counts the votes granted to it in its term, each voter once, and
/// leads as soon as they are more than half, not before. A later term makes it
/// a follower; anything else changes nothing.
pub proof fn more_than_half_elects(
    s: NodeState,
    config: ClusterConfigView,
    from: NodeId,
    response: RequestVoteResponse,
)
    requires
        s.wf(),
        in_force(s, config),
        end_of(s) < u64::MAX,
    ensures
        ({
            let (next, effects) = s.step(
                EventView::Step { from, message: MessageView::RequestVoteResponse(response) },
            );
            let votes = s.votes_granted.insert(from);
            if !listens_to(s, config, from) || response.term < s.current_term {
                next == s && effects.len() == 0
            } else if response.term > s.current_term {
                follows_term(s, response.term, next, effects)
            } else if s.role != Role::Candidate || !response.granted {
                next == s && effects.len() == 0
            } else if more_than_half(config, votes) {
                takes_over((NodeState { votes_granted: votes, ..s }), config, next, effects)
            } else {
                next == (NodeState { votes_granted: votes, ..s }) && effects.len() == 0
            }
        }),
{
    last_configuration_is_in_force(s, config);
    let counted = NodeState { votes_granted: s.votes_granted.insert(from), ..s };
    last_configuration_is_in_force(counted, config);
    quorum_is_more_than_half(counted, config);
    if more_than_half(config, counted.votes_granted) {
        lemma_takes_over(counted, config);
    }
}

/// Whether effects ask everyone else with a vote in the configuration for it.
pub open spec fn asks_for_votes(
    s: NodeState,
    config: ClusterConfigView,
    effects: Seq<EffectView>,
) -> bool {
    let request = MessageView::RequestVote(
        RequestVote {
            term: s.current_term,
            candidate_id: s.id,
            last_log_index: end_of(s) as u64,
            last_log_term: end_term(s),
        },
    );
    &&& forall|i: int|
        0 <= i < effects.len() ==> ((#[trigger] effects[i]) matches EffectView::Send { to, message }
            && to != s.id && config.voters.contains(to) && message == request)
    &&& forall|id: NodeId|
        id != s.id && #[trigger] config.voters.contains(id) ==> exists|i: int|
            0 <= i < effects.len() && (#[trigger] effects[i])->to == id
}

proof fn lemma_asks_for_votes(s: NodeState, config: ClusterConfigView)
    requires
        s.config() == config,
    ensures
        asks_for_votes(s, config, s.vote_requests()),
{
    let voters = config.voters;
    let asked = voters.filter(|peer: NodeId| peer != s.id);
    let effects = s.vote_requests();
    assert forall|i: int| 0 <= i < effects.len() implies (#[trigger] effects[i])->to == asked[i]
        && asked[i] != s.id && voters.contains(asked[i]) by {
        voters.lemma_filter_contains_rev(|peer: NodeId| peer != s.id, asked[i]);
        voters.lemma_filter_pred(|peer: NodeId| peer != s.id, i);
    }
    assert forall|id: NodeId| id != s.id && #[trigger] voters.contains(id) implies exists|i: int|
        0 <= i < effects.len() && (#[trigger] effects[i])->to == id by {
        let j = choose|j: int| 0 <= j < voters.len() && voters[j] == id;
        voters.lemma_filter_contains(|peer: NodeId| peer != s.id, j);
        let i = choose|i: int| 0 <= i < asked.len() && asked[i] == id;
        assert(effects[i]->to == id);
    }
}

/// A leader sends a round every `heartbeat_interval` ticks, and nothing in
/// between; otherwise a tick changes its counters alone.
pub proof fn leaders_send_heartbeats(s: NodeState, config: ClusterConfigView, next_timeout: u64)
    requires
        s.wf(),
        in_force(s, config),
        s.role == Role::Leader,
        s.heartbeat_elapsed < u64::MAX,
        s.leader_contact_elapsed < u64::MAX,
        forall|id: NodeId| #[trigger]
            follows(s, config, id) ==> s.next_index[id] <= end_of(s) + 1,
    ensures
        ({
            let (next, effects) = s.step(EventView::Tick { next_timeout });
            let due = s.heartbeat_elapsed + 1 >= s.heartbeat_interval;
            &&& next == (NodeState {
                heartbeat_elapsed: if due {
                    0
                } else {
                    (s.heartbeat_elapsed + 1) as u64
                },
                leader_contact_elapsed: (s.leader_contact_elapsed + 1) as u64,
                ..s
            })
            &&& due ==> reaches_everyone(next, config, effects)
            &&& !due ==> effects.len() == 0
        }),
{
    let due = NodeState { heartbeat_elapsed: 0, ..s.tick_leader() };
    last_configuration_is_in_force(s, config);
    last_configuration_is_in_force(due, config);
    assert forall|id: NodeId| #[trigger] follows(due, config, id) implies due.next_index[id]
        <= end_of(due) + 1 by {
        assert(follows(s, config, id));
    }
    rounds_reach_everyone(due, config);
}

/// A node that hears nothing campaigns when its timeout is up, not before, and
/// only if it has a vote: in the next term, with its own vote, made durable
/// first. It asks every other voter, or leads at once where its vote is enough.
pub proof fn silence_starts_an_election(s: NodeState, config: ClusterConfigView, next_timeout: u64)
    requires
        s.wf(),
        in_force(s, config),
        s.role != Role::Leader,
        s.election_elapsed < u64::MAX,
        s.leader_contact_elapsed < u64::MAX,
        s.current_term < u64::MAX,
        end_of(s) < u64::MAX,
    ensures
        ({
            let (next, effects) = s.step(EventView::Tick { next_timeout });
            let waited = NodeState {
                election_elapsed: (s.election_elapsed + 1) as u64,
                leader_contact_elapsed: (s.leader_contact_elapsed + 1) as u64,
                ..s
            };
            let term = (s.current_term + 1) as u64;
            let candidate = NodeState {
                role: Role::Candidate,
                current_term: term,
                voted_for: Some(s.id),
                votes_granted: Set::empty().insert(s.id),
                election_elapsed: 0,
                election_timeout: next_timeout,
                ..waited
            };
            if s.election_elapsed + 1 < s.election_timeout || !votes_in(config, s.id) {
                next == waited && effects.len() == 0
            } else {
                &&& effects.len() > 0
                &&& effects[0] == (EffectView::PersistHardState { term, voted_for: Some(s.id) })
                &&& if more_than_half(config, candidate.votes_granted) {
                    takes_over(candidate, config, next, effects.skip(1))
                } else {
                    next == candidate && asks_for_votes(candidate, config, effects.skip(1))
                }
            }
        }),
{
    last_configuration_is_in_force(s, config);
    let waited = s.tick_follower();
    last_configuration_is_in_force(waited, config);
    let candidate = waited.candidacy(next_timeout);
    last_configuration_is_in_force(candidate, config);
    quorum_is_more_than_half(candidate, config);
    let effects = s.step(EventView::Tick { next_timeout }).1;
    if s.election_elapsed + 1 >= s.election_timeout && votes_in(config, s.id) {
        if candidate.has_quorum() {
            lemma_takes_over(candidate, config);
            assert(effects.skip(1) =~= candidate.become_leader().1);
        } else {
            lemma_asks_for_votes(candidate, config);
            assert(effects.skip(1) =~= candidate.vote_requests());
        }
    }
}

} // verus!
