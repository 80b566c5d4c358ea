//! The nodes of a harness neither change who votes nor compact their logs:
//! their logs hold commands alone, from the first entry on.

use vstd::prelude::*;

use crate::raft::ids;
use crate::raft::laws;
use crate::raft::model;
use crate::raft::model::NodeState;
use crate::raft::types::{
    AppendEntriesResponse, AppendEntriesView, EffectView, EventView, LogEntryView, LogPayloadView,
    MessageView, NodeId, Role, SnapshotMetadata,
};
use crate::safety::record;
use crate::safety::record::Record;

verus! {

pub open spec fn commands_only(log: Seq<LogEntryView>) -> bool {
    forall|i: int| 0 <= i < log.len() ==> (#[trigger] log[i]).payload is Command
}

/// Whether a node has its whole log, and its voters are `peers`.
pub open spec fn is_plain(peers: Seq<NodeId>, s: NodeState) -> bool {
    &&& peers.contains(s.id)
    &&& s.snapshot == (SnapshotMetadata { last_included_index: 0, last_included_term: 0 })
    &&& s.snapshot_config == record::stable(peers)
    &&& s.learners == Set::<NodeId>::empty()
    &&& commands_only(s.log)
}

/// Whether a message carries nothing but commands.
pub open spec fn message_is_plain(message: MessageView) -> bool {
    match message {
        MessageView::AppendEntries(request) => commands_only(request.entries),
        MessageView::InstallSnapshot(_) => false,
        MessageView::InstallSnapshotResponse(_) => false,
        _ => true,
    }
}

pub open spec fn sends_plain(effects: Seq<EffectView>) -> bool {
    forall|i: int|
        0 <= i < effects.len() ==> ((#[trigger] effects[i]) matches EffectView::Send {
            message,
            ..
        } ==> message_is_plain(message))
}

/// A plain node's log is its log from the beginning.
pub proof fn lemma_full(peers: Seq<NodeId>, r: Record, s: NodeState)
    requires
        is_plain(peers, s),
        record::snapshot_matches(peers, r, s),
    ensures
        r.full(s) == s.log,
{
    assert(r.full(s) =~= s.log);
}

/// A log of commands sets no configuration.
proof fn lemma_no_configuration(log: Seq<LogEntryView>)
    requires
        commands_only(log),
    ensures
        model::latest_configuration(log) is None,
    decreases log.len(),
{
    if log.len() > 0 {
        assert(log[log.len() - 1].payload is Command);
        let rest = log.drop_last();
        assert forall|i: int| 0 <= i < rest.len() implies (#[trigger] rest[i]).payload is Command by {
            assert(rest[i] == log[i]);
        }
        lemma_no_configuration(rest);
    }
}

/// The configuration in force is the cluster's.
pub proof fn lemma_config(peers: Seq<NodeId>, s: NodeState)
    requires
        is_plain(peers, s),
    ensures
        s.config() == record::stable(peers),
{
    lemma_no_configuration(s.log);
}

/// Whether a leader sends everyone entries from within its log.
pub open spec fn starts_within(s: NodeState) -> bool {
    s.role == Role::Leader ==> forall|id: NodeId| #[trigger]
        s.next_index.contains_key(id) ==> 1 <= s.next_index[id] <= s.log.len() + 1
}

proof fn lemma_replicate(peers: Seq<NodeId>, s: NodeState, peer: NodeId)
    requires
        is_plain(peers, s),
        1 <= s.next_index[peer] <= s.log.len() + 1,
    ensures
        s.replicate_to(peer) matches EffectView::Send { message, .. } && message_is_plain(message),
{
    let next = s.next_index[peer];
    let entries = s.entries_from(next as int);
    assert forall|i: int| 0 <= i < entries.len() implies (
    #[trigger] entries[i]).payload is Command by {
        assert(entries[i] == s.log[next - 1 + i]);
    }
}

proof fn lemma_broadcast(peers: Seq<NodeId>, s: NodeState)
    requires
        s.wf(),
        is_plain(peers, s),
        s.role == Role::Leader,
        starts_within(s),
        s.can_broadcast(),
    ensures
        sends_plain(s.broadcast()),
{
    laws::lemma_targets_finite(s);
    let targets = s.replication_targets();
    ids::lemma_sorted_exists(targets);
    let order = ids::sorted_ids(targets);
    let effects = s.broadcast();
    assert forall|i: int| 0 <= i < effects.len() implies ((#[trigger] effects[i]) matches EffectView::Send {
        message,
        ..
    } ==> message_is_plain(message)) by {
        let peer = order[i];
        assert(order.to_set().contains(peer));
        assert(targets.contains(peer));
        assert(s.can_replicate_to(peer));
        assert(effects[i] == s.replicate_to(peer));
        lemma_replicate(peers, s, peer);
    }
}

proof fn lemma_takes_over(peers: Seq<NodeId>, s: NodeState)
    requires
        s.wf(),
        is_plain(peers, s),
        s.can_extend(),
    ensures
        is_plain(peers, s.become_leader().0),
        sends_plain(s.become_leader().1),
{
    let leader = s.seed_leader();
    laws::lemma_seed_finite(s);
    assert(leader.replication_targets() =~= s.replication_targets());
    assert(leader.can_broadcast()) by {
        assert forall|peer: NodeId| #[trigger] leader.replication_targets().contains(peer) implies leader.can_replicate_to(
            peer,
        ) by {
            assert(s.replication_targets().contains(peer));
        }
    }
    lemma_broadcast(peers, leader);
}

proof fn lemma_campaigns(peers: Seq<NodeId>, s: NodeState, next_timeout: u64)
    requires
        s.wf(),
        is_plain(peers, s),
        s.can_start_election(),
    ensures
        is_plain(peers, s.start_election(next_timeout).0),
        sends_plain(s.start_election(next_timeout).1),
{
    let candidate = s.candidacy(next_timeout);
    if s.config().is_voter(s.id) {
        if candidate.has_quorum() {
            assert(s.candidacy(0).has_quorum());
            lemma_takes_over(peers, candidate);
            let effects = candidate.become_leader().1;
            let all = seq![candidate.persist_hard_state()] + effects;
            assert forall|i: int| 0 <= i < all.len() implies ((
            #[trigger] all[i]) matches EffectView::Send { message, .. } ==> message_is_plain(
                message,
            )) by {
                if i > 0 {
                    assert(all[i] == effects[i - 1]);
                }
            }
        } else {
            let requests = candidate.vote_requests();
            let all = seq![candidate.persist_hard_state()] + requests;
            assert forall|i: int| 0 <= i < all.len() implies ((
            #[trigger] all[i]) matches EffectView::Send { message, .. } ==> message_is_plain(
                message,
            )) by {
                if i > 0 {
                    assert(all[i] == requests[i - 1]);
                }
            }
        }
    }
}

proof fn lemma_tick(peers: Seq<NodeId>, s: NodeState, next_timeout: u64)
    requires
        s.wf(),
        is_plain(peers, s),
        starts_within(s),
        s.can_tick(),
    ensures
        is_plain(peers, s.on_tick(next_timeout).0),
        sends_plain(s.on_tick(next_timeout).1),
{
    if s.role == Role::Leader {
        let ticked = s.tick_leader();
        if ticked.heartbeat_elapsed >= ticked.heartbeat_interval {
            let due = NodeState { heartbeat_elapsed: 0, ..ticked };
            assert(due.replication_targets() =~= s.replication_targets());
            assert(due.can_broadcast()) by {
                assert forall|peer: NodeId| #[trigger]
                    due.replication_targets().contains(peer) implies due.can_replicate_to(peer) by {
                    assert(s.replication_targets().contains(peer));
                    assert(s.can_replicate_to(peer));
                }
            }
            lemma_broadcast(peers, due);
        }
    } else {
        let ticked = s.tick_follower();
        if ticked.election_elapsed >= ticked.election_timeout {
            assert(ticked.can_start_election()) by {
                assert(ticked.candidacy(0).has_quorum() == s.candidacy(0).has_quorum());
            }
            lemma_campaigns(peers, ticked, next_timeout);
        }
    }
}

proof fn lemma_append_entries(
    peers: Seq<NodeId>,
    s: NodeState,
    from: NodeId,
    request: AppendEntriesView,
)
    requires
        is_plain(peers, s),
        commands_only(request.entries),
    ensures
        is_plain(peers, s.on_append_entries(from, request).0),
        sends_plain(s.on_append_entries(from, request).1),
{
    if request.term >= s.current_term {
        let current = s.follow(request.term);
        let log = current.merged(request).0;
        if exists|k: int| current.first_divergence(request, k) {
            let k = choose|k: int| current.first_divergence(request, k);
            let kept = request.prev_log_index + k;
            assert(log == current.log.take(kept) + request.entries.skip(k));
            if current.prev_log_matches(request) {
                if k > 0 {
                    assert(!current.diverges_at(request, k - 1));
                }
                assert(kept <= current.log.len());
                assert forall|i: int| 0 <= i < log.len() implies (
                #[trigger] log[i]).payload is Command by {
                    if i < kept {
                        assert(log[i] == current.log[i]);
                    } else {
                        assert(log[i] == request.entries[k + i - kept]);
                    }
                }
            }
        }
    }
}

/// A leader of a cluster whose voters stay the same commits what it can.
proof fn lemma_advance(peers: Seq<NodeId>, s: NodeState)
    requires
        is_plain(peers, s),
    ensures
        s.advance_commit().0 == s.commit_replicated(),
        s.advance_commit().1 == Seq::<EffectView>::empty(),
        is_plain(peers, s.advance_commit().0),
{
    lemma_config(peers, s);
    assert(s.commit_replicated().config() == s.config());
}

proof fn lemma_append_response(
    peers: Seq<NodeId>,
    s: NodeState,
    from: NodeId,
    response: AppendEntriesResponse,
)
    requires
        is_plain(peers, s),
        starts_within(s),
        s.can_take_append_response(from, response),
    ensures
        is_plain(peers, s.on_append_entries_response(from, response).0),
        sends_plain(s.on_append_entries_response(from, response).1),
{
    if response.term == s.current_term && s.role == Role::Leader {
        if response.success {
            let known = s.acknowledge(from, response.match_index);
            lemma_advance(peers, known);
            if known.next_index[from] <= known.log.len() {
                lemma_replicate(peers, known.advance_commit().0, from);
            }
        } else {
            lemma_replicate(peers, s.back_off(from), from);
        }
    }
}

/// One event.
pub proof fn lemma_step(peers: Seq<NodeId>, s: NodeState, event: EventView)
    requires
        s.wf(),
        is_plain(peers, s),
        starts_within(s),
        s.can_step(event),
        event matches EventView::Step { message, .. } ==> message_is_plain(message),
    ensures
        is_plain(peers, s.step(event).0),
        sends_plain(s.step(event).1),
{
    match event {
        EventView::Tick { next_timeout } => lemma_tick(peers, s, next_timeout),
        EventView::Step { from, message } => match message {
            MessageView::RequestVoteResponse(response) => {
                if s.is_member(from) && response.term == s.current_term && s.role == Role::Candidate
                    && response.granted {
                    let counted = NodeState { votes_granted: s.votes_granted.insert(from), ..s };
                    if counted.has_quorum() {
                        lemma_takes_over(peers, counted);
                    }
                }
            },
            MessageView::AppendEntries(request) => lemma_append_entries(peers, s, from, request),
            MessageView::AppendEntriesResponse(response) => {
                if s.is_member(from) {
                    lemma_append_response(peers, s, from, response);
                }
            },
            _ => {},
        },
    }
}

/// A leader appends a command, and goes on leading.
pub proof fn lemma_proposal(peers: Seq<NodeId>, s: NodeState, command: Seq<u8>)
    requires
        is_plain(peers, s),
        s.role == Role::Leader,
    ensures
        ({
            let payload = LogPayloadView::Command(command);
            let (after, effects) = s.append_and_advance(payload);
            &&& is_plain(peers, after)
            &&& sends_plain(effects)
            &&& !s.append(payload).config().is_joint()
            &&& after.role == Role::Leader
            &&& after.log == s.log.push((LogEntryView { term: s.current_term, payload }))
        }),
{
    let grown = s.append(LogPayloadView::Command(command));
    assert(is_plain(peers, grown));
    lemma_config(peers, grown);
    lemma_advance(peers, grown);
}

} // verus!
