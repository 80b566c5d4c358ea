//! Whatever nodes of a cluster send each other can be taken, and they can
//! always tick, until a counter or an index reaches its limit.

use vstd::prelude::*;

use crate::raft::ids;
use crate::raft::laws;
use crate::raft::model;
use crate::raft::model::NodeState;
use crate::raft::types::{
    AppendEntriesView, EffectView, EventView, InstallSnapshotView, LogPayloadView, MessageView, NodeId,
    Role,
};
use crate::safety::bounds;
use crate::safety::record;
use crate::safety::record::Record;

verus! {

/// Whether a leader has voters to count, and tracks everyone it replicates to.
pub open spec fn tracks_targets(s: NodeState) -> bool {
    s.role == Role::Leader ==> {
        &&& s.config().voters.len() > 0
        &&& s.config().old_voters matches Some(old) ==> old.len() > 0
        &&& forall|peer: NodeId| #[trigger]
            s.replication_targets().contains(peer) ==> s.next_index.contains_key(peer)
                && s.match_index.contains_key(peer)
    }
}

/// Whether no counter of a node has reached its limit.
pub open spec fn counts_on(s: NodeState) -> bool {
    &&& s.current_term < u64::MAX
    &&& s.election_elapsed < u64::MAX
    &&& s.heartbeat_elapsed < u64::MAX
    &&& s.leader_contact_elapsed < u64::MAX
}

/// A leader can replicate to everyone it tracks.
proof fn lemma_can_broadcast(genesis: Seq<NodeId>, r: Record, s: NodeState)
    requires
        record::node_matches(genesis, r, s),
        tracks_targets(s),
        s.role == Role::Leader,
    ensures
        s.can_broadcast(),
{
    assert forall|peer: NodeId| #[trigger]
        s.replication_targets().contains(peer) implies s.can_replicate_to(peer) by {
        assert(s.next_index.contains_key(peer));
    }
}

/// A leader can take any acknowledgement that is true.
proof fn lemma_can_acknowledge(
    genesis: Seq<NodeId>,
    r: Record,
    s: NodeState,
    peer: NodeId,
    index: u64,
    cap: int,
    known: Set<NodeId>,
)
    requires
        r.consistent(genesis),
        record::node_matches(genesis, r, s),
        r.within(genesis, cap, known),
        0 <= cap < u64::MAX,
        tracks_targets(s),
        s.role == Role::Leader,
        s.is_member(peer),
        peer != s.id,
        index <= r.acked(peer, s.current_term) || r.reached(genesis, s.current_term, index as int),
    ensures
        s.can_acknowledge(peer, index),
{
    assert(s.replication_targets().contains(peer));
    assert(s.match_index.contains_key(peer));
    assert(r.led(s.current_term));
    assert(index <= cap) by {
        if index > r.acked(peer, s.current_term) {
            if index > 0 {
                let (by, upto, at) = choose|by: u64, upto: int, at: int| #[trigger]
                    r.certified(genesis, by, upto, at) && by <= s.current_term && index <= upto;
                assert(r.led(by));
            }
        } else if r.acked(peer, s.current_term) > 0 {
            assert(r.led(s.current_term));
        }
    }
    let after = s.acknowledge(peer, index);
    assert(after.config() == s.config());
}

/// A node of a cluster can take whatever the cluster sends it, and can tick
/// until a counter reaches its limit.
pub proof fn lemma_possible(
    genesis: Seq<NodeId>,
    r: Record,
    s: NodeState,
    event: EventView,
    cap: int,
    known: Set<NodeId>,
)
    requires
        r.consistent(genesis),
        record::node_matches(genesis, r, s),
        r.within(genesis, cap, known),
        0 <= cap < u64::MAX,
        tracks_targets(s),
        event is Tick ==> counts_on(s),
        event matches EventView::Step { from, message } ==> record::message_matches(
            genesis,
            r,
            from,
            s.id,
            message,
        ),
    ensures
        s.can_step(event),
{
    bounds::lemma_rooted(genesis, r, r.full(s), cap, known);
    assert(s.can_extend());
    match event {
        EventView::Tick { .. } => {
            if s.role == Role::Leader {
                lemma_can_broadcast(genesis, r, s);
            }
        },
        EventView::Step { from, message } => match message {
            MessageView::InstallSnapshot(request) => {
                assert(r.led(request.term));
            },
            MessageView::AppendEntriesResponse(response) => {
                if s.is_member(from) && response.term == s.current_term && s.role == Role::Leader {
                    assert(s.replication_targets().contains(from));
                    if response.success {
                        lemma_can_acknowledge(
                            genesis,
                            r,
                            s,
                            from,
                            response.match_index,
                            cap,
                            known,
                        );
                    }
                }
            },
            MessageView::InstallSnapshotResponse(response) => {
                if s.is_member(from) && response.term == s.current_term && s.role == Role::Leader {
                    lemma_can_acknowledge(
                        genesis,
                        r,
                        s,
                        from,
                        response.last_included_index,
                        cap,
                        known,
                    );
                }
            },
            _ => {},
        },
    }
}

/// A node that has just been elected tracks everyone.
proof fn lemma_elected_tracks(s: NodeState)
    requires
        s.has_quorum(),
    ensures
        tracks_targets(s.seed_leader()),
{
    let leader = s.seed_leader();
    let config = s.config();
    assert(leader.config() == config);
    if config.voters.len() == 0 {
        assert(s.votes_granted.intersect(config.voters.to_set()) =~= Set::empty());
    }
    assert(leader.replication_targets() =~= s.replication_targets());
}

/// Advancing the commit index keeps everyone tracked.
pub proof fn lemma_advance_tracks(s: NodeState)
    requires
        tracks_targets(s),
        s.role == Role::Leader,
    ensures
        tracks_targets(s.advance_commit().0),
{
    let committed = s.commit_replicated();
    assert(committed.config() == s.config());
    assert(committed.replication_targets() =~= s.replication_targets());
    if committed.transition_committed() {
        let payload = LogPayloadView::Configuration(committed.settled_config());
        let settled = committed.append(payload);
        model::lemma_latest_push(committed.log, settled.log.last());
        assert(settled.config() == s.settled_config());
        let next = settled.commit_replicated();
        assert(next.config() == settled.config());
        assert(next.replication_targets().subset_of(s.replication_targets()));
    }
}

/// An event keeps everyone tracked.
pub proof fn lemma_event_tracks(genesis: Seq<NodeId>, r: Record, s: NodeState, event: EventView)
    requires
        record::node_matches(genesis, r, s),
        tracks_targets(s),
        s.can_step(event),
        event matches EventView::Step { from, message } ==> record::message_matches(
            genesis,
            r,
            from,
            s.id,
            message,
        ),
    ensures
        tracks_targets(s.step(event).0),
{
    match event {
        EventView::Tick { next_timeout } => {
            if s.role == Role::Leader {
                let after = s.on_tick(next_timeout).0;
                assert(after.config() == s.config());
                assert(after.replication_targets() =~= s.replication_targets());
            } else {
                let candidate = s.tick_follower().candidacy(next_timeout);
                if candidate.has_quorum() {
                    lemma_elected_tracks(candidate);
                }
            }
        },
        EventView::Step { from, message } => match message {
            MessageView::RequestVoteResponse(response) => {
                let counted = NodeState { votes_granted: s.votes_granted.insert(from), ..s };
                if counted.has_quorum() {
                    lemma_elected_tracks(counted);
                }
            },
            MessageView::AppendEntriesResponse(response) => {
                if s.is_member(from) && response.term == s.current_term && s.role == Role::Leader {
                    if response.success {
                        lemma_acknowledged_tracks(s, from, response.match_index);
                    } else {
                        let after = s.back_off(from);
                        assert(after.config() == s.config());
                        assert(after.replication_targets() =~= s.replication_targets());
                    }
                }
            },
            MessageView::InstallSnapshotResponse(response) => {
                if s.is_member(from) && response.term == s.current_term && s.role == Role::Leader {
                    lemma_acknowledged_tracks(s, from, response.last_included_index);
                }
            },
            _ => {},
        },
    }
}

proof fn lemma_acknowledged_tracks(s: NodeState, peer: NodeId, index: u64)
    requires
        tracks_targets(s),
        s.role == Role::Leader,
    ensures
        tracks_targets(s.on_acknowledged(peer, index).0),
{
    let known = s.acknowledge(peer, index);
    assert(known.config() == s.config());
    assert(known.replication_targets() =~= s.replication_targets());
    lemma_advance_tracks(known);
}

/// Whether every message among `effects` goes to one of the `known` nodes.
pub open spec fn sends_to(effects: Seq<EffectView>, known: Set<NodeId>) -> bool {
    forall|i: int|
        0 <= i < effects.len() ==> ((#[trigger] effects[i]) matches EffectView::Send { to, .. }
            ==> known.contains(to))
}

proof fn lemma_broadcast_sends_to(s: NodeState, known: Set<NodeId>)
    requires
        s.wf(),
        s.config().members().subset_of(known),
        s.learners.subset_of(known),
    ensures
        sends_to(s.broadcast(), known),
{
    laws::lemma_targets_finite(s);
    let targets = s.replication_targets();
    ids::lemma_sorted_exists(targets);
    let order = ids::sorted_ids(targets);
    let effects = s.broadcast();
    assert forall|i: int| 0 <= i < effects.len() implies ((
    #[trigger] effects[i]) matches EffectView::Send { to, .. } ==> known.contains(to)) by {
        assert(order.to_set().contains(order[i]));
        assert(effects[i] == s.replicate_to(order[i]));
    }
}

proof fn lemma_round_sends_to(first: EffectView, rest: Seq<EffectView>, known: Set<NodeId>)
    requires
        !(first is Send),
        sends_to(rest, known),
    ensures
        sends_to(seq![first] + rest, known),
{
    let all = seq![first] + rest;
    assert forall|i: int| 0 <= i < all.len() implies ((#[trigger] all[i]) matches EffectView::Send {
        to,
        ..
    } ==> known.contains(to)) by {
        if i > 0 {
            assert(all[i] == rest[i - 1]);
        }
    }
}

/// A campaign is addressed to known nodes.
proof fn lemma_campaign_sends_to(s: NodeState, next_timeout: u64, known: Set<NodeId>)
    requires
        s.wf(),
        s.config().members().subset_of(known),
        s.learners.subset_of(known),
    ensures
        sends_to(s.start_election(next_timeout).1, known),
{
    let candidate = s.candidacy(next_timeout);
    assert(candidate.config() == s.config());
    if s.config().is_voter(s.id) {
        if candidate.has_quorum() {
            laws::lemma_seed_finite(candidate);
            lemma_broadcast_sends_to(candidate.seed_leader(), known);
            lemma_round_sends_to(
                candidate.persist_hard_state(),
                candidate.become_leader().1,
                known,
            );
        } else {
            let voters = candidate.config().voters;
            let requests = candidate.vote_requests();
            let asked = voters.filter(|peer: NodeId| peer != candidate.id);
            assert forall|i: int| 0 <= i < requests.len() implies ((
            #[trigger] requests[i]) matches EffectView::Send { to, .. } ==> known.contains(to)) by {
                voters.lemma_filter_contains_rev(|peer: NodeId| peer != candidate.id, asked[i]);
                assert(voters.to_set().contains(asked[i]));
            }
            lemma_round_sends_to(candidate.persist_hard_state(), requests, known);
        }
    }
}

/// Whatever a node sends is addressed to known nodes.
pub proof fn lemma_event_sends_to(s: NodeState, event: EventView, known: Set<NodeId>)
    requires
        s.wf(),
        s.can_step(event),
        s.config().members().subset_of(known),
        s.learners.subset_of(known),
        event matches EventView::Step { from, .. } ==> known.contains(from),
    ensures
        sends_to(s.step(event).1, known),
        s.step(event).0.learners == s.learners,
{
    match event {
        EventView::Tick { next_timeout } => {
            let due = NodeState { heartbeat_elapsed: 0, ..s.tick_leader() };
            assert(due.config() == s.config());
            lemma_broadcast_sends_to(due, known);
            let ticked = s.tick_follower();
            assert(ticked.config() == s.config());
            lemma_campaign_sends_to(ticked, next_timeout, known);
        },
        EventView::Step { from, message } => match message {
            MessageView::RequestVoteResponse(response) => {
                let counted = NodeState { votes_granted: s.votes_granted.insert(from), ..s };
                assert(counted.config() == s.config());
                laws::lemma_seed_finite(counted);
                assert(counted.seed_leader().config() == s.config());
                if s.is_member(from) && response.term == s.current_term && s.role
                    == Role::Candidate && response.granted && counted.has_quorum() {
                    lemma_broadcast_sends_to(counted.seed_leader(), known);
                }
            },
            _ => {},
        },
    }
}

/// The term a message was sent in.
pub open spec fn term_of(message: MessageView) -> u64 {
    match message {
        MessageView::RequestVote(request) => request.term,
        MessageView::RequestVoteResponse(response) => response.term,
        MessageView::AppendEntries(request) => request.term,
        MessageView::AppendEntriesResponse(response) => response.term,
        MessageView::InstallSnapshot(request) => request.term,
        MessageView::InstallSnapshotResponse(response) => response.term,
    }
}

/// Whether every message among `effects` is of term `term`.
pub open spec fn sends_in(effects: Seq<EffectView>, term: u64) -> bool {
    forall|i: int|
        0 <= i < effects.len() ==> ((#[trigger] effects[i]) matches EffectView::Send {
            message,
            ..
        } ==> term_of(message) == term)
}

/// Whether the counters of a node have gone no further than `pace` ticks take
/// them.
pub open spec fn paced(s: NodeState, pace: int) -> bool {
    &&& s.current_term <= pace
    &&& s.election_elapsed <= pace
    &&& s.heartbeat_elapsed <= pace
    &&& s.leader_contact_elapsed <= s.heartbeat_interval + pace
}

/// Everything a leader sends to its targets is of its term.
proof fn lemma_broadcast_in(s: NodeState)
    ensures
        sends_in(s.broadcast(), s.current_term),
{
}

proof fn lemma_round_in(first: EffectView, rest: Seq<EffectView>, term: u64)
    requires
        !(first is Send),
        sends_in(rest, term),
    ensures
        sends_in(seq![first] + rest, term),
{
    let all = seq![first] + rest;
    assert forall|i: int| 0 <= i < all.len() implies ((#[trigger] all[i]) matches EffectView::Send {
        message,
        ..
    } ==> term_of(message) == term) by {
        if i > 0 {
            assert(all[i] == rest[i - 1]);
        }
    }
}

proof fn lemma_tick_paced(s: NodeState, next_timeout: u64, pace: int)
    requires
        paced(s, pace),
        s.can_tick(),
    ensures
        ({
            let (after, effects) = s.on_tick(next_timeout);
            &&& paced(after, pace + 1)
            &&& after.heartbeat_interval == s.heartbeat_interval
            &&& sends_in(effects, after.current_term)
        }),
{
    if s.role == Role::Leader {
        lemma_broadcast_in(NodeState { heartbeat_elapsed: 0, ..s.tick_leader() });
    } else {
        let ticked = s.tick_follower();
        let candidate = ticked.candidacy(next_timeout);
        let persist = candidate.persist_hard_state();
        assert(ticked.config() == s.config());
        lemma_broadcast_in(candidate.seed_leader());
        lemma_round_in(persist, candidate.become_leader().1, candidate.current_term);
        let requests = candidate.vote_requests();
        assert(sends_in(requests, candidate.current_term));
        lemma_round_in(persist, requests, candidate.current_term);
    }
}

proof fn lemma_acknowledged_paced(s: NodeState, peer: NodeId, index: u64, pace: int)
    requires
        paced(s, pace),
    ensures
        ({
            let (after, effects) = s.on_acknowledged(peer, index);
            &&& paced(after, pace)
            &&& after.heartbeat_interval == s.heartbeat_interval
            &&& after.current_term == s.current_term
            &&& sends_in(effects, after.current_term)
        }),
{
    let known = s.acknowledge(peer, index);
    let (next, effects) = known.advance_commit();
    let all = effects + next.retry(peer);
    assert(next.current_term == s.current_term);
    assert forall|i: int| 0 <= i < all.len() implies ((#[trigger] all[i]) matches EffectView::Send {
        message,
        ..
    } ==> term_of(message) == s.current_term) by {
        if i < effects.len() {
            assert(all[i] == effects[i]);
        } else {
            assert(all[i] == next.retry(peer)[i - effects.len()]);
        }
    }
}

proof fn lemma_entries_paced(
    s: NodeState,
    from: NodeId,
    request: AppendEntriesView,
    pace: int,
)
    requires
        paced(s, pace),
        request.term <= pace,
    ensures
        ({
            let (after, effects) = s.on_append_entries(from, request);
            &&& paced(after, pace)
            &&& after.heartbeat_interval == s.heartbeat_interval
            &&& sends_in(effects, after.current_term)
        }),
{
}

proof fn lemma_snapshot_paced(
    s: NodeState,
    from: NodeId,
    request: InstallSnapshotView,
    pace: int,
)
    requires
        paced(s, pace),
        request.term <= pace,
    ensures
        ({
            let (after, effects) = s.on_install_snapshot(from, request);
            &&& paced(after, pace)
            &&& after.heartbeat_interval == s.heartbeat_interval
            &&& sends_in(effects, after.current_term)
        }),
{
}

/// A message takes no counter further than those of its sender, a tick one
/// further. Whatever is sent is of the term then reached.
pub proof fn lemma_event_paced(s: NodeState, event: EventView, pace: int)
    requires
        paced(s, pace),
        s.can_step(event),
        event matches EventView::Step { message, .. } ==> term_of(message) <= pace,
    ensures
        paced(
            s.step(event).0,
            if event is Tick {
                pace + 1
            } else {
                pace
            },
        ),
        s.step(event).0.heartbeat_interval == s.heartbeat_interval,
        sends_in(s.step(event).1, s.step(event).0.current_term),
{
    match event {
        EventView::Tick { next_timeout } => lemma_tick_paced(s, next_timeout, pace),
        EventView::Step { from, message } => match message {
            MessageView::RequestVote(_) => {},
            MessageView::RequestVoteResponse(_) => {
                let counted = NodeState { votes_granted: s.votes_granted.insert(from), ..s };
                lemma_broadcast_in(counted.seed_leader());
            },
            MessageView::AppendEntries(request) => lemma_entries_paced(s, from, request, pace),
            MessageView::AppendEntriesResponse(response) => {
                lemma_acknowledged_paced(s, from, response.match_index, pace);
            },
            MessageView::InstallSnapshot(request) => lemma_snapshot_paced(s, from, request, pace),
            MessageView::InstallSnapshotResponse(response) => {
                lemma_acknowledged_paced(s, from, response.last_included_index, pace);
            },
        },
    }
}

} // verus!
