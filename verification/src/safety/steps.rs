//! Ticks and votes leave a node, the record and whatever the node sends in
//! accord.

use vstd::prelude::*;

use crate::raft::ids;
use crate::raft::laws;
use crate::raft::model::NodeState;
use crate::raft::types::{
    EffectView, MessageView, NodeId, RequestVote, RequestVoteResponse, Role,
};
use crate::safety::growth;
use crate::safety::record;
use crate::safety::record::Record;
use crate::safety::updates;

verus! {

/// Whether every message among `effects` says nothing but what is recorded.
pub open spec fn sends_match(
    genesis: Seq<NodeId>,
    r: Record,
    from: NodeId,
    effects: Seq<EffectView>,
) -> bool {
    forall|i: int|
        0 <= i < effects.len() ==> ((#[trigger] effects[i]) matches EffectView::Send {
            to,
            message,
        } ==> record::message_matches(genesis, r, from, to, message))
}

/// Whether a node's transition from `s` to `after` is accounted for by the
/// record growing from `r` to `next`. What was committed stays.
pub open spec fn accounted(
    genesis: Seq<NodeId>,
    r: Record,
    next: Record,
    s: NodeState,
    after: NodeState,
    effects: Seq<EffectView>,
) -> bool {
    &&& next.consistent(genesis)
    &&& r.grows_to(next)
    &&& r.adds_only(next, s.id)
    &&& after.id == s.id
    &&& s.commit_index <= after.commit_index
    &&& record::agree(r.full(s), next.full(after), s.commit_index as int)
    &&& record::node_matches(genesis, next, after)
    &&& sends_match(genesis, next, s.id, effects)
}

/// What a leader sends to a peer is what it holds.
pub proof fn lemma_replicate(genesis: Seq<NodeId>, r: Record, s: NodeState, peer: NodeId)
    requires
        record::node_matches(genesis, r, s),
        s.role == Role::Leader,
        s.next_index.contains_key(peer),
        peer != s.id,
    ensures
        s.replicate_to(peer) matches EffectView::Send { to, message } && record::message_matches(
            genesis,
            r,
            s.id,
            to,
            message,
        ),
{
    let next = s.next_index[peer];
    let log = r.full(s);
    let base = r.base(s.id);
    assert(1 <= next <= log.len() + 1);
    if next <= s.boundary() {
        growth::lemma_committed_part(
            genesis,
            r,
            s.current_term,
            s.commit_index as int,
            log,
            s.boundary(),
        );
        assert(log.take(s.boundary()) =~= base);
        assert(log[s.boundary() - 1] == base.last());
    } else {
        let entries = s.entries_from(next as int);
        assert forall|k: int| 0 <= k < entries.len() implies (#[trigger] entries[k]) == log[next - 1
            + k] by {
            assert(entries[k] == s.log[next - 1 - s.boundary() + k]);
        }
        if next > 1 && next - 1 == s.boundary() {
            assert(log[next - 2] == base.last());
        }
    }
}

proof fn lemma_broadcast(genesis: Seq<NodeId>, r: Record, s: NodeState)
    requires
        record::node_matches(genesis, r, s),
        s.role == Role::Leader,
        s.can_broadcast(),
    ensures
        sends_match(genesis, r, s.id, s.broadcast()),
{
    laws::lemma_targets_finite(s);
    let targets = s.replication_targets();
    ids::lemma_sorted_exists(targets);
    let order = ids::sorted_ids(targets);
    let effects = s.broadcast();
    assert forall|i: int| 0 <= i < effects.len() implies ((#[trigger] effects[i]) matches EffectView::Send {
        to,
        message,
    } ==> record::message_matches(genesis, r, s.id, to, message)) by {
        let peer = order[i];
        assert(order.to_set().contains(peer));
        assert(targets.contains(peer));
        assert(s.can_replicate_to(peer));
        assert(effects[i] == s.replicate_to(peer));
        lemma_replicate(genesis, r, s, peer);
    }
}

/// Entering a later term without a vote.
pub proof fn lemma_step_down(genesis: Seq<NodeId>, r: Record, s: NodeState, term: u64)
    requires
        r.consistent(genesis),
        record::node_matches(genesis, r, s),
        term > s.current_term,
    ensures
        record::node_matches(genesis, r, s.step_down(term)),
        r.full(s.step_down(term)) == r.full(s),
{
    let after = s.step_down(term);
    growth::lemma_committed_grows(
        genesis,
        r,
        r,
        s.current_term,
        s.commit_index as int,
        r.full(s),
        term,
    );
    growth::lemma_acks_stay(genesis, r, r, s, after);
}

/// A candidate with a quorum takes over.
proof fn lemma_takes_over(genesis: Seq<NodeId>, r: Record, s: NodeState) -> (next: Record)
    requires
        r.consistent(genesis),
        record::node_matches(genesis, r, s),
        s.role == Role::Candidate,
        s.has_quorum(),
        s.can_extend(),
    ensures
        accounted(genesis, r, next, s, s.become_leader().0, s.become_leader().1),
        r.adds_no_entry(next),
{
    updates::lemma_quorum_decides(s);
    updates::lemma_elect(genesis, r, s);
    let term = s.current_term;
    let log = r.full(s);
    let next = r.with_leader(s.id, term, s.votes_granted, log);
    let leader = s.seed_leader();
    laws::lemma_seed_finite(s);
    assert(next.full(leader) == log);
    growth::lemma_rooted_grows(r, next, log);
    growth::lemma_committed_grows(genesis, r, next, term, s.commit_index as int, log, term);
    assert(record::votes_match(next, leader)) by {
        assert forall|t: u64| t > term implies (#[trigger] next.voted(s.id, t)) is None by {
            assert(r.voted(s.id, t) is None);
        }
        assert(next.voted(s.id, term) == r.voted(s.id, term));
    }
    assert forall|t: u64|
        (#[trigger] next.acked(s.id, t)) == r.acked(s.id, t) || (t == term && next.logs[t] == log
            && next.acked(s.id, t) <= log.len()) by {}
    growth::lemma_acks_stay(genesis, r, next, s, leader);
    assert(record::leadership_matches(genesis, next, leader));
    assert(record::node_matches(genesis, next, leader));
    assert(leader.replication_targets() =~= s.replication_targets());
    assert(leader.can_broadcast()) by {
        assert forall|peer: NodeId| #[trigger] leader.replication_targets().contains(peer) implies leader.can_replicate_to(
            peer,
        ) by {
            assert(s.replication_targets().contains(peer));
        }
    }
    lemma_broadcast(genesis, next, leader);
    next
}

/// A node that knows of voters knows the ones its log puts in force.
proof fn lemma_voter_knows(genesis: Seq<NodeId>, r: Record, s: NodeState, id: NodeId)
    requires
        record::snapshot_matches(genesis, r, s),
        s.config().is_voter(id),
    ensures
        s.config() == record::config_of(genesis, r.full(s)),
{
    updates::lemma_knows(genesis, r, s);
}

/// A candidate in a term just entered is as recorded.
proof fn lemma_candidacy(genesis: Seq<NodeId>, r: Record, s: NodeState, next_timeout: u64) -> (next:
    Record)
    requires
        r.consistent(genesis),
        record::node_matches(genesis, r, s),
        s.current_term < u64::MAX,
        s.config().is_voter(s.id),
    ensures
        next.consistent(genesis),
        r.grows_to(next),
        r.adds_only(next, s.id),
        r.adds_no_entry(next),
        next.full(s.candidacy(next_timeout)) == r.full(s),
        record::node_matches(genesis, next, s.candidacy(next_timeout)),
{
    let term = (s.current_term + 1) as u64;
    let log = r.full(s);
    let entered = s.step_down(term);
    lemma_step_down(genesis, r, s, term);
    updates::lemma_campaign(genesis, r, entered);
    let next = r.with_campaign(s.id, term, log);
    let candidate = s.candidacy(next_timeout);
    assert(next.full(candidate) == log);
    lemma_voter_knows(genesis, r, s, s.id);
    growth::lemma_rooted_grows(r, next, log);
    growth::lemma_committed_grows(
        genesis,
        r,
        next,
        s.current_term,
        s.commit_index as int,
        log,
        term,
    );
    assert(record::votes_match(next, candidate)) by {
        assert forall|t: u64| t > term implies (#[trigger] next.voted(s.id, t)) is None by {
            assert(r.voted(s.id, t) is None);
        }
    }
    assert(record::candidacy_matches(genesis, next, candidate)) by {
        if next.led(term) {
            assert(r.led(term));
            assert(r.leader_recorded(genesis, term));
            assert(r.voted(s.id, term) is None);
            assert(r.campaign_recorded(r.leaders[term], term));
        }
    }
    assert forall|t: u64| (#[trigger] next.acked(s.id, t)) == r.acked(s.id, t) by {}
    growth::lemma_acks_stay(genesis, r, next, s, candidate);
    assert(record::node_matches(genesis, next, candidate));
    assert(r.adds_no_entry(next)) by {
        assert forall|t: u64| #[trigger] next.led(t) implies r.led(t) && next.logs[t] == r.logs[t]
            && next.elected_with(t) == r.elected_with(t) by {
            assert(r.led(t));
            assert(r.leader_recorded(genesis, t));
            assert(r.campaigned(r.leaders[t], t));
        }
    }
    next
}

/// A node starts a campaign.
proof fn lemma_campaigns(genesis: Seq<NodeId>, r: Record, s: NodeState, next_timeout: u64) -> (next:
    Record)
    requires
        r.consistent(genesis),
        record::node_matches(genesis, r, s),
        s.role != Role::Leader,
        s.can_start_election(),
    ensures
        accounted(
            genesis,
            r,
            next,
            s,
            s.start_election(next_timeout).0,
            s.start_election(next_timeout).1,
        ),
        r.adds_no_entry(next),
{
    if !s.config().is_voter(s.id) {
        r
    } else {
        let candidate = s.candidacy(next_timeout);
        let next = lemma_candidacy(genesis, r, s, next_timeout);
        if candidate.has_quorum() {
            assert(s.candidacy(0).has_quorum());
            let elected = lemma_takes_over(genesis, next, candidate);
            growth::lemma_grows_twice(r, next, elected, s.id);
            let (leader, effects) = candidate.become_leader();
            let all = seq![candidate.persist_hard_state()] + effects;
            assert forall|i: int| 0 <= i < all.len() implies ((
            #[trigger] all[i]) matches EffectView::Send { to, message } ==> record::message_matches(
                genesis,
                elected,
                s.id,
                to,
                message,
            )) by {
                if i > 0 {
                    assert(all[i] == effects[i - 1]);
                }
            }
            lemma_adds_no_entry_twice(genesis, r, next, elected);
            elected
        } else {
            let requests = candidate.vote_requests();
            let all = seq![candidate.persist_hard_state()] + requests;
            lemma_last_entry(genesis, next, candidate);
            assert forall|i: int| 0 <= i < all.len() implies ((
            #[trigger] all[i]) matches EffectView::Send { to, message } ==> record::message_matches(
                genesis,
                next,
                s.id,
                to,
                message,
            )) by {
                if i > 0 {
                    assert(all[i] == requests[i - 1]);
                    assert(all[i] matches EffectView::Send { message, .. } && message
                        == MessageView::RequestVote(candidate.vote_request()));
                }
            }
            next
        }
    }
}

/// Adding no entry twice is adding none.
proof fn lemma_adds_no_entry_twice(genesis: Seq<NodeId>, a: Record, b: Record, c: Record)
    requires
        a.adds_no_entry(b),
        b.adds_no_entry(c),
        a.grows_to(b),
        b.grows_to(c),
        b.consistent(genesis),
    ensures
        a.adds_no_entry(c),
{
    assert forall|term: u64| #[trigger] c.led(term) implies if a.led(term) {
        c.logs[term] == a.logs[term] && c.elected_with(term) == a.elected_with(term)
    } else {
        c.logs[term] == c.elected_with(term)
    } by {
        if a.led(term) {
            assert(b.led(term));
        }
        if b.led(term) {
            assert(b.leader_recorded(genesis, term));
            assert(b.campaigned(b.leaders[term], term));
        }
    }
}

/// The last entry of a log, as its node knows it.
proof fn lemma_last_entry(genesis: Seq<NodeId>, r: Record, s: NodeState)
    requires
        record::snapshot_matches(genesis, r, s),
    ensures
        s.last_log_index() == r.full(s).len(),
        s.last_log_term() == record::last_term(r.full(s)),
{
    if s.log.len() > 0 {
        assert(r.full(s).last() == s.log.last());
    } else {
        assert(r.full(s) =~= r.base(s.id));
    }
}

/// One tick.
pub proof fn lemma_tick(genesis: Seq<NodeId>, r: Record, s: NodeState, next_timeout: u64) -> (next:
    Record)
    requires
        r.consistent(genesis),
        record::node_matches(genesis, r, s),
        s.can_tick(),
    ensures
        accounted(genesis, r, next, s, s.on_tick(next_timeout).0, s.on_tick(next_timeout).1),
        r.adds_no_entry(next),
{
    if s.role == Role::Leader {
        let ticked = s.tick_leader();
        if ticked.heartbeat_elapsed >= ticked.heartbeat_interval {
            let due = NodeState { heartbeat_elapsed: 0, ..ticked };
            assert(due.replication_targets() =~= s.replication_targets());
            assert(due.can_broadcast()) by {
                assert forall|peer: NodeId| #[trigger]
                    due.replication_targets().contains(peer) implies due.can_replicate_to(peer) by {
                    assert(s.replication_targets().contains(peer));
                    assert(s.can_replicate_to(peer));
                }
            }
            assert(record::node_matches(genesis, r, due));
            lemma_broadcast(genesis, r, due);
        } else {
            assert(record::node_matches(genesis, r, ticked));
        }
        r
    } else {
        let ticked = s.tick_follower();
        assert(record::node_matches(genesis, r, ticked));
        if ticked.election_elapsed < ticked.election_timeout {
            r
        } else {
            assert(ticked.can_start_election()) by {
                assert(ticked.candidacy(0).has_quorum() == s.candidacy(0).has_quorum());
            }
            lemma_campaigns(genesis, r, ticked, next_timeout)
        }
    }
}

/// A node whose timers alone have moved is as recorded.
pub proof fn lemma_timers(genesis: Seq<NodeId>, r: Record, s: NodeState, after: NodeState)
    requires
        record::node_matches(genesis, r, s),
        after == (NodeState {
            election_elapsed: after.election_elapsed,
            heartbeat_elapsed: after.heartbeat_elapsed,
            leader_contact_elapsed: after.leader_contact_elapsed,
            ..s
        }),
    ensures
        record::node_matches(genesis, r, after),
        r.full(after) == r.full(s),
        after.config() == s.config(),
{
}

/// A follower that votes in its term is as recorded.
proof fn lemma_votes(
    genesis: Seq<NodeId>,
    r: Record,
    s: NodeState,
    candidate: NodeId,
    after: NodeState,
) -> (next: Record)
    requires
        r.consistent(genesis),
        record::node_matches(genesis, r, s),
        s.role == Role::Follower,
        s.voted_for is None,
        r.campaigned(candidate, s.current_term),
        record::up_to_date(r.campaign(candidate, s.current_term), r.full(s)),
        after == (NodeState { voted_for: Some(candidate), election_elapsed: 0, ..s }),
    ensures
        next == r.with_vote(s.id, s.current_term, candidate, r.full(s)),
        next.consistent(genesis),
        r.grows_to(next),
        r.adds_only(next, s.id),
        record::node_matches(genesis, next, after),
        next.full(after) == r.full(s),
        r.adds_no_entry(next),
{
    let term = s.current_term;
    let log = r.full(s);
    updates::lemma_vote(genesis, r, s, candidate);
    let next = r.with_vote(s.id, term, candidate, log);
    assert(next.full(after) == log);
    growth::lemma_rooted_grows(r, next, log);
    growth::lemma_committed_grows(genesis, r, next, term, s.commit_index as int, log, term);
    assert(record::votes_match(next, after)) by {
        assert forall|t: u64| t > term implies (#[trigger] next.voted(s.id, t)) is None by {
            assert(r.voted(s.id, t) is None);
        }
    }
    assert forall|t: u64| (#[trigger] next.acked(s.id, t)) == r.acked(s.id, t) by {}
    growth::lemma_acks_stay(genesis, r, next, s, after);
    next
}

/// A vote request in the term of a node that does not disregard it.
proof fn lemma_decides_vote(
    genesis: Seq<NodeId>,
    r: Record,
    s: NodeState,
    from: NodeId,
    request: RequestVote,
    after: NodeState,
) -> (next: Record)
    requires
        r.consistent(genesis),
        record::node_matches(genesis, r, s),
        record::request_matches(r, from, request),
        request.term == s.current_term,
        s.role != Role::Leader,
        after == if s.grants_vote(request) {
            NodeState { voted_for: Some(request.candidate_id), election_elapsed: 0, ..s }
        } else {
            s
        },
    ensures
        next.consistent(genesis),
        r.grows_to(next),
        r.adds_only(next, s.id),
        r.adds_no_entry(next),
        record::node_matches(genesis, next, after),
        next.full(after) == r.full(s),
        s.grants_vote(request) ==> next.voted(s.id, request.term) == Some(from),
{
    if s.grants_vote(request) && s.voted_for is None {
        assert(s.role == Role::Follower) by {
            if s.role == Role::Candidate {
                assert(s.votes_granted.contains(s.id));
            }
        }
        lemma_last_entry(genesis, r, s);
        lemma_votes(genesis, r, s, from, after)
    } else {
        lemma_timers(genesis, r, s, after);
        r
    }
}

/// A vote request.
pub proof fn lemma_request_vote(
    genesis: Seq<NodeId>,
    r: Record,
    s: NodeState,
    from: NodeId,
    request: RequestVote,
) -> (next: Record)
    requires
        r.consistent(genesis),
        record::node_matches(genesis, r, s),
        record::request_matches(r, from, request),
    ensures
        accounted(
            genesis,
            r,
            next,
            s,
            s.on_request_vote(from, request).0,
            s.on_request_vote(from, request).1,
        ),
        r.adds_no_entry(next),
{
    if request.term < s.current_term || s.disregards_votes() {
        r
    } else {
        let current = if request.term > s.current_term {
            s.step_down(request.term)
        } else {
            s
        };
        if request.term > s.current_term {
            lemma_step_down(genesis, r, s, request.term);
        }
        let (after, effects) = s.on_request_vote(from, request);
        lemma_decides_vote(genesis, r, current, from, request, after)
    }
}

/// The answer to a vote request.
pub proof fn lemma_vote_response(
    genesis: Seq<NodeId>,
    r: Record,
    s: NodeState,
    from: NodeId,
    response: RequestVoteResponse,
) -> (next: Record)
    requires
        r.consistent(genesis),
        record::node_matches(genesis, r, s),
        response.granted ==> r.voted(from, response.term) == Some(s.id),
        s.can_take_vote_response(from, response),
    ensures
        accounted(
            genesis,
            r,
            next,
            s,
            s.on_request_vote_response(from, response).0,
            s.on_request_vote_response(from, response).1,
        ),
        r.adds_no_entry(next),
{
    if response.term > s.current_term {
        lemma_step_down(genesis, r, s, response.term);
        r
    } else if response.term < s.current_term || s.role != Role::Candidate || !response.granted {
        r
    } else {
        let counted = NodeState { votes_granted: s.votes_granted.insert(from), ..s };
        assert(record::node_matches(genesis, r, counted));
        assert(r.full(counted) == r.full(s));
        if counted.has_quorum() {
            lemma_takes_over(genesis, r, counted)
        } else {
            r
        }
    }
}

} // verus!
