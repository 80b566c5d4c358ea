//! What a node can take: everything, until its counters run out.

use vstd::prelude::*;

use crate::raft::model::NodeState;
use crate::raft::promises;
use crate::raft::types::{ClusterConfigView, EventView, LogPayloadView, MessageView, NodeId, Role};

verus! {

/// Whether there are voters to decide, and during a transition outgoing ones.
pub open spec fn has_voters(config: ClusterConfigView) -> bool {
    config.voters.len() > 0 && (config.old_voters matches Some(old) ==> old.len() > 0)
}

/// As long as there are voters and the log can grow by two entries, the second
/// to end a transition, anything can be proposed: a command, a change to any
/// voters, and a learner.
pub proof fn anything_can_be_proposed(
    s: NodeState,
    config: ClusterConfigView,
    new_voters: Seq<NodeId>,
)
    requires
        promises::in_force(s, config),
        has_voters(config),
        promises::end_of(s) + 2 <= u64::MAX,
    ensures
        s.can_propose(),
        s.can_extend(),
        new_voters.len() > 0 ==> s.can_change_config(new_voters),
{
    promises::last_configuration_is_in_force(s, config);
    let joint = ClusterConfigView { voters: new_voters, old_voters: Some(config.voters) };
    let grown = s.append(LogPayloadView::Configuration(joint));
    assert(promises::set_last(grown.log, s.log.len() as int, joint));
    promises::last_configuration_is_in_force(grown, joint);
}

/// Time can pass for a node as long as it can count ticks and terms, has room
/// for an entry, and, where it leads, keeps track of those it replicates to,
/// none of them past the end of its log.
pub proof fn time_can_pass(s: NodeState, config: ClusterConfigView, next_timeout: u64)
    requires
        promises::in_force(s, config),
        s.leader_contact_elapsed < u64::MAX,
        s.heartbeat_elapsed < u64::MAX,
        s.election_elapsed < u64::MAX,
        s.current_term < u64::MAX,
        promises::end_of(s) < u64::MAX,
        forall|id: NodeId|
            s.role == Role::Leader && #[trigger] promises::follows(s, config, id)
                ==> s.next_index.dom().contains(id) && s.next_index[id] <= promises::end_of(s) + 1,
    ensures
        s.can_step(EventView::Tick { next_timeout }),
{
    promises::last_configuration_is_in_force(s, config);
    let ticked = s.tick_leader();
    assert forall|peer: NodeId| s.role == Role::Leader && #[trigger]
        s.replication_targets().contains(peer) implies s.can_replicate_to(peer) by {
        assert(promises::follows(s, config, peer));
    }
}

/// Whether the numbers in a message leave room to count on.
pub open spec fn can_be_counted_on(message: MessageView) -> bool {
    match message {
        MessageView::AppendEntries(request) => request.prev_log_index + request.entries.len()
            <= u64::MAX,
        MessageView::InstallSnapshot(request) => request.last_included_index < u64::MAX,
        MessageView::AppendEntriesResponse(response) => response.match_index < u64::MAX,
        MessageView::InstallSnapshotResponse(response) => response.last_included_index < u64::MAX,
        _ => true,
    }
}

/// Any message can be taken, from anyone, as long as its numbers and the node's
/// own can be counted on and, where the node leads, it keeps track of whoever
/// answers it.
pub proof fn any_message_can_be_taken(
    s: NodeState,
    config: ClusterConfigView,
    from: NodeId,
    message: MessageView,
)
    requires
        promises::in_force(s, config),
        has_voters(config),
        promises::end_of(s) + 2 <= u64::MAX,
        can_be_counted_on(message),
        s.role == Role::Leader ==> s.next_index.dom().contains(from) && s.match_index.dom().contains(
            from,
        ) && s.match_index[from] < u64::MAX,
    ensures
        s.can_step(EventView::Step { from, message }),
{
    promises::last_configuration_is_in_force(s, config);
    assert(forall|index: u64| #[trigger] s.acknowledge(from, index).config() == s.config());
}

} // verus!
