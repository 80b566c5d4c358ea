//! What an actor promises to clients and peers, said of the messages and
//! entries it deals with.

use vstd::prelude::*;

use crate::kv::command::CommandView;
use crate::kv::replica;
use crate::kv::state_machine;
use crate::raft::ids;
use crate::raft::laws;
use crate::raft::promises;
use crate::raft::types::{EffectView, EventView, MessageView, NodeId, Role};
use crate::runtime::actor;
use crate::runtime::actor::{ActorState, OutgoingView};
use crate::sim::durable::DurableView;

verus! {

/// Whether `from` makes itself known by `message` as the leader of a term that
/// is not over.
pub open spec fn makes_itself_known(s: ActorState, from: NodeId, message: MessageView) -> bool {
    match message {
        MessageView::AppendEntries(request) => request.leader_id == from
            && s.replica.node.current_term <= request.term,
        MessageView::InstallSnapshot(request) => request.leader_id == from
            && s.replica.node.current_term <= request.term,
        _ => false,
    }
}

/// Whoever sends entries or a snapshot as the leader of the actor's term, or of
/// a later one, is from then on who the actor points clients to. A node that
/// does not lead follows it, so a proposal to it is turned down with that
/// leader's id. No other message, and nothing else an actor does, changes who
/// it points to.
pub proof fn leaders_are_pointed_to(
    s: ActorState,
    from: NodeId,
    message: MessageView,
    next_timeout: u64,
    command: CommandView,
    voters: Seq<NodeId>,
    id: NodeId,
)
    ensures
        ({
            let taken = s.handle_event(EventView::Step { from, message });
            let asked = s.handle_peer_request(from, message).0;
            &&& makes_itself_known(s, from, message) ==> {
                &&& taken.leader_hint == Some(from)
                &&& asked.leader_hint == Some(from)
                &&& s.replica.node.role != Role::Leader ==> taken.replica.node.role
                    == Role::Follower && asked.replica.node.role == Role::Follower
            }
            &&& !makes_itself_known(s, from, message) ==> taken.leader_hint == s.leader_hint
                && asked.leader_hint == s.leader_hint
        }),
        s.handle_event(EventView::Tick { next_timeout }).leader_hint == s.leader_hint,
        s.propose(command).leader_hint == s.leader_hint,
        s.change_config(voters).leader_hint == s.leader_hint,
        s.add_learner(id).leader_hint == s.leader_hint,
        s.release().leader_hint == s.leader_hint,
{
    let node = s.replica.node;
    let event = EventView::Step { from, message };
    replica::catching_up_keeps_the_node(s.replica.with_node(node.step(event).0));
}

/// The messages among effects, and nothing else, are what is sent, in order.
pub proof fn messages_are_kept_in_order(effects: Seq<EffectView>, effect: EffectView)
    ensures
        actor::messages_of(Seq::<EffectView>::empty()) == Seq::<OutgoingView>::empty(),
        effect matches EffectView::Send { to, message } ==> actor::messages_of(effects.push(effect))
            == actor::messages_of(effects).push(OutgoingView { to, message }),
        !(effect is Send) ==> actor::messages_of(effects.push(effect)) == actor::messages_of(
            effects,
        ),
{
    assert(effects.push(effect).drop_last() =~= effects);
}

/// Whether a compaction is due: as many entries have been applied since the
/// last one as the threshold says, and all but half of the threshold are more
/// than the last one covered.
pub open spec fn compaction_due(s: ActorState) -> bool {
    let node = s.replica.node;
    let applied = s.replica.store.last_applied;
    let point = applied - s.compact_threshold / 2;
    &&& applied - node.snapshot.last_included_index >= s.compact_threshold
    &&& node.snapshot.last_included_index < point
    &&& point <= node.commit_index
    &&& point <= promises::end_of(node)
    &&& point < u64::MAX
}

/// An actor compacts exactly where it is due, and then covers all that is
/// applied but half of its threshold, with a snapshot of the store as it
/// stands; storage has it, the store is unchanged, and nothing is sent.
pub proof fn compaction_waits_for_the_threshold(s: ActorState)
    ensures
        ({
            let next = s.maybe_compact();
            let point = s.replica.store.last_applied - s.compact_threshold / 2;
            &&& s.compacts() == compaction_due(s)
            &&& !compaction_due(s) ==> next == s
            &&& compaction_due(s) ==> {
                &&& next.replica.node.snapshot.last_included_index == point
                &&& next.replica.node.snapshot_data == state_machine::snapshot_of(
                    s.replica.store.entries,
                )
                &&& next.replica.store == s.replica.store
                &&& next.outbox == s.outbox
                &&& next.handed_over == s.handed_over
                &&& next.leader_hint == s.leader_hint
                &&& next.compact_threshold == s.compact_threshold
                &&& next.replica == s.replica.compacted((s.compact_threshold / 2) as u64)
                &&& next.storage.snapshot == next.replica.node.snapshot
                &&& next.storage.snapshot_data == next.replica.node.snapshot_data
                &&& next.storage.snapshot_config == next.replica.node.snapshot_config
                &&& next.storage.log == next.replica.node.log
                &&& next.storage.hard_state == s.storage.hard_state
                &&& next.storage.learners == s.storage.learners
            }
        }),
{
    if compaction_due(s) {
        let effects = s.replica.compacted((s.compact_threshold / 2) as u64).node.persist_compacted();
        assert(effects.len() == 2 ==> effects.drop_last().len() == 1);
        assert(actor::messages_of(effects) =~= Seq::<OutgoingView>::empty()) by {
            reveal_with_fuel(actor::messages_of, 4);
        }
        assert(s.maybe_compact().outbox =~= s.outbox);
        let rest = effects.drop_first();
        let noted = s.storage.apply(effects[0]);
        assert(rest.drop_first() =~= Seq::empty());
        assert(s.storage.apply_all(effects) == noted.apply(rest[0]).apply_all(rest.drop_first())) by {
            reveal_with_fuel(DurableView::apply_all, 4);
        }
        assert(noted.log.take(0) =~= Seq::empty());
        assert(noted.apply(rest[0]).log =~= s.maybe_compact().replica.node.log);
    }
}

/// Whether `next` is `s` once its replica is `replica` and `effects` have been
/// dealt with: what is to be durable in storage, what is to be sent held back
/// behind what was, nothing handed over, and a compaction done if it is due.
pub open spec fn deals_with(
    s: ActorState,
    next: ActorState,
    replica: replica::ReplicaState,
    effects: Seq<EffectView>,
    sent: Seq<OutgoingView>,
) -> bool {
    let staged = ActorState {
        replica,
        storage: s.storage.apply_all(effects),
        leader_hint: next.leader_hint,
        outbox: s.outbox + sent,
        ..s
    };
    next == staged.maybe_compact()
}

/// An event goes to the replica; what comes of it goes to storage and is held
/// back for the transport. So does a proposal, and a change of voters.
pub proof fn events_go_through_the_replica(
    s: ActorState,
    event: EventView,
    command: CommandView,
    voters: Seq<NodeId>,
)
    ensures
        ({
            let (replica, effects) = s.replica.step(event);
            deals_with(s, s.handle_event(event), replica, effects, actor::messages_of(effects))
        }),
        ({
            let (replica, effects) = s.replica.propose(command);
            deals_with(s, s.propose(command), replica, effects, actor::messages_of(effects))
        }),
        ({
            let (replica, effects) = s.replica.change_config(voters);
            deals_with(s, s.change_config(voters), replica, effects, actor::messages_of(effects))
        }),
{
    compaction_waits_for_the_threshold(
        (ActorState { replica: s.replica.step(event).0, ..s.hinted(event) }).stage(
            s.replica.step(event).1,
        ),
    );
    compaction_waits_for_the_threshold(
        (ActorState { replica: s.replica.propose(command).0, ..s }).stage(
            s.replica.propose(command).1,
        ),
    );
    compaction_waits_for_the_threshold(
        (ActorState { replica: s.replica.change_config(voters).0, ..s }).stage(
            s.replica.change_config(voters).1,
        ),
    );
}

/// A request is answered with what the node says in answer to it, and left
/// unanswered if the node says nothing; the answer is not sent besides, and
/// the rest of what comes of it is dealt with as always.
pub proof fn requests_are_answered_with_the_nodes_answer(
    s: ActorState,
    from: NodeId,
    message: MessageView,
)
    requires
        message is RequestVote || message is AppendEntries || message is InstallSnapshot,
    ensures
        ({
            let (replica, effects) = s.replica.step(EventView::Step { from, message });
            let (next, answer) = s.handle_peer_request(from, message);
            &&& effects.len() == 0 ==> answer is None && next.replica == replica && next.outbox
                == s.outbox && next.storage == s.storage
            &&& effects.len() > 0 ==> {
                &&& answer matches Some(reply) && effects.last() == (EffectView::Send {
                    to: from,
                    message: reply,
                })
                &&& deals_with(s, next, replica, effects.drop_last(), Seq::empty())
            }
        }),
{
    let (replica, effects) = s.replica.step(EventView::Step { from, message });
    actor::request_ends_in_its_reply(s.replica.node, from, message);
    if effects.len() > 0 {
        laws::requests_are_answered_once(s.replica.node, from, message);
        let stepped = ActorState { replica, ..s.with_hint(from, message) };
        let staged = stepped.stage(effects.drop_last());
        compaction_waits_for_the_threshold(staged);
    }
}

/// A learner that is taken on is replicated to from then on, and storage has
/// it; nothing is sent and the store is unchanged.
pub proof fn learners_are_recorded(s: ActorState, id: NodeId)
    requires
        s.replica.node.learners.finite(),
    ensures
        ({
            let next = s.add_learner(id);
            &&& next.replica.node == s.replica.node.add_learner(id)
            &&& next.replica.store == s.replica.store
            &&& next.replica.results == s.replica.results
            &&& next.outbox == s.outbox
            &&& next.handed_over == s.handed_over
            &&& next.storage.learners.to_set() == next.replica.node.learners
            &&& next.storage.log == s.storage.log
            &&& next.storage.hard_state == s.storage.hard_state
            &&& next.storage.snapshot == s.storage.snapshot
            &&& next.storage.snapshot_data == s.storage.snapshot_data
        }),
{
    let node = s.replica.node.add_learner(id);
    ids::lemma_sorted_exists(node.learners);
    let effects = seq![node.persist_learners()];
    assert(effects.drop_first() =~= Seq::empty());
    assert(effects.drop_last() =~= Seq::empty());
    assert(s.storage.apply_all(effects) == s.storage.apply(effects[0])) by {
        reveal_with_fuel(DurableView::apply_all, 2);
    }
    assert(actor::messages_of(effects) =~= Seq::empty()) by {
        reveal_with_fuel(actor::messages_of, 2);
    }
    assert(s.add_learner(id).outbox =~= s.outbox);
}

/// Storage has to be written out exactly if something other than a message
/// came of an event, or a compaction is due after it.
pub proof fn writing_out_is_due_with_a_change(s: ActorState, effects: Seq<EffectView>)
    ensures
        actor::persists(effects) == !(forall|i: int|
            0 <= i < effects.len() ==> (#[trigger] effects[i]) is Send),
        s.write_due(effects) == (actor::persists(effects) || compaction_due(
            ActorState {
                storage: s.storage.apply_all(effects),
                outbox: s.outbox + actor::messages_of(effects),
                ..s
            },
        )),
{
    compaction_waits_for_the_threshold(s.stage(effects));
}

/// What is held back is handed over in order, once, and nothing else changes.
pub proof fn releasing_hands_everything_over(s: ActorState)
    ensures
        s.release().handed_over == s.handed_over + s.outbox,
        s.release().outbox.len() == 0,
        s.release().replica == s.replica,
        s.release().storage == s.storage,
        s.release().compact_threshold == s.compact_threshold,
        s.release().leader_hint == s.leader_hint,
{
}

} // verus!
