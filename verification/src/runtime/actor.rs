//! The one owner of a replica: hands it events, keeps storage up to date with
//! it, and holds back what it sends until storage is written out.

use vstd::prelude::*;

use crate::kv::command::{Command, CommandView};
use crate::kv::replica;
use crate::kv::replica::{Replica, ReplicaState};
use crate::kv::state_machine::{ApplyResult, StateMachine};
use crate::raft::laws;
use crate::raft::model;
use crate::raft::model::NodeState;
use crate::raft::node::Node;
use crate::raft::types::{
    Effect, EffectView, Event, EventView, LogPayloadView, Message, MessageView, NodeId, Role,
};
use crate::runtime::storage::Storage;
use crate::sim::durable;
use crate::sim::durable::DurableView;

verus! {

/// A message to a peer.
#[verifier::ext_equal]
pub struct OutgoingView {
    pub to: NodeId,
    pub message: MessageView,
}

/// How the actor gets a message to a peer. Implementations must not block the
/// caller on the network: queue it and return. They take every message they
/// are handed; losing it on the way is safe, since replication retries.
pub trait PeerTransport: Sized {
    /// Every message it has been handed, in order. A record kept for proofs:
    /// an implementation need not hold on to what it has passed on. One that
    /// is itself verified gives this a meaning of its own; the body here only
    /// spares one that is not from naming it.
    closed spec fn taken(&self) -> Seq<OutgoingView> {
        arbitrary()
    }

    fn send(&mut self, to: NodeId, message: Message)
        ensures
            final(self).taken() == old(self).taken().push(
                OutgoingView { to, message: message.deep_view() },
            ),
    ;
}

/// The result of a proposal: accepted at this log index, or a redirect hint
/// (if one is known) when this node isn't the leader.
#[derive(Clone, Copy, Debug, Eq, PartialEq, Structural)]
pub enum ProposeOutcome {
    Accepted(u64),
    NotLeader(Option<NodeId>),
}

/// The result of adding a learner.
#[derive(Clone, Copy, Debug, Eq, PartialEq, Structural)]
pub enum AddLearnerOutcome {
    Accepted,
    NotLeader(Option<NodeId>),
}

/// The messages among `effects`, in order.
pub open spec fn messages_of(effects: Seq<EffectView>) -> Seq<OutgoingView>
    decreases effects.len(),
{
    if effects.len() == 0 {
        Seq::empty()
    } else {
        match effects.last() {
            EffectView::Send { to, message } => messages_of(effects.drop_last()).push(
                OutgoingView { to, message },
            ),
            _ => messages_of(effects.drop_last()),
        }
    }
}

/// Whether storage has to be written out for `effects`: not all of them are
/// messages.
pub open spec fn persists(effects: Seq<EffectView>) -> bool {
    exists|i: int| 0 <= i < effects.len() && !((#[trigger] effects[i]) is Send)
}

/// The messages of two batches in a row.
proof fn lemma_messages_concat(a: Seq<EffectView>, b: Seq<EffectView>)
    ensures
        messages_of(a + b) == messages_of(a) + messages_of(b),
    decreases b.len(),
{
    if b.len() == 0 {
        assert(a + b =~= a);
        assert(messages_of(a) + messages_of(b) =~= messages_of(a));
    } else {
        assert((a + b).drop_last() =~= a + b.drop_last());
        lemma_messages_concat(a, b.drop_last());
        assert(messages_of(a + b) =~= messages_of(a) + messages_of(b));
    }
}

/// The state of an [`Actor`].
#[verifier::ext_equal]
pub struct ActorState {
    pub replica: ReplicaState,
    pub storage: DurableView,
    pub leader_hint: Option<NodeId>,
    pub compact_threshold: u64,
    /// What is held back until storage is written out.
    pub outbox: Seq<OutgoingView>,
    /// What the transport has taken.
    pub handed_over: Seq<OutgoingView>,
}

impl ActorState {
    /// Exactly what must survive a crash of the node is in storage.
    pub open spec fn wf(self) -> bool {
        self.replica.node.wf() && self.storage.holds(self.replica.node)
    }

    /// `effects` go to storage, and the messages among them to the outbox.
    pub open spec fn stage(self, effects: Seq<EffectView>) -> ActorState {
        ActorState {
            storage: self.storage.apply_all(effects),
            outbox: self.outbox + messages_of(effects),
            ..self
        }
    }

    /// Whether enough entries have been applied since the last compaction, and
    /// compacting covers anything.
    pub open spec fn compacts(self) -> bool {
        &&& self.replica.store.last_applied - self.replica.node.boundary() >= self.compact_threshold
        &&& self.replica.compacts(self.compact_threshold / 2)
    }

    /// Compacts where it is due, retaining half the threshold, so that a peer
    /// that is only briefly behind still catches up from the log.
    pub open spec fn maybe_compact(self) -> ActorState {
        if self.compacts() {
            let replica = self.replica.compacted(self.compact_threshold / 2);
            (ActorState { replica, ..self }).stage(replica.node.persist_compacted())
        } else {
            self
        }
    }

    /// Whether storage has to be written out once `effects` have gone to it and
    /// a compaction, where it is due, has been done.
    pub open spec fn write_due(self, effects: Seq<EffectView>) -> bool {
        persists(effects) || self.stage(effects).compacts()
    }

    /// Whoever leads a current or later term is the leader to point clients
    /// to.
    pub open spec fn with_hint(self, from: NodeId, message: MessageView) -> ActorState {
        let claimed = match message {
            MessageView::AppendEntries(request) => Some((request.leader_id, request.term)),
            MessageView::InstallSnapshot(request) => Some((request.leader_id, request.term)),
            _ => None,
        };
        match claimed {
            Some((leader, term)) => if leader == from && term >= self.replica.node.current_term {
                ActorState { leader_hint: Some(leader), ..self }
            } else {
                self
            },
            None => self,
        }
    }

    pub open spec fn hinted(self, event: EventView) -> ActorState {
        match event {
            EventView::Step { from, message } => self.with_hint(from, message),
            EventView::Tick { .. } => self,
        }
    }

    /// The replica takes an event.
    pub open spec fn handle_event(self, event: EventView) -> ActorState {
        let (replica, effects) = self.replica.step(event);
        (ActorState { replica, ..self.hinted(event) }).stage(effects).maybe_compact()
    }

    /// A peer's request: what it is answered, if it is. The answer does not go
    /// through the transport.
    pub open spec fn handle_peer_request(self, from: NodeId, message: MessageView) -> (
        ActorState,
        Option<MessageView>,
    ) {
        let (replica, effects) = self.replica.step(EventView::Step { from, message });
        let stepped = ActorState { replica, ..self.with_hint(from, message) };
        if effects.len() == 0 {
            (stepped, None)
        } else {
            match effects.last() {
                EffectView::Send { message: reply, .. } => (
                    stepped.stage(effects.drop_last()).maybe_compact(),
                    Some(reply),
                ),
                _ => (stepped, None),
            }
        }
    }

    pub open spec fn propose(self, command: CommandView) -> ActorState {
        let (replica, effects) = self.replica.propose(command);
        (ActorState { replica, ..self }).stage(effects).maybe_compact()
    }

    pub open spec fn change_config(self, new_voters: Seq<NodeId>) -> ActorState {
        let (replica, effects) = self.replica.change_config(new_voters);
        (ActorState { replica, ..self }).stage(effects).maybe_compact()
    }

    pub open spec fn add_learner(self, id: NodeId) -> ActorState {
        let node = self.replica.node.add_learner(id);
        (ActorState { replica: self.replica.with_node(node), ..self }).stage(
            seq![node.persist_learners()],
        )
    }

    /// The outbox goes to the transport, in order.
    pub open spec fn release(self) -> ActorState {
        ActorState {
            handed_over: self.handed_over + self.outbox,
            outbox: Seq::empty(),
            ..self
        }
    }
}

/// Whether a message is a request, to be answered.
pub open spec fn is_request(message: MessageView) -> bool {
    message is RequestVote || message is AppendEntries || message is InstallSnapshot
}

/// A request that has any effect is answered, and the rest of its effects are
/// all persistence.
pub proof fn request_ends_in_its_reply(s: NodeState, from: NodeId, message: MessageView)
    requires
        is_request(message),
    ensures
        ({
            let effects = s.on_message(from, message).1;
            effects.len() > 0 ==> effects.last() is Send && messages_of(effects.drop_last())
                == Seq::<OutgoingView>::empty()
        }),
{
    let effects = s.on_message(from, message).1;
    if effects.len() > 0 {
        laws::requests_are_answered_once(s, from, message);
        lemma_no_messages(effects.drop_last());
    }
}

proof fn lemma_no_messages(effects: Seq<EffectView>)
    requires
        forall|i: int| 0 <= i < effects.len() ==> !((#[trigger] effects[i]) is Send),
    ensures
        messages_of(effects) == Seq::<OutgoingView>::empty(),
    decreases effects.len(),
{
    if effects.len() > 0 {
        assert(!(effects.last() is Send));
        lemma_no_messages(effects.drop_last());
    }
}

/// Whatever happens, nothing reaches the transport before it is released, and
/// nothing held back is lost: by then storage holds what it depends on.
pub proof fn nothing_is_sent_before_release(
    s: ActorState,
    event: EventView,
    from: NodeId,
    message: MessageView,
    command: CommandView,
)
    ensures
        s.handle_event(event).handed_over == s.handed_over,
        s.handle_peer_request(from, message).0.handed_over == s.handed_over,
        s.propose(command).handed_over == s.handed_over,
        s.outbox.is_prefix_of(s.handle_event(event).outbox),
        s.outbox.is_prefix_of(s.handle_peer_request(from, message).0.outbox),
        s.outbox.is_prefix_of(s.propose(command).outbox),
{
    let stepped = ActorState { replica: s.replica.step(event).0, ..s.hinted(event) };
    lemma_outbox_grows(stepped, s.replica.step(event).1);
    let asked = EventView::Step { from, message };
    let requested = ActorState { replica: s.replica.step(asked).0, ..s.with_hint(from, message) };
    lemma_outbox_grows(requested, s.replica.step(asked).1.drop_last());
    lemma_outbox_grows(
        ActorState { replica: s.replica.propose(command).0, ..s },
        s.replica.propose(command).1,
    );
}

/// What a node sends is what its transport takes, in order, once storage has
/// been written out: nothing else goes to the transport, and by then
/// everything the node must make durable is in storage.
pub proof fn sends_reach_the_transport(s: ActorState, event: EventView)
    requires
        s.wf(),
        s.replica.node.can_step(event),
    ensures
        ({
            let end = s.handle_event(event).release();
            &&& end.handed_over == s.handed_over + s.outbox + messages_of(s.replica.step(event).1)
            &&& end.outbox == Seq::<OutgoingView>::empty()
            &&& end.storage == s.handle_event(event).storage
            &&& end.storage.holds(end.replica.node)
        }),
{
    let (replica, effects) = s.replica.step(event);
    let node = s.replica.node;
    durable::step_is_durable(s.storage, node, event);
    laws::step_keeps_wf(node, event);
    replica::catching_up_keeps_the_node(s.replica.with_node(node.step(event).0));
    let staged = (ActorState { replica, ..s.hinted(event) }).stage(effects);
    lemma_maybe_compact_keeps_wf(staged);
    if staged.compacts() {
        lemma_no_messages(
            staged.replica.compacted(staged.compact_threshold / 2).node.persist_compacted(),
        );
    }
    assert(s.handle_event(event).outbox =~= s.outbox + messages_of(effects));
    assert(s.handle_event(event).release().handed_over =~= s.handed_over + s.outbox + messages_of(
        effects,
    ));
}

/// The answer to a request goes back to whoever asked, not to the transport.
pub proof fn replies_bypass_the_transport(s: ActorState, from: NodeId, message: MessageView)
    requires
        is_request(message),
    ensures
        s.handle_peer_request(from, message).0.release().handed_over == s.handed_over + s.outbox,
{
    let effects = s.replica.step(EventView::Step { from, message }).1;
    request_ends_in_its_reply(s.replica.node, from, message);
    let stepped = ActorState {
        replica: s.replica.step(EventView::Step { from, message }).0,
        ..s.with_hint(from, message)
    };
    if effects.len() > 0 {
        let staged = stepped.stage(effects.drop_last());
        assert(staged.outbox =~= s.outbox);
        if staged.compacts() {
            lemma_no_messages(
                staged.replica.compacted(staged.compact_threshold / 2).node.persist_compacted(),
            );
            assert(staged.maybe_compact().outbox =~= s.outbox);
        }
    }
}

proof fn lemma_outbox_grows(s: ActorState, effects: Seq<EffectView>)
    ensures
        s.outbox.is_prefix_of(s.stage(effects).maybe_compact().outbox),
        s.outbox.is_prefix_of(s.outbox),
{
    let staged = s.stage(effects);
    assert(staged.outbox.take(s.outbox.len() as int) =~= s.outbox);
    let end = staged.maybe_compact();
    assert(end.outbox.take(s.outbox.len() as int) =~= s.outbox);
}

/// Compacting keeps storage in step with the node.
proof fn lemma_maybe_compact_keeps_wf(s: ActorState)
    requires
        s.wf(),
    ensures
        s.maybe_compact().wf(),
        s.compacts() ==> s.storage.can_apply_all(
            s.replica.compacted(s.compact_threshold / 2).node.persist_compacted(),
        ),
{
    if s.compacts() {
        let point = s.replica.compaction_point(s.compact_threshold / 2) as int;
        let data = crate::kv::state_machine::snapshot_of(s.replica.store.entries);
        durable::compaction_is_durable(s.storage, s.replica.node, point, data);
        laws::compaction_keeps_what_it_does_not_cover(s.replica.node, point, data, 0);
    }
}

/// Dropping the last effect of a batch, a message, makes no difference to
/// storage.
proof fn lemma_drop_reply(d: DurableView, effects: Seq<EffectView>)
    requires
        effects.len() > 0,
        effects.last() is Send,
        d.can_apply_all(effects),
    ensures
        d.can_apply_all(effects.drop_last()),
        d.apply_all(effects.drop_last()) == d.apply_all(effects),
    decreases effects.len(),
{
    if effects.len() == 1 {
        assert(effects.drop_last() =~= Seq::empty());
        assert(effects.drop_first() =~= Seq::empty());
        assert(effects[0] == effects.last());
        assert(d.apply(effects[0]).apply_all(Seq::empty()) == d);
    } else {
        let rest = effects.drop_first();
        assert(rest.last() == effects.last());
        lemma_drop_reply(d.apply(effects[0]), rest);
        assert(effects.drop_last().drop_first() =~= rest.drop_last());
        assert(effects.drop_last()[0] == effects[0]);
    }
}

/// One effect more has to be written out, or it is a message.
proof fn lemma_persists_push(effects: Seq<EffectView>, i: int)
    requires
        0 <= i < effects.len(),
    ensures
        persists(effects.take(i + 1)) == (persists(effects.take(i)) || !(effects[i] is Send)),
{
    let before = effects.take(i);
    let after = effects.take(i + 1);
    if persists(before) {
        let k = choose|k: int| 0 <= k < before.len() && !((#[trigger] before[k]) is Send);
        assert(after[k] == before[k]);
    }
    if persists(after) {
        let k = choose|k: int| 0 <= k < after.len() && !((#[trigger] after[k]) is Send);
        if k < i {
            assert(before[k] == after[k]);
        }
    }
    assert(after[i] == effects[i]);
}

#[derive(Debug)]
struct Outgoing {
    to: NodeId,
    message: Message,
}

impl DeepView for Outgoing {
    type V = OutgoingView;

    closed spec fn deep_view(&self) -> OutgoingView {
        OutgoingView { to: self.to, message: self.message.deep_view() }
    }
}

/// Drives one replica. Whatever a transition must make durable goes to
/// storage, and whatever it sends is held back: whoever owns the actor writes
/// storage out first, and then calls [`Actor::release`].
pub struct Actor<T: PeerTransport> {
    replica: Replica,
    storage: Storage,
    transport: T,
    leader_hint: Option<NodeId>,
    /// Triggers compaction once this many entries have been applied since the
    /// last one.
    compact_threshold: u64,
    outbox: Vec<Outgoing>,
}

impl<T: PeerTransport> View for Actor<T> {
    type V = ActorState;

    closed spec fn view(&self) -> ActorState {
        ActorState {
            replica: self.replica@,
            storage: self.storage@,
            leader_hint: self.leader_hint,
            compact_threshold: self.compact_threshold,
            outbox: self.outbox.deep_view(),
            handed_over: self.transport.taken(),
        }
    }
}

impl<T: PeerTransport> Actor<T> {
    /// What every actor keeps, see [`ActorState::wf`].
    pub open spec fn wf(&self) -> bool {
        self@.wf() && self.inv() && self@.handed_over == self.carrier().taken()
    }

    pub closed spec fn inv(&self) -> bool {
        self.replica.wf()
    }

    /// The transport that messages are handed to.
    pub closed spec fn carrier(&self) -> T {
        self.transport
    }

    /// An actor of a replica and the storage that its node was restored from.
    pub fn new(replica: Replica, storage: Storage, transport: T, compact_threshold: u64) -> (actor:
        Self)
        requires
            replica.wf(),
            storage@.holds(replica@.node),
        ensures
            actor.wf(),
            actor@ == (ActorState {
                replica: replica@,
                storage: storage@,
                leader_hint: None,
                compact_threshold,
                outbox: Seq::empty(),
                handed_over: transport.taken(),
            }),
            actor.carrier() == transport,
    {
        let actor = Actor {
            replica,
            storage,
            transport,
            leader_hint: None,
            compact_threshold,
            outbox: Vec::new(),
        };
        assert(actor@.outbox =~= Seq::empty());
        actor
    }

    pub fn node(&self) -> (node: &Node)
        requires
            self.wf(),
        ensures
            node@ == self@.replica.node,
            node.wf(),
    {
        self.replica.node()
    }

    pub fn state_machine(&self) -> (machine: &StateMachine)
        requires
            self.wf(),
        ensures
            machine@ == self@.replica.store,
            machine.wf(),
    {
        self.replica.state_machine()
    }

    pub fn applied_result(&self, index: u64) -> (result: Option<&ApplyResult>)
        requires
            self.wf(),
        ensures
            match result {
                Some(result) => self@.replica.results.contains_key(index)
                    && self@.replica.results[index] == result.deep_view(),
                None => !self@.replica.results.contains_key(index),
            },
    {
        self.replica.applied_result(index)
    }

    /// The last leader this node has seen at a current-or-newer term, for
    /// redirecting a client. Best-effort: it can go stale.
    pub fn leader_hint(&self) -> (hint: Option<NodeId>)
        ensures
            hint == self@.leader_hint,
    {
        self.leader_hint
    }

    pub fn storage(&self) -> (storage: &Storage)
        ensures
            storage@ == self@.storage,
    {
        &self.storage
    }

    pub fn transport(&self) -> (transport: &T)
        ensures
            *transport == self.carrier(),
    {
        &self.transport
    }

    /// The transport, to tell it of new peers. Whatever is done to it is done
    /// to the actor's own, and to nothing else of the actor.
    pub fn transport_mut(&mut self) -> (transport: &mut T)
        requires
            old(self).wf(),
        ensures
            *transport == old(self).carrier(),
            final(self).carrier() == *final(transport),
            final(self).wf(),
            final(self)@ == (ActorState { handed_over: final(transport).taken(), ..old(self)@ }),
    {
        &mut self.transport
    }

    /// Effects go to storage, the messages among them to the outbox; whether
    /// storage has to be written out.
    fn stage(&mut self, effects: Vec<Effect>) -> (changed: bool)
        requires
            old(self)@.storage.can_apply_all(effects.deep_view()),
        ensures
            final(self)@ == old(self)@.stage(effects.deep_view()),
            final(self).inv() == old(self).inv(),
            final(self).carrier() == old(self).carrier(),
            changed == persists(effects.deep_view()),
            !changed ==> final(self)@.storage == old(self)@.storage,
    {
        let ghost all = effects.deep_view();
        let mut changed = false;
        let mut i: usize = 0;
        assert(all.skip(0) =~= all);
        assert(all.take(0) =~= Seq::empty());
        assert(self@.outbox =~= old(self)@.outbox + messages_of(all.take(0)));
        while i < effects.len()
            invariant
                i <= effects@.len(),
                all == effects.deep_view(),
                self@.storage.can_apply_all(all.skip(i as int)),
                old(self)@.storage.apply_all(all) == self@.storage.apply_all(all.skip(i as int)),
                self@.outbox == old(self)@.outbox + messages_of(all.take(i as int)),
                self.replica == old(self).replica,
                self.transport == old(self).transport,
                self.leader_hint == old(self).leader_hint,
                self.compact_threshold == old(self).compact_threshold,
                changed == persists(all.take(i as int)),
                !changed ==> self@.storage == old(self)@.storage,
            decreases effects.len() - i,
        {
            let ghost before = self@;
            proof {
                assert(all.skip(i as int).drop_first() =~= all.skip(i + 1));
                assert(all.skip(i as int)[0] == effects@[i as int].deep_view());
                assert(all.take(i + 1).drop_last() =~= all.take(i as int));
                assert(all.take(i + 1).last() == all[i as int]);
                lemma_persists_push(all, i as int);
            }
            match &effects[i] {
                Effect::Send { to, message } => {
                    self.outbox.push(Outgoing { to: *to, message: message.clone() });
                    assert(self@.outbox =~= before.outbox.push(
                        OutgoingView { to: *to, message: message.deep_view() },
                    ));
                    assert(all.take(i + 1).last() == (EffectView::Send {
                        to: *to,
                        message: message.deep_view(),
                    }));
                    assert(self@.outbox =~= old(self)@.outbox + messages_of(all.take(i + 1)));
                },
                _ => {
                    let _ = self.storage.apply(&effects[i]);
                    changed = true;
                },
            }
            i += 1;
        }
        assert(all.skip(i as int) =~= Seq::empty());
        assert(all.take(i as int) =~= all);
        assert(self@ =~= old(self)@.stage(all));
        changed
    }

    /// Compacts once at least `compact_threshold` entries have been applied
    /// since the last compaction, retaining half that margin.
    fn maybe_compact(&mut self) -> (changed: bool)
        requires
            old(self).wf(),
        ensures
            final(self).wf(),
            final(self)@ == old(self)@.maybe_compact(),
            final(self).carrier() == old(self).carrier(),
            changed == old(self)@.compacts(),
            !changed ==> final(self)@.storage == old(self)@.storage,
    {
        proof {
            lemma_maybe_compact_keeps_wf(self@);
        }
        let applied: u64 = self.replica.state_machine().last_applied()
            - self.replica.node().snapshot().last_included_index;
        if applied < self.compact_threshold {
            return false;
        }
        match self.replica.compact(self.compact_threshold / 2) {
            Some(effects) => {
                let ghost compacted = self@;
                assert(compacted =~= (ActorState {
                    replica: old(self)@.replica.compacted(old(self)@.compact_threshold / 2),
                    ..old(self)@
                }));
                assert(persists(effects.deep_view())) by {
                    assert(effects.deep_view()[0] is PersistSnapshot);
                }
                self.stage(effects)
            },
            None => {
                assert(self@ =~= old(self)@);
                false
            },
        }
    }

    fn update_leader_hint(&mut self, from: NodeId, message: &Message)
        requires
            old(self).wf(),
        ensures
            final(self).wf(),
            final(self)@ == old(self)@.with_hint(from, message.deep_view()),
            final(self).carrier() == old(self).carrier(),
    {
        let claimed = match message {
            Message::AppendEntries(request) => Some((request.leader_id, request.term)),
            Message::InstallSnapshot(request) => Some((request.leader_id, request.term)),
            _ => None,
        };
        match claimed {
            Some((leader, term)) => {
                if leader == from && term >= self.replica.node().current_term() {
                    self.leader_hint = Some(leader);
                }
            },
            None => {},
        }
        assert(self@ =~= old(self)@.with_hint(from, message.deep_view()));
    }

    /// Whether [`Actor::handle_event`] can take `event`, see
    /// [`Node::can_step`].
    pub fn can_handle(&self, event: &Event) -> (can: bool)
        requires
            self.wf(),
        ensures
            can == self@.replica.node.can_step(event.deep_view()),
    {
        self.replica.can_step(event)
    }

    /// For a tick, or an incoming peer response. Whether storage has to be
    /// written out before [`Actor::release`].
    pub fn handle_event(&mut self, event: Event) -> (changed: bool)
        requires
            old(self).wf(),
            old(self)@.replica.node.can_step(event.deep_view()),
        ensures
            final(self).wf(),
            final(self)@ == old(self)@.handle_event(event.deep_view()),
            final(self).carrier() == old(self).carrier(),
            changed == (ActorState {
                replica: old(self)@.replica.step(event.deep_view()).0,
                ..old(self)@.hinted(event.deep_view())
            }).write_due(old(self)@.replica.step(event.deep_view()).1),
            !changed ==> final(self)@.storage == old(self)@.storage,
    {
        let ghost input = event.deep_view();
        let ghost before = old(self)@;
        match &event {
            Event::Step { from, message } => {
                self.update_leader_hint(*from, message);
            },
            Event::Tick { .. } => {},
        }
        assert(self@ == before.hinted(input));
        let effects = self.replica.step(event);
        proof {
            let node = before.replica.node;
            durable::step_is_durable(before.storage, node, input);
            laws::step_keeps_wf(node, input);
            replica::catching_up_keeps_the_node(before.replica.with_node(node.step(input).0));
            assert(self@ =~= (ActorState {
                replica: before.replica.step(input).0,
                ..before.hinted(input)
            }));
        }
        let stored = self.stage(effects);
        let compacted = self.maybe_compact();
        stored || compacted
    }

    /// For an incoming peer request: goes to storage as usual, but the answer
    /// is returned rather than put into the outbox. `None` means the request
    /// was dropped. Also whether storage has to be written out before the
    /// answer is given.
    pub fn handle_peer_request(&mut self, from: NodeId, message: Message) -> (outcome: (
        Option<Message>,
        bool,
    ))
        requires
            old(self).wf(),
            is_request(message.deep_view()),
            old(self)@.replica.node.can_take(from, message.deep_view()),
        ensures
            final(self).wf(),
            final(self)@ == old(self)@.handle_peer_request(from, message.deep_view()).0,
            final(self).carrier() == old(self).carrier(),
            match outcome.0 {
                Some(reply) => old(self)@.handle_peer_request(from, message.deep_view()).1 == Some(
                    reply.deep_view(),
                ),
                None => old(self)@.handle_peer_request(from, message.deep_view()).1 is None,
            },
            outcome.1 == ({
                let (replica, effects) = old(self)@.replica.step(
                    EventView::Step { from, message: message.deep_view() },
                );
                effects.len() > 0 && (ActorState {
                    replica,
                    ..old(self)@.with_hint(from, message.deep_view())
                }).write_due(effects.drop_last())
            }),
            !outcome.1 ==> final(self)@.storage == old(self)@.storage,
    {
        let ghost sent = message.deep_view();
        let ghost input = EventView::Step { from, message: sent };
        let ghost before = old(self)@;
        self.update_leader_hint(from, &message);
        let mut effects = self.replica.step(Event::Step { from, message });
        let ghost all = effects.deep_view();
        proof {
            let node = before.replica.node;
            durable::step_is_durable(before.storage, node, input);
            laws::step_keeps_wf(node, input);
            replica::catching_up_keeps_the_node(before.replica.with_node(node.step(input).0));
            request_ends_in_its_reply(node, from, sent);
            assert(self@ =~= (ActorState {
                replica: before.replica.step(input).0,
                ..before.with_hint(from, sent)
            }));
        }
        match effects.pop() {
            None => {
                assert(all.len() == 0);
                assert(before.storage.apply_all(all) == before.storage);
                (None, false)
            },
            Some(last) => {
                proof {
                    assert(all.last() == last.deep_view());
                    assert(effects.deep_view() =~= all.drop_last());
                    lemma_drop_reply(before.storage, all);
                }
                match last {
                    Effect::Send { message: reply, .. } => {
                        let stored = self.stage(effects);
                        let compacted = self.maybe_compact();
                        (Some(reply), stored || compacted)
                    },
                    _ => (None, false),
                }
            },
        }
    }

    /// Whether [`Actor::propose`] can take a command.
    pub fn can_propose(&self) -> (can: bool)
        requires
            self.wf(),
        ensures
            can == self@.replica.node.can_propose(),
    {
        self.replica.can_propose()
    }

    /// Proposes `command` if this node is the leader: its log index, or who to
    /// turn to instead. Also whether storage has to be written out.
    pub fn propose(&mut self, command: Command) -> (outcome: (ProposeOutcome, bool))
        requires
            old(self).wf(),
            old(self)@.replica.node.can_propose(),
        ensures
            final(self).wf(),
            if old(self)@.replica.node.role == Role::Leader {
                &&& outcome.0 == ProposeOutcome::Accepted(
                    (old(self)@.replica.node.last_log_index() + 1) as u64,
                )
                &&& final(self)@ == old(self)@.propose(command.deep_view())
            } else {
                &&& outcome.0 == ProposeOutcome::NotLeader(old(self)@.leader_hint)
                &&& final(self)@ == old(self)@
            },
            final(self).carrier() == old(self).carrier(),
            outcome.1 == (old(self)@.replica.node.role == Role::Leader && (ActorState {
                replica: old(self)@.replica.propose(command.deep_view()).0,
                ..old(self)@
            }).write_due(old(self)@.replica.propose(command.deep_view()).1)),
            !outcome.1 ==> final(self)@.storage == old(self)@.storage,
    {
        let ghost before = old(self)@;
        let ghost c = command.deep_view();
        match self.replica.propose(command) {
            Some((index, effects)) => {
                proof {
                    let payload = LogPayloadView::Command(c.encoded());
                    model::lemma_can_propose(before.replica.node, c.encoded());
                    durable::proposal_is_durable(before.storage, before.replica.node, payload);
                    laws::proposal_keeps_wf(before.replica.node, payload);
                    replica::catching_up_keeps_the_node(
                        before.replica.with_node(before.replica.node.append_and_advance(payload).0),
                    );
                    assert(self@ =~= (ActorState {
                        replica: before.replica.propose(c).0,
                        ..before
                    }));
                }
                let stored = self.stage(effects);
                let compacted = self.maybe_compact();
                (ProposeOutcome::Accepted(index), stored || compacted)
            },
            None => {
                assert(self@ =~= before);
                (ProposeOutcome::NotLeader(self.leader_hint), false)
            },
        }
    }

    /// Whether [`Actor::propose_config_change`] can take `new_voters`.
    pub fn can_propose_config_change(&self, new_voters: &[NodeId]) -> (can: bool)
        requires
            self.wf(),
        ensures
            can == (self@.replica.node.role == Role::Leader && new_voters@.len() > 0
                ==> self@.replica.node.can_change_config(new_voters@)),
    {
        self.replica.node().can_propose_config_change(new_voters)
    }

    /// Begins a change of voters if this node is the leader. An empty voter
    /// set is turned down like a request to the wrong node.
    pub fn propose_config_change(&mut self, new_voters: Vec<NodeId>) -> (outcome: (
        ProposeOutcome,
        bool,
    ))
        requires
            old(self).wf(),
            old(self)@.replica.node.role == Role::Leader && new_voters@.len() > 0
                ==> old(self)@.replica.node.can_change_config(new_voters@),
        ensures
            final(self).wf(),
            if old(self)@.replica.node.role == Role::Leader && new_voters@.len() > 0 {
                &&& outcome.0 == ProposeOutcome::Accepted(
                    (old(self)@.replica.node.last_log_index() + 1) as u64,
                )
                &&& final(self)@ == old(self)@.change_config(new_voters@)
            } else {
                &&& outcome.0 == ProposeOutcome::NotLeader(old(self)@.leader_hint)
                &&& final(self)@ == old(self)@
            },
            final(self).carrier() == old(self).carrier(),
            outcome.1 == (old(self)@.replica.node.role == Role::Leader && new_voters@.len() > 0
                && (ActorState {
                replica: old(self)@.replica.change_config(new_voters@).0,
                ..old(self)@
            }).write_due(old(self)@.replica.change_config(new_voters@).1)),
            !outcome.1 ==> final(self)@.storage == old(self)@.storage,
    {
        let ghost before = old(self)@;
        match self.replica.propose_config_change(new_voters) {
            Some((index, effects)) => {
                proof {
                    let node = before.replica.node;
                    laws::config_change_keeps_wf(node, new_voters@);
                    durable::config_change_is_durable(before.storage, node, new_voters@);
                    replica::catching_up_keeps_the_node(before.replica.with_node(node.change_config(new_voters@).0));
                    assert(self@ =~= (ActorState {
                        replica: before.replica.change_config(new_voters@).0,
                        ..before
                    }));
                }
                let stored = self.stage(effects);
                let compacted = self.maybe_compact();
                (ProposeOutcome::Accepted(index), stored || compacted)
            },
            None => {
                assert(self@ =~= before);
                (ProposeOutcome::NotLeader(self.leader_hint), false)
            },
        }
    }

    /// Whether [`Actor::add_learner`] can take a learner.
    pub fn can_add_learner(&self) -> (can: bool)
        requires
            self.wf(),
        ensures
            can == self@.replica.node.can_extend(),
    {
        self.replica.node().last_log_index() < u64::MAX
    }

    /// Starts replicating to `id` if this node is the leader. One that is
    /// known already is accepted without effect.
    pub fn add_learner(&mut self, id: NodeId) -> (outcome: (AddLearnerOutcome, bool))
        requires
            old(self).wf(),
            old(self)@.replica.node.takes_learner(id) ==> old(self)@.replica.node.can_extend(),
        ensures
            final(self).wf(),
            outcome.0 == if old(self)@.replica.node.role == Role::Leader {
                AddLearnerOutcome::Accepted
            } else {
                AddLearnerOutcome::NotLeader(old(self)@.leader_hint)
            },
            final(self)@ == if old(self)@.replica.node.takes_learner(id) {
                old(self)@.add_learner(id)
            } else {
                old(self)@
            },
            final(self).carrier() == old(self).carrier(),
            outcome.1 == old(self)@.replica.node.takes_learner(id),
            !outcome.1 ==> final(self)@.storage == old(self)@.storage,
    {
        let ghost before = old(self)@;
        if self.replica.node().role() != Role::Leader {
            return (AddLearnerOutcome::NotLeader(self.leader_hint), false);
        }
        let effects = self.replica.add_learner(id);
        proof {
            let node = before.replica.node;
            durable::learners_are_durable(before.storage, node, id);
            if node.takes_learner(id) {
                assert(self@ =~= (ActorState {
                    replica: before.replica.with_node(node.add_learner(id)),
                    ..before
                }));
            } else {
                assert(self@ =~= before);
                assert(before.stage(Seq::empty()) =~= before);
            }
        }
        let ghost all = effects.deep_view();
        assert(persists(all) == before.replica.node.takes_learner(id)) by {
            if before.replica.node.takes_learner(id) {
                assert(all[0] is PersistLearners);
            }
        }
        let stored = self.stage(effects);
        (AddLearnerOutcome::Accepted, stored)
    }

    /// Hands one message to the transport.
    fn hand_over(&mut self, outgoing: &Outgoing)
        requires
            old(self).inv(),
        ensures
            final(self).inv(),
            final(self).carrier().taken() == old(self).carrier().taken().push(
                outgoing.deep_view(),
            ),
            final(self)@ == (ActorState {
                handed_over: old(self)@.handed_over.push(outgoing.deep_view()),
                ..old(self)@
            }),
    {
        self.transport.send(outgoing.to, outgoing.message.clone());
        assert(self@ =~= (ActorState {
            handed_over: old(self)@.handed_over.push(outgoing.deep_view()),
            ..old(self)@
        }));
    }

    /// Hands everything held back to the transport, in order. Called once
    /// storage has been written out.
    pub fn release(&mut self)
        requires
            old(self).wf(),
        ensures
            final(self).wf(),
            final(self).carrier().taken() == old(self).carrier().taken() + old(self)@.outbox,
            final(self)@ == old(self)@.release(),
    {
        let mut outbox: Vec<Outgoing> = Vec::new();
        std::mem::swap(&mut outbox, &mut self.outbox);
        let ghost all = outbox.deep_view();
        let ghost before = self@;
        assert(before.outbox =~= Seq::empty());
        assert(before =~= (ActorState { outbox: Seq::empty(), ..old(self)@ }));
        let mut i: usize = 0;
        while i < outbox.len()
            invariant
                i <= outbox@.len(),
                all == outbox.deep_view(),
                self.inv(),
                self@ == (ActorState {
                    handed_over: before.handed_over + all.take(i as int),
                    ..before
                }),
            decreases outbox.len() - i,
        {
            self.hand_over(&outbox[i]);
            proof {
                assert(all.take(i + 1) =~= all.take(i as int).push(all[i as int]));
                assert(self@.handed_over =~= before.handed_over + all.take(i + 1));
                assert(self@ =~= (ActorState {
                    handed_over: before.handed_over + all.take(i + 1),
                    ..before
                }));
            }
            i += 1;
        }
        assert(all.take(i as int) =~= all);
        assert(self@ =~= old(self)@.release());
    }
}

} // verus!
