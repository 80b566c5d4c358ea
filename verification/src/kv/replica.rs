//! A node together with the store its committed entries are applied to.

use vstd::prelude::*;

use crate::kv::command;
use crate::kv::command::{Command, CommandView};
use crate::kv::state_machine;
use crate::kv::state_machine::{ApplyResult, ApplyResultView, StateMachine, StoreState};
use crate::raft::model::NodeState;
use crate::raft::node::Node;
use crate::raft::types::{
    Effect, EffectView, Event, EventView, LogEntryView, LogPayload, LogPayloadView, NodeId, Role,
};

verus! {

/// The state of a [`Replica`].
#[verifier::ext_equal]
pub struct ReplicaState {
    pub node: NodeState,
    pub store: StoreState,
    /// What each applied command reported, by log index.
    pub results: Map<u64, ApplyResultView>,
}

impl ReplicaState {
    /// A node whose store is empty.
    pub open spec fn fresh(node: NodeState) -> ReplicaState {
        ReplicaState {
            node,
            store: StoreState { entries: Map::empty(), last_applied: 0 },
            results: Map::empty(),
        }
    }

    /// The next entry to apply, if it is committed and still in the log.
    pub open spec fn next_entry(self) -> Option<LogEntryView> {
        if self.store.last_applied < self.node.commit_index {
            self.node.entry_at(self.store.last_applied + 1)
        } else {
            None
        }
    }

    /// The state with one more entry applied. An entry that holds no command
    /// is passed over.
    pub open spec fn apply_entry(self, entry: LogEntryView) -> ReplicaState {
        let index = (self.store.last_applied + 1) as u64;
        let passed = ReplicaState {
            store: StoreState { last_applied: index, ..self.store },
            ..self
        };
        match entry.payload {
            LogPayloadView::Command(bytes) => match command::decoded(bytes) {
                Ok(c) => ReplicaState {
                    store: StoreState {
                        entries: state_machine::after(self.store.entries, c),
                        last_applied: index,
                    },
                    results: self.results.insert(
                        index,
                        state_machine::report(self.store.entries, c),
                    ),
                    ..self
                },
                Err(_) => passed,
            },
            LogPayloadView::Configuration(_) => passed,
        }
    }

    /// The state with every committed entry applied, in log order.
    pub open spec fn drained(self) -> ReplicaState
        decreases self.node.commit_index - self.store.last_applied,
    {
        match self.next_entry() {
            Some(entry) => self.apply_entry(entry).drained(),
            None => self,
        }
    }

    /// The store as of the snapshot, where the snapshot is ahead of it. Bytes
    /// that are not a snapshot leave the entries as they are.
    pub open spec fn restored(self) -> ReplicaState {
        if self.store.last_applied < self.node.snapshot.last_included_index {
            ReplicaState {
                store: StoreState {
                    entries: match state_machine::restored(self.node.snapshot_data) {
                        Some(entries) => entries,
                        None => self.store.entries,
                    },
                    last_applied: self.node.snapshot.last_included_index,
                },
                ..self
            }
        } else {
            self
        }
    }

    /// The state with everything the node has committed taken into the store.
    pub open spec fn caught_up(self) -> ReplicaState {
        self.restored().drained()
    }

    pub open spec fn with_node(self, node: NodeState) -> ReplicaState {
        ReplicaState { node, ..self }
    }

    pub open spec fn step(self, event: EventView) -> (ReplicaState, Seq<EffectView>) {
        let (node, effects) = self.node.step(event);
        (self.with_node(node).caught_up(), effects)
    }

    pub open spec fn propose(self, c: CommandView) -> (ReplicaState, Seq<EffectView>) {
        let (node, effects) = self.node.append_and_advance(LogPayloadView::Command(c.encoded()));
        (self.with_node(node).caught_up(), effects)
    }

    pub open spec fn change_config(self, new_voters: Seq<NodeId>) -> (
        ReplicaState,
        Seq<EffectView>,
    ) {
        let (node, effects) = self.node.change_config(new_voters);
        (self.with_node(node).caught_up(), effects)
    }

    /// Where a compaction that retains `retain` applied entries ends.
    pub open spec fn compaction_point(self, retain: u64) -> u64 {
        if self.store.last_applied >= retain {
            (self.store.last_applied - retain) as u64
        } else {
            0
        }
    }

    /// Whether such a compaction covers anything new.
    pub open spec fn compacts(self, retain: u64) -> bool {
        let point = self.compaction_point(retain);
        &&& self.node.boundary() < point
        &&& point <= self.node.commit_index
        &&& point <= self.node.last_log_index()
        &&& point < u64::MAX
    }

    /// The snapshot is of the store as it stands. What the commands it covers
    /// reported is let go.
    pub open spec fn compacted(self, retain: u64) -> ReplicaState {
        let point = self.compaction_point(retain);
        ReplicaState {
            node: self.node.compact(point as int, state_machine::snapshot_of(self.store.entries)),
            results: self.results.restrict(Set::new(|index: u64| index > point)),
            ..self
        }
    }
}

/// Applying an entry moves the last index applied by one, and draining ends
/// with nothing committed and held left to apply.
pub proof fn draining_applies_everything(r: ReplicaState)
    ensures
        r.drained().next_entry() is None,
        r.drained().node == r.node,
        r.drained().store.last_applied >= r.store.last_applied,
        r.store.last_applied <= r.node.commit_index ==> r.drained().store.last_applied
            <= r.node.commit_index,
    decreases r.node.commit_index - r.store.last_applied,
{
    match r.next_entry() {
        Some(entry) => {
            draining_applies_everything(r.apply_entry(entry));
        },
        None => {},
    }
}

/// Catching up leaves the node as it is.
pub proof fn catching_up_keeps_the_node(r: ReplicaState)
    ensures
        r.caught_up().node == r.node,
{
    draining_applies_everything(r.restored());
}

/// What was reported for an index stays as it was reported.
pub proof fn results_are_kept(r: ReplicaState, index: u64)
    requires
        index <= r.store.last_applied,
    ensures
        r.drained().results.contains_key(index) == r.results.contains_key(index),
        r.results.contains_key(index) ==> r.drained().results[index] == r.results[index],
    decreases r.node.commit_index - r.store.last_applied,
{
    match r.next_entry() {
        Some(entry) => {
            results_are_kept(r.apply_entry(entry), index);
        },
        None => {},
    }
}

/// Replicas that agree on their store and on the committed entries above it
/// agree on their store after applying those entries.
pub proof fn same_log_same_store(a: ReplicaState, b: ReplicaState)
    requires
        a.store == b.store,
        a.node.commit_index == b.node.commit_index,
        forall|index: int|
            a.store.last_applied < index <= a.node.commit_index ==> #[trigger] a.node.entry_at(
                index,
            ) == b.node.entry_at(index),
    ensures
        a.drained().store == b.drained().store,
    decreases a.node.commit_index - a.store.last_applied,
{
    if a.store.last_applied < a.node.commit_index {
        assert(a.node.entry_at(a.store.last_applied + 1) == b.node.entry_at(
            a.store.last_applied + 1,
        ));
    }
    match a.next_entry() {
        Some(entry) => {
            same_log_same_store(a.apply_entry(entry), b.apply_entry(entry));
        },
        None => {},
    }
}

/// What the command at a log index reported.
#[derive(Debug)]
struct Applied {
    index: u64,
    result: ApplyResult,
}

/// Wraps a node; newly committed entries are drained into the state machine
/// after every transition.
#[derive(Debug)]
pub struct Replica {
    node: Node,
    state_machine: StateMachine,
    results: Vec<Applied>,
}

spec fn holds_index(results: Seq<Applied>, index: u64) -> bool {
    exists|k: int| 0 <= k < results.len() && results[k].index == index
}

spec fn position_of(results: Seq<Applied>, index: u64) -> int {
    choose|k: int| 0 <= k < results.len() && results[k].index == index
}

spec fn in_order(results: Seq<Applied>) -> bool {
    forall|i: int, j: int|
        0 <= i < j < results.len() ==> (#[trigger] results[i]).index < (#[trigger] results[j]).index
}

spec fn view_results(results: Seq<Applied>) -> Map<u64, ApplyResultView> {
    Map::new(
        |index: u64| holds_index(results, index),
        |index: u64| results[position_of(results, index)].result.deep_view(),
    )
}

proof fn lemma_result_at(results: Seq<Applied>, k: int)
    requires
        in_order(results),
        0 <= k < results.len(),
    ensures
        view_results(results).contains_key(results[k].index),
        view_results(results)[results[k].index] == results[k].result.deep_view(),
{
    let index = results[k].index;
    assert(holds_index(results, index));
    let p = position_of(results, index);
    if p < k {
        assert(results[p].index < results[k].index);
    } else if k < p {
        assert(results[k].index < results[p].index);
    }
}

proof fn lemma_results_push(results: Seq<Applied>, added: Applied)
    requires
        in_order(results),
        forall|k: int| 0 <= k < results.len() ==> (#[trigger] results[k]).index < added.index,
    ensures
        in_order(results.push(added)),
        view_results(results.push(added)) == view_results(results).insert(
            added.index,
            added.result.deep_view(),
        ),
{
    let all = results.push(added);
    assert forall|index: u64| holds_index(all, index) == (index == added.index || holds_index(
        results,
        index,
    )) by {
        if holds_index(results, index) {
            let k = position_of(results, index);
            assert(all[k].index == index);
        }
        if index == added.index {
            assert(all[results.len() as int].index == index);
        }
        if holds_index(all, index) && index != added.index {
            let k = position_of(all, index);
            assert(results[k].index == index);
        }
    }
    assert forall|index: u64| holds_index(all, index) implies view_results(all)[index]
        == view_results(results).insert(added.index, added.result.deep_view())[index] by {
        let k = position_of(all, index);
        lemma_result_at(all, k);
        if k < results.len() {
            lemma_result_at(results, k);
        }
    }
    assert(view_results(all) =~= view_results(results).insert(
        added.index,
        added.result.deep_view(),
    ));
}

proof fn lemma_results_skip(results: Seq<Applied>, n: int, point: u64)
    requires
        in_order(results),
        0 <= n <= results.len(),
        forall|k: int| 0 <= k < n ==> (#[trigger] results[k]).index <= point,
        forall|k: int| n <= k < results.len() ==> (#[trigger] results[k]).index > point,
    ensures
        in_order(results.skip(n)),
        view_results(results.skip(n)) == view_results(results).restrict(
            Set::new(|index: u64| index > point),
        ),
{
    let rest = results.skip(n);
    let kept = view_results(results).restrict(Set::new(|index: u64| index > point));
    assert forall|index: u64| holds_index(rest, index) == (index > point && holds_index(
        results,
        index,
    )) by {
        if holds_index(rest, index) {
            let k = position_of(rest, index);
            assert(results[k + n].index == index);
        }
        if index > point && holds_index(results, index) {
            let k = position_of(results, index);
            assert(rest[k - n].index == index);
        }
    }
    assert forall|index: u64| holds_index(rest, index) implies view_results(rest)[index]
        == kept[index] by {
        let k = position_of(rest, index);
        lemma_result_at(rest, k);
        lemma_result_at(results, k + n);
    }
    assert(view_results(rest) =~= kept);
}

impl View for Replica {
    type V = ReplicaState;

    closed spec fn view(&self) -> ReplicaState {
        ReplicaState {
            node: self.node@,
            store: self.state_machine@,
            results: view_results(self.results@),
        }
    }
}

impl Replica {
    /// The node is well formed, and the store not behind its snapshot.
    pub open spec fn wf(&self) -> bool {
        &&& self.inv()
        &&& self@.node.wf()
        &&& self@.store.last_applied >= self@.node.boundary()
    }

    pub closed spec fn inv(&self) -> bool {
        &&& self.node.inv()
        &&& self.state_machine.wf()
        &&& in_order(self.results@)
        &&& forall|k: int|
            0 <= k < self.results@.len() ==> (#[trigger] self.results@[k]).index
                <= self.state_machine@.last_applied
    }

    /// A replica of a fresh node.
    pub fn new(node: Node) -> (replica: Self)
        requires
            node.wf(),
        ensures
            replica.wf(),
            replica@ == ReplicaState::fresh(node@).caught_up(),
    {
        Self::recover(node)
    }

    /// A replica of a node that may hold a snapshot, which its store starts
    /// from.
    pub fn recover(node: Node) -> (replica: Self)
        requires
            node.wf(),
        ensures
            replica.wf(),
            replica@ == ReplicaState::fresh(node@).caught_up(),
    {
        let mut replica = Replica {
            node,
            state_machine: StateMachine::new(),
            results: Vec::new(),
        };
        assert(replica@.results =~= Map::empty());
        assert(replica@ =~= ReplicaState::fresh(node@));
        replica.catch_up();
        replica
    }

    pub fn node(&self) -> (node: &Node)
        requires
            self.wf(),
        ensures
            node@ == self@.node,
            node.wf(),
    {
        &self.node
    }

    pub fn state_machine(&self) -> (machine: &StateMachine)
        requires
            self.wf(),
        ensures
            machine@ == self@.store,
            machine.wf(),
    {
        &self.state_machine
    }

    /// What the command at `index` reported when it was applied here.
    pub fn applied_result(&self, index: u64) -> (result: Option<&ApplyResult>)
        requires
            self.wf(),
        ensures
            match result {
                Some(result) => self@.results.contains_key(index) && self@.results[index]
                    == result.deep_view(),
                None => !self@.results.contains_key(index),
            },
    {
        let mut k: usize = self.results.len();
        while k > 0
            invariant
                k <= self.results@.len(),
                self.wf(),
                forall|j: int|
                    k <= j < self.results@.len() ==> (#[trigger] self.results@[j]).index != index,
            decreases k,
        {
            k -= 1;
            if self.results[k].index == index {
                proof {
                    lemma_result_at(self.results@, k as int);
                }
                return Some(&self.results[k].result);
            }
        }
        None
    }

    fn catch_up(&mut self)
        requires
            old(self).inv(),
            old(self)@.node.wf(),
        ensures
            final(self).wf(),
            final(self)@ == old(self)@.caught_up(),
    {
        self.restore();
        self.drain();
    }

    fn restore(&mut self)
        requires
            old(self).inv(),
            old(self)@.node.wf(),
        ensures
            final(self).wf(),
            final(self)@ == old(self)@.restored(),
    {
        let boundary: u64 = self.node.snapshot().last_included_index;
        if self.state_machine.last_applied() < boundary {
            match self.state_machine.restore(boundary, self.node.snapshot_data()) {
                Ok(_) => {},
                Err(_) => {
                    self.state_machine.advance_to(boundary);
                },
            }
        }
        assert(self@ =~= old(self)@.restored());
    }

    fn drain(&mut self)
        requires
            old(self).wf(),
        ensures
            final(self).wf(),
            final(self)@ == old(self)@.drained(),
    {
        loop
            invariant
                self.wf(),
                self@.drained() == old(self)@.drained(),
            ensures
                self@.next_entry() is None,
            decreases self@.node.commit_index - self@.store.last_applied,
        {
            let applied: u64 = self.state_machine.last_applied();
            if applied >= self.node.commit_index() {
                break;
            }
            let index: u64 = applied + 1;
            let ghost before = self@;
            let decoded = match self.node.entry_at(index) {
                None => {
                    break;
                },
                Some(entry) => match &entry.payload {
                    LogPayload::Command(bytes) => match Command::decode(bytes) {
                        Ok(command) => Some(command),
                        Err(_) => None,
                    },
                    LogPayload::Configuration(_) => None,
                },
            };
            match decoded {
                Some(command) => {
                    let result = self.state_machine.apply(&command);
                    let added = Applied { index, result };
                    proof {
                        lemma_results_push(self.results@, added);
                    }
                    self.results.push(added);
                },
                None => {
                    self.state_machine.skip();
                },
            }
            assert(self@ =~= before.apply_entry(before.next_entry()->0));
        }
    }

    /// Applies one input to the node, and whatever that commits to the store.
    pub fn step(&mut self, event: Event) -> (effects: Vec<Effect>)
        requires
            old(self).wf(),
            old(self)@.node.can_step(event.deep_view()),
        ensures
            final(self).wf(),
            (final(self)@, effects.deep_view()) == old(self)@.step(event.deep_view()),
    {
        let effects = self.node.step(event);
        assert(self@ =~= old(self)@.with_node(old(self)@.node.step(event.deep_view()).0));
        self.catch_up();
        effects
    }

    /// Whether [`Replica::step`] can take `event`, see [`Node::can_step`].
    pub fn can_step(&self, event: &Event) -> (can: bool)
        requires
            self.wf(),
        ensures
            can == self@.node.can_step(event.deep_view()),
    {
        self.node.can_step(event)
    }

    /// Proposes `command` if this node is the leader: its log index and the
    /// effects owed.
    pub fn propose(&mut self, command: Command) -> (outcome: Option<(u64, Vec<Effect>)>)
        requires
            old(self).wf(),
            old(self)@.node.can_propose(),
        ensures
            final(self).wf(),
            match outcome {
                Some((index, effects)) => {
                    &&& old(self)@.node.role == Role::Leader
                    &&& index == old(self)@.node.last_log_index() + 1
                    &&& (final(self)@, effects.deep_view()) == old(self)@.propose(
                        command.deep_view(),
                    )
                },
                None => old(self)@.node.role != Role::Leader && final(self)@ == old(self)@,
            },
    {
        match self.node.propose(command.encode()) {
            Some((index, effects)) => {
                assert(self@ =~= old(self)@.with_node(
                    old(self)@.node.append_and_advance(
                        LogPayloadView::Command(command.deep_view().encoded()),
                    ).0,
                ));
                self.catch_up();
                Some((index, effects))
            },
            None => {
                assert(self@ =~= old(self)@);
                None
            },
        }
    }

    /// Whether [`Replica::propose`] can take a command.
    pub fn can_propose(&self) -> (can: bool)
        requires
            self.wf(),
        ensures
            can == self@.node.can_propose(),
    {
        self.node.can_propose()
    }

    /// Begins a change of voters if this node is the leader, see
    /// [`Node::propose_config_change`].
    pub fn propose_config_change(&mut self, new_voters: Vec<NodeId>) -> (outcome: Option<
        (u64, Vec<Effect>),
    >)
        requires
            old(self).wf(),
            old(self)@.node.role == Role::Leader && new_voters@.len() > 0
                ==> old(self)@.node.can_change_config(new_voters@),
        ensures
            final(self).wf(),
            match outcome {
                Some((index, effects)) => {
                    &&& old(self)@.node.role == Role::Leader
                    &&& new_voters@.len() > 0
                    &&& index == old(self)@.node.last_log_index() + 1
                    &&& (final(self)@, effects.deep_view()) == old(self)@.change_config(new_voters@)
                },
                None => {
                    &&& old(self)@.node.role != Role::Leader || new_voters@.len() == 0
                    &&& final(self)@ == old(self)@
                },
            },
    {
        match self.node.propose_config_change(new_voters) {
            Some((index, effects)) => {
                assert(self@ =~= old(self)@.with_node(
                    old(self)@.node.change_config(new_voters@).0,
                ));
                self.catch_up();
                Some((index, effects))
            },
            None => {
                assert(self@ =~= old(self)@);
                None
            },
        }
    }

    /// Starts replicating to a learner, see [`Node::add_learner`].
    pub fn add_learner(&mut self, id: NodeId) -> (effects: Vec<Effect>)
        requires
            old(self).wf(),
            old(self)@.node.takes_learner(id) ==> old(self)@.node.can_extend(),
        ensures
            final(self).wf(),
            if old(self)@.node.takes_learner(id) {
                &&& final(self)@ == old(self)@.with_node(old(self)@.node.add_learner(id))
                &&& effects.deep_view() == seq![final(self)@.node.persist_learners()]
            } else {
                &&& final(self)@ == old(self)@
                &&& effects.deep_view() == Seq::<EffectView>::empty()
            },
    {
        let effects = self.node.add_learner(id);
        assert(self@ =~= old(self)@.with_node(self.node@));
        assert(old(self)@ =~= old(self)@.with_node(old(self)@.node));
        effects
    }

    /// Stops replicating to a learner, see [`Node::remove_learner`].
    pub fn remove_learner(&mut self, id: NodeId) -> (effects: Vec<Effect>)
        requires
            old(self).wf(),
        ensures
            final(self).wf(),
            if old(self)@.node.role == Role::Leader && old(self)@.node.learners.contains(id) {
                &&& final(self)@ == old(self)@.with_node(old(self)@.node.remove_learner(id))
                &&& effects.deep_view() == seq![final(self)@.node.persist_learners()]
            } else {
                &&& final(self)@ == old(self)@
                &&& effects.deep_view() == Seq::<EffectView>::empty()
            },
    {
        let effects = self.node.remove_learner(id);
        assert(self@ =~= old(self)@.with_node(self.node@));
        assert(old(self)@ =~= old(self)@.with_node(old(self)@.node));
        effects
    }

    /// Compacts the log behind the last entry applied, retaining `retain`
    /// applied entries; nothing if that covers nothing new. The snapshot is of
    /// the store as it stands.
    pub fn compact(&mut self, retain: u64) -> (outcome: Option<Vec<Effect>>)
        requires
            old(self).wf(),
        ensures
            final(self).wf(),
            match outcome {
                Some(effects) => {
                    &&& old(self)@.compacts(retain)
                    &&& final(self)@ == old(self)@.compacted(retain)
                    &&& effects.deep_view() == final(self)@.node.persist_compacted()
                },
                None => !old(self)@.compacts(retain) && final(self)@ == old(self)@,
            },
    {
        let applied: u64 = self.state_machine.last_applied();
        let point: u64 = if applied >= retain {
            applied - retain
        } else {
            0
        };
        assert(point == self@.compaction_point(retain));
        if point <= self.node.snapshot().last_included_index || point > self.node.commit_index()
            || point > self.node.last_log_index() || point == u64::MAX {
            return None;
        }
        let data = self.state_machine.snapshot();
        match self.node.compact(point, data) {
            Ok(effects) => {
                self.forget_results(point);
                assert(self@ =~= old(self)@.compacted(retain));
                Some(effects)
            },
            Err(_) => None,
        }
    }

    /// Lets go of what commands up to `point` reported.
    fn forget_results(&mut self, point: u64)
        requires
            old(self).wf(),
        ensures
            final(self).wf(),
            final(self)@ == (ReplicaState {
                results: old(self)@.results.restrict(Set::new(|index: u64| index > point)),
                ..old(self)@
            }),
    {
        let mut n: usize = 0;
        while n < self.results.len() && self.results[n].index <= point
            invariant
                n <= self.results@.len(),
                forall|k: int| 0 <= k < n ==> (#[trigger] self.results@[k]).index <= point,
            decreases self.results.len() - n,
        {
            n += 1;
        }
        let ghost all = self.results@;
        proof {
            assert forall|k: int| n <= k < all.len() implies (#[trigger] all[k]).index > point by {
                if k > n {
                    assert(all[n as int].index < all[k].index);
                }
            }
            lemma_results_skip(all, n as int, point);
        }
        let rest = self.results.split_off(n);
        assert(rest@ =~= all.skip(n as int));
        self.results = rest;
    }
}

} // verus!
