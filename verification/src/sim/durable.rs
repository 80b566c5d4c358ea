//! Simulated durable storage.

use vstd::prelude::*;

use crate::raft::ids;
use crate::raft::laws;
use crate::raft::model;
use crate::raft::model::NodeState;
use crate::raft::node::Node;
use crate::raft::types;
use crate::raft::types::{
    clone_entries, ClusterConfig, ClusterConfigView, Effect, EffectView, EventView, HardState,
    LogEntry, LogEntryView, LogPayloadView, MessageView, NodeId, Snapshot, SnapshotMetadata,
};

verus! {

/// What has been made durable.
#[verifier::ext_equal]
pub struct DurableView {
    pub hard_state: HardState,
    pub log: Seq<LogEntryView>,
    pub snapshot: SnapshotMetadata,
    pub snapshot_data: Seq<u8>,
    pub snapshot_config: ClusterConfigView,
    pub learners: Seq<NodeId>,
}

impl DurableView {
    /// Nothing is durable yet.
    pub open spec fn blank() -> DurableView {
        DurableView {
            hard_state: HardState { current_term: 0, voted_for: None },
            log: Seq::empty(),
            snapshot: SnapshotMetadata { last_included_index: 0, last_included_term: 0 },
            snapshot_data: Seq::empty(),
            snapshot_config: ClusterConfigView { voters: Seq::empty(), old_voters: None },
            learners: Seq::empty(),
        }
    }

    /// A log is only ever replaced above the snapshot boundary.
    pub open spec fn can_apply(self, effect: EffectView) -> bool {
        effect matches EffectView::PersistLog { from_index, .. } ==> from_index
            > self.snapshot.last_included_index
    }

    /// What is durable once `effect` is.
    pub open spec fn apply(self, effect: EffectView) -> DurableView {
        match effect {
            EffectView::Send { .. } => self,
            EffectView::PersistHardState { term, voted_for } => DurableView {
                hard_state: HardState { current_term: term, voted_for },
                ..self
            },
            EffectView::PersistLog { from_index, entries } => {
                let kept = from_index - self.snapshot.last_included_index - 1;
                DurableView {
                    log: (if kept <= self.log.len() {
                        self.log.take(kept)
                    } else {
                        self.log
                    }) + entries,
                    ..self
                }
            },
            EffectView::PersistSnapshot { last_included_index, last_included_term, data, config } =>
                DurableView {
                    snapshot: SnapshotMetadata { last_included_index, last_included_term },
                    snapshot_data: data,
                    snapshot_config: config,
                    ..self
                },
            EffectView::PersistLearners { learners } => DurableView { learners, ..self },
        }
    }

    /// What is durable once all of `effects` are, in order.
    pub open spec fn apply_all(self, effects: Seq<EffectView>) -> DurableView
        decreases effects.len(),
    {
        if effects.len() == 0 {
            self
        } else {
            self.apply(effects[0]).apply_all(effects.drop_first())
        }
    }

    /// Whether all of `effects` can be made durable, in order.
    pub open spec fn can_apply_all(self, effects: Seq<EffectView>) -> bool
        decreases effects.len(),
    {
        effects.len() > 0 ==> self.can_apply(effects[0]) && self.apply(effects[0]).can_apply_all(
            effects.drop_first(),
        )
    }

    /// Whether exactly what must survive a crash of a node in state `s` is
    /// durable. Without a snapshot the configuration comes from elsewhere.
    pub open spec fn holds(self, s: NodeState) -> bool {
        &&& self.hard_state.current_term == s.current_term
        &&& self.hard_state.voted_for == s.voted_for
        &&& self.log == s.log
        &&& self.snapshot == s.snapshot
        &&& self.snapshot_data == s.snapshot_data
        &&& s.boundary() > 0 ==> self.snapshot_config == s.snapshot_config
        &&& self.learners.to_set() == s.learners
    }
}

/// Applying two batches in a row is applying the first, then the second.
proof fn lemma_apply_concat(d: DurableView, a: Seq<EffectView>, b: Seq<EffectView>)
    ensures
        d.apply_all(a + b) == d.apply_all(a).apply_all(b),
        d.can_apply_all(a + b) == (d.can_apply_all(a) && d.apply_all(a).can_apply_all(b)),
    decreases a.len(),
{
    if a.len() == 0 {
        assert(a + b =~= b);
    } else {
        assert((a + b).drop_first() =~= a.drop_first() + b);
        lemma_apply_concat(d.apply(a[0]), a.drop_first(), b);
    }
}

/// Messages are not persistence.
proof fn lemma_apply_messages(d: DurableView, effects: Seq<EffectView>)
    requires
        forall|i: int| 0 <= i < effects.len() ==> (#[trigger] effects[i]) is Send,
    ensures
        d.apply_all(effects) == d,
        d.can_apply_all(effects),
    decreases effects.len(),
{
    if effects.len() > 0 {
        assert(effects[0] is Send);
        assert forall|i: int| 0 <= i < effects.drop_first().len() implies (
        #[trigger] effects.drop_first()[i]) is Send by {
            assert(effects[i + 1] is Send);
        }
        lemma_apply_messages(d, effects.drop_first());
    }
}

proof fn lemma_apply_one(d: DurableView, effect: EffectView)
    ensures
        d.apply_all(seq![effect]) == d.apply(effect),
        d.can_apply_all(seq![effect]) == d.can_apply(effect),
{
    assert(seq![effect].drop_first() =~= Seq::empty());
    assert(d.apply(effect).apply_all(Seq::empty()) == d.apply(effect));
    assert(d.apply(effect).can_apply_all(Seq::empty()));
}

/// A batch of one effect and then messages.
proof fn lemma_apply_then_messages(d: DurableView, effect: EffectView, messages: Seq<EffectView>)
    requires
        forall|i: int| 0 <= i < messages.len() ==> (#[trigger] messages[i]) is Send,
    ensures
        d.apply_all(seq![effect] + messages) == d.apply(effect),
        d.can_apply_all(seq![effect] + messages) == d.can_apply(effect),
{
    lemma_apply_concat(d, seq![effect], messages);
    lemma_apply_one(d, effect);
    lemma_apply_messages(d.apply(effect), messages);
}

/// Whether making `effects` durable keeps the durable state that of the node.
pub open spec fn keeps_pace(d: DurableView, next: NodeState, effects: Seq<EffectView>) -> bool {
    d.can_apply_all(effects) && d.apply_all(effects).holds(next)
}

/// Whatever a transition changes of what must survive a crash, its effects
/// make durable.
pub proof fn step_is_durable(d: DurableView, s: NodeState, event: EventView)
    requires
        s.wf(),
        s.can_step(event),
        d.holds(s),
    ensures
        keeps_pace(d, s.step(event).0, s.step(event).1),
{
    match event {
        EventView::Tick { next_timeout } => {
            lemma_tick_is_durable(d, s, next_timeout);
        },
        EventView::Step { from, message } => {
            match message {
                MessageView::RequestVote(request) => {
                    if s.is_member(from) && request.candidate_id == from {
                        lemma_vote_is_durable(d, s, from, request);
                    } else {
                        lemma_apply_messages(d, Seq::empty());
                    }
                },
                MessageView::RequestVoteResponse(response) => {
                    let (next, effects) = s.on_message(from, message);
                    if s.is_member(from) && response.term > s.current_term {
                        lemma_apply_one(d, next.persist_hard_state());
                    } else {
                        lemma_apply_messages(d, effects);
                    }
                },
                MessageView::AppendEntries(request) => {
                    if request.leader_id == from {
                        lemma_append_is_durable(d, s, from, request);
                    } else {
                        lemma_apply_messages(d, Seq::empty());
                    }
                },
                MessageView::InstallSnapshot(request) => {
                    if request.leader_id == from {
                        lemma_install_is_durable(d, s, from, request);
                    } else {
                        lemma_apply_messages(d, Seq::empty());
                    }
                },
                MessageView::AppendEntriesResponse(response) => {
                    let (next, effects) = s.on_message(from, message);
                    if s.is_member(from) && response.term > s.current_term {
                        lemma_apply_one(d, next.persist_hard_state());
                    } else if s.is_member(from) && response.term == s.current_term && s.role
                        == types::Role::Leader && response.success {
                        lemma_acknowledge_is_durable(d, s, from, response.match_index);
                    } else {
                        lemma_apply_messages(d, effects);
                    }
                },
                MessageView::InstallSnapshotResponse(response) => {
                    let (next, effects) = s.on_message(from, message);
                    if s.is_member(from) && response.term > s.current_term {
                        lemma_apply_one(d, next.persist_hard_state());
                    } else if s.is_member(from) && response.term == s.current_term && s.role
                        == types::Role::Leader {
                        lemma_acknowledge_is_durable(d, s, from, response.last_included_index);
                    } else {
                        lemma_apply_messages(d, effects);
                    }
                },
            }
        },
    }
}

proof fn lemma_tick_is_durable(d: DurableView, s: NodeState, next_timeout: u64)
    requires
        s.wf(),
        s.can_tick(),
        d.holds(s),
    ensures
        keeps_pace(d, s.on_tick(next_timeout).0, s.on_tick(next_timeout).1),
{
    let (next, effects) = s.on_tick(next_timeout);
    let ticked = s.tick_follower();
    if s.role != types::Role::Leader && ticked.election_elapsed >= ticked.election_timeout
        && ticked.config().is_voter(s.id) {
        let candidate = ticked.candidacy(next_timeout);
        if candidate.has_quorum() {
            lemma_apply_then_messages(
                d,
                candidate.persist_hard_state(),
                candidate.become_leader().1,
            );
        } else {
            lemma_apply_then_messages(d, candidate.persist_hard_state(), candidate.vote_requests());
        }
    } else {
        lemma_apply_messages(d, effects);
    }
}

proof fn lemma_vote_is_durable(
    d: DurableView,
    s: NodeState,
    from: NodeId,
    request: types::RequestVote,
)
    requires
        d.holds(s),
    ensures
        keeps_pace(d, s.on_request_vote(from, request).0, s.on_request_vote(from, request).1),
{
    let (next, effects) = s.on_request_vote(from, request);
    if effects.len() == 2 {
        assert(effects =~= seq![effects[0]] + seq![effects[1]]);
        lemma_apply_then_messages(d, effects[0], seq![effects[1]]);
    } else {
        lemma_apply_messages(d, effects);
    }
}

/// The durable state after a new term has been taken note of.
proof fn lemma_follow_is_durable(d: DurableView, s: NodeState, term: u64)
    requires
        d.holds(s),
        term >= s.current_term,
    ensures
        keeps_pace(d, s.follow(term), s.follow(term).persist_new_term(s)),
{
    let current = s.follow(term);
    if current.current_term > s.current_term {
        lemma_apply_one(d, current.persist_hard_state());
    } else {
        lemma_apply_messages(d, Seq::empty());
    }
}

proof fn lemma_append_is_durable(
    d: DurableView,
    s: NodeState,
    from: NodeId,
    request: types::AppendEntriesView,
)
    requires
        s.wf(),
        s.can_append_entries(request),
        d.holds(s),
    ensures
        keeps_pace(d, s.on_append_entries(from, request).0, s.on_append_entries(from, request).1),
{
    let (next, effects) = s.on_append_entries(from, request);
    if request.term < s.current_term {
        lemma_apply_messages(d, effects);
    } else {
        let current = s.follow(request.term);
        let persist_term = current.persist_new_term(s);
        lemma_follow_is_durable(d, s, request.term);
        let d1 = d.apply_all(persist_term);
        if !current.prev_log_matches(request) {
            let reply = seq![current.append_response(from, false, 0)];
            lemma_apply_concat(d, persist_term, reply);
            lemma_apply_messages(d1, reply);
        } else {
            laws::lemma_merged(current, request);
            let (log, changed_from) = current.merged(request);
            let match_index = (request.prev_log_index + request.entries.len()) as u64;
            let reply = seq![next.append_response(from, true, match_index)];
            match changed_from {
                Some(from_index) => {
                    let splice = EffectView::PersistLog {
                        from_index,
                        entries: next.entries_from(from_index as int),
                    };
                    let kept = from_index - current.boundary() - 1;
                    let k = from_index - request.prev_log_index - 1;
                    assert(log.skip(kept) =~= request.entries.skip(k));
                    assert(effects =~= persist_term + (seq![splice] + reply));
                    lemma_apply_concat(d, persist_term, seq![splice] + reply);
                    lemma_apply_then_messages(d1, splice, reply);
                    assert(d1.apply(splice).log =~= next.log);
                },
                None => {
                    assert(effects =~= persist_term + reply);
                    lemma_apply_concat(d, persist_term, reply);
                    lemma_apply_messages(d1, reply);
                },
            }
        }
    }
}

proof fn lemma_install_is_durable(
    d: DurableView,
    s: NodeState,
    from: NodeId,
    request: types::InstallSnapshotView,
)
    requires
        s.wf(),
        s.can_install_snapshot(request),
        d.holds(s),
    ensures
        keeps_pace(
            d,
            s.on_install_snapshot(from, request).0,
            s.on_install_snapshot(from, request).1,
        ),
{
    let (next, effects) = s.on_install_snapshot(from, request);
    if request.term < s.current_term {
        lemma_apply_messages(d, effects);
    } else {
        let current = s.follow(request.term);
        let persist_term = current.persist_new_term(s);
        lemma_follow_is_durable(d, s, request.term);
        let d1 = d.apply_all(persist_term);
        let reply = seq![current.snapshot_response(from, request.last_included_index)];
        if current.covers(request) {
            lemma_apply_concat(d, persist_term, reply);
            lemma_apply_messages(d1, reply);
        } else {
            let persist = model::persist_snapshot(request);
            assert(persist =~= seq![persist[0]] + seq![persist[1]]);
            assert(effects =~= persist_term + (seq![persist[0]] + (seq![persist[1]] + reply)));
            lemma_apply_concat(d, persist_term, seq![persist[0]] + (seq![persist[1]] + reply));
            lemma_apply_concat(d1, seq![persist[0]], seq![persist[1]] + reply);
            lemma_apply_one(d1, persist[0]);
            lemma_apply_then_messages(d1.apply(persist[0]), persist[1], reply);
            assert(d1.apply(persist[0]).apply(persist[1]).log =~= Seq::empty());
        }
    }
}

proof fn lemma_advance_is_durable(d: DurableView, s: NodeState)
    requires
        s.wf(),
        s.can_advance(),
        d.holds(s),
    ensures
        keeps_pace(d, s.advance_commit().0, s.advance_commit().1),
{
    let committed = s.commit_replicated();
    if committed.transition_committed() {
        let settled = committed.append(LogPayloadView::Configuration(committed.settled_config()));
        lemma_apply_one(d, settled.persist_last());
        assert(d.apply(settled.persist_last()).log =~= settled.log);
    } else {
        lemma_apply_messages(d, Seq::empty());
    }
}

proof fn lemma_acknowledge_is_durable(d: DurableView, s: NodeState, peer: NodeId, index: u64)
    requires
        s.wf(),
        s.can_acknowledge(peer, index),
        d.holds(s),
    ensures
        keeps_pace(d, s.on_acknowledged(peer, index).0, s.on_acknowledged(peer, index).1),
{
    let acknowledged = s.acknowledge(peer, index);
    let (next, effects) = acknowledged.advance_commit();
    lemma_advance_is_durable(d, acknowledged);
    lemma_apply_concat(d, effects, next.retry(peer));
    lemma_apply_messages(d.apply_all(effects), next.retry(peer));
}

/// The same of a proposal.
pub proof fn proposal_is_durable(d: DurableView, s: NodeState, payload: LogPayloadView)
    requires
        s.wf(),
        s.can_append_and_advance(payload),
        d.holds(s),
    ensures
        keeps_pace(d, s.append_and_advance(payload).0, s.append_and_advance(payload).1),
{
    let grown = s.append(payload);
    let (next, effects) = grown.advance_commit();
    lemma_apply_one(d, grown.persist_last());
    let d1 = d.apply(grown.persist_last());
    assert(d1.log =~= grown.log);
    lemma_advance_is_durable(d1, grown);
    lemma_apply_concat(d, seq![grown.persist_last()], effects);
}

/// The same of a change of voters.
pub proof fn config_change_is_durable(d: DurableView, s: NodeState, new_voters: Seq<NodeId>)
    requires
        s.wf(),
        s.can_change_config(new_voters),
        d.holds(s),
    ensures
        keeps_pace(d, s.change_config(new_voters).0, s.change_config(new_voters).1),
{
    let kept = s.without_promoted(new_voters);
    let payload = LogPayloadView::Configuration(s.joint_config(new_voters));
    let tail = kept.append_and_advance(payload).1;
    laws::lemma_can_change(s, kept, payload);
    assert(kept.learners.finite());
    ids::lemma_sorted_exists(kept.learners);
    if kept.learners == s.learners {
        proposal_is_durable(d, kept, payload);
        assert(Seq::<EffectView>::empty() + tail =~= tail);
    } else {
        lemma_apply_one(d, kept.persist_learners());
        let d1 = d.apply(kept.persist_learners());
        proposal_is_durable(d1, kept, payload);
        lemma_apply_concat(d, seq![kept.persist_learners()], tail);
    }
}

/// The same of taking on a learner, or letting one go.
pub proof fn learners_are_durable(d: DurableView, s: NodeState, id: NodeId)
    requires
        s.wf(),
        d.holds(s),
    ensures
        keeps_pace(d, s.add_learner(id), seq![s.add_learner(id).persist_learners()]),
        keeps_pace(d, s.remove_learner(id), seq![s.remove_learner(id).persist_learners()]),
{
    ids::lemma_sorted_exists(s.add_learner(id).learners);
    ids::lemma_sorted_exists(s.remove_learner(id).learners);
    lemma_apply_one(d, s.add_learner(id).persist_learners());
    lemma_apply_one(d, s.remove_learner(id).persist_learners());
}

/// The same of a compaction.
pub proof fn compaction_is_durable(d: DurableView, s: NodeState, up_to: int, data: Seq<u8>)
    requires
        s.wf(),
        s.boundary() < up_to <= s.last_log_index(),
        up_to < u64::MAX,
        d.holds(s),
    ensures
        keeps_pace(d, s.compact(up_to, data), s.compact(up_to, data).persist_compacted()),
{
    let next = s.compact(up_to, data);
    let effects = next.persist_compacted();
    assert(effects =~= seq![effects[0]] + seq![effects[1]]);
    lemma_apply_concat(d, seq![effects[0]], seq![effects[1]]);
    lemma_apply_one(d, effects[0]);
    let d1 = d.apply(effects[0]);
    lemma_apply_one(d1, effects[1]);
    assert(d1.apply(effects[1]).log =~= next.log);
}

/// The state of a node restarted from what is durable.
pub open spec fn recovered(
    d: DurableView,
    id: NodeId,
    peers: Seq<NodeId>,
    election_timeout: u64,
    heartbeat_interval: u64,
) -> NodeState {
    Node::initial(
        id,
        election_timeout,
        heartbeat_interval,
        d.hard_state,
        d.log,
        d.snapshot,
        d.snapshot_data,
        if d.snapshot.last_included_index > 0 {
            d.snapshot_config
        } else {
            ClusterConfigView { voters: peers, old_voters: None }
        },
        d.learners.to_set(),
    )
}

/// A node restarted from what it made durable has its term, its vote, its log,
/// its snapshot, its learners and its configuration back.
pub proof fn recovery_restores_the_node(
    d: DurableView,
    s: NodeState,
    peers: Seq<NodeId>,
    election_timeout: u64,
    heartbeat_interval: u64,
)
    requires
        s.wf(),
        d.holds(s),
        s.boundary() == 0 ==> s.snapshot_config == (ClusterConfigView {
            voters: peers,
            old_voters: None,
        }),
    ensures
        ({
            let r = recovered(d, s.id, peers, election_timeout, heartbeat_interval);
            &&& r.wf()
            &&& d.holds(r)
            &&& r.current_term == s.current_term
            &&& r.voted_for == s.voted_for
            &&& r.log == s.log
            &&& r.snapshot == s.snapshot
            &&& r.config() == s.config()
            &&& r.learners == s.learners
        }),
{
}

/// One node's simulated durable storage: whatever its persist effects have
/// confirmed. A crash discards everything else.
#[derive(Debug)]
pub struct DurableState {
    hard_state: HardState,
    log: Vec<LogEntry>,
    snapshot: SnapshotMetadata,
    snapshot_data: Vec<u8>,
    snapshot_config: ClusterConfig,
    learners: Vec<NodeId>,
}

impl View for DurableState {
    type V = DurableView;

    closed spec fn view(&self) -> DurableView {
        DurableView {
            hard_state: self.hard_state,
            log: self.log.deep_view(),
            snapshot: self.snapshot,
            snapshot_data: self.snapshot_data@,
            snapshot_config: self.snapshot_config.deep_view(),
            learners: self.learners@,
        }
    }
}

impl Default for DurableState {
    fn default() -> (state: Self)
        ensures
            state@ == DurableView::blank(),
    {
        let state = DurableState {
            hard_state: HardState::default(),
            log: Vec::new(),
            snapshot: SnapshotMetadata::default(),
            snapshot_data: Vec::new(),
            snapshot_config: ClusterConfig::default(),
            learners: Vec::new(),
        };
        assert(state@ =~= DurableView::blank());
        state
    }
}

impl Clone for DurableState {
    fn clone(&self) -> (copy: Self)
        ensures
            copy@ == self@,
    {
        let copy = DurableState {
            hard_state: self.hard_state,
            log: clone_entries(&self.log, 0),
            snapshot: self.snapshot,
            snapshot_data: self.snapshot_data.clone(),
            snapshot_config: self.snapshot_config.clone(),
            learners: self.learners.clone(),
        };
        assert(copy@ =~= self@);
        copy
    }
}

impl DurableState {
    /// What was read back from where it was written out to.
    pub fn restored(
        hard_state: HardState,
        log: Vec<LogEntry>,
        snapshot: Snapshot,
        learners: Vec<NodeId>,
    ) -> (state: Self)
        ensures
            state@ == (DurableView {
                hard_state,
                log: log.deep_view(),
                snapshot: snapshot.metadata,
                snapshot_data: snapshot.data@,
                snapshot_config: snapshot.config.deep_view(),
                learners: learners@,
            }),
    {
        DurableState {
            hard_state,
            log,
            snapshot: snapshot.metadata,
            snapshot_data: snapshot.data,
            snapshot_config: snapshot.config,
            learners,
        }
    }

    pub fn hard_state(&self) -> (state: HardState)
        ensures
            state == self@.hard_state,
    {
        self.hard_state
    }

    pub fn log(&self) -> (log: &[LogEntry])
        ensures
            types::view_entries(log@) == self@.log,
    {
        assert(types::view_entries(self.log@) =~= self.log.deep_view());
        &self.log
    }

    pub fn snapshot(&self) -> (metadata: SnapshotMetadata)
        ensures
            metadata == self@.snapshot,
    {
        self.snapshot
    }

    pub fn snapshot_data(&self) -> (data: &[u8])
        ensures
            data@ == self@.snapshot_data,
    {
        &self.snapshot_data
    }

    pub fn snapshot_config(&self) -> (config: &ClusterConfig)
        ensures
            config.deep_view() == self@.snapshot_config,
    {
        &self.snapshot_config
    }

    pub fn learners(&self) -> (learners: &[NodeId])
        ensures
            learners@ == self@.learners,
    {
        &self.learners
    }

    /// Records one effect as durably written. A message is not persistence and
    /// is ignored.
    pub fn apply(&mut self, effect: &Effect)
        requires
            old(self)@.can_apply(effect.deep_view()),
        ensures
            final(self)@ == old(self)@.apply(effect.deep_view()),
    {
        match effect {
            Effect::PersistHardState { term, voted_for } => {
                self.hard_state = HardState { current_term: *term, voted_for: *voted_for };
            },
            Effect::PersistLog { from_index, entries } => {
                let kept: u64 = *from_index - self.snapshot.last_included_index - 1;
                if kept < self.log.len() as u64 {
                    self.log.truncate(kept as usize);
                }
                let ghost head = self.log.deep_view();
                let mut added = clone_entries(entries, 0);
                let ghost tail = added.deep_view();
                assert(tail =~= entries.deep_view()) by {
                    assert(types::view_entries(entries@) =~= entries.deep_view());
                }
                self.log.append(&mut added);
                assert(self.log.deep_view() =~= head + tail);
            },
            Effect::PersistSnapshot { last_included_index, last_included_term, data, config } => {
                self.snapshot = SnapshotMetadata {
                    last_included_index: *last_included_index,
                    last_included_term: *last_included_term,
                };
                self.snapshot_data = data.clone();
                self.snapshot_config = config.clone();
            },
            Effect::Send { .. } => {},
            Effect::PersistLearners { learners } => {
                self.learners = learners.clone();
            },
        }
        assert(self@ =~= old(self)@.apply(effect.deep_view()));
    }
}

} // verus!
