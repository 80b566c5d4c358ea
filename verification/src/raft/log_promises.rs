//! What a node promises about its log: what it takes over, what it commits,
//! who decides, and what it leaves to a snapshot.

use vstd::prelude::*;

use crate::raft::ids;
use crate::raft::laws;
use crate::raft::model;
use crate::raft::model::NodeState;
use crate::raft::node::Node;
use crate::raft::promises;
use crate::raft::types::{
    AppendEntriesResponse, AppendEntriesView, ClusterConfigView, ConfigError, EffectView,
    EventView, HardState, InstallSnapshotResponse, InstallSnapshotView, LogEntryView,
    LogPayloadView, MessageView, NodeId, Role, Snapshot, SnapshotMetadata,
};

verus! {

/// Whether a node holds the entry that entries sent follow, or has compacted
/// it, which it could not before it was committed.
pub open spec fn joins_on(s: NodeState, request: AppendEntriesView) -> bool {
    ||| request.prev_log_index <= s.snapshot.last_included_index
    ||| promises::held(s, request.prev_log_index as int) && promises::entry(
        s,
        request.prev_log_index as int,
    ).term == request.prev_log_term
}

/// Whether the `k`th entry sent is missing from a log, or another term's entry
/// is in its place.
pub open spec fn differs(s: NodeState, request: AppendEntriesView, k: int) -> bool {
    let index = request.prev_log_index + 1 + k;
    &&& 0 <= k < request.entries.len()
    &&& index > s.snapshot.last_included_index
    &&& !(promises::held(s, index) && promises::entry(s, index).term == request.entries[k].term)
}

/// Whether `k` is the first entry sent that differs.
pub open spec fn differs_first(s: NodeState, request: AppendEntriesView, k: int) -> bool {
    differs(s, request, k) && forall|j: int| 0 <= j < k ==> !#[trigger] differs(s, request, j)
}

proof fn lemma_differs(s: NodeState, request: AppendEntriesView, k: int)
    ensures
        s.diverges_at(request, k) == differs(s, request, k),
        s.first_divergence(request, k) == differs_first(s, request, k),
{
    assert forall|j: int| s.diverges_at(request, j) == #[trigger] differs(s, request, j) by {}
    if s.first_divergence(request, k) {
        assert forall|j: int| 0 <= j < k implies !#[trigger] differs(s, request, j) by {
            assert(!s.diverges_at(request, j));
        }
    }
    if differs_first(s, request, k) {
        assert forall|j: int| 0 <= j < k implies !#[trigger] s.diverges_at(request, j) by {
            assert(!differs(s, request, j));
        }
    }
}

/// The answer to entries sent.
pub open spec fn append_reply(to: NodeId, term: u64, success: bool, match_index: u64) -> EffectView {
    EffectView::Send {
        to,
        message: MessageView::AppendEntriesResponse(
            AppendEntriesResponse { term, success, match_index },
        ),
    }
}

/// Whether a node has heard from the leader of `term`, which is not over: it
/// follows it, unless it leads that term itself, and starts waiting anew.
pub open spec fn hears_leader(s: NodeState, term: u64, next: NodeState) -> bool {
    &&& next.current_term == term
    &&& next.role == if s.role == Role::Leader && term == s.current_term {
        Role::Leader
    } else {
        Role::Follower
    }
    &&& next.voted_for == if term > s.current_term {
        None
    } else {
        s.voted_for
    }
    &&& next.election_elapsed == 0
    &&& next.leader_contact_elapsed == 0
    &&& next.id == s.id && next.election_timeout == s.election_timeout && next.heartbeat_interval
        == s.heartbeat_interval && next.learners == s.learners
}

/// Whether effects begin with a new term, where there is one, and end with the
/// reply, with `between` in between.
pub open spec fn in_between(
    s: NodeState,
    term: u64,
    effects: Seq<EffectView>,
    reply: EffectView,
    between: Seq<EffectView>,
) -> bool {
    effects == if term > s.current_term {
        seq![EffectView::PersistHardState { term, voted_for: None }] + between + seq![reply]
    } else {
        between + seq![reply]
    }
}

/// Entries from the leader of a term that is over are refused. Otherwise the
/// node follows, and takes the entries over exactly if it holds the entry they
/// follow: from the first that differs on they replace what is there, and where
/// none differs the log stays, whatever it holds beyond. What the leader has
/// committed is committed, as far as the log goes. What has changed is durable
/// before the answer, which says how far the log now matches.
pub proof fn entries_are_taken_over(s: NodeState, from: NodeId, request: AppendEntriesView)
    requires
        s.wf(),
        request.leader_id == from,
        request.prev_log_index + request.entries.len() <= u64::MAX,
    ensures
        ({
            let (next, effects) = s.step(
                EventView::Step { from, message: MessageView::AppendEntries(request) },
            );
            let end = (request.prev_log_index + request.entries.len()) as u64;
            let none = Seq::<EffectView>::empty();
            if request.term < s.current_term {
                next == s && effects == seq![append_reply(from, s.current_term, false, 0)]
            } else {
                &&& hears_leader(s, request.term, next)
                &&& next.snapshot == s.snapshot && next.snapshot_data == s.snapshot_data
                    && next.snapshot_config == s.snapshot_config
                &&& !joins_on(s, request) ==> next.log == s.log && next.commit_index
                    == s.commit_index && in_between(
                    s,
                    request.term,
                    effects,
                    append_reply(from, request.term, false, 0),
                    none,
                )
                &&& joins_on(s, request) ==> {
                    let reply = append_reply(from, request.term, true, end);
                    &&& next.commit_index == if request.leader_commit <= s.commit_index {
                        s.commit_index
                    } else if request.leader_commit <= promises::end_of(next) {
                        request.leader_commit
                    } else {
                        promises::end_of(next) as u64
                    }
                    &&& (forall|k: int| !#[trigger] differs(s, request, k)) ==> next.log == s.log
                        && in_between(s, request.term, effects, reply, none)
                    &&& forall|k: int| #[trigger]
                        differs_first(s, request, k) ==> {
                            let index = request.prev_log_index + 1 + k;
                            let kept = index - s.snapshot.last_included_index - 1;
                            &&& 0 <= kept <= s.log.len()
                            &&& next.log == s.log.take(kept) + request.entries.skip(k)
                            &&& in_between(
                                s,
                                request.term,
                                effects,
                                reply,
                                seq![
                                    EffectView::PersistLog {
                                        from_index: index as u64,
                                        entries: request.entries.skip(k),
                                    },
                                ],
                            )
                        }
                }
            }
        }),
{
    let (next, effects) = s.step(
        EventView::Step { from, message: MessageView::AppendEntries(request) },
    );
    if request.term >= s.current_term {
        let current = s.follow(request.term);
        assert(joins_on(s, request) == current.prev_log_matches(request));
        let persist = current.persist_new_term(s);
        if !joins_on(s, request) {
            assert(in_between(
                s,
                request.term,
                effects,
                append_reply(from, request.term, false, 0),
                Seq::empty(),
            )) by {
                assert(effects =~= persist + Seq::<EffectView>::empty() + seq![
                    append_reply(from, request.term, false, 0),
                ]);
            }
        } else {
            laws::lemma_merged(current, request);
            let end = (request.prev_log_index + request.entries.len()) as u64;
            let reply = append_reply(from, request.term, true, end);
            assert forall|k: int| current.diverges_at(request, k) == #[trigger] differs(
                s,
                request,
                k,
            ) && current.first_divergence(request, k) == differs_first(s, request, k) by {
                lemma_differs(current, request, k);
                assert forall|j: int| differs(current, request, j) == #[trigger] differs(
                    s,
                    request,
                    j,
                ) by {}
                if differs_first(s, request, k) {
                    assert forall|j: int| 0 <= j < k implies !#[trigger] differs(
                        current,
                        request,
                        j,
                    ) by {
                        assert(!differs(s, request, j));
                    }
                }
                if differs_first(current, request, k) {
                    assert forall|j: int| 0 <= j < k implies !#[trigger] differs(
                        s,
                        request,
                        j,
                    ) by {
                        assert(!differs(current, request, j));
                    }
                }
            }
            match current.merged(request).1 {
                Some(index) => {
                    let first = index - request.prev_log_index - 1;
                    assert(differs(s, request, first));
                    let log = next.log;
                    assert(next.entries_from(index as int) =~= request.entries.skip(first));
                    let change = EffectView::PersistLog {
                        from_index: index,
                        entries: request.entries.skip(first),
                    };
                    assert(effects =~= persist + seq![change] + seq![reply]);
                    assert forall|k: int| #[trigger] differs_first(s, request, k) implies k
                        == first by {
                        assert(differs(s, request, k));
                        if k < first {
                            assert(!differs(s, request, k));
                        }
                    }
                },
                None => {
                    assert forall|k: int| !#[trigger] differs(s, request, k) by {
                        assert(!current.diverges_at(request, k));
                    }
                    assert forall|k: int| !#[trigger] differs_first(s, request, k) by {
                        assert(!differs(s, request, k));
                    }
                    assert(effects =~= persist + Seq::<EffectView>::empty() + seq![reply]);
                    assert(effects =~= persist + seq![reply]);
                },
            }
        }
    }
}

/// The answer to a snapshot sent.
pub open spec fn snapshot_reply(to: NodeId, term: u64, last_included_index: u64) -> EffectView {
    EffectView::Send {
        to,
        message: MessageView::InstallSnapshotResponse(
            InstallSnapshotResponse { term, last_included_index },
        ),
    }
}

/// A snapshot from the leader of a term that is over is refused. Otherwise the
/// node follows, and puts the snapshot in the place of its log, unless it has
/// the point the snapshot ends at already: its log, its data, its configuration
/// and its commit index are then those of the snapshot, made durable before the
/// answer.
pub proof fn snapshots_catch_up(s: NodeState, from: NodeId, request: InstallSnapshotView)
    requires
        request.leader_id == from,
        request.last_included_index < u64::MAX,
    ensures
        ({
            let (next, effects) = s.step(
                EventView::Step { from, message: MessageView::InstallSnapshot(request) },
            );
            let index = request.last_included_index as int;
            let metadata = SnapshotMetadata {
                last_included_index: request.last_included_index,
                last_included_term: request.last_included_term,
            };
            let reply = snapshot_reply(from, request.term, request.last_included_index);
            let none = Seq::<EffectView>::empty();
            let has = index < s.snapshot.last_included_index || (index > 0 && s.snapshot
                == metadata) || (promises::held(s, index) && promises::entry(s, index).term
                == request.last_included_term);
            if request.term < s.current_term {
                next == s && effects == seq![
                    snapshot_reply(from, s.current_term, s.snapshot.last_included_index),
                ]
            } else if has {
                &&& hears_leader(s, request.term, next)
                &&& next.log == s.log && next.snapshot == s.snapshot && next.snapshot_data
                    == s.snapshot_data && next.snapshot_config == s.snapshot_config
                    && next.commit_index == s.commit_index
                &&& in_between(s, request.term, effects, reply, none)
            } else {
                &&& hears_leader(s, request.term, next)
                &&& next.log.len() == 0
                &&& next.snapshot == metadata
                &&& next.snapshot_data == request.data
                &&& next.snapshot_config == request.config
                &&& next.commit_index == if s.commit_index > request.last_included_index {
                    s.commit_index
                } else {
                    request.last_included_index
                }
                &&& promises::in_force(next, request.config)
                &&& in_between(
                    s,
                    request.term,
                    effects,
                    reply,
                    seq![
                        EffectView::PersistSnapshot {
                            last_included_index: request.last_included_index,
                            last_included_term: request.last_included_term,
                            data: request.data,
                            config: request.config,
                        },
                        EffectView::PersistLog {
                            from_index: (request.last_included_index + 1) as u64,
                            entries: Seq::empty(),
                        },
                    ],
                )
            }
        }),
{
    let (next, effects) = s.step(
        EventView::Step { from, message: MessageView::InstallSnapshot(request) },
    );
    if request.term >= s.current_term {
        let current = s.follow(request.term);
        let persist = current.persist_new_term(s);
        let reply = snapshot_reply(from, request.term, request.last_included_index);
        if current.covers(request) {
            assert(effects =~= persist + Seq::<EffectView>::empty() + seq![reply]);
            assert(effects =~= persist + seq![reply]);
        } else {
            let between = model::persist_snapshot(request);
            assert(effects =~= persist + between + seq![reply]);
            if request.term <= s.current_term {
                assert(effects =~= between + seq![reply]);
            }
        }
    }
}

/// Whether `id` is known to hold the log up to `index`: a leader holds its
/// own, of others it knows what they have acknowledged.
pub open spec fn holds_up_to(s: NodeState, id: NodeId, index: int) -> bool {
    if id == s.id {
        index <= promises::end_of(s)
    } else {
        s.match_index.contains_key(id) && index <= s.match_index[id]
    }
}

/// Whether more than half of `voters` hold the log up to `index`.
pub open spec fn most_hold(s: NodeState, voters: Seq<NodeId>, index: int) -> bool {
    voters.filter(|id: NodeId| holds_up_to(s, id, index)).len() * 2 > voters.len()
}

/// Whether a leader may commit up to `index`: more than half of the voters hold
/// it, of the outgoing ones too, and the entry there is of its own term.
pub open spec fn committable(s: NodeState, config: ClusterConfigView, index: int) -> bool {
    &&& s.commit_index < index
    &&& promises::held(s, index)
    &&& promises::entry(s, index).term == s.current_term
    &&& most_hold(s, config.voters, index)
    &&& config.old_voters matches Some(old) ==> most_hold(s, old, index)
}

/// Whether a leader's books are in order: terms never go down along its log,
/// nor beyond the current one, and no one is credited with more than there is.
pub open spec fn in_order(s: NodeState) -> bool {
    &&& forall|i: int, j: int|
        0 <= i <= j < s.log.len() ==> (#[trigger] s.log[i]).term <= (#[trigger] s.log[j]).term
            <= s.current_term
    &&& forall|id: NodeId| #[trigger]
        s.match_index.contains_key(id) ==> s.match_index[id] <= promises::end_of(s)
}

proof fn lemma_count(s: NodeState, voters: Seq<NodeId>, index: u64)
    requires
        index > 0,
        promises::end_of(s) <= u64::MAX,
    ensures
        model::count_at_least(s.progress_of(voters), index) == voters.filter(
            |id: NodeId| holds_up_to(s, id, index as int),
        ).len(),
    decreases voters.len(),
{
    reveal(Seq::filter);
    if voters.len() > 0 {
        let rest = voters.drop_last();
        assert(s.progress_of(voters).drop_last() =~= s.progress_of(rest));
        lemma_count(s, rest, index);
        assert(s.progress_of(voters).last() == s.progress(voters.last()));
    }
}

/// The least of the values at or above `floor`.
proof fn lemma_least(values: Seq<u64>, floor: u64) -> (value: u64)
    requires
        model::count_at_least(values, floor) > 0,
    ensures
        values.contains(value),
        value >= floor,
        model::count_at_least(values, value) == model::count_at_least(values, floor),
        forall|i: int| 0 <= i < values.len() && values[i] >= floor ==> values[i] >= value,
    decreases values.len(),
{
    let rest = values.drop_last();
    let last = values.last();
    assert(values[values.len() - 1] == last);
    if model::count_at_least(rest, floor) == 0 {
        lemma_none(rest, floor);
        assert forall|j: int| 0 <= j < values.len() && values[j] >= floor implies values[j]
            >= last by {
            if j < rest.len() {
                assert(rest[j] == values[j]);
            }
        }
        lemma_same_count(values, floor, last);
        last
    } else {
        let before = lemma_least(rest, floor);
        let i = choose|i: int| 0 <= i < rest.len() && rest[i] == before;
        assert(values[i] == before);
        let value = if last >= floor && last < before {
            last
        } else {
            before
        };
        assert forall|j: int| 0 <= j < values.len() && values[j] >= floor implies values[j]
            >= value by {
            if j < rest.len() {
                assert(rest[j] == values[j]);
            }
        }
        lemma_same_count(values, floor, value);
        value
    }
}

proof fn lemma_none(values: Seq<u64>, floor: u64)
    requires
        model::count_at_least(values, floor) == 0,
    ensures
        forall|i: int| 0 <= i < values.len() ==> values[i] < floor,
    decreases values.len(),
{
    if values.len() > 0 {
        let rest = values.drop_last();
        lemma_none(rest, floor);
        assert forall|i: int| 0 <= i < values.len() implies values[i] < floor by {
            if i < rest.len() {
                assert(rest[i] == values[i]);
            }
        }
    }
}

proof fn lemma_same_count(values: Seq<u64>, low: u64, high: u64)
    requires
        low <= high,
        forall|i: int| 0 <= i < values.len() && values[i] >= low ==> values[i] >= high,
    ensures
        model::count_at_least(values, low) == model::count_at_least(values, high),
    decreases values.len(),
{
    if values.len() > 0 {
        let rest = values.drop_last();
        assert forall|i: int| 0 <= i < rest.len() && rest[i] >= low implies rest[i] >= high by {
            assert(rest[i] == values[i]);
        }
        lemma_same_count(rest, low, high);
        assert(values[values.len() - 1] == values.last());
    }
}

/// The value a majority has reached is the highest such number.
proof fn lemma_highest(s: NodeState, voters: Seq<NodeId>, index: u64)
    requires
        voters.len() > 0,
        index > 0,
        promises::end_of(s) <= u64::MAX,
    ensures
        most_hold(s, voters, index as int) == (index <= model::majority_value(
            s.progress_of(voters),
        )),
{
    let values = s.progress_of(voters);
    let best = model::majority_value(values);
    laws::lemma_majority_value_exists(values);
    lemma_count(s, voters, index);
    assert(model::majority_reached(values, best));
    if most_hold(s, voters, index as int) {
        let value = lemma_least(values, index);
        assert(model::majority_reached(values, value));
    }
    if index <= best {
        model::lemma_count_at_least_antitone(values, index, best);
    }
}

/// A leader commits what more than half hold, once an entry of its own term is
/// among it, and nothing else: the commit index stays, or moves to where it may
/// move to, and where its books are in order it moves as far as it may.
pub proof fn most_voters_commit(s: NodeState, config: ClusterConfigView)
    requires
        s.wf(),
        promises::in_force(s, config),
        config.voters.len() > 0,
        config.old_voters matches Some(old) ==> old.len() > 0,
    ensures
        ({
            let next = s.commit_replicated();
            &&& next == (NodeState { commit_index: next.commit_index, ..s })
            &&& next.commit_index == s.commit_index || committable(
                s,
                config,
                next.commit_index as int,
            )
            &&& in_order(s) ==> forall|index: int| #[trigger]
                committable(s, config, index) ==> index <= next.commit_index
        }),
{
    promises::last_configuration_is_in_force(s, config);
    let next = s.commit_replicated();
    let candidate = s.replicated_index();
    if next.commit_index != s.commit_index {
        lemma_highest(s, config.voters, candidate);
        if let Some(old) = config.old_voters {
            lemma_highest(s, old, candidate);
        }
    }
    if in_order(s) {
        assert forall|index: int| #[trigger] committable(s, config, index) implies index
            <= next.commit_index by {
            lemma_highest(s, config.voters, index as u64);
            if let Some(old) = config.old_voters {
                lemma_highest(s, old, index as u64);
            }
            assert(index <= candidate);
            lemma_within(s, config.voters);
            let i = index - s.snapshot.last_included_index - 1;
            let j = candidate - s.snapshot.last_included_index - 1;
            assert(s.log[i].term <= s.log[j].term <= s.current_term);
        }
    }
}

/// Where no one is credited with more than there is, what most hold is within
/// the log.
proof fn lemma_within(s: NodeState, voters: Seq<NodeId>)
    requires
        s.wf(),
        in_order(s),
        voters.len() > 0,
    ensures
        model::majority_value(s.progress_of(voters)) <= promises::end_of(s),
{
    let values = s.progress_of(voters);
    laws::lemma_majority_value_exists(values);
    let i = choose|i: int| 0 <= i < values.len() && values[i] == model::majority_value(values);
    assert(values[i] == s.progress(voters[i]));
}

/// Whether a leader has moved its commit index as far as it may, ended the
/// transition it is in if that is then committed, and retired if the committed
/// configuration leaves it out.
pub open spec fn moves_on(
    s: NodeState,
    config: ClusterConfigView,
    next: NodeState,
    effects: Seq<EffectView>,
) -> bool {
    let committed = s.commit_replicated();
    let ends = config.old_voters is Some && committed.commit_index >= s.config_index();
    let last = LogEntryView {
        term: s.current_term,
        payload: LogPayloadView::Configuration(
            ClusterConfigView { voters: config.voters, old_voters: None },
        ),
    };
    let settled = NodeState { log: s.log.push(last), ..committed }.commit_replicated();
    let left_out = !config.voters.contains(s.id) && if ends {
        settled.commit_index >= promises::end_of(s) + 1
    } else {
        config.old_voters is None && committed.commit_index >= s.config_index()
    };
    &&& next.log == if ends {
        s.log.push(last)
    } else {
        s.log
    }
    &&& next.commit_index == if ends {
        settled.commit_index
    } else {
        committed.commit_index
    }
    &&& effects == if ends {
        seq![
            EffectView::PersistLog {
                from_index: (promises::end_of(s) + 1) as u64,
                entries: seq![last],
            },
        ]
    } else {
        Seq::empty()
    }
    &&& next == if left_out {
        NodeState {
            role: Role::Follower,
            votes_granted: Set::empty(),
            next_index: Map::empty(),
            match_index: Map::empty(),
            log: next.log,
            commit_index: next.commit_index,
            ..s
        }
    } else {
        NodeState { log: next.log, commit_index: next.commit_index, ..s }
    }
}

/// A leader that hears more of the log acknowledged moves on.
pub proof fn acknowledged_leaders_move_on(s: NodeState, config: ClusterConfigView)
    requires
        s.wf(),
        promises::in_force(s, config),
        config.voters.len() > 0,
        config.old_voters matches Some(old) ==> old.len() > 0,
        promises::end_of(s) < u64::MAX,
    ensures
        moves_on(s, config, s.advance_commit().0, s.advance_commit().1),
{
    promises::last_configuration_is_in_force(s, config);
    most_voters_commit(s, config);
    let committed = s.commit_replicated();
    promises::last_configuration_is_in_force(committed, config);
    let settled = committed.append(LogPayloadView::Configuration(committed.settled_config()));
    model::lemma_latest_push(committed.log, settled.log.last());
    promises::last_configuration_is_in_force(settled, committed.settled_config());
    if committed.transition_committed() {
        most_voters_commit(settled, committed.settled_config());
        let next = settled.commit_replicated();
        promises::last_configuration_is_in_force(next, committed.settled_config());
    }
}

/// A follower's success counts as far as it goes, and is never taken back; the
/// leader moves on, and sends on where the follower is behind. A refusal makes
/// the leader try one entry earlier, at once. A later term makes it a follower,
/// and anything else changes nothing.
pub proof fn answers_move_the_leader(
    s: NodeState,
    config: ClusterConfigView,
    from: NodeId,
    response: AppendEntriesResponse,
)
    requires
        s.wf(),
        promises::in_force(s, config),
        s.can_step(
            EventView::Step { from, message: MessageView::AppendEntriesResponse(response) },
        ),
        promises::end_of(s) < u64::MAX,
        s.next_index.contains_key(from) ==> s.next_index[from] <= promises::end_of(s) + 1,
    ensures
        ({
            let (next, effects) = s.step(
                EventView::Step { from, message: MessageView::AppendEntriesResponse(response) },
            );
            if !promises::listens_to(s, config, from) || response.term < s.current_term {
                next == s && effects.len() == 0
            } else if response.term > s.current_term {
                promises::follows_term(s, response.term, next, effects)
            } else if s.role != Role::Leader {
                next == s && effects.len() == 0
            } else if response.success {
                counts_and_sends(s, config, from, response.match_index, next, effects)
            } else {
                let earlier: u64 = if s.next_index[from] > 1 {
                    (s.next_index[from] - 1) as u64
                } else {
                    1
                };
                &&& next == (NodeState { next_index: s.next_index.insert(from, earlier), ..s })
                &&& sends_on(next, from, effects)
            }
        }),
{
    promises::last_configuration_is_in_force(s, config);
    if promises::listens_to(s, config, from) && response.term == s.current_term && s.role
        == Role::Leader {
        if response.success {
            lemma_acknowledged(s, config, from, response.match_index);
        } else {
            let next = s.back_off(from);
            if next.next_index[from] <= promises::end_of(next) {
                promises::replication_brings_up_to_date(next, from);
            }
        }
    }
}

/// Whether effects are one message that brings `peer` up to date, or none if
/// its log is known to go as far.
pub open spec fn sends_on(s: NodeState, peer: NodeId, effects: Seq<EffectView>) -> bool {
    if s.role == Role::Leader && s.next_index[peer] <= promises::end_of(s) {
        effects.len() == 1 && (effects[0] matches EffectView::Send { to, message } && to == peer
            && promises::brings_up_to_date(s, s.next_index[peer], message))
    } else {
        effects.len() == 0
    }
}

/// A leader that knows that `peer` holds the log up to `index`, or further.
pub open spec fn counted(s: NodeState, peer: NodeId, index: u64) -> NodeState {
    let reached = if s.match_index[peer] > index {
        s.match_index[peer]
    } else {
        index
    };
    NodeState {
        match_index: s.match_index.insert(peer, reached),
        next_index: s.next_index.insert(peer, (reached + 1) as u64),
        ..s
    }
}

/// Whether a leader has counted that `peer` holds the log up to `index`, or
/// further if it knew so, has moved on, and sends on from there.
pub open spec fn counts_and_sends(
    s: NodeState,
    config: ClusterConfigView,
    peer: NodeId,
    index: u64,
    next: NodeState,
    effects: Seq<EffectView>,
) -> bool {
    exists|n: int|
        0 <= n <= effects.len() && #[trigger] moves_on(
            counted(s, peer, index),
            config,
            next,
            effects.take(n),
        ) && sends_on(next, peer, effects.skip(n))
}

proof fn lemma_acknowledged(s: NodeState, config: ClusterConfigView, peer: NodeId, index: u64)
    requires
        s.wf(),
        promises::in_force(s, config),
        s.can_acknowledge(peer, index),
        promises::end_of(s) < u64::MAX,
    ensures
        counts_and_sends(
            s,
            config,
            peer,
            index,
            s.on_acknowledged(peer, index).0,
            s.on_acknowledged(peer, index).1,
        ),
{
    promises::last_configuration_is_in_force(s, config);
    let known = s.acknowledge(peer, index);
    assert(known == counted(s, peer, index));
    promises::last_configuration_is_in_force(known, config);
    assert(known.match_index.dom() =~= s.match_index.dom().insert(peer));
    assert(known.next_index.dom() =~= s.next_index.dom().insert(peer));
    acknowledged_leaders_move_on(known, config);
    let (next, persist) = known.advance_commit();
    let retry = next.retry(peer);
    let effects = persist + retry;
    let n = persist.len() as int;
    assert(effects.take(n) =~= persist);
    assert(effects.skip(n) =~= retry);
    if next.role == Role::Leader && next.next_index[peer] <= promises::end_of(next) {
        promises::replication_brings_up_to_date(next, peer);
    }
    assert(moves_on(known, config, next, effects.take(n)));
}

/// A snapshot that has arrived counts like entries that have.
pub proof fn snapshot_answers_move_the_leader(
    s: NodeState,
    config: ClusterConfigView,
    from: NodeId,
    response: InstallSnapshotResponse,
)
    requires
        s.wf(),
        promises::in_force(s, config),
        s.can_step(
            EventView::Step { from, message: MessageView::InstallSnapshotResponse(response) },
        ),
        promises::end_of(s) < u64::MAX,
    ensures
        ({
            let (next, effects) = s.step(
                EventView::Step { from, message: MessageView::InstallSnapshotResponse(response) },
            );
            if !promises::listens_to(s, config, from) || response.term < s.current_term {
                next == s && effects.len() == 0
            } else if response.term > s.current_term {
                promises::follows_term(s, response.term, next, effects)
            } else if s.role != Role::Leader {
                next == s && effects.len() == 0
            } else {
                counts_and_sends(s, config, from, response.last_included_index, next, effects)
            }
        }),
{
    promises::last_configuration_is_in_force(s, config);
    if promises::listens_to(s, config, from) && response.term == s.current_term && s.role
        == Role::Leader {
        lemma_acknowledged(s, config, from, response.last_included_index);
    }
}

/// A leader puts what is proposed behind its log, in its own term, makes it
/// durable, and moves on: where its own log is enough, that commits it.
pub proof fn proposals_go_behind_the_log(
    s: NodeState,
    config: ClusterConfigView,
    payload: LogPayloadView,
)
    requires
        s.wf(),
        s.can_append_and_advance(payload),
        promises::end_of(s) + 1 < u64::MAX,
        promises::in_force(s, config),
    ensures
        ({
            let (next, effects) = s.append_and_advance(payload);
            let last = LogEntryView { term: s.current_term, payload };
            let grown = NodeState { log: s.log.push(last), ..s };
            let then = match payload {
                LogPayloadView::Configuration(given) => given,
                LogPayloadView::Command(_) => config,
            };
            &&& effects.len() > 0
            &&& effects[0] == (EffectView::PersistLog {
                from_index: (promises::end_of(s) + 1) as u64,
                entries: seq![last],
            })
            &&& moves_on(grown, then, next, effects.skip(1))
            &&& next.log.len() > s.log.len()
            &&& next.log[s.log.len() as int] == last
            &&& forall|i: int| 0 <= i < s.log.len() ==> (#[trigger] next.log[i]) == s.log[i]
        }),
{
    promises::last_configuration_is_in_force(s, config);
    let grown = s.append(payload);
    model::lemma_latest_push(s.log, grown.log.last());
    promises::last_configuration_is_in_force(grown, grown.config());
    acknowledged_leaders_move_on(grown, grown.config());
    let (next, effects) = s.append_and_advance(payload);
    assert(effects.skip(1) =~= grown.advance_commit().1);
    assert(effects[0] == grown.persist_last());
}

/// Whether a list is of these learners, in ascending order.
pub open spec fn lists(learners: Set<NodeId>, list: Seq<NodeId>) -> bool {
    &&& forall|id: NodeId| list.contains(id) == #[trigger] learners.contains(id)
    &&& forall|i: int, j: int|
        0 <= i < j < list.len() ==> (#[trigger] list[i]).0 < (#[trigger] list[j]).0
}

proof fn lemma_lists(learners: Set<NodeId>)
    requires
        learners.finite(),
    ensures
        lists(learners, ids::sorted_ids(learners)),
{
    ids::lemma_sorted_exists(learners);
    let list = ids::sorted_ids(learners);
    assert forall|id: NodeId| list.contains(id) == #[trigger] learners.contains(id) by {
        assert(list.to_set().contains(id) == list.contains(id));
    }
}

/// A change of voters begins a transition at once, in which the voters so far
/// have a say beside the new ones. Learners that become voters are learners no
/// more, and the rest of them are made durable where that changes them.
pub proof fn changing_voters_begins_a_transition(
    s: NodeState,
    config: ClusterConfigView,
    new_voters: Seq<NodeId>,
)
    requires
        s.wf(),
        s.can_change_config(new_voters),
        promises::end_of(s) + 1 < u64::MAX,
        promises::in_force(s, config),
        new_voters.len() > 0,
    ensures
        ({
            let (next, effects) = s.change_config(new_voters);
            let joint = ClusterConfigView { voters: new_voters, old_voters: Some(config.voters) };
            let last = LogEntryView {
                term: s.current_term,
                payload: LogPayloadView::Configuration(joint),
            };
            let promotes = exists|id: NodeId|
                new_voters.contains(id) && #[trigger] s.learners.contains(id);
            let n: int = if promotes {
                1
            } else {
                0
            };
            let kept = NodeState { learners: next.learners, ..s };
            &&& forall|id: NodeId|
                next.learners.contains(id) == (s.learners.contains(id)
                    && !#[trigger] new_voters.contains(id))
            &&& effects.len() > n
            &&& promotes ==> (effects[0] matches EffectView::PersistLearners { learners } && lists(
                next.learners,
                learners,
            ))
            &&& effects[n] == (EffectView::PersistLog {
                from_index: (promises::end_of(s) + 1) as u64,
                entries: seq![last],
            })
            &&& moves_on(
                NodeState { log: s.log.push(last), ..kept },
                joint,
                next,
                effects.skip(n + 1),
            )
        }),
{
    promises::last_configuration_is_in_force(s, config);
    let kept = s.without_promoted(new_voters);
    promises::last_configuration_is_in_force(kept, config);
    let joint = s.joint_config(new_voters);
    let payload = LogPayloadView::Configuration(joint);
    laws::lemma_can_change(s, kept, payload);
    let (next, more) = kept.append_and_advance(payload);
    let effects = s.change_config(new_voters).1;
    proposals_go_behind_the_log(kept, config, payload);
    let grown = kept.append(payload);
    assert(next.learners == kept.learners);
    assert(kept.learners.finite());
    lemma_lists(kept.learners);
    if kept.learners == s.learners {
        assert(effects =~= more);
        assert forall|id: NodeId| new_voters.contains(id) implies !#[trigger] s.learners.contains(
            id,
        ) by {
            assert(new_voters.to_set().contains(id));
            assert(!kept.learners.contains(id));
        }
    } else {
        assert(exists|id: NodeId| new_voters.contains(id) && #[trigger] s.learners.contains(id))
            by {
            if forall|id: NodeId| new_voters.contains(id) ==> !#[trigger] s.learners.contains(id) {
                assert(kept.learners =~= s.learners);
            }
        }
        assert(effects.skip(2) =~= more.skip(1));
        assert(effects[1] == more[0]);
    }
}

/// A leader takes on a learner that is neither one already nor a voter: it
/// replicates to it from its own end on, and the learners are made durable. A
/// learner dismissed is replicated to no more.
pub proof fn learners_come_and_go(s: NodeState, config: ClusterConfigView, id: NodeId)
    requires
        s.wf(),
        promises::in_force(s, config),
        promises::end_of(s) < u64::MAX,
    ensures
        s.takes_learner(id) == (s.role == Role::Leader && !s.learners.contains(id)
            && !promises::votes_in(config, id)),
        ({
            let next = s.add_learner(id);
            &&& next.learners == s.learners.insert(id)
            &&& next.next_index.contains_key(id) && next.match_index.contains_key(id)
            &&& !s.next_index.contains_key(id) ==> next.next_index[id] == promises::end_of(s) + 1
            &&& !s.match_index.contains_key(id) ==> next.match_index[id] == 0
            &&& s.next_index.contains_key(id) ==> next.next_index == s.next_index
            &&& s.match_index.contains_key(id) ==> next.match_index == s.match_index
            &&& next.next_index.remove(id) == s.next_index.remove(id)
            &&& next.match_index.remove(id) == s.match_index.remove(id)
            &&& next == (NodeState {
                learners: next.learners,
                next_index: next.next_index,
                match_index: next.match_index,
                ..s
            })
            &&& next.persist_learners() matches EffectView::PersistLearners { learners } && lists(
                next.learners,
                learners,
            )
        }),
        ({
            let next = s.remove_learner(id);
            &&& next == (NodeState { learners: s.learners.remove(id), ..s })
            &&& next.persist_learners() matches EffectView::PersistLearners { learners } && lists(
                next.learners,
                learners,
            )
        }),
{
    promises::last_configuration_is_in_force(s, config);
    lemma_lists(s.add_learner(id).learners);
    lemma_lists(s.remove_learner(id).learners);
    let next = s.add_learner(id);
    assert(next.next_index.remove(id) =~= s.next_index.remove(id));
    assert(next.match_index.remove(id) =~= s.match_index.remove(id));
}

/// Compaction leaves to the snapshot everything up to a point, with the term
/// of the entry there and the configuration as it was there; what is behind it
/// stays in the log, entry for entry, and nothing else changes. The snapshot is
/// made durable first, then the log above it.
pub proof fn compaction_stops_at_its_point(
    s: NodeState,
    before: NodeState,
    config: ClusterConfigView,
    up_to: int,
    data: Seq<u8>,
    index: int,
)
    requires
        s.snapshot.last_included_index < up_to <= promises::end_of(s),
        promises::end_of(s) <= u64::MAX,
        before == (NodeState { log: s.log.take(up_to - s.snapshot.last_included_index), ..s }),
        promises::in_force(before, config),
    ensures
        ({
            let next = s.compact(up_to, data);
            &&& next.snapshot == (SnapshotMetadata {
                last_included_index: up_to as u64,
                last_included_term: promises::entry(s, up_to).term,
            })
            &&& next.snapshot_data == data
            &&& next.snapshot_config == config
            &&& promises::end_of(next) == promises::end_of(s)
            &&& up_to < index <= promises::end_of(s) ==> promises::held(next, index)
                && promises::entry(next, index) == promises::entry(s, index)
            &&& index <= up_to ==> !promises::held(next, index)
            &&& next == (NodeState {
                log: next.log,
                snapshot: next.snapshot,
                snapshot_data: next.snapshot_data,
                snapshot_config: next.snapshot_config,
                ..s
            })
            &&& next.persist_compacted() == seq![
                EffectView::PersistSnapshot {
                    last_included_index: up_to as u64,
                    last_included_term: promises::entry(s, up_to).term,
                    data,
                    config,
                },
                EffectView::PersistLog { from_index: (up_to + 1) as u64, entries: next.log },
            ]
        }),
{
    promises::last_configuration_is_in_force(before, config);
}

/// A node starts as a follower that has heard from no one for long enough to
/// vote, with what it had made durable; what its snapshot covers is committed.
pub proof fn nodes_start_as_followers(
    id: NodeId,
    election_timeout: u64,
    heartbeat_interval: u64,
    hard_state: HardState,
    log: Seq<LogEntryView>,
    snapshot: SnapshotMetadata,
    data: Seq<u8>,
    config: ClusterConfigView,
    learners: Set<NodeId>,
)
    ensures
        ({
            let s = Node::initial(
                id,
                election_timeout,
                heartbeat_interval,
                hard_state,
                log,
                snapshot,
                data,
                config,
                learners,
            );
            &&& s.id == id && s.role == Role::Follower
            &&& s.current_term == hard_state.current_term && s.voted_for == hard_state.voted_for
            &&& s.election_elapsed == 0 && s.election_timeout == election_timeout
            &&& s.heartbeat_interval == heartbeat_interval && s.heartbeat_elapsed == 0
            &&& s.leader_contact_elapsed >= heartbeat_interval
            &&& s.leader_contact_elapsed == heartbeat_interval
            &&& s.votes_granted == Set::<NodeId>::empty()
            &&& s.log == log && s.snapshot == snapshot && s.snapshot_data == data
                && s.snapshot_config == config && s.learners == learners
            &&& s.commit_index == snapshot.last_included_index
            &&& s.next_index == Map::<NodeId, u64>::empty() && s.match_index == Map::<
                NodeId,
                u64,
            >::empty()
        }),
{
}

/// A node that restarts has the configuration of its snapshot, if there is one,
/// and else the members it was told of.
pub proof fn restarts_go_by_the_snapshot(peers: Seq<NodeId>, snapshot: Snapshot)
    ensures
        snapshot.metadata.last_included_index > 0 ==> Node::base_config(peers, snapshot)
            == snapshot.config.deep_view(),
        snapshot.metadata.last_included_index == 0 ==> Node::base_config(peers, snapshot).voters
            == peers && Node::base_config(peers, snapshot).old_voters is None,
{
}

/// A configuration is refused exactly if it names no member, does not name its
/// members in ascending order and once each, leaves out the node itself, or has
/// an election timeout or heartbeat interval of zero, or heartbeats rarer than
/// elections. The first reason in this order is the one given.
pub proof fn configurations_are_refused_for_a_reason(
    id: NodeId,
    peers: Seq<NodeId>,
    election_timeout: u64,
    heartbeat_interval: u64,
)
    ensures
        ({
            let sorted = forall|i: int, j: int|
                0 <= i < j < peers.len() ==> (#[trigger] peers[i]).0 < (#[trigger] peers[j]).0;
            let timing = Node::timing_error(election_timeout, heartbeat_interval);
            &&& (timing is None) == (0 < heartbeat_interval <= election_timeout)
            &&& election_timeout == 0 ==> timing == Some(ConfigError::ZeroElectionTimeout)
            &&& election_timeout > 0 && heartbeat_interval == 0 ==> timing == Some(
                ConfigError::ZeroHeartbeatInterval,
            )
            &&& 0 < election_timeout < heartbeat_interval ==> timing == Some(
                ConfigError::HeartbeatIntervalExceedsElectionTimeout,
            )
            &&& Node::config_error(id, peers, election_timeout, heartbeat_interval)
                == if peers.len() == 0 {
                Some(ConfigError::EmptyConfiguration)
            } else if !sorted {
                Some(ConfigError::MembersNotStrictlyOrdered)
            } else if forall|i: int| 0 <= i < peers.len() ==> peers[i] != id {
                Some(ConfigError::LocalNodeMissing)
            } else {
                timing
            }
        }),
{
}

} // verus!
