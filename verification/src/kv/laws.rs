//! What a replica that starts from a snapshot holds.

use vstd::prelude::*;

use crate::kv::command;
use crate::kv::command::CommandView;
use crate::kv::replica::ReplicaState;
use crate::kv::state_machine;
use crate::raft::model::NodeState;
use crate::raft::types::{LogEntryView, LogPayloadView};

verus! {

/// A store's contents.
pub type Entries = Map<Seq<u8>, Seq<u8>>;

/// The command an entry holds, if it holds one.
pub open spec fn command_in(entry: Option<LogEntryView>) -> Option<CommandView> {
    match entry {
        Some(entry) => match entry.payload {
            LogPayloadView::Command(bytes) => match command::decoded(bytes) {
                Ok(c) => Some(c),
                Err(_) => None,
            },
            LogPayloadView::Configuration(_) => None,
        },
        None => None,
    }
}

/// What the entry at `index` leaves of a store.
pub open spec fn applied_at(entries: Entries, s: NodeState, index: int) -> Entries {
    match command_in(s.entry_at(index)) {
        Some(c) => state_machine::after(entries, c),
        None => entries,
    }
}

/// What the entries behind `from`, up to `to`, leave of a store.
pub open spec fn replayed(entries: Entries, s: NodeState, from: int, to: int) -> Entries
    decreases to - from,
{
    if from >= to {
        entries
    } else {
        replayed(applied_at(entries, s, from + 1), s, from + 1, to)
    }
}

/// Whether the node still holds every entry it has committed behind `from`.
pub open spec fn holds_commits(s: NodeState, from: int) -> bool {
    forall|index: int| from < index <= s.commit_index ==> (#[trigger] s.entry_at(index)) is Some
}

/// Draining replays the entries committed.
proof fn lemma_drained(r: ReplicaState)
    requires
        r.store.last_applied <= r.node.commit_index,
        holds_commits(r.node, r.store.last_applied as int),
    ensures
        r.drained().node == r.node,
        r.drained().store.last_applied == r.node.commit_index,
        r.drained().store.entries == replayed(
            r.store.entries,
            r.node,
            r.store.last_applied as int,
            r.node.commit_index as int,
        ),
    decreases r.node.commit_index - r.store.last_applied,
{
    if r.store.last_applied < r.node.commit_index {
        let entry = r.node.entry_at(r.store.last_applied + 1);
        assert(entry is Some);
        lemma_drained(r.apply_entry(entry->0));
    }
}

/// Whether some entry behind `from`, up to `to`, writes under `key`.
pub open spec fn writes(s: NodeState, from: int, to: int, key: Seq<u8>) -> bool {
    exists|index: int|
        from < index <= to && writes_key(#[trigger] command_in(s.entry_at(index)), key)
}

pub open spec fn writes_key(c: Option<CommandView>, key: Seq<u8>) -> bool {
    match c {
        Some(CommandView::Put { key: written, .. }) => written == key,
        Some(CommandView::Delete { key: written }) => written == key,
        _ => false,
    }
}

/// What is not written stays as it is.
proof fn lemma_unwritten(entries: Entries, s: NodeState, from: int, to: int, key: Seq<u8>)
    requires
        !writes(s, from, to, key),
    ensures
        state_machine::lookup(replayed(entries, s, from, to), key) == state_machine::lookup(
            entries,
            key,
        ),
    decreases to - from,
{
    if from < to {
        assert(!writes_key(command_in(s.entry_at(from + 1)), key));
        assert(!writes(s, from + 1, to, key)) by {
            assert forall|index: int| from + 1 < index <= to implies !writes_key(
                #[trigger] command_in(s.entry_at(index)),
                key,
            ) by {}
        }
        lemma_unwritten(applied_at(entries, s, from + 1), s, from + 1, to, key);
    }
}

/// Stores that hold the same under a key, or under which it is written, hold
/// the same under it after the entries.
proof fn lemma_converges(a: Entries, b: Entries, s: NodeState, from: int, to: int, key: Seq<u8>)
    requires
        state_machine::lookup(a, key) == state_machine::lookup(b, key) || writes(s, from, to, key),
    ensures
        state_machine::lookup(replayed(a, s, from, to), key) == state_machine::lookup(
            replayed(b, s, from, to),
            key,
        ),
    decreases to - from,
{
    if from < to {
        let c = command_in(s.entry_at(from + 1));
        if !writes_key(c, key) && writes(s, from, to, key) {
            let index = choose|index: int|
                from < index <= to && writes_key(#[trigger] command_in(s.entry_at(index)), key);
            assert(index != from + 1);
            assert(writes(s, from + 1, to, key));
        }
        lemma_converges(
            applied_at(a, s, from + 1),
            applied_at(b, s, from + 1),
            s,
            from + 1,
            to,
            key,
        );
    }
}

/// Replaying the same entries again changes nothing.
pub proof fn replaying_again_changes_nothing(entries: Entries, s: NodeState, from: int, to: int)
    ensures
        replayed(replayed(entries, s, from, to), s, from, to) == replayed(entries, s, from, to),
{
    let once = replayed(entries, s, from, to);
    let twice = replayed(once, s, from, to);
    assert forall|key: Seq<u8>|
        state_machine::lookup(twice, key) == #[trigger] state_machine::lookup(once, key) by {
        if !writes(s, from, to, key) {
            lemma_unwritten(entries, s, from, to, key);
        }
        lemma_converges(once, entries, s, from, to, key);
    }
    assert forall|key: Seq<u8>| twice.contains_key(key) == #[trigger] once.contains_key(key) && (
    once.contains_key(key) ==> twice[key] == once[key]) by {
        assert(state_machine::lookup(twice, key) == state_machine::lookup(once, key));
    }
    assert(twice =~= once);
}

/// Nodes that hold the same entries leave the same of a store.
proof fn lemma_same_entries(entries: Entries, s: NodeState, t: NodeState, from: int, to: int)
    requires
        forall|index: int| from < index <= to ==> #[trigger] s.entry_at(index) == t.entry_at(index),
    ensures
        replayed(entries, s, from, to) == replayed(entries, t, from, to),
    decreases to - from,
{
    if from < to {
        assert(s.entry_at(from + 1) == t.entry_at(from + 1));
        lemma_same_entries(applied_at(entries, s, from + 1), s, t, from + 1, to);
    }
}

/// Entries leave a finite store finite.
proof fn lemma_finite(entries: Entries, s: NodeState, from: int, to: int)
    requires
        entries.dom().finite(),
    ensures
        replayed(entries, s, from, to).dom().finite(),
    decreases to - from,
{
    if from < to {
        let next = applied_at(entries, s, from + 1);
        match command_in(s.entry_at(from + 1)) {
            Some(CommandView::Put { key, value }) => {
                assert(next.dom() =~= entries.dom().insert(key));
            },
            Some(CommandView::Delete { key }) => {
                assert(next.dom() =~= entries.dom().remove(key));
            },
            _ => {},
        }
        lemma_finite(next, s, from + 1, to);
    }
}

/// The snapshot of a compaction is of the store that was compacted.
pub proof fn lemma_stored(r: ReplicaState, retain: u64)
    requires
        r.store.last_applied <= r.node.commit_index,
        holds_commits(r.node, r.store.last_applied as int),
        r.store.entries.dom().finite(),
        state_machine::entries_fit(r.drained().store.entries),
        r.drained().compacts(retain),
    ensures
        state_machine::restored(r.drained().compacted(retain).node.snapshot_data) == Some(
            r.drained().store.entries,
        ),
{
    lemma_drained(r);
    lemma_finite(
        r.store.entries,
        r.node,
        r.store.last_applied as int,
        r.node.commit_index as int,
    );
    state_machine::snapshot_reads_back(r.drained().store.entries);
}

/// A replica that starts from a compaction and applies what is behind it holds
/// what the replica held that was compacted, though the snapshot was taken of
/// a store further on than the point it stands for. `r` is the replica when it
/// was at that point.
pub proof fn compaction_loses_nothing(r: ReplicaState, retain: u64)
    requires
        r.store.last_applied <= r.node.commit_index,
        holds_commits(r.node, r.store.last_applied as int),
        retain == r.node.commit_index - r.store.last_applied,
        r.drained().compacts(retain),
        r.store.entries.dom().finite(),
        state_machine::entries_fit(r.drained().store.entries),
    ensures
        ReplicaState::fresh(r.drained().compacted(retain).node).caught_up().store
            == r.drained().store,
{
    let a = r.drained();
    let from = r.store.last_applied as int;
    let to = r.node.commit_index as int;
    lemma_drained(r);
    lemma_finite(r.store.entries, r.node, from, to);
    let node = a.compacted(retain).node;
    assert(node.boundary() == from);
    state_machine::snapshot_reads_back(a.store.entries);
    let b = ReplicaState::fresh(node).restored();
    assert(b.store.entries == a.store.entries);
    assert forall|index: int| from < index <= to implies #[trigger] node.entry_at(index)
        == r.node.entry_at(index) by {
        assert(r.node.entry_at(index) is Some);
    }
    assert(holds_commits(node, from)) by {
        assert forall|index: int| from < index <= node.commit_index implies (
        #[trigger] node.entry_at(index)) is Some by {
            assert(r.node.entry_at(index) is Some);
        }
    }
    lemma_drained(b);
    lemma_same_entries(a.store.entries, node, r.node, from, to);
    replaying_again_changes_nothing(r.store.entries, r.node, from, to);
}

} // verus!
