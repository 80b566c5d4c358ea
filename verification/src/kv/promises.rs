//! What the store promises its clients, said of keys, values and bytes.

use vstd::prelude::*;

use crate::kv::codec;
use crate::kv::command;
use crate::kv::command::{CommandView, DecodeError};
use crate::kv::laws;
use crate::kv::laws::Entries;
use crate::kv::order;
use crate::kv::replica;
use crate::kv::replica::ReplicaState;
use crate::kv::state_machine;
use crate::kv::state_machine::{ApplyResultView, StoreState};
use crate::raft::promises;
use crate::raft::types::{EventView, InstallSnapshotView, LogPayloadView, MessageView, NodeId};

verus! {

/// The value under `key`, if there is one.
pub open spec fn value_under(entries: Entries, key: Seq<u8>) -> Option<Seq<u8>> {
    if entries.dom().contains(key) {
        Some(entries[key])
    } else {
        None
    }
}

/// A value that is put is what is read, whole, until it is put anew or deleted;
/// a key that is deleted holds nothing; reading changes nothing, and no other
/// key is touched. Everyone learns what was there before.
pub proof fn reads_see_the_last_write(
    entries: Entries,
    key: Seq<u8>,
    value: Seq<u8>,
    other: Seq<u8>,
)
    ensures
        ({
            let put = CommandView::Put { key, value };
            let delete = CommandView::Delete { key };
            let get = CommandView::Get { key };
            let elsewhere = CommandView::Get { key: other };
            let kept = state_machine::after(entries, put);
            let gone = state_machine::after(entries, delete);
            &&& value_under(kept, key) == Some(value)
            &&& state_machine::report(kept, get) == (ApplyResultView::Get { value: Some(value) })
            &&& other != key ==> value_under(kept, other) == value_under(entries, other)
            &&& value_under(gone, key) is None
            &&& state_machine::report(gone, get) == (ApplyResultView::Get { value: None })
            &&& other != key ==> value_under(gone, other) == value_under(entries, other)
            &&& state_machine::after(entries, get) == entries
            &&& state_machine::report(entries, put) == (ApplyResultView::Put {
                previous: value_under(entries, key),
            })
            &&& state_machine::report(entries, delete) == (ApplyResultView::Delete {
                previous: value_under(entries, key),
            })
            &&& state_machine::report(entries, get) == (ApplyResultView::Get {
                value: value_under(entries, key),
            })
            &&& other != key ==> state_machine::report(kept, elsewhere) == state_machine::report(
                entries,
                elsewhere,
            ) && state_machine::report(gone, elsewhere) == state_machine::report(
                entries,
                elsewhere,
            )
            &&& state_machine::lookup(entries, key) == value_under(entries, key)
        }),
{
}

/// Whether the length of every key and value fits in four bytes.
pub open spec fn lengths_fit(entries: Entries) -> bool {
    forall|key: Seq<u8>| #[trigger]
        entries.dom().contains(key) ==> key.len() <= 0xffff_ffff && entries[key].len()
            <= 0xffff_ffff
}

proof fn lemma_lengths(entries: Entries)
    requires
        lengths_fit(entries),
    ensures
        state_machine::entries_fit(entries),
{
    assert forall|key: Seq<u8>| #[trigger] entries.contains_key(key) implies key.len()
        < 0x1_0000_0000 && entries[key].len() < 0x1_0000_0000 by {
        assert(entries.dom().contains(key));
    }
}

/// A snapshot leaves nothing out and adds nothing: it reads back as the store
/// it was taken of.
pub proof fn snapshots_hold_everything(entries: Entries)
    requires
        entries.dom().finite(),
        lengths_fit(entries),
    ensures
        state_machine::restored(state_machine::snapshot_of(entries)) == Some(entries),
{
    lemma_lengths(entries);
    state_machine::snapshot_reads_back(entries);
}

/// Bytes are a snapshot if they are keys and values in turn, each whole behind
/// its length, and nothing else; a later value for a key replaces an earlier
/// one.
pub proof fn snapshots_are_read_whole(bytes: Seq<u8>, at: int, entries: Entries)
    requires
        0 <= at,
    ensures
        ({
            let read = state_machine::restored_from(bytes, at, entries);
            let middle = at + 4 + length_at(bytes, at);
            if at >= bytes.len() {
                read == Some(entries)
            } else if !whole_at(bytes, at) || !whole_at(bytes, middle) {
                read is None
            } else {
                let end = middle + 4 + length_at(bytes, middle);
                read == state_machine::restored_from(
                    bytes,
                    end,
                    entries.insert(
                        bytes.subrange(at + 4, middle),
                        bytes.subrange(middle + 4, end),
                    ),
                )
            }
        }),
        state_machine::restored(bytes) == state_machine::restored_from(bytes, 0, Map::empty()),
{
}

/// The four bytes of a length, most significant first.
pub open spec fn length_bytes(length: int, bytes: Seq<u8>) -> bool {
    &&& bytes.len() == 4
    &&& length == ((bytes[0] * 256 + bytes[1]) * 256 + bytes[2]) * 256 + bytes[3]
}

/// Whether `bytes` are `content` behind its length.
pub open spec fn prefixed(content: Seq<u8>, bytes: Seq<u8>) -> bool {
    &&& bytes.len() == 4 + content.len()
    &&& length_bytes(content.len() as int, bytes.take(4))
    &&& bytes.skip(4) == content
}

proof fn lemma_frame(content: Seq<u8>)
    requires
        content.len() < 0x1_0000_0000,
    ensures
        prefixed(content, codec::frame(content)),
{
    let bytes = codec::frame(content);
    assert(bytes.skip(4) =~= content);
    assert(bytes.take(4) =~= codec::be32(content.len() as int));
}

/// A command is written as one byte for its kind, zero for a put, one for a
/// delete and two for a read, then its key, and for a put its value, each
/// behind its length in four bytes, most significant first.
pub proof fn commands_are_written_plainly(command: CommandView)
    requires
        match command {
            CommandView::Put { key, value } => key.len() <= 0xffff_ffff && value.len()
                <= 0xffff_ffff,
            CommandView::Delete { key } => key.len() <= 0xffff_ffff,
            CommandView::Get { key } => key.len() <= 0xffff_ffff,
        },
    ensures
        command::decoded(command.encoded()) == Ok::<CommandView, DecodeError>(command),
        ({
            let bytes = command.encoded();
            match command {
                CommandView::Put { key, value } => {
                    let middle = 5 + key.len();
                    &&& bytes[0] == 0
                    &&& bytes.len() == 9 + key.len() + value.len()
                    &&& prefixed(key, bytes.subrange(1, middle as int))
                    &&& prefixed(value, bytes.skip(middle as int))
                },
                CommandView::Delete { key } => bytes.len() == 5 + key.len() && bytes[0] == 1
                    && prefixed(key, bytes.skip(1)),
                CommandView::Get { key } => bytes.len() == 5 + key.len() && bytes[0] == 2
                    && prefixed(key, bytes.skip(1)),
            }
        }),
{
    let bytes = command.encoded();
    command::encoding_reads_back(command, Seq::empty());
    assert(bytes + Seq::empty() =~= bytes);
    match command {
        CommandView::Put { key, value } => {
            lemma_frame(key);
            lemma_frame(value);
            let middle = 5 + key.len();
            assert(bytes.subrange(1, middle as int) =~= codec::frame(key));
            assert(bytes.skip(middle as int) =~= codec::frame(value));
        },
        CommandView::Delete { key } => {
            lemma_frame(key);
            assert(bytes.skip(1) =~= codec::frame(key));
        },
        CommandView::Get { key } => {
            lemma_frame(key);
            assert(bytes.skip(1) =~= codec::frame(key));
        },
    }
}

/// Whether a whole byte string behind its length stands at `at`.
pub open spec fn whole_at(bytes: Seq<u8>, at: int) -> bool {
    at + 4 <= bytes.len() && at + 4 + length_at(bytes, at) <= bytes.len()
}

pub open spec fn length_at(bytes: Seq<u8>, at: int) -> int {
    ((bytes[at] * 256 + bytes[at + 1]) * 256 + bytes[at + 2]) * 256 + bytes[at + 3]
}

/// Bytes that are no command are told apart: an unknown kind by its byte,
/// anything that ends too early as such. The rest is the command it writes.
pub proof fn malformed_commands_are_refused(bytes: Seq<u8>)
    ensures
        ({
            let read = command::decoded(bytes);
            if bytes.len() == 0 {
                read == Err::<CommandView, DecodeError>(DecodeError::Truncated)
            } else if bytes[0] > 2 {
                read == Err::<CommandView, DecodeError>(DecodeError::UnknownTag(bytes[0]))
            } else if !whole_at(bytes, 1) {
                read == Err::<CommandView, DecodeError>(DecodeError::Truncated)
            } else {
                let end = 5 + length_at(bytes, 1);
                let key = bytes.subrange(5, end);
                if bytes[0] == 0 {
                    if !whole_at(bytes, end) {
                        read == Err::<CommandView, DecodeError>(DecodeError::Truncated)
                    } else {
                        read == Ok::<CommandView, DecodeError>(
                            CommandView::Put {
                                key,
                                value: bytes.subrange(end + 4, end + 4 + length_at(bytes, end)),
                            },
                        )
                    }
                } else if bytes[0] == 1 {
                    read == Ok::<CommandView, DecodeError>(CommandView::Delete { key })
                } else {
                    read == Ok::<CommandView, DecodeError>(CommandView::Get { key })
                }
            }
        }),
{
}

/// Keys are ordered as words are: by the first byte in which they differ, and a
/// key comes before whatever it begins.
pub proof fn keys_are_ordered_like_words(a: Seq<u8>, b: Seq<u8>)
    ensures
        order::less(a, b) == exists|k: int| #[trigger] parts(a, b, k),
    decreases a.len(),
{
    if a.len() == 0 {
        if b.len() > 0 {
            assert(parts(a, b, 0));
        }
    } else if b.len() > 0 {
        let c = a.drop_first();
        let d = b.drop_first();
        keys_are_ordered_like_words(c, d);
        if a[0] < b[0] {
            assert(parts(a, b, 0));
        } else if a[0] == b[0] && order::less(c, d) {
            let k = choose|k: int| #[trigger] parts(c, d, k);
            assert forall|i: int| 0 <= i < k + 1 implies a[i] == b[i] by {
                if i > 0 {
                    assert(c[i - 1] == d[i - 1]);
                }
            }
            assert(parts(a, b, k + 1));
        }
        if exists|k: int| #[trigger] parts(a, b, k) {
            let k = choose|k: int| #[trigger] parts(a, b, k);
            if k > 0 {
                assert(a[0] == b[0]);
                assert forall|i: int| 0 <= i < k - 1 implies c[i] == d[i] by {
                    assert(a[i + 1] == b[i + 1]);
                }
                assert(parts(c, d, k - 1));
            }
        }
    }
}

/// Whether `a` and `b` part at `k`, with `a` first.
pub open spec fn parts(a: Seq<u8>, b: Seq<u8>, k: int) -> bool {
    &&& 0 <= k <= a.len()
    &&& k < b.len()
    &&& forall|i: int| 0 <= i < k ==> a[i] == b[i]
    &&& k == a.len() || a[k] < b[k]
}

/// What a replica makes of one more committed entry: a put leaves its value, a
/// delete nothing, and what each command found is kept for its client, under
/// the index of its entry.
pub open spec fn takes_in(r: ReplicaState, next: ReplicaState, index: u64, command: CommandView) -> bool {
    let before = r.store.entries;
    &&& next.node == r.node
    &&& next.store.last_applied == index
    &&& match command {
        CommandView::Put { key, value } => next.store.entries == before.insert(key, value)
            && next.results == r.results.insert(
            index,
            ApplyResultView::Put { previous: value_under(before, key) },
        ),
        CommandView::Delete { key } => next.store.entries == before.remove(key) && next.results
            == r.results.insert(
            index,
            ApplyResultView::Delete { previous: value_under(before, key) },
        ),
        CommandView::Get { key } => next.store.entries == before && next.results
            == r.results.insert(index, ApplyResultView::Get { value: value_under(before, key) }),
    }
}

/// A replica takes in every committed entry it holds, one after the other, in
/// log order, and passes over what is no command; it stops where nothing more
/// is committed and held. So `step` is how the next entry is taken in, and the
/// rest follows as it would from there.
pub proof fn committed_entries_are_taken_in(r: ReplicaState, step: ReplicaState)
    requires
        r.node.snapshot.last_included_index <= r.store.last_applied,
    ensures
        ({
            let index = r.store.last_applied + 1;
            let next = promises::entry(r.node, index);
            let due = index <= r.node.commit_index && promises::held(r.node, index);
            let passed = ReplicaState {
                store: StoreState { last_applied: index as u64, ..r.store },
                ..r
            };
            &&& !due ==> r.caught_up() == r
            &&& due && next.payload is Configuration ==> r.caught_up() == passed.caught_up()
            &&& due ==> (next.payload matches LogPayloadView::Command(bytes) ==> (
            match command::decoded(bytes) {
                Err(_) => r.caught_up() == passed.caught_up(),
                Ok(c) => takes_in(r, step, index as u64, c) ==> r.caught_up() == step.caught_up(),
            }))
        }),
{
    let index = r.store.last_applied + 1;
    if index <= r.node.commit_index && promises::held(r.node, index) {
        let next = promises::entry(r.node, index);
        assert(r.next_entry() == Some(next));
        assert(r.restored() == r);
        let after = r.apply_entry(next);
        assert(after.restored() == after);
        if let LogPayloadView::Command(bytes) = next.payload {
            if let Ok(c) = command::decoded(bytes) {
                if takes_in(r, step, index as u64, c) {
                    assert(step =~= after);
                }
            }
        }
    }
}

/// A replica that lags behind its node's snapshot, whatever it had applied
/// before, holds exactly what the snapshot was taken of, as of the index the
/// snapshot stands for, and goes on from there.
pub proof fn lagging_stores_are_replaced(r: ReplicaState, entries: Entries)
    requires
        r.store.last_applied < r.node.snapshot.last_included_index,
        entries.dom().finite(),
        lengths_fit(entries),
        r.node.snapshot_data == state_machine::snapshot_of(entries),
    ensures
        ({
            let there = ReplicaState {
                store: StoreState {
                    entries,
                    last_applied: r.node.snapshot.last_included_index,
                },
                ..r
            };
            &&& r.caught_up() == there.caught_up()
            &&& r.node.commit_index <= r.node.snapshot.last_included_index ==> r.caught_up()
                == there
        }),
{
    snapshots_hold_everything(entries);
}

/// Replicas that lag behind the same snapshot hold the same store once they
/// have caught up to the same index, whatever each of them had applied.
pub proof fn lagging_replicas_come_to_agree(a: ReplicaState, b: ReplicaState, entries: Entries)
    requires
        a.node.snapshot == b.node.snapshot,
        a.node.log == b.node.log,
        a.node.commit_index == b.node.commit_index,
        a.node.snapshot_data == b.node.snapshot_data,
        a.store.last_applied < a.node.snapshot.last_included_index,
        b.store.last_applied < b.node.snapshot.last_included_index,
        entries.dom().finite(),
        lengths_fit(entries),
        a.node.snapshot_data == state_machine::snapshot_of(entries),
    ensures
        a.caught_up().store == b.caught_up().store,
{
    snapshots_hold_everything(entries);
    let x = a.restored();
    let y = b.restored();
    assert forall|index: int|
        x.store.last_applied < index <= x.node.commit_index implies #[trigger] x.node.entry_at(
        index,
    ) == y.node.entry_at(index) by {
        promises::log_is_indexed_from_the_snapshot(x.node, index);
        promises::log_is_indexed_from_the_snapshot(y.node, index);
    }
    replica::same_log_same_store(x, y);
}

/// Bytes that are no snapshot leave the entries of the store as they are.
pub proof fn damaged_snapshots_leave_the_store(r: ReplicaState)
    requires
        r.store.last_applied < r.node.snapshot.last_included_index,
        state_machine::restored(r.node.snapshot_data) is None,
    ensures
        r.caught_up() == (ReplicaState {
            store: StoreState {
                last_applied: r.node.snapshot.last_included_index,
                ..r.store
            },
            ..r
        }).caught_up(),
{
}

/// A snapshot that a leader sends and a follower takes in the place of its log
/// leaves the follower with the store it was taken of.
pub proof fn snapshots_sent_replace_the_store(
    r: ReplicaState,
    from: NodeId,
    request: InstallSnapshotView,
    entries: Entries,
)
    requires
        request.leader_id == from,
        request.term >= r.node.current_term,
        r.node.commit_index < request.last_included_index < u64::MAX,
        promises::end_of(r.node) < request.last_included_index,
        r.store.last_applied <= r.node.commit_index,
        r.node.snapshot.last_included_index <= r.node.commit_index,
        request.data == state_machine::snapshot_of(entries),
        entries.dom().finite(),
        lengths_fit(entries),
    ensures
        ({
            let next = r.step(
                EventView::Step { from, message: MessageView::InstallSnapshot(request) },
            ).0;
            &&& next.store.entries == entries
            &&& next.store.last_applied == request.last_included_index
            &&& next.results == r.results
        }),
{
    let event = EventView::Step { from, message: MessageView::InstallSnapshot(request) };
    let node = r.node.step(event).0;
    lagging_stores_are_replaced(r.with_node(node), entries);
}

/// Whoever catches up from a compaction, from nothing or from however far
/// behind, holds in the end what the replica held that was compacted, though
/// the snapshot was taken of a store further on than the point it stands for.
/// `r` is the compacted replica when it was at that point.
pub proof fn catching_up_from_a_compaction_loses_nothing(
    r: ReplicaState,
    retain: u64,
    behind: ReplicaState,
)
    requires
        r.store.last_applied <= r.node.commit_index,
        laws::holds_commits(r.node, r.store.last_applied as int),
        retain == r.node.commit_index - r.store.last_applied,
        r.drained().compacts(retain),
        r.store.entries.dom().finite(),
        lengths_fit(r.drained().store.entries),
        behind.node == r.drained().compacted(retain).node,
        behind.store.last_applied < behind.node.snapshot.last_included_index,
    ensures
        behind.caught_up().store == r.drained().store,
{
    lemma_lengths(r.drained().store.entries);
    laws::compaction_loses_nothing(r, retain);
    let fresh = ReplicaState::fresh(behind.node);
    lemma_boundary(r, retain);
    let a = fresh.restored();
    let b = behind.restored();
    laws::lemma_stored(r, retain);
    replica::same_log_same_store(a, b);
}

proof fn lemma_boundary(r: ReplicaState, retain: u64)
    requires
        r.drained().compacts(retain),
    ensures
        r.drained().compacted(retain).node.snapshot.last_included_index > 0,
{
}

/// The same entries are written the same way.
proof fn lemma_same_entries(a: Entries, b: Entries, keys: Seq<Seq<u8>>)
    requires
        forall|i: int| 0 <= i < keys.len() ==> a[#[trigger] keys[i]] == b[keys[i]],
    ensures
        state_machine::encoded_entries(a, keys) == state_machine::encoded_entries(b, keys),
    decreases keys.len(),
{
    if keys.len() > 0 {
        let rest = keys.drop_last();
        assert forall|i: int| 0 <= i < rest.len() implies a[#[trigger] rest[i]] == b[rest[i]] by {
            assert(rest[i] == keys[i]);
        }
        lemma_same_entries(a, b, rest);
        assert(a[keys[keys.len() - 1]] == b[keys[keys.len() - 1]]);
    }
}

/// A snapshot lists keys in order, each before its value: where a key comes
/// after all others, it and its value, each behind its length, are what the
/// snapshot ends with. An empty store has an empty snapshot. So replicas with
/// the same store have the same snapshot, byte for byte.
pub proof fn snapshots_list_keys_in_order(entries: Entries, key: Seq<u8>, value: Seq<u8>)
    requires
        entries.dom().finite(),
        forall|other: Seq<u8>| #[trigger]
            entries.dom().contains(other) ==> exists|k: int| #[trigger] parts(other, key, k),
        key.len() <= 0xffff_ffff,
        value.len() <= 0xffff_ffff,
    ensures
        ({
            let before = state_machine::snapshot_of(entries);
            let bytes = state_machine::snapshot_of(entries.insert(key, value));
            let middle = before.len() + 4 + key.len();
            &&& bytes.len() == middle + 4 + value.len()
            &&& bytes.take(before.len() as int) == before
            &&& prefixed(key, bytes.subrange(before.len() as int, middle as int))
            &&& prefixed(value, bytes.skip(middle as int))
        }),
        state_machine::snapshot_of(Map::empty()) == Seq::<u8>::empty(),
{
    let keys = order::sorted_keys(entries.dom());
    order::lemma_sorted_exists(entries.dom());
    let more = entries.insert(key, value);
    let all = keys.push(key);
    assert forall|i: int| 0 <= i < keys.len() implies order::less(#[trigger] keys[i], key) by {
        assert(keys.to_set().contains(keys[i]));
        keys_are_ordered_like_words(keys[i], key);
    }
    assert(order::ascending(all)) by {
        assert forall|i: int, j: int| 0 <= i < j < all.len() implies order::less(
            #[trigger] all[i],
            #[trigger] all[j],
        ) by {
            assert(all[i] == keys[i]);
            if j < keys.len() {
                assert(all[j] == keys[j]);
            }
        }
    }
    assert(all.to_set() =~= more.dom()) by {
        keys.lemma_push_to_set_commute(key);
    }
    order::lemma_sorted_keys(all);
    assert(all.drop_last() =~= keys);
    assert forall|i: int| 0 <= i < keys.len() implies more[#[trigger] keys[i]]
        == entries[keys[i]] by {
        order::lemma_irreflexive(key);
        assert(order::less(keys[i], key));
    }
    lemma_same_entries(more, entries, keys);
    let before = state_machine::snapshot_of(entries);
    let bytes = state_machine::snapshot_of(more);
    let middle = before.len() + 4 + key.len();
    lemma_frame(key);
    lemma_frame(value);
    assert(bytes == before + codec::frame(key) + codec::frame(value));
    assert(bytes.take(before.len() as int) =~= before);
    assert(bytes.subrange(before.len() as int, middle as int) =~= codec::frame(key));
    assert(bytes.skip(middle as int) =~= codec::frame(value));
    let none: Entries = Map::empty();
    let nothing: Seq<Seq<u8>> = Seq::empty();
    assert(nothing.to_set() =~= none.dom());
    order::lemma_sorted_keys(nothing);
}

/// A replica does what its node does, takes in what comes to be committed by
/// it, and brings about what the node does: on an event, on a proposal, which
/// is the command as it is written, and on a change of voters.
pub proof fn replicas_do_what_their_node_does(
    r: ReplicaState,
    event: EventView,
    command: CommandView,
    voters: Seq<NodeId>,
)
    ensures
        ({
            let (node, effects) = r.node.step(event);
            r.step(event) == ((ReplicaState { node, ..r }).caught_up(), effects)
        }),
        ({
            let (node, effects) = r.node.append_and_advance(
                LogPayloadView::Command(command.encoded()),
            );
            r.propose(command) == ((ReplicaState { node, ..r }).caught_up(), effects)
        }),
        ({
            let (node, effects) = r.node.change_config(voters);
            r.change_config(voters) == ((ReplicaState { node, ..r }).caught_up(), effects)
        }),
{
}

/// A compaction that is to retain `retain` applied entries covers everything
/// applied but those, if that is anything new; the snapshot is of the store as
/// it stands, which stays as it is. What commands behind the point reported is
/// kept, and what is covered is let go.
pub proof fn compaction_retains_what_it_is_told(r: ReplicaState, retain: u64, index: u64)
    ensures
        ({
            let point = r.store.last_applied - retain;
            let next = r.compacted(retain);
            &&& r.compacts(retain) == (r.node.snapshot.last_included_index < point
                && point <= r.node.commit_index && point <= promises::end_of(r.node) && point
                < u64::MAX)
            &&& r.compacts(retain) ==> {
                &&& next.node.snapshot.last_included_index == point
                &&& next.node.snapshot_data == state_machine::snapshot_of(r.store.entries)
                &&& next.store == r.store
                &&& next.results.dom().contains(index) == (r.results.dom().contains(index) && index
                    > point)
                &&& next.results.dom().contains(index) ==> next.results[index] == r.results[index]
            }
        }),
{
}

} // verus!
