//! What is kept of what goes over the wire, to disk and back, said field by
//! field.

use vstd::prelude::*;

use crate::kv::command;
use crate::kv::command::CommandView;
use crate::kv::state_machine;
use crate::kv::state_machine::ApplyResultView;
use crate::raft::model::NodeState;
use crate::raft::types;
use crate::raft::types::{
    AppendEntriesView, ClusterConfigView, InstallSnapshotView, LogPayloadView, NodeId, Role,
};
use crate::runtime::bootstrap;
use crate::runtime::dto;
use crate::runtime::peers;
use crate::runtime::peers::PeersErrorView;
use crate::runtime::proto;
use crate::runtime::proto::{
    AppendEntriesRequestView, ConfigurationView, InstallSnapshotRequestView, LogEntryPayloadView,
    StorageStateView,
};
use crate::runtime::replies;
use crate::runtime::storage;
use crate::sim::durable;
use crate::sim::durable::DurableView;
use crate::text;

verus! {

/// Whether numbers and ids are the same, one by one.
pub open spec fn same_ids(written: Seq<u64>, ids: Seq<NodeId>) -> bool {
    &&& written.len() == ids.len()
    &&& forall|i: int| 0 <= i < ids.len() ==> written[i] == (#[trigger] ids[i]).0
}

/// Whether a configuration on the wire is a given one: without a transition
/// there are no outgoing voters on the wire.
pub open spec fn same_config(written: ConfigurationView, config: ClusterConfigView) -> bool {
    &&& same_ids(written.voters, config.voters)
    &&& match config.old_voters {
        Some(old) => same_ids(written.old_voters, old),
        None => written.old_voters.len() == 0,
    }
}

/// Whether a log entry on the wire is a given one.
pub open spec fn same_entry(written: proto::LogEntryView, entry: types::LogEntryView) -> bool {
    &&& written.term == entry.term
    &&& match entry.payload {
        LogPayloadView::Command(bytes) => written.payload == Some(
            LogEntryPayloadView::Command(bytes),
        ),
        LogPayloadView::Configuration(config) => written.payload matches Some(
            LogEntryPayloadView::Configuration(c),
        ) && same_config(c, config),
    }
}

/// Whether log entries on the wire are given ones, one by one.
pub open spec fn same_entries(
    written: Seq<proto::LogEntryView>,
    entries: Seq<types::LogEntryView>,
) -> bool {
    &&& written.len() == entries.len()
    &&& forall|i: int| 0 <= i < entries.len() ==> same_entry(written[i], #[trigger] entries[i])
}

/// Whether every log entry on the wire has a payload.
pub open spec fn whole(written: Seq<proto::LogEntryView>) -> bool {
    forall|i: int| 0 <= i < written.len() ==> (#[trigger] written[i]).payload is Some
}

proof fn lemma_ids(ids: Seq<NodeId>, written: Seq<u64>)
    ensures
        same_ids(dto::written_ids(ids), ids),
        same_ids(written, dto::read_ids(written)),
{
}

proof fn lemma_configs(config: ClusterConfigView, written: ConfigurationView)
    ensures
        same_config(dto::written_config(config), config),
        same_config(written, dto::read_config(written)),
        written.old_voters.len() == 0 <==> dto::read_config(written).old_voters is None,
{
    lemma_ids(config.voters, written.voters);
    if let Some(old) = config.old_voters {
        lemma_ids(old, written.old_voters);
    }
    lemma_ids(config.voters, written.old_voters);
    lemma_ids(config.voters, written.voters);
}

/// Ids, configurations and log entries are on the wire as they are, and are
/// read from it as they stand there. An entry without a payload is none.
pub proof fn entries_cross_the_wire(
    ids: Seq<NodeId>,
    config: ClusterConfigView,
    entry: types::LogEntryView,
    numbers: Seq<u64>,
    sent: ConfigurationView,
    received: proto::LogEntryView,
)
    ensures
        same_ids(dto::written_ids(ids), ids),
        same_ids(numbers, dto::read_ids(numbers)),
        same_config(dto::written_config(config), config),
        same_config(sent, dto::read_config(sent)),
        same_entry(dto::written_entry(entry), entry),
        match dto::read_entry(received) {
            Some(read) => same_entry(received, read),
            None => received.payload is None,
        },
        received.payload is Some ==> dto::read_entry(received) is Some,
{
    lemma_ids(ids, numbers);
    lemma_configs(config, sent);
    if let LogPayloadView::Configuration(c) = entry.payload {
        lemma_configs(c, sent);
    }
    if let Some(LogEntryPayloadView::Configuration(c)) = received.payload {
        lemma_configs(config, c);
    }
}

proof fn lemma_entries(entries: Seq<types::LogEntryView>, written: Seq<proto::LogEntryView>)
    ensures
        same_entries(dto::written_entries(entries), entries),
        dto::readable_entries(written) == whole(written),
        whole(written) ==> same_entries(written, dto::read_entries(written)),
{
    assert forall|i: int| 0 <= i < entries.len() implies same_entry(
        dto::written_entries(entries)[i],
        #[trigger] entries[i],
    ) by {
        if let LogPayloadView::Configuration(c) = entries[i].payload {
            lemma_configs(c, dto::written_config(c));
        }
    }
    assert forall|i: int| 0 <= i < written.len() implies (dto::read_entry(#[trigger] written[i])
        is Some) == (written[i].payload is Some) by {}
    if whole(written) {
        assert(dto::readable_entries(written));
        assert forall|i: int| 0 <= i < written.len() implies same_entry(
            written[i],
            #[trigger] dto::read_entries(written)[i],
        ) by {
            assert(written[i].payload is Some);
            if let Some(LogEntryPayloadView::Configuration(c)) = written[i].payload {
                lemma_configs(dto::read_config(c), c);
            }
        }
    } else {
        let i = choose|i: int| 0 <= i < written.len() && !((#[trigger] written[i]).payload is Some);
        assert(dto::read_entry(written[i]) is None);
    }
}

/// A leader's entries arrive as they were sent, with everything that goes with
/// them; a message with an entry that has no payload is refused whole.
pub proof fn replication_crosses_the_wire(
    value: AppendEntriesView,
    received: AppendEntriesRequestView,
)
    ensures
        ({
            let sent = dto::written_append(value);
            &&& sent.term == value.term
            &&& sent.leader_id == value.leader_id.0
            &&& sent.prev_log_index == value.prev_log_index
            &&& sent.prev_log_term == value.prev_log_term
            &&& sent.leader_commit == value.leader_commit
            &&& same_entries(sent.entries, value.entries)
        }),
        match dto::read_append(received) {
            Some(read) => {
                &&& read.term == received.term
                &&& read.leader_id.0 == received.leader_id
                &&& read.prev_log_index == received.prev_log_index
                &&& read.prev_log_term == received.prev_log_term
                &&& read.leader_commit == received.leader_commit
                &&& same_entries(received.entries, read.entries)
            },
            None => !whole(received.entries),
        },
        whole(received.entries) ==> dto::read_append(received) is Some,
{
    lemma_entries(value.entries, received.entries);
}

/// A snapshot arrives as it was sent, with its configuration; one without has
/// no voters.
pub proof fn snapshots_cross_the_wire(
    value: InstallSnapshotView,
    received: InstallSnapshotRequestView,
)
    ensures
        ({
            let sent = dto::written_snapshot(value);
            &&& sent.term == value.term
            &&& sent.leader_id == value.leader_id.0
            &&& sent.last_included_index == value.last_included_index
            &&& sent.last_included_term == value.last_included_term
            &&& sent.data == value.data
            &&& sent.config matches Some(config) && same_config(config, value.config)
        }),
        ({
            let read = dto::read_snapshot(received);
            &&& read.term == received.term
            &&& read.leader_id.0 == received.leader_id
            &&& read.last_included_index == received.last_included_index
            &&& read.last_included_term == received.last_included_term
            &&& read.data == received.data
            &&& match received.config {
                Some(config) => same_config(config, read.config),
                None => read.config.voters.len() == 0 && read.config.old_voters is None,
            }
        }),
{
    lemma_configs(value.config, dto::written_config(value.config));
    if let Some(config) = received.config {
        lemma_configs(value.config, config);
    }
}

/// What is on disk is what is durable, field by field, and is read as it stands
/// there; a record with a log entry that has no payload is refused.
pub proof fn storage_rests_on_disk(d: DurableView, record: StorageStateView)
    ensures
        ({
            let written = storage::written_record(d);
            &&& written.current_term == d.hard_state.current_term
            &&& written.voted_for is Some == d.hard_state.voted_for is Some
            &&& d.hard_state.voted_for matches Some(id) ==> written.voted_for == Some(id.0)
            &&& same_entries(written.log, d.log)
            &&& written.snapshot_last_included_index == d.snapshot.last_included_index
            &&& written.snapshot_last_included_term == d.snapshot.last_included_term
            &&& written.snapshot_data == d.snapshot_data
            &&& written.snapshot_config matches Some(config) && same_config(
                config,
                d.snapshot_config,
            )
            &&& same_ids(written.learners, d.learners)
        }),
        match storage::read_record(record) {
            Some(read) => {
                &&& read.hard_state.current_term == record.current_term
                &&& record.voted_for is Some == read.hard_state.voted_for is Some
                &&& record.voted_for matches Some(id) ==> read.hard_state.voted_for == Some(
                    NodeId(id),
                )
                &&& same_entries(record.log, read.log)
                &&& read.snapshot.last_included_index == record.snapshot_last_included_index
                &&& read.snapshot.last_included_term == record.snapshot_last_included_term
                &&& read.snapshot_data == record.snapshot_data
                &&& match record.snapshot_config {
                    Some(config) => same_config(config, read.snapshot_config),
                    None => read.snapshot_config.voters.len() == 0
                        && read.snapshot_config.old_voters is None,
                }
                &&& same_ids(record.learners, read.learners)
            },
            None => !whole(record.log),
        },
        whole(record.log) ==> storage::read_record(record) is Some,
{
    lemma_entries(d.log, record.log);
    lemma_configs(d.snapshot_config, dto::written_config(d.snapshot_config));
    lemma_ids(d.learners, record.learners);
    if let Some(config) = record.snapshot_config {
        lemma_configs(d.snapshot_config, config);
    }
}

/// A command on the wire means what it says it is, with its key and value; so
/// does a result.
pub proof fn commands_mean_what_they_say(command: proto::Command, result: proto::ApplyResult)
    ensures
        match command.kind {
            Some(proto::CommandKind::Put(c)) => command.deep_view() == Some(
                CommandView::Put { key: c.key@, value: c.value@ },
            ),
            Some(proto::CommandKind::Delete(c)) => command.deep_view() == Some(
                CommandView::Delete { key: c.key@ },
            ),
            Some(proto::CommandKind::Get(c)) => command.deep_view() == Some(
                CommandView::Get { key: c.key@ },
            ),
            None => command.deep_view() is None,
        },
        match result.kind {
            Some(proto::ApplyResultKind::Put(r)) => match r.previous {
                Some(bytes) => result.deep_view() == Some(
                    ApplyResultView::Put { previous: Some(bytes@) },
                ),
                None => result.deep_view() == Some(ApplyResultView::Put { previous: None }),
            },
            Some(proto::ApplyResultKind::Delete(r)) => match r.previous {
                Some(bytes) => result.deep_view() == Some(
                    ApplyResultView::Delete { previous: Some(bytes@) },
                ),
                None => result.deep_view() == Some(ApplyResultView::Delete { previous: None }),
            },
            Some(proto::ApplyResultKind::Get(r)) => match r.value {
                Some(bytes) => result.deep_view() == Some(
                    ApplyResultView::Get { value: Some(bytes@) },
                ),
                None => result.deep_view() == Some(ApplyResultView::Get { value: None }),
            },
            None => result.deep_view() is None,
        },
{
}

/// Who is redirected is told the leader's id if there is one to tell.
pub proof fn redirects_name_the_leader(id: NodeId)
    ensures
        replies::redirect(Some(id)).leader_id == Some(id.0),
        replies::redirect(None).leader_id is None,
{
}

/// A member is an id, an equals sign and an address, which may hold further
/// equals signs. An entry without one, or with something else before it, is
/// refused whole.
pub proof fn members_are_an_id_and_an_address(entry: Seq<u8>, at: int)
    requires
        0 <= at <= entry.len(),
        forall|i: int| 0 <= i < at ==> (#[trigger] entry[i]) != '=' as u8,
        at == entry.len() || entry[at] == '=' as u8,
    ensures
        peers::read_peer(entry) == if at == entry.len() {
            Err::<(NodeId, Seq<u8>), PeersErrorView>(PeersErrorView::MissingSeparator { entry })
        } else {
            match text::parsed(entry.subrange(0, at)) {
                Some(id) => Ok::<(NodeId, Seq<u8>), PeersErrorView>(
                    (NodeId(id), entry.subrange(at + 1, entry.len() as int)),
                ),
                None => Err::<(NodeId, Seq<u8>), PeersErrorView>(
                    PeersErrorView::InvalidId { entry },
                ),
            }
        },
{
    text::lemma_find_at(entry, '=' as u8, 0, at);
    assert(entry.take(at) =~= entry.subrange(0, at));
    if at < entry.len() {
        assert(entry.skip(at + 1) =~= entry.subrange(at + 1, entry.len() as int));
    }
}

/// Members are listed with commas between them; the first that is malformed is
/// what a list is refused for, and a later member takes the place of an
/// earlier one with its id.
pub proof fn member_lists_are_read_in_order(
    raw: Seq<u8>,
    from: int,
    end: int,
    known: Map<NodeId, Seq<u8>>,
)
    requires
        0 <= from <= end <= raw.len(),
        forall|i: int| from <= i < end ==> (#[trigger] raw[i]) != ',' as u8,
        end == raw.len() || raw[end] == ',' as u8,
    ensures
        peers::read_peers(raw, from, known) == match peers::read_peer(raw.subrange(from, end)) {
            Err(error) => Err::<Map<NodeId, Seq<u8>>, PeersErrorView>(error),
            Ok((id, address)) => if end == raw.len() {
                Ok::<Map<NodeId, Seq<u8>>, PeersErrorView>(known.insert(id, address))
            } else {
                peers::read_peers(raw, end + 1, known.insert(id, address))
            },
        },
{
    text::lemma_find_at(raw, ',' as u8, from, end);
}

/// A process starts its node from what its storage has: as a follower, in the
/// term, with the vote and the log it has, and with the members it was told of
/// unless a snapshot says otherwise. Storage is fresh if it has none of that.
pub proof fn nodes_start_from_storage(
    d: DurableView,
    id: NodeId,
    members: Seq<NodeId>,
    election_timeout: u64,
    heartbeat_interval: u64,
)
    ensures
        bootstrap::is_fresh(d) <==> d.hard_state.current_term == 0 && d.hard_state.voted_for is None
            && d.log.len() == 0 && d.snapshot.last_included_index == 0,
        ({
            let node: NodeState = durable::recovered(
                d,
                id,
                members,
                election_timeout,
                heartbeat_interval,
            );
            &&& node.id == id
            &&& node.role == Role::Follower
            &&& node.current_term == d.hard_state.current_term
            &&& node.voted_for == d.hard_state.voted_for
            &&& node.log == d.log
            &&& node.snapshot == d.snapshot
            &&& node.snapshot_data == d.snapshot_data
            &&& node.learners == d.learners.to_set()
            &&& node.commit_index == d.snapshot.last_included_index
            &&& node.election_timeout == election_timeout
            &&& node.heartbeat_interval == heartbeat_interval
            &&& d.snapshot.last_included_index > 0 ==> node.snapshot_config == d.snapshot_config
            &&& d.snapshot.last_included_index == 0 ==> node.snapshot_config.voters == members
                && node.snapshot_config.old_voters is None
        }),
{
}

/// The store that storage holds begins with its snapshot, or empty without one,
/// and has every command of the log done to it, in order; it is none if a
/// command or the snapshot is malformed.
pub proof fn stores_are_replayed_in_order(
    d: DurableView,
    entries: Map<Seq<u8>, Seq<u8>>,
    first: types::LogEntryView,
    rest: Seq<types::LogEntryView>,
)
    ensures
        bootstrap::stored_entries(d) == if d.snapshot.last_included_index == 0 {
            bootstrap::replayed(Map::empty(), d.log)
        } else {
            match state_machine::restored(d.snapshot_data) {
                Some(held) => bootstrap::replayed(held, d.log),
                None => None,
            }
        },
        bootstrap::replayed(entries, Seq::empty()) == Some(entries),
        match first.payload {
            LogPayloadView::Configuration(_) => bootstrap::replayed(entries, seq![first] + rest)
                == bootstrap::replayed(entries, rest),
            LogPayloadView::Command(bytes) => bootstrap::replayed(entries, seq![first] + rest)
                == match command::decoded(bytes) {
                Ok(CommandView::Put { key, value }) => bootstrap::replayed(
                    entries.insert(key, value),
                    rest,
                ),
                Ok(CommandView::Delete { key }) => bootstrap::replayed(entries.remove(key), rest),
                Ok(CommandView::Get { .. }) => bootstrap::replayed(entries, rest),
                Err(_) => None,
            },
        },
{
    assert((seq![first] + rest).drop_first() =~= rest);
}

} // verus!
