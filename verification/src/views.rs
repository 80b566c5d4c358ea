//! What the views of values show: what is there, field by field, under its own
//! name, and nothing else.

use vstd::prelude::*;

use crate::kv::command::{Command, CommandView};
use crate::kv::state_machine::{ApplyResult, ApplyResultView};
use crate::raft::types::{
    AppendEntries, ClusterConfig, Effect, EffectView, Event, EventView, InstallSnapshot, LogEntry,
    LogPayload, LogPayloadView, Message, MessageView,
};
use crate::runtime::proto;
use crate::runtime::proto::LogEntryPayloadView;
use crate::sim::trace::{TraceEvent, TraceEventView};
use crate::verify::history::{HistoryEntry, Outcome, OutcomeView};
use crate::verify::run::RunConfig;

verus! {

/// Configurations and log entries.
pub proof fn log_entries_are_seen_whole(config: ClusterConfig, entry: LogEntry)
    ensures
        config.deep_view().voters == config.voters@,
        match config.old_voters {
            Some(old) => config.deep_view().old_voters == Some(old@),
            None => config.deep_view().old_voters is None,
        },
        entry.deep_view().term == entry.term,
        match entry.payload {
            LogPayload::Command(bytes) => entry.deep_view().payload == LogPayloadView::Command(
                bytes@,
            ),
            LogPayload::Configuration(c) => entry.deep_view().payload
                == LogPayloadView::Configuration(c.deep_view()),
        },
{
}

/// What a leader sends.
pub proof fn replication_is_seen_whole(append: AppendEntries, install: InstallSnapshot)
    ensures
        append.deep_view().term == append.term,
        append.deep_view().leader_id == append.leader_id,
        append.deep_view().prev_log_index == append.prev_log_index,
        append.deep_view().prev_log_term == append.prev_log_term,
        append.deep_view().leader_commit == append.leader_commit,
        append.deep_view().entries.len() == append.entries@.len(),
        forall|i: int|
            0 <= i < append.entries@.len() ==> append.deep_view().entries[i] == (
            #[trigger] append.entries@[i]).deep_view(),
        install.deep_view().term == install.term,
        install.deep_view().leader_id == install.leader_id,
        install.deep_view().last_included_index == install.last_included_index,
        install.deep_view().last_included_term == install.last_included_term,
        install.deep_view().data == install.data@,
        install.deep_view().config == install.config.deep_view(),
{
}

/// Messages, events and effects.
pub proof fn transitions_are_seen_whole(message: Message, event: Event, effect: Effect)
    ensures
        match message {
            Message::RequestVote(m) => message.deep_view() == MessageView::RequestVote(m),
            Message::RequestVoteResponse(m) => message.deep_view()
                == MessageView::RequestVoteResponse(m),
            Message::AppendEntries(m) => message.deep_view() == MessageView::AppendEntries(
                m.deep_view(),
            ),
            Message::AppendEntriesResponse(m) => message.deep_view()
                == MessageView::AppendEntriesResponse(m),
            Message::InstallSnapshot(m) => message.deep_view() == MessageView::InstallSnapshot(
                m.deep_view(),
            ),
            Message::InstallSnapshotResponse(m) => message.deep_view()
                == MessageView::InstallSnapshotResponse(m),
        },
        match event {
            Event::Tick { next_timeout } => event.deep_view() == (EventView::Tick { next_timeout }),
            Event::Step { from, message } => event.deep_view() == (EventView::Step {
                from,
                message: message.deep_view(),
            }),
        },
        match effect {
            Effect::Send { to, message } => effect.deep_view() == (EffectView::Send {
                to,
                message: message.deep_view(),
            }),
            Effect::PersistHardState { term, voted_for } => effect.deep_view() == (
            EffectView::PersistHardState { term, voted_for }),
            Effect::PersistLog { from_index, entries } => effect.deep_view() matches EffectView::PersistLog {
                from_index: index,
                entries: views,
            } && index == from_index && views.len() == entries@.len() && forall|i: int|
                0 <= i < views.len() ==> #[trigger] views[i] == entries@[i].deep_view(),
            Effect::PersistSnapshot { last_included_index, last_included_term, data, config } =>
                effect.deep_view() == (EffectView::PersistSnapshot {
                    last_included_index,
                    last_included_term,
                    data: data@,
                    config: config.deep_view(),
                }),
            Effect::PersistLearners { learners } => effect.deep_view() == (
            EffectView::PersistLearners { learners: learners@ }),
        },
{
}

/// Commands and what they report.
pub proof fn commands_are_seen_whole(command: Command, result: ApplyResult)
    ensures
        match command {
            Command::Put { key, value } => command.deep_view() == (CommandView::Put {
                key: key@,
                value: value@,
            }),
            Command::Delete { key } => command.deep_view() == (CommandView::Delete { key: key@ }),
            Command::Get { key } => command.deep_view() == (CommandView::Get { key: key@ }),
        },
        match result {
            ApplyResult::Put { previous: Some(bytes) } => result.deep_view() == (
            ApplyResultView::Put { previous: Some(bytes@) }),
            ApplyResult::Put { previous: None } => result.deep_view() == (ApplyResultView::Put {
                previous: None,
            }),
            ApplyResult::Delete { previous: Some(bytes) } => result.deep_view() == (
            ApplyResultView::Delete { previous: Some(bytes@) }),
            ApplyResult::Delete { previous: None } => result.deep_view() == (
            ApplyResultView::Delete { previous: None }),
            ApplyResult::Get { value: Some(bytes) } => result.deep_view() == (
            ApplyResultView::Get { value: Some(bytes@) }),
            ApplyResult::Get { value: None } => result.deep_view() == (ApplyResultView::Get {
                value: None,
            }),
        },
{
}

/// What clients and the simulator observe.
pub proof fn observations_are_seen_whole(entry: HistoryEntry, event: TraceEvent, config: RunConfig)
    ensures
        entry.deep_view().client == entry.client,
        entry.deep_view().invoke_tick == entry.invoke_tick,
        entry.deep_view().return_tick == entry.return_tick,
        entry.deep_view().command == entry.command.deep_view(),
        match entry.outcome {
            Outcome::Applied(result) => entry.deep_view().outcome == OutcomeView::Applied(
                result.deep_view(),
            ),
            Outcome::Rejected => entry.deep_view().outcome is Rejected,
            Outcome::Indeterminate => entry.deep_view().outcome is Indeterminate,
        },
        match event {
            TraceEvent::Tick { at, node, next_timeout } => event.deep_view() == (
            TraceEventView::Tick { at, node, next_timeout }),
            TraceEvent::Delivered { at, from, to, message } => event.deep_view() == (
            TraceEventView::Delivered { at, from, to, message: message.deep_view() }),
            TraceEvent::Sent { at, from, to, message } => event.deep_view() == (
            TraceEventView::Sent { at, from, to, message: message.deep_view() }),
        },
        config.deep_view().peers == config.peers@,
        config.deep_view().election_timeout == config.election_timeout,
        config.deep_view().heartbeat_interval == config.heartbeat_interval,
        config.deep_view().min_delay == config.min_delay,
        config.deep_view().max_delay == config.max_delay,
        config.deep_view().apply_timeout_ticks == config.apply_timeout_ticks,
        config.deep_view().client_count == config.client_count,
        config.deep_view().total_ticks == config.total_ticks,
        config.deep_view().submit_chance_percent == config.submit_chance_percent,
        config.deep_view().fault_chance_percent == config.fault_chance_percent,
{
}

/// What goes over the wire and to disk.
pub proof fn the_wire_is_seen_whole(
    entry: proto::LogEntry,
    append: proto::AppendEntriesRequest,
    install: proto::InstallSnapshotRequest,
    record: proto::StorageState,
)
    ensures
        entry.deep_view().term == entry.term,
        match entry.payload {
            Some(proto::LogEntryPayload::Command(bytes)) => entry.deep_view().payload == Some(
                LogEntryPayloadView::Command(bytes@),
            ),
            Some(proto::LogEntryPayload::Configuration(c)) => entry.deep_view().payload matches Some(
                LogEntryPayloadView::Configuration(seen),
            ) && seen.voters == c.voters@ && seen.old_voters == c.old_voters@,
            None => entry.deep_view().payload is None,
        },
        append.deep_view().term == append.term,
        append.deep_view().leader_id == append.leader_id,
        append.deep_view().prev_log_index == append.prev_log_index,
        append.deep_view().prev_log_term == append.prev_log_term,
        append.deep_view().leader_commit == append.leader_commit,
        append.deep_view().entries == append.entries.deep_view(),
        install.deep_view().term == install.term,
        install.deep_view().leader_id == install.leader_id,
        install.deep_view().last_included_index == install.last_included_index,
        install.deep_view().last_included_term == install.last_included_term,
        install.deep_view().data == install.data@,
        match install.config {
            Some(c) => install.deep_view().config == Some(c.deep_view()),
            None => install.deep_view().config is None,
        },
        record.deep_view().current_term == record.current_term,
        record.deep_view().voted_for == record.voted_for,
        record.deep_view().log == record.log.deep_view(),
        record.deep_view().snapshot_last_included_index == record.snapshot_last_included_index,
        record.deep_view().snapshot_last_included_term == record.snapshot_last_included_term,
        record.deep_view().snapshot_data == record.snapshot_data@,
        record.deep_view().learners == record.learners@,
        match record.snapshot_config {
            Some(c) => record.deep_view().snapshot_config == Some(c.deep_view()),
            None => record.deep_view().snapshot_config is None,
        },
{
}

} // verus!
