//! What clients observe.

use vstd::prelude::*;

use crate::kv::command::{Command, CommandView};
use crate::kv::state_machine::{ApplyResult, ApplyResultView};
use crate::raft::types::NodeId;

verus! {

/// Distinguishes one simulated client's operations from another's. A client
/// has at most one operation outstanding; concurrency comes from distinct
/// clients overlapping.
#[derive(Clone, Copy, Debug, Eq, Ord, PartialEq, PartialOrd, Hash, Structural)]
pub struct ClientId(pub u64);

/// A client-visible outcome. `Rejected` is a clean rejection before anything
/// was appended, `Applied` a confirmed success with its real value, and
/// `Indeterminate` everything in between.
#[derive(Debug, Eq, PartialEq)]
pub enum Outcome {
    Applied(ApplyResult),
    Rejected,
    Indeterminate,
}

/// The view of an [`Outcome`].
#[verifier::ext_equal]
pub enum OutcomeView {
    Applied(ApplyResultView),
    Rejected,
    Indeterminate,
}

impl DeepView for Outcome {
    type V = OutcomeView;

    open spec fn deep_view(&self) -> OutcomeView {
        match self {
            Outcome::Applied(result) => OutcomeView::Applied(result.deep_view()),
            Outcome::Rejected => OutcomeView::Rejected,
            Outcome::Indeterminate => OutcomeView::Indeterminate,
        }
    }
}

impl Clone for Outcome {
    fn clone(&self) -> (copy: Self)
        ensures
            copy.deep_view() == self.deep_view(),
    {
        match self {
            Outcome::Applied(result) => Outcome::Applied(result.clone()),
            Outcome::Rejected => Outcome::Rejected,
            Outcome::Indeterminate => Outcome::Indeterminate,
        }
    }
}

/// One operation's full lifecycle, stamped by a logical clock.
#[derive(Debug, Eq, PartialEq)]
pub struct HistoryEntry {
    pub client: ClientId,
    pub invoke_tick: u64,
    /// `None` only if the operation was still outstanding when observation
    /// ended.
    pub return_tick: Option<u64>,
    pub command: Command,
    pub outcome: Outcome,
}

/// The view of a [`HistoryEntry`].
#[verifier::ext_equal]
pub struct HistoryEntryView {
    pub client: ClientId,
    pub invoke_tick: u64,
    pub return_tick: Option<u64>,
    pub command: CommandView,
    pub outcome: OutcomeView,
}

impl DeepView for HistoryEntry {
    type V = HistoryEntryView;

    open spec fn deep_view(&self) -> HistoryEntryView {
        HistoryEntryView {
            client: self.client,
            invoke_tick: self.invoke_tick,
            return_tick: self.return_tick,
            command: self.command.deep_view(),
            outcome: self.outcome.deep_view(),
        }
    }
}

impl Clone for HistoryEntry {
    fn clone(&self) -> (copy: Self)
        ensures
            copy.deep_view() == self.deep_view(),
    {
        HistoryEntry {
            client: self.client,
            invoke_tick: self.invoke_tick,
            return_tick: self.return_tick,
            command: self.command.clone(),
            outcome: self.outcome.clone(),
        }
    }
}

/// The views of a history.
pub open spec fn view_history(history: Seq<HistoryEntry>) -> Seq<HistoryEntryView> {
    Seq::new(history.len(), |i: int| history[i].deep_view())
}

/// One kind of injected fault.
#[derive(Clone, Copy, Debug, Eq, PartialEq, Structural)]
pub enum FaultKind {
    Isolated,
    Healed,
    Crashed,
    Restarted,
}

/// One injected fault that changed something, stamped by a logical clock.
#[derive(Clone, Copy, Debug, Eq, PartialEq, Structural)]
pub struct FaultEvent {
    pub tick: u64,
    pub node: NodeId,
    pub kind: FaultKind,
}

} // verus!
