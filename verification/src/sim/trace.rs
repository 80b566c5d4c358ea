//! What a simulation records.

use vstd::prelude::*;

use crate::raft::types::{Message, MessageView, NodeId};

verus! {

/// One recorded step of a simulation, for equality-based reproducibility
/// checks.
#[derive(Debug, Eq, PartialEq)]
pub enum TraceEvent {
    Tick { at: u64, node: NodeId, next_timeout: u64 },
    Delivered { at: u64, from: NodeId, to: NodeId, message: Message },
    Sent { at: u64, from: NodeId, to: NodeId, message: Message },
}

/// The view of a [`TraceEvent`].
#[verifier::ext_equal]
pub enum TraceEventView {
    Tick { at: u64, node: NodeId, next_timeout: u64 },
    Delivered { at: u64, from: NodeId, to: NodeId, message: MessageView },
    Sent { at: u64, from: NodeId, to: NodeId, message: MessageView },
}

impl DeepView for TraceEvent {
    type V = TraceEventView;

    open spec fn deep_view(&self) -> TraceEventView {
        match self {
            TraceEvent::Tick { at, node, next_timeout } => TraceEventView::Tick {
                at: *at,
                node: *node,
                next_timeout: *next_timeout,
            },
            TraceEvent::Delivered { at, from, to, message } => TraceEventView::Delivered {
                at: *at,
                from: *from,
                to: *to,
                message: message.deep_view(),
            },
            TraceEvent::Sent { at, from, to, message } => TraceEventView::Sent {
                at: *at,
                from: *from,
                to: *to,
                message: message.deep_view(),
            },
        }
    }
}

impl Clone for TraceEvent {
    fn clone(&self) -> (copy: Self)
        ensures
            copy.deep_view() == self.deep_view(),
    {
        match self {
            TraceEvent::Tick { at, node, next_timeout } => TraceEvent::Tick {
                at: *at,
                node: *node,
                next_timeout: *next_timeout,
            },
            TraceEvent::Delivered { at, from, to, message } => TraceEvent::Delivered {
                at: *at,
                from: *from,
                to: *to,
                message: message.clone(),
            },
            TraceEvent::Sent { at, from, to, message } => TraceEvent::Sent {
                at: *at,
                from: *from,
                to: *to,
                message: message.clone(),
            },
        }
    }
}

/// What a trace begins with, every trace that continues it begins with too.
pub proof fn lemma_continued(
    first: Seq<TraceEventView>,
    second: Seq<TraceEventView>,
    third: Seq<TraceEventView>,
)
    requires
        first.is_prefix_of(second),
        second.is_prefix_of(third),
    ensures
        first.is_prefix_of(third),
{
    assert forall|i: int| 0 <= i < first.len() implies first[i] == third[i] by {
        assert(first[i] == second.subrange(0, first.len() as int)[i]);
        assert(second[i] == third.subrange(0, second.len() as int)[i]);
    }
}

/// A message on its way.
#[derive(Debug)]
pub struct Envelope {
    pub from: NodeId,
    pub to: NodeId,
    pub message: Message,
}

/// The view of an [`Envelope`].
#[verifier::ext_equal]
pub struct EnvelopeView {
    pub from: NodeId,
    pub to: NodeId,
    pub message: MessageView,
}

impl DeepView for Envelope {
    type V = EnvelopeView;

    open spec fn deep_view(&self) -> EnvelopeView {
        EnvelopeView { from: self.from, to: self.to, message: self.message.deep_view() }
    }
}

/// The messages due at each tick, as views.
pub open spec fn view_inbox(inbox: Map<u64, Vec<Envelope>>) -> Map<u64, Seq<EnvelopeView>> {
    Map::new(|at: u64| inbox.contains_key(at), |at: u64| inbox[at].deep_view())
}

/// The messages due at `at`.
pub open spec fn due(inbox: Map<u64, Seq<EnvelopeView>>, at: u64) -> Seq<EnvelopeView> {
    if inbox.contains_key(at) {
        inbox[at]
    } else {
        Seq::empty()
    }
}

/// The inbox with one more message, due at `at`.
pub open spec fn posted(inbox: Map<u64, Seq<EnvelopeView>>, at: u64, envelope: EnvelopeView) -> Map<
    u64,
    Seq<EnvelopeView>,
> {
    inbox.insert(at, due(inbox, at).push(envelope))
}

} // verus!
