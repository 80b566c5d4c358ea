//! Logical time, and messages that take a seeded number of ticks to arrive.

use std::collections::BTreeMap;

use vstd::prelude::*;

use crate::raft::types::{Effect, EffectView, Message, MessageView, NodeId};
use crate::sim::rng;
use crate::sim::rng::Rng;
use crate::sim::trace;
use crate::sim::trace::{Envelope, EnvelopeView, TraceEvent, TraceEventView};

verus! {

/// The state of a [`Network`].
#[verifier::ext_equal]
pub struct NetworkState {
    pub rng: u64,
    pub clock: u64,
    pub inbox: Map<u64, Seq<EnvelopeView>>,
    pub min_timeout: u64,
    pub max_timeout: u64,
    pub min_delay: u64,
    pub max_delay: u64,
    pub trace: Seq<TraceEventView>,
}

impl NetworkState {
    /// At tick zero, with nothing sent.
    pub open spec fn initial(
        seed: u64,
        min_timeout: u64,
        max_timeout: u64,
        min_delay: u64,
        max_delay: u64,
    ) -> NetworkState {
        NetworkState {
            rng: seed,
            clock: 0,
            inbox: Map::empty(),
            min_timeout,
            max_timeout,
            min_delay,
            max_delay,
            trace: Seq::empty(),
        }
    }

    /// How long the next message takes.
    pub open spec fn delay(self) -> u64 {
        rng::drawn(self.rng, self.min_delay, self.max_delay)
    }

    /// Sends one message, due after a drawn delay. Not possible with an empty
    /// range of delays, or past the end of time.
    pub open spec fn send(self, from: NodeId, to: NodeId, message: MessageView) -> Option<
        NetworkState,
    > {
        if rng::range_ok(self.min_delay, self.max_delay) && self.clock + self.delay() <= u64::MAX {
            Some(
                NetworkState {
                    rng: rng::next_state(self.rng),
                    inbox: trace::posted(
                        self.inbox,
                        (self.clock + self.delay()) as u64,
                        EnvelopeView { from, to, message },
                    ),
                    trace: self.trace.push(
                        TraceEventView::Sent { at: self.clock, from, to, message },
                    ),
                    ..self
                },
            )
        } else {
            None
        }
    }

    /// Sends every message among `effects`, in order, but those to or from a
    /// node in `cut_off`.
    pub open spec fn route(self, from: NodeId, effects: Seq<EffectView>, cut_off: Set<NodeId>) -> Option<
        NetworkState,
    >
        decreases effects.len(),
    {
        if effects.len() == 0 {
            Some(self)
        } else {
            match effects[0] {
                EffectView::Send { to, message } => if cut_off.contains(from) || cut_off.contains(
                    to,
                ) {
                    self.route(from, effects.drop_first(), cut_off)
                } else {
                    match self.send(from, to, message) {
                        Some(next) => next.route(from, effects.drop_first(), cut_off),
                        None => None,
                    }
                },
                _ => self.route(from, effects.drop_first(), cut_off),
            }
        }
    }

    /// One tick later.
    pub open spec fn advance(self) -> Option<NetworkState> {
        if self.clock < u64::MAX {
            Some(NetworkState { clock: (self.clock + 1) as u64, ..self })
        } else {
            None
        }
    }

    /// The messages due now.
    pub open spec fn due(self) -> Seq<EnvelopeView> {
        trace::due(self.inbox, self.clock)
    }

    /// The messages due now are taken out.
    pub open spec fn without_due(self) -> NetworkState {
        NetworkState { inbox: self.inbox.remove(self.clock), ..self }
    }

    /// A delivery is recorded.
    pub open spec fn delivered(self, envelope: EnvelopeView) -> NetworkState {
        NetworkState {
            trace: self.trace.push(
                TraceEventView::Delivered {
                    at: self.clock,
                    from: envelope.from,
                    to: envelope.to,
                    message: envelope.message,
                },
            ),
            ..self
        }
    }

    /// The election timeout drawn for a node that ticks now.
    pub open spec fn timeout(self) -> u64 {
        rng::drawn(self.rng, self.min_timeout, self.max_timeout)
    }

    /// A node's tick is recorded, with the timeout drawn for it.
    pub open spec fn ticked(self, node: NodeId) -> Option<NetworkState> {
        if rng::range_ok(self.min_timeout, self.max_timeout) {
            Some(
                NetworkState {
                    rng: rng::next_state(self.rng),
                    trace: self.trace.push(
                        TraceEventView::Tick {
                            at: self.clock,
                            node,
                            next_timeout: self.timeout(),
                        },
                    ),
                    ..self
                },
            )
        } else {
            None
        }
    }
}

/// Effects without a message leave the network as it is.
proof fn lemma_route_nothing(
    net: NetworkState,
    from: NodeId,
    effects: Seq<EffectView>,
    cut_off: Set<NodeId>,
)
    requires
        forall|i: int| 0 <= i < effects.len() ==> !((#[trigger] effects[i]) is Send),
    ensures
        net.route(from, effects, cut_off) == Some(net),
    decreases effects.len(),
{
    if effects.len() > 0 {
        assert(!(effects[0] is Send));
        assert forall|i: int| 0 <= i < effects.drop_first().len() implies !((
        #[trigger] effects.drop_first()[i]) is Send) by {
            assert(!(effects[i + 1] is Send));
        }
        lemma_route_nothing(net, from, effects.drop_first(), cut_off);
    }
}

/// Whether every message under way is one of `all`.
pub open spec fn carries(inbox: Map<u64, Seq<EnvelopeView>>, all: Set<EnvelopeView>) -> bool {
    forall|at: u64, i: int|
        inbox.contains_key(at) && 0 <= i < inbox[at].len() ==> all.contains(
            #[trigger] inbox[at][i],
        )
}

/// Whether every message among `effects`, sent by `from`, is one of `all`.
pub open spec fn sends_within(
    from: NodeId,
    effects: Seq<EffectView>,
    all: Set<EnvelopeView>,
) -> bool {
    forall|i: int|
        0 <= i < effects.len() ==> ((#[trigger] effects[i]) matches EffectView::Send {
            to,
            message,
        } ==> all.contains(EnvelopeView { from, to, message }))
}

/// Routing adds nothing but what is sent, and takes no time.
pub proof fn routing_adds_what_is_sent(
    net: NetworkState,
    from: NodeId,
    effects: Seq<EffectView>,
    cut_off: Set<NodeId>,
    all: Set<EnvelopeView>,
)
    requires
        carries(net.inbox, all),
        sends_within(from, effects, all),
    ensures
        net.route(from, effects, cut_off) matches Some(next) ==> carries(next.inbox, all)
            && next.clock == net.clock,
    decreases effects.len(),
{
    if effects.len() > 0 {
        let rest = effects.drop_first();
        assert(sends_within(from, rest, all)) by {
            assert forall|i: int| 0 <= i < rest.len() implies ((
            #[trigger] rest[i]) matches EffectView::Send { to, message } ==> all.contains(
                EnvelopeView { from, to, message },
            )) by {
                assert(rest[i] == effects[i + 1]);
            }
        }
        match effects[0] {
            EffectView::Send { to, message } => {
                if cut_off.contains(from) || cut_off.contains(to) {
                    routing_adds_what_is_sent(net, from, rest, cut_off, all);
                } else if let Some(next) = net.send(from, to, message) {
                    let e = EnvelopeView { from, to, message };
                    assert(effects[0] == (EffectView::Send { to, message }));
                    assert forall|at: u64, i: int|
                        next.inbox.contains_key(at) && 0 <= i
                            < next.inbox[at].len() implies all.contains(
                        #[trigger] next.inbox[at][i],
                    ) by {
                        if net.inbox.contains_key(at) && i < net.inbox[at].len() {
                            assert(next.inbox[at][i] == net.inbox[at][i]);
                        } else {
                            assert(next.inbox[at][i] == e);
                        }
                    }
                    routing_adds_what_is_sent(next, from, rest, cut_off, all);
                }
            },
            _ => {
                routing_adds_what_is_sent(net, from, rest, cut_off, all);
            },
        }
    }
}

/// Routing only adds to the trace, and leaves the clock and the ranges to draw
/// from as they are.
pub proof fn routing_only_adds_to_the_trace(
    net: NetworkState,
    from: NodeId,
    effects: Seq<EffectView>,
    cut_off: Set<NodeId>,
)
    ensures
        net.route(from, effects, cut_off) matches Some(next) ==> net.trace.is_prefix_of(next.trace)
            && next == (NetworkState {
            rng: next.rng,
            inbox: next.inbox,
            trace: next.trace,
            ..net
        }),
    decreases effects.len(),
{
    if effects.len() > 0 {
        let rest = effects.drop_first();
        match effects[0] {
            EffectView::Send { to, message } => {
                if cut_off.contains(from) || cut_off.contains(to) {
                    routing_only_adds_to_the_trace(net, from, rest, cut_off);
                } else if let Some(next) = net.send(from, to, message) {
                    routing_only_adds_to_the_trace(next, from, rest, cut_off);
                }
            },
            _ => {
                routing_only_adds_to_the_trace(net, from, rest, cut_off);
            },
        }
    }
}

impl NetworkState {
    /// Whether there are timeouts and delays to draw.
    pub open spec fn can_draw(self) -> bool {
        rng::range_ok(self.min_timeout, self.max_timeout) && rng::range_ok(
            self.min_delay,
            self.max_delay,
        )
    }

    /// Whether a message sent now arrives before the end of time.
    pub open spec fn has_time(self) -> bool {
        self.clock + self.max_delay <= u64::MAX
    }
}

/// As long as there are delays to draw and time for them, anything can be
/// sent.
pub proof fn routing_is_possible(
    net: NetworkState,
    from: NodeId,
    effects: Seq<EffectView>,
    cut_off: Set<NodeId>,
)
    requires
        net.can_draw(),
        net.has_time(),
    ensures
        net.route(from, effects, cut_off) is Some,
    decreases effects.len(),
{
    if effects.len() > 0 {
        let rest = effects.drop_first();
        match effects[0] {
            EffectView::Send { to, message } => {
                if cut_off.contains(from) || cut_off.contains(to) {
                    routing_is_possible(net, from, rest, cut_off);
                } else {
                    rng::drawn_in_range(net.rng, net.min_delay, net.max_delay);
                    routing_is_possible(net.send(from, to, message)->0, from, rest, cut_off);
                }
            },
            _ => {
                routing_is_possible(net, from, rest, cut_off);
            },
        }
    }
}

/// The clock, the random numbers and the messages under way.
pub struct Network {
    rng: Rng,
    clock: u64,
    inbox: BTreeMap<u64, Vec<Envelope>>,
    min_timeout: u64,
    max_timeout: u64,
    min_delay: u64,
    max_delay: u64,
    trace: Vec<TraceEvent>,
}

impl View for Network {
    type V = NetworkState;

    closed spec fn view(&self) -> NetworkState {
        NetworkState {
            rng: self.rng@,
            clock: self.clock,
            inbox: trace::view_inbox(self.inbox@),
            min_timeout: self.min_timeout,
            max_timeout: self.max_timeout,
            min_delay: self.min_delay,
            max_delay: self.max_delay,
            trace: self.trace.deep_view(),
        }
    }
}

impl Network {
    pub fn new(seed: u64, min_timeout: u64, max_timeout: u64, min_delay: u64, max_delay: u64) -> (net:
        Self)
        ensures
            net@ == NetworkState::initial(seed, min_timeout, max_timeout, min_delay, max_delay),
    {
        let net = Network {
            rng: Rng::new(seed),
            clock: 0,
            inbox: BTreeMap::new(),
            min_timeout,
            max_timeout,
            min_delay,
            max_delay,
            trace: Vec::new(),
        };
        assert(net@.inbox =~= Map::empty());
        assert(net@.trace =~= Seq::empty());
        net
    }

    pub fn clock(&self) -> (clock: u64)
        ensures
            clock == self@.clock,
    {
        self.clock
    }

    pub fn trace(&self) -> (events: &[TraceEvent])
        ensures
            events@.len() == self@.trace.len(),
            forall|i: int|
                0 <= i < events@.len() ==> (#[trigger] events@[i]).deep_view() == self@.trace[i],
    {
        &self.trace
    }

    /// Everything recorded, for the network is done with.
    pub fn into_trace(self) -> (events: Vec<TraceEvent>)
        ensures
            events.deep_view() == self@.trace,
    {
        self.trace
    }

    fn record(&mut self, event: TraceEvent)
        ensures
            final(self)@ == (NetworkState {
                trace: old(self)@.trace.push(event.deep_view()),
                ..old(self)@
            }),
    {
        self.trace.push(event);
        assert(self@.trace =~= old(self)@.trace.push(event.deep_view()));
    }

    fn post(&mut self, at: u64, envelope: Envelope)
        ensures
            final(self)@ == (NetworkState {
                inbox: trace::posted(old(self)@.inbox, at, envelope.deep_view()),
                ..old(self)@
            }),
    {
        let ghost before = self.inbox@;
        let mut queue = match self.inbox.remove(&at) {
            Some(queue) => queue,
            None => Vec::new(),
        };
        let ghost waiting = queue.deep_view();
        assert(waiting =~= trace::due(old(self)@.inbox, at));
        queue.push(envelope);
        assert(queue.deep_view() =~= waiting.push(envelope.deep_view()));
        self.inbox.insert(at, queue);
        assert(self@.inbox =~= trace::posted(old(self)@.inbox, at, envelope.deep_view()));
    }

    fn send(&mut self, from: NodeId, to: NodeId, message: Message) -> (sent: bool)
        ensures
            sent == (old(self)@.send(from, to, message.deep_view()) is Some),
            sent ==> old(self)@.send(from, to, message.deep_view()) == Some(final(self)@),
    {
        if self.min_delay > self.max_delay || self.max_delay - self.min_delay == u64::MAX {
            return false;
        }
        let delay: u64 = self.rng.range_inclusive(self.min_delay, self.max_delay);
        if delay > u64::MAX - self.clock {
            return false;
        }
        let at: u64 = self.clock + delay;
        self.record(TraceEvent::Sent { at: self.clock, from, to, message: message.clone() });
        self.post(at, Envelope { from, to, message });
        assert(self@ =~= old(self)@.send(from, to, message.deep_view())->0);
        true
    }

    /// Sends every message among `effects` but those that `cut_off` stops.
    pub fn route(&mut self, from: NodeId, effects: &[Effect], cut_off: &[NodeId]) -> (sent: bool)
        ensures
            sent == (old(self)@.route(
                from,
                view_effects(effects@),
                cut_off@.to_set(),
            ) is Some),
            sent ==> old(self)@.route(from, view_effects(effects@), cut_off@.to_set()) == Some(
                final(self)@,
            ),
    {
        let ghost all = view_effects(effects@);
        let ghost cut = cut_off@.to_set();
        let mut i: usize = 0;
        assert(all.skip(0) =~= all);
        while i < effects.len()
            invariant
                i <= effects@.len(),
                all == view_effects(effects@),
                cut == cut_off@.to_set(),
                old(self)@.route(from, all, cut) == self@.route(from, all.skip(i as int), cut),
            decreases effects.len() - i,
        {
            proof {
                assert(all.skip(i as int).drop_first() =~= all.skip(i + 1));
                assert(all.skip(i as int)[0] == effects@[i as int].deep_view());
            }
            match &effects[i] {
                Effect::Send { to, message } => {
                    if !crate::raft::types::contains_id(cut_off, from)
                        && !crate::raft::types::contains_id(cut_off, *to) {
                        if !self.send(from, *to, message.clone()) {
                            return false;
                        }
                    }
                },
                _ => {},
            }
            i += 1;
        }
        assert(all.skip(i as int) =~= Seq::empty());
        true
    }

    pub fn advance(&mut self) -> (advanced: bool)
        ensures
            advanced == (old(self)@.advance() is Some),
            advanced ==> old(self)@.advance() == Some(final(self)@),
    {
        if self.clock == u64::MAX {
            return false;
        }
        self.clock += 1;
        assert(self@ =~= old(self)@.advance()->0);
        true
    }

    /// Takes out the messages due now.
    pub fn take_due(&mut self) -> (due: Vec<Envelope>)
        ensures
            due.deep_view() == old(self)@.due(),
            final(self)@ == old(self)@.without_due(),
    {
        let due = match self.inbox.remove(&self.clock) {
            Some(due) => due,
            None => Vec::new(),
        };
        assert(due.deep_view() =~= old(self)@.due());
        assert(self@.inbox =~= old(self)@.inbox.remove(self.clock));
        due
    }

    pub fn record_delivery(&mut self, envelope: &Envelope)
        ensures
            final(self)@ == old(self)@.delivered(envelope.deep_view()),
    {
        self.record(
            TraceEvent::Delivered {
                at: self.clock,
                from: envelope.from,
                to: envelope.to,
                message: envelope.message.clone(),
            },
        );
        assert(self@ =~= old(self)@.delivered(envelope.deep_view()));
    }

    /// Records a node's tick; the election timeout drawn for it.
    pub fn record_tick(&mut self, node: NodeId) -> (timeout: Option<u64>)
        ensures
            match timeout {
                Some(timeout) => old(self)@.ticked(node) == Some(final(self)@) && timeout
                    == old(self)@.timeout(),
                None => old(self)@.ticked(node) is None,
            },
    {
        if self.min_timeout > self.max_timeout || self.max_timeout - self.min_timeout == u64::MAX {
            return None;
        }
        let next_timeout: u64 = self.rng.range_inclusive(self.min_timeout, self.max_timeout);
        self.record(TraceEvent::Tick { at: self.clock, node, next_timeout });
        assert(self@ =~= old(self)@.ticked(node)->0);
        Some(next_timeout)
    }
}

/// The views of a sequence of effects.
pub open spec fn view_effects(effects: Seq<Effect>) -> Seq<EffectView> {
    Seq::new(effects.len(), |i: int| effects[i].deep_view())
}

} // verus!
