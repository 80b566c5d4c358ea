//! How long the logs of a cluster become, and whom they name.

use vstd::prelude::*;

use crate::raft::model;
use crate::raft::model::NodeState;
use crate::raft::types::{LogEntryView, LogPayloadView, NodeId, Role};
use crate::safety::record;
use crate::safety::record::Record;
use crate::safety::updates;

verus! {

/// How long a log is, or will be once the transition it is in has ended.
pub open spec fn extent(genesis: Seq<NodeId>, log: Seq<LogEntryView>) -> int {
    log.len() + if record::config_of(genesis, log).is_joint() {
        1int
    } else {
        0int
    }
}

/// Whether every configuration in a log is made up of `known` nodes.
pub open spec fn names_only(log: Seq<LogEntryView>, known: Set<NodeId>) -> bool {
    forall|i: int|
        0 <= i < log.len() ==> ((#[trigger] log[i]).payload matches LogPayloadView::Configuration(
            config,
        ) ==> config.members().subset_of(known))
}

impl Record {
    /// Whether no leader's log goes beyond `cap`, or names others than the
    /// `known` nodes.
    pub open spec fn within(self, genesis: Seq<NodeId>, cap: int, known: Set<NodeId>) -> bool {
        forall|term: u64| #[trigger]
            self.led(term) ==> extent(genesis, self.logs[term]) <= cap && names_only(
                self.logs[term],
                known,
            )
    }
}

/// What holds of a log holds of its beginning.
proof fn lemma_part(
    genesis: Seq<NodeId>,
    log: Seq<LogEntryView>,
    whole: Seq<LogEntryView>,
    cap: int,
    known: Set<NodeId>,
)
    requires
        record::agree(log, whole, log.len() as int),
        extent(genesis, whole) <= cap,
        names_only(whole, known),
    ensures
        extent(genesis, log) <= cap,
        names_only(log, known),
{
    if log.len() == whole.len() {
        assert(log =~= whole);
    }
    assert forall|i: int| 0 <= i < log.len() implies ((
    #[trigger] log[i]).payload matches LogPayloadView::Configuration(config)
        ==> config.members().subset_of(known)) by {
        assert(whole[i] == log[i]);
    }
}

/// A log that stems from the leaders goes no further than theirs.
pub proof fn lemma_rooted(
    genesis: Seq<NodeId>,
    r: Record,
    log: Seq<LogEntryView>,
    cap: int,
    known: Set<NodeId>,
)
    requires
        r.rooted(log),
        r.within(genesis, cap, known),
        0 <= cap,
    ensures
        extent(genesis, log) <= cap,
        names_only(log, known),
{
    reveal(Record::rooted);
    if log.len() > 0 {
        let last = log[log.len() - 1];
        assert(r.led(last.term));
        lemma_part(genesis, log, r.logs[last.term], cap, known);
    }
}

proof fn lemma_elected_within(
    genesis: Seq<NodeId>,
    r: Record,
    next: Record,
    cap: int,
    known: Set<NodeId>,
    term: u64,
)
    requires
        r.within(genesis, cap, known),
        r.adds_no_entry(next),
        next.consistent(genesis),
        0 <= cap,
        next.led(term),
    ensures
        extent(genesis, next.logs[term]) <= cap,
        names_only(next.logs[term], known),
    decreases term,
{
    if !r.led(term) {
        let log = next.logs[term];
        assert(next.leader_recorded(genesis, term));
        assert(next.campaigned(next.leaders[term], term));
        assert(next.campaign_recorded(next.leaders[term], term));
        if log.len() > 0 {
            reveal(Record::rooted);
            let last = log[log.len() - 1];
            assert(next.led(last.term));
            assert(last.term <= term - 1);
            lemma_elected_within(genesis, r, next, cap, known, last.term);
            lemma_part(genesis, log, next.logs[last.term], cap, known);
        }
    }
}

/// Where no leader has appended anything, no log goes further than before.
pub proof fn lemma_no_entry(
    genesis: Seq<NodeId>,
    r: Record,
    next: Record,
    cap: int,
    known: Set<NodeId>,
)
    requires
        r.within(genesis, cap, known),
        r.adds_no_entry(next),
        next.consistent(genesis),
        0 <= cap,
    ensures
        next.within(genesis, cap, known),
{
    assert forall|term: u64| #[trigger] next.led(term) implies extent(genesis, next.logs[term])
        <= cap && names_only(next.logs[term], known) by {
        lemma_elected_within(genesis, r, next, cap, known, term);
    }
}

/// An entry takes a log one further, the beginning of a transition two.
pub open spec fn demand(entry: LogEntryView) -> int {
    match entry.payload {
        LogPayloadView::Command(_) => 1,
        LogPayloadView::Configuration(_) => 2,
    }
}

/// A leader has appended an entry.
pub proof fn lemma_entry(
    genesis: Seq<NodeId>,
    r: Record,
    term: u64,
    entry: LogEntryView,
    cap: int,
    known: Set<NodeId>,
)
    requires
        r.within(genesis, cap, known),
        r.led(term),
        entry.payload matches LogPayloadView::Configuration(config)
            ==> config.members().subset_of(known),
    ensures
        r.with_entry(term, entry).within(genesis, cap + demand(entry), known),
{
    let next = r.with_entry(term, entry);
    model::lemma_latest_push(r.logs[term], entry);
    assert forall|other: u64| #[trigger] next.led(other) implies extent(genesis, next.logs[other])
        <= cap + demand(entry) && names_only(next.logs[other], known) by {
        assert(r.led(other));
    }
}

/// A leader has ended the transition it was in.
pub proof fn lemma_end(genesis: Seq<NodeId>, r: Record, s: NodeState, cap: int, known: Set<NodeId>)
    requires
        r.within(genesis, cap, known),
        r.led(s.current_term),
        s.config() == record::config_of(genesis, r.logs[s.current_term]),
        s.config().is_joint(),
    ensures
        r.with_end(s).within(genesis, cap, known),
{
    let term = s.current_term;
    let log = r.logs[term];
    let next = r.with_end(s);
    let entry = LogEntryView { term, payload: LogPayloadView::Configuration(s.settled_config()) };
    model::lemma_latest_push(log, entry);
    model::lemma_latest_bounds(log);
    let at = (model::latest_configuration(log)->0).1;
    assert(log[at].payload == LogPayloadView::Configuration(s.config()));
    assert(s.settled_config().members().subset_of(s.config().members()));
    assert forall|other: u64| #[trigger] next.led(other) implies extent(genesis, next.logs[other])
        <= cap && names_only(next.logs[other], known) by {
        assert(r.led(other));
    }
}

/// One event at a node leaves the logs within their bounds.
pub proof fn lemma_event(
    genesis: Seq<NodeId>,
    r: Record,
    next: Record,
    s: NodeState,
    cap: int,
    known: Set<NodeId>,
)
    requires
        r.within(genesis, cap, known),
        next.consistent(genesis),
        record::leadership_matches(genesis, r, s),
        r.adds_no_entry(next) || (s.role == Role::Leader && s.config().is_joint() && next
            == r.with_end(s)),
        0 <= cap,
    ensures
        next.within(genesis, cap, known),
{
    if r.adds_no_entry(next) {
        lemma_no_entry(genesis, r, next, cap, known);
    } else {
        lemma_end(genesis, r, s, cap, known);
    }
}

/// An entry given to a leader takes the logs no further than it demands, the
/// end of the transition it begins included.
pub proof fn lemma_appended(
    genesis: Seq<NodeId>,
    r: Record,
    next: Record,
    s: NodeState,
    payload: LogPayloadView,
    cap: int,
    known: Set<NodeId>,
)
    requires
        r.within(genesis, cap, known),
        record::leadership_matches(genesis, r, s),
        s.role == Role::Leader,
        payload matches LogPayloadView::Configuration(config) ==> config.members().subset_of(known),
        ({
            let appended = r.with_entry(
                s.current_term,
                (LogEntryView { term: s.current_term, payload }),
            );
            let grown = s.append(payload);
            next == appended || (grown.config().is_joint() && next == appended.with_end(grown))
        }),
    ensures
        next.within(
            genesis,
            cap + demand((LogEntryView { term: s.current_term, payload })),
            known,
        ),
{
    let term = s.current_term;
    let entry = LogEntryView { term, payload };
    let appended = r.with_entry(term, entry);
    let grown = s.append(payload);
    assert(r.led(term));
    lemma_entry(genesis, r, term, entry, cap, known);
    if next != appended {
        model::lemma_latest_push(r.logs[term], entry);
        model::lemma_latest_push(s.log, entry);
        assert(appended.led(term));
        lemma_end(genesis, appended, grown, cap + demand(entry), known);
    }
}

/// A node's configuration is made up of known nodes.
pub proof fn lemma_config_known(
    genesis: Seq<NodeId>,
    r: Record,
    s: NodeState,
    cap: int,
    known: Set<NodeId>,
)
    requires
        r.within(genesis, cap, known),
        record::snapshot_matches(genesis, r, s),
        record::log_matches(r, s),
        genesis.to_set().subset_of(known),
        0 <= cap,
    ensures
        s.config().members().subset_of(known),
{
    let log = r.full(s);
    lemma_rooted(genesis, r, log, cap, known);
    updates::lemma_knows(genesis, r, s);
    model::lemma_latest_bounds(log);
    if let Some((config, at)) = model::latest_configuration(log) {
        assert(log[at].payload == LogPayloadView::Configuration(config));
    }
}

} // verus!
