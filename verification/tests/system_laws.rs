//! What holds of any system of nodes, on concrete schedules: messages that are
//! lost, repeated and reordered, restarts, compaction and changing voters.

use std::collections::BTreeMap;

use kurogane::kv::{Command, Replica};
use kurogane::raft::{
    Effect, Event, HardState, LogEntry, Message, Node, NodeId, Role, Snapshot,
};
use kurogane::sim::{Cluster, Rng, Simulation};

const VOTERS: [u64; 3] = [1, 2, 3];
const EVERYONE: [u64; 5] = [1, 2, 3, 4, 5];

struct System {
    nodes: BTreeMap<u64, Node>,
    sent: Vec<(NodeId, NodeId, Message)>,
}

fn ids(numbers: &[u64]) -> Vec<NodeId> {
    numbers.iter().map(|&n| NodeId(n)).collect()
}

impl System {
    fn new() -> System {
        let mut nodes = BTreeMap::new();
        for n in EVERYONE {
            let node = if VOTERS.contains(&n) {
                Node::new(NodeId(n), ids(&VOTERS), 6 + n, 2).expect("valid voter")
            } else {
                Node::new_learner(NodeId(n), 6 + n, 2).expect("valid newcomer")
            };
            nodes.insert(n, node);
        }
        System { nodes, sent: Vec::new() }
    }

    fn post(&mut self, from: u64, effects: Vec<Effect>) {
        for effect in effects {
            if let Effect::Send { to, message } = effect {
                self.sent.push((NodeId(from), to, message));
            }
        }
    }

    fn event(&mut self, n: u64, event: Event) {
        let node = self.nodes.get_mut(&n).expect("known node");
        if node.can_step(&event) {
            let effects = node.step(event);
            self.post(n, effects);
        }
    }

    fn deliver(&mut self, rng: &mut Rng) {
        if self.sent.is_empty() {
            return;
        }
        let last = self.sent.len() as u64 - 1;
        let recent = last.saturating_sub(12);
        let at = rng.range_inclusive(recent, last) as usize;
        let (from, to, message) = self.sent[at].clone();
        self.event(to.0, Event::Step { from, message });
    }

    fn restart(&mut self, n: u64) {
        let node = &self.nodes[&n];
        let back = Node::recover(
            NodeId(n),
            ids(&VOTERS),
            6 + n,
            2,
            HardState { current_term: node.current_term(), voted_for: node.voted_for() },
            node.log().to_vec(),
            Snapshot {
                metadata: node.snapshot(),
                data: node.snapshot_data().to_vec(),
                config: node.snapshot_config().clone(),
            },
            node.learners().to_vec(),
        )
        .expect("valid node");
        self.nodes.insert(n, back);
    }

    fn change(&mut self, n: u64, rng: &mut Rng) {
        let wanted = match rng.range_inclusive(0, 3) {
            0 => ids(&[1, 2, 3]),
            1 => ids(&[1, 2, 3, 4]),
            2 => ids(&[2, 3, 4]),
            _ => ids(&[1, 3, 4, 5]),
        };
        let node = self.nodes.get_mut(&n).expect("known node");
        if node.role() != Role::Leader || node.current_config().is_joint() {
            return;
        }
        for &id in &wanted {
            node.add_learner(id);
        }
        if node.can_propose_config_change(&wanted) {
            let (_, effects) = node.propose_config_change(wanted).expect("a leader accepts");
            self.post(n, effects);
        }
    }

    fn happen(&mut self, rng: &mut Rng, counter: u64) {
        let n = EVERYONE[rng.range_inclusive(0, 4) as usize];
        match rng.range_inclusive(0, 99) {
            0..=34 => {
                let next_timeout = rng.range_inclusive(6, 18);
                self.event(n, Event::Tick { next_timeout });
            }
            35..=86 => self.deliver(rng),
            87..=92 => {
                let node = self.nodes.get_mut(&n).expect("known node");
                if node.role() == Role::Leader && node.can_propose() {
                    let command = counter.to_be_bytes().to_vec();
                    let (_, effects) = node.propose(command).expect("a leader accepts");
                    self.post(n, effects);
                }
            }
            93..=95 => self.change(n, rng),
            96 | 97 => {
                let node = self.nodes.get_mut(&n).expect("known node");
                let point = node.commit_index().saturating_sub(rng.range_inclusive(0, 3));
                node.compact(point, vec![7]).expect("what is compacted is committed");
            }
            _ => {
                if VOTERS.contains(&n) {
                    self.restart(n);
                }
            }
        }
    }
}

#[derive(Default)]
struct Seen {
    leaders: BTreeMap<u64, u64>,
    committed: BTreeMap<u64, (u64, LogEntry)>,
    changed: bool,
    compacted: bool,
}

impl Seen {
    fn look(&mut self, system: &System) {
        for (&n, node) in &system.nodes {
            if node.role() == Role::Leader {
                let known = *self.leaders.entry(node.current_term()).or_insert(n);
                assert_eq!(known, n, "one leader per term");
            }
            self.compacted |= node.snapshot().last_included_index > 0;
            self.changed |= node.voters() == ids(&[2, 3, 4]) && !node.current_config().is_joint();
            for index in 1..=node.commit_index() {
                if let Some(entry) = node.entry_at(index) {
                    let known = self
                        .committed
                        .entry(index)
                        .or_insert_with(|| (node.current_term(), entry.clone()));
                    assert_eq!(&known.1, entry, "commits are forever");
                }
            }
        }
        for node in system.nodes.values().filter(|node| node.role() == Role::Leader) {
            for (&index, (term, entry)) in &self.committed {
                if *term <= node.current_term() && index > node.snapshot().last_included_index {
                    assert_eq!(node.entry_at(index), Some(entry), "leaders have every commit");
                }
            }
        }
    }
}

fn logs_match(system: &System) {
    for a in system.nodes.values() {
        for b in system.nodes.values() {
            let low = a.snapshot().last_included_index.max(b.snapshot().last_included_index) + 1;
            let high = a.last_log_index().min(b.last_log_index());
            let shared = (low..=high).rev().find(|&index| {
                a.entry_at(index).map(|e| e.term) == b.entry_at(index).map(|e| e.term)
            });
            if let Some(last) = shared {
                for index in low..=last {
                    assert_eq!(a.entry_at(index), b.entry_at(index), "logs match");
                }
            }
        }
    }
}

#[test]
fn nothing_that_happens_breaks_what_every_system_promises() {
    let mut commits = 0;
    let mut changed = false;
    let mut compacted = false;
    for seed in 0..10 {
        let mut system = System::new();
        let mut rng = Rng::new(seed);
        let mut seen = Seen::default();
        for counter in 0..2500 {
            system.happen(&mut rng, counter);
            seen.look(&system);
            if counter % 50 == 0 {
                logs_match(&system);
            }
        }
        commits += seen.committed.len();
        changed |= seen.changed;
        compacted |= seen.compacted;
    }
    assert!(commits > 50, "only {commits} commits");
    assert!(changed, "the voters change at least once");
    assert!(compacted, "a log is compacted at least once");
}

#[test]
fn terms_have_one_leader_while_a_simulation_changes_its_voters() {
    for seed in 0..6 {
        let mut nodes = Vec::new();
        for n in VOTERS {
            nodes.push(Node::new(NodeId(n), ids(&VOTERS), 8, 2).expect("valid voter"));
        }
        nodes.push(Node::new_learner(NodeId(4), 8, 2).expect("valid newcomer"));
        let cluster = Cluster::new(nodes).expect("distinct nodes");
        let mut simulation = Simulation::new(cluster, seed, 8, 16, 1, 3);
        let mut leaders: BTreeMap<u64, NodeId> = BTreeMap::new();
        let mut proposed = false;
        for _ in 0..200 {
            assert!(simulation.try_step(), "every transition is possible");
            for (id, term) in simulation.leaders() {
                assert_eq!(*leaders.entry(term).or_insert(id), id);
                if !proposed {
                    simulation.add_learner(id, NodeId(4));
                    let outcome = simulation.propose_config_change(id, ids(&[2, 3, 4]));
                    assert_eq!(outcome, Some(1));
                    proposed = true;
                }
            }
        }
        assert!(proposed);
        let settled = simulation.node(NodeId(4)).expect("known node");
        assert_eq!(settled.voters(), ids(&[2, 3, 4]));
        assert!(!settled.current_config().is_joint());
        for index in 1..=settled.commit_index() {
            for n in EVERYONE {
                let Some(node) = simulation.node(NodeId(n)) else {
                    continue;
                };
                if index <= node.commit_index() {
                    assert_eq!(node.entry_at(index), settled.entry_at(index));
                }
            }
        }
    }
}

#[test]
fn a_compaction_loses_nothing_though_its_snapshot_is_further_on() {
    let node = Node::new(NodeId(1), vec![NodeId(1)], 1, 1).expect("valid node");
    let mut replica = Replica::new(node);
    replica.step(Event::Tick { next_timeout: 5 });
    let key = |n: u8| vec![b'k', n];
    for n in 0..4 {
        let put = Command::Put { key: key(n % 2), value: vec![n] };
        replica.propose(put).expect("a leader accepts");
    }
    replica.propose(Command::Delete { key: key(0) }).expect("a leader accepts");
    replica.compact(3).expect("something to compact");
    let node = replica.node();
    assert_eq!(node.snapshot().last_included_index, 2);
    assert_eq!(node.log().len(), 3);
    let mut back = Replica::recover(
        Node::recover(
            NodeId(1),
            vec![NodeId(1)],
            1,
            1,
            HardState { current_term: node.current_term(), voted_for: node.voted_for() },
            node.log().to_vec(),
            Snapshot {
                metadata: node.snapshot(),
                data: node.snapshot_data().to_vec(),
                config: node.snapshot_config().clone(),
            },
            Vec::new(),
        )
        .expect("valid node"),
    );
    assert_eq!(back.state_machine().last_applied(), 2);
    back.step(Event::Tick { next_timeout: 5 });
    back.propose(Command::Get { key: key(1) }).expect("a leader accepts");
    assert_eq!(back.state_machine().last_applied(), 6);
    assert!(back.state_machine().same_entries(replica.state_machine()));
    assert_eq!(back.state_machine().get(&key(0)), None);
    assert_eq!(back.state_machine().get(&key(1)), Some([3].as_slice()));
}

#[test]
fn a_simulation_ticks_on_through_changes_of_its_voters() {
    let all = ids(&[1, 2, 3, 4]);
    let mut nodes: Vec<Node> = VOTERS
        .iter()
        .map(|&n| Node::new(NodeId(n), ids(&VOTERS), 10 + n, 2).expect("valid voter"))
        .collect();
    nodes.push(Node::new_learner(NodeId(4), 14, 2).expect("valid newcomer"));
    let cluster = Cluster::new(nodes).expect("valid cluster");
    let mut simulation = Simulation::new(cluster, 21, 10, 20, 1, 3);
    let mut before = 0;
    for tick in 0..400u64 {
        assert!(simulation.try_step(), "a tick is always possible");
        assert!(simulation.trace().len() > before);
        before = simulation.trace().len();
        if let Some(&(leader, _)) = simulation.leaders().first() {
            let node = simulation.node(leader).expect("a known node");
            let config = node.current_config();
            if config.old_voters.is_some() {
                continue;
            }
            let joined = config.voters.contains(&NodeId(4));
            if tick >= 100 && !joined {
                simulation.add_learner(leader, NodeId(4));
                assert_eq!(simulation.trace().len(), before);
            }
            if tick >= 150 && !joined {
                let _ = simulation.propose_config_change(leader, all.clone());
            }
        }
    }
    assert_eq!(simulation.clock(), 400);
    let voters = &simulation.node(NodeId(1)).expect("a known node").current_config().voters;
    assert!(voters.contains(&NodeId(4)));
}

#[test]
fn a_simulation_stops_short_of_a_message_to_a_stranger() {
    let nodes = VOTERS
        .iter()
        .map(|&n| Node::new(NodeId(n), ids(&VOTERS), 10 + n, 2).expect("valid voter"))
        .collect();
    let mut simulation =
        Simulation::new(Cluster::new(nodes).expect("valid cluster"), 21, 10, 20, 1, 3);
    while simulation.leaders().is_empty() {
        assert!(simulation.try_step());
    }
    let leader = simulation.leaders()[0].0;
    simulation.add_learner(leader, NodeId(9));
    assert!((0..20).any(|_| !simulation.try_step()), "nobody is there to take it");
}
