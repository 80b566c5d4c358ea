//! A cluster of nodes by id.

use vstd::prelude::*;
use vstd::string::StringExecFns;

use crate::raft::ids;
use crate::raft::ids::NodeMap;
use crate::raft::model::NodeState;
use crate::raft::node::Node;
use crate::raft::types::NodeId;
use crate::text;
use crate::text::append_decimal;

verus! {

/// Invalid construction of a deterministic cluster. Members need not agree on
/// the configuration: during a transition they legitimately do not.
#[derive(Clone, Copy, Debug, Eq, PartialEq, Structural)]
pub enum ClusterError {
    EmptyCluster,
    DuplicateNode(NodeId),
}

impl ClusterError {
    /// The reason, for a person to read.
    pub fn message(&self) -> (text: String)
        ensures
            text@ == match self {
                ClusterError::EmptyCluster => "cluster must contain at least one node"@,
                ClusterError::DuplicateNode(node) => "cluster contains duplicate node NodeId("@
                    + text::characters(text::digits(node.0 as nat)) + ")"@,
            },
    {
        match self {
            ClusterError::EmptyCluster => String::from_str("cluster must contain at least one node"),
            ClusterError::DuplicateNode(node) => {
                let mut message = String::from_str("cluster contains duplicate node NodeId(");
                append_decimal(&mut message, node.0);
                message.append(")");
                message
            },
        }
    }
}

/// The states of nodes by id.
pub open spec fn view_nodes(nodes: Map<NodeId, Node>) -> Map<NodeId, NodeState> {
    Map::new(|id: NodeId| nodes.contains_key(id), |id: NodeId| nodes[id]@)
}

/// The states of a list of nodes by id, a later one in place of an earlier of
/// the same id.
pub open spec fn by_id(nodes: Seq<Node>) -> Map<NodeId, NodeState>
    decreases nodes.len(),
{
    if nodes.len() == 0 {
        Map::empty()
    } else {
        by_id(nodes.drop_last()).insert(nodes.last()@.id, nodes.last()@)
    }
}

/// Whether the node at `position` is the first whose id occurred before.
pub open spec fn first_duplicate(nodes: Seq<Node>, position: int) -> bool {
    &&& 0 <= position < nodes.len()
    &&& exists|i: int| 0 <= i < position && nodes[i]@.id == nodes[position]@.id
    &&& distinct(nodes.take(position))
}

/// Whether no two nodes share an id.
pub open spec fn distinct(nodes: Seq<Node>) -> bool {
    forall|i: int, j: int|
        0 <= i < j < nodes.len() ==> (#[trigger] nodes[i])@.id != (#[trigger] nodes[j])@.id
}

/// A fixed cluster whose node iteration order is canonical by [`NodeId`].
#[derive(Debug)]
pub struct Cluster {
    nodes: NodeMap<Node>,
}

impl View for Cluster {
    type V = Map<NodeId, NodeState>;

    closed spec fn view(&self) -> Map<NodeId, NodeState> {
        view_nodes(self.nodes@)
    }
}

impl Cluster {
    /// Every member is well formed.
    pub open spec fn wf(&self) -> bool {
        &&& self.inv()
        &&& forall|id: NodeId| #[trigger] self@.contains_key(id) ==> self@[id].wf()
    }

    pub closed spec fn inv(&self) -> bool {
        &&& self.nodes.wf()
        &&& forall|id: NodeId| #[trigger] self.nodes@.contains_key(id) ==> self.nodes@[id].inv()
    }

    /// Takes ownership of one node per member.
    pub fn new(nodes: Vec<Node>) -> (result: Result<Self, ClusterError>)
        requires
            forall|i: int| 0 <= i < nodes@.len() ==> (#[trigger] nodes@[i]).wf(),
        ensures
            match result {
                Ok(cluster) => {
                    &&& nodes@.len() > 0
                    &&& distinct(nodes@)
                    &&& cluster.wf()
                    &&& cluster@ == by_id(nodes@)
                },
                Err(ClusterError::EmptyCluster) => nodes@.len() == 0,
                Err(ClusterError::DuplicateNode(id)) => exists|position: int| #[trigger]
                    first_duplicate(nodes@, position) && nodes@[position]@.id == id,
            },
    {
        if nodes.len() == 0 {
            return Err(ClusterError::EmptyCluster);
        }
        let ghost all = nodes@;
        let mut rest = nodes;
        let mut reversed: Vec<Node> = Vec::new();
        while rest.len() > 0
            invariant
                rest@.len() + reversed@.len() == all.len(),
                rest@ == all.take(rest@.len() as int),
                forall|i: int|
                    0 <= i < reversed@.len() ==> #[trigger] reversed@[i] == all[all.len() - 1 - i],
            decreases rest.len(),
        {
            match rest.pop() {
                Some(node) => {
                    reversed.push(node);
                },
                None => {},
            }
            assert(rest@ =~= all.take(rest@.len() as int));
        }
        let mut by_key: NodeMap<Node> = NodeMap::new();
        assert(all.take(0) =~= Seq::empty());
        assert(view_nodes(by_key@) =~= by_id(all.take(0)));
        while reversed.len() > 0
            invariant
                all == nodes@,
                reversed@.len() <= all.len(),
                forall|i: int| 0 <= i < all.len() ==> (#[trigger] all[i]).wf(),
                forall|i: int|
                    0 <= i < reversed@.len() ==> #[trigger] reversed@[i] == all[all.len() - 1 - i],
                by_key.wf(),
                forall|id: NodeId| #[trigger] by_key@.contains_key(id) ==> by_key@[id].wf(),
                distinct(all.take(all.len() - reversed@.len())),
                view_nodes(by_key@) == by_id(all.take(all.len() - reversed@.len())),
                forall|id: NodeId| #[trigger]
                    by_key@.contains_key(id) <==> exists|i: int|
                        0 <= i < all.len() - reversed@.len() && all[i]@.id == id,
            decreases reversed.len(),
        {
            let ghost done = all.len() - reversed@.len();
            match reversed.pop() {
                Some(node) => {
                    let id = node.id();
                    let ghost before = by_key@;
                    proof {
                        assert(node == all[done as int]);
                        assert(all.take(done + 1).drop_last() =~= all.take(done as int));
                    }
                    match by_key.insert(id, node) {
                        Some(_) => {
                            proof {
                                let i = choose|i: int| 0 <= i < done && all[i]@.id == id;
                                assert(all[i]@.id == all[done as int]@.id);
                                assert(first_duplicate(all, done as int));
                            }
                            return Err(ClusterError::DuplicateNode(id));
                        },
                        None => {
                            proof {
                                assert forall|i: int, j: int| 0 <= i < j < done + 1 implies (
                                #[trigger] all.take(done + 1)[i])@.id != (
                                #[trigger] all.take(done + 1)[j])@.id by {
                                    if j < done {
                                        assert(all.take(done as int)[i]@.id != all.take(
                                            done as int,
                                        )[j]@.id);
                                    } else {
                                        assert(!before.contains_key(id));
                                    }
                                }
                                assert(view_nodes(by_key@) =~= by_id(all.take(done + 1)));
                                assert forall|k: NodeId| #[trigger] by_key@.contains_key(k) <==> exists|i: int|
                                    0 <= i < done + 1 && all[i]@.id == k by {
                                    if k == id {
                                        assert(all[done as int]@.id == k);
                                    } else if before.contains_key(k) {
                                        let i = choose|i: int| 0 <= i < done && all[i]@.id == k;
                                        assert(all[i]@.id == k);
                                    }
                                }
                            }
                        },
                    }
                },
                None => {},
            }
        }
        assert(all.take(all.len() as int) =~= all);
        Ok(Cluster { nodes: by_key })
    }

    pub fn len(&self) -> (count: usize)
        requires
            self.wf(),
        ensures
            self@.dom().finite(),
            count == self@.dom().len(),
    {
        assert(self@.dom() =~= self.nodes@.dom());
        self.nodes.len()
    }

    pub fn is_empty(&self) -> (empty: bool)
        requires
            self.wf(),
        ensures
            empty == (self@.dom().len() == 0),
    {
        self.len() == 0
    }

    pub fn node(&self, id: NodeId) -> (node: Option<&Node>)
        requires
            self.wf(),
        ensures
            match node {
                Some(node) => self@.contains_key(id) && node@ == self@[id] && node.wf(),
                None => !self@.contains_key(id),
            },
    {
        let node = self.nodes.get(id);
        assert(self@.contains_key(id) == self.nodes@.contains_key(id));
        node
    }

    /// One member, to be changed in place.
    pub fn node_mut(&mut self, id: NodeId) -> (node: Option<&mut Node>)
        requires
            old(self).wf(),
        ensures
            match node {
                Some(node) => {
                    &&& old(self)@.contains_key(id)
                    &&& node@ == old(self)@[id]
                    &&& node.wf()
                    &&& final(self)@ == old(self)@.insert(id, final(node)@)
                    &&& final(node).wf() ==> final(self).wf()
                },
                None => !old(self)@.contains_key(id) && *final(self) == *old(self),
            },
    {
        proof {
            assert(self@.contains_key(id) == self.nodes@.contains_key(id));
            assert(self.nodes@.contains_key(id) ==> self@[id] == self.nodes@[id]@);
            assert forall|after: Map<NodeId, Node>, node: Node| after == #[trigger] self.nodes@.insert(id, node) implies #[trigger] view_nodes(after) == self@.insert(id, node@) by {
                assert(view_nodes(after) =~= self@.insert(id, node@));
            }
        }
        self.nodes.get_mut(id)
    }

    /// The ids of all members, in ascending order.
    pub fn node_ids(&self) -> (ids: &[NodeId])
        requires
            self.wf(),
        ensures
            ids@ == ids::sorted_ids(self@.dom()),
            ids@.to_set() == self@.dom(),
    {
        assert(self@.dom() =~= self.nodes@.dom());
        self.nodes.keys()
    }

    /// Replaces one member's node in place -- e.g. after simulating a crash and
    /// reconstructing it with [`Node::recover`].
    pub fn replace_node(&mut self, node: Node)
        requires
            old(self).wf(),
            node.wf(),
            old(self)@.contains_key(node@.id),
        ensures
            final(self).wf(),
            final(self)@ == old(self)@.insert(node@.id, node@),
    {
        let id = node.id();
        self.nodes.insert(id, node);
        assert(self@ =~= old(self)@.insert(id, node@));
        assert forall|k: NodeId| #[trigger] self@.contains_key(k) implies self@[k].wf() by {
            if k != id {
                assert(old(self)@.contains_key(k));
            }
        }
    }
}

} // verus!
