//! Sets of node ids and maps keyed by node id, both held in ascending order.

use vstd::prelude::*;

use crate::raft::types::NodeId;

verus! {

/// Whether `ids` is strictly ascending.
pub open spec fn ascending(ids: Seq<NodeId>) -> bool {
    forall|i: int, j: int| 0 <= i < j < ids.len() ==> (#[trigger] ids[i]).0 < (#[trigger] ids[j]).0
}

/// The members of a finite set in ascending order.
pub open spec fn sorted_ids(set: Set<NodeId>) -> Seq<NodeId> {
    choose|ids: Seq<NodeId>| ascending(ids) && #[trigger] ids.to_set() == set
}

/// An ascending sequence is determined by its elements.
proof fn lemma_ascending_unique(a: Seq<NodeId>, b: Seq<NodeId>)
    requires
        ascending(a),
        ascending(b),
        a.to_set() == b.to_set(),
    ensures
        a == b,
    decreases a.len(),
{
    assert forall|x: NodeId| a.contains(x) == b.contains(x) by {
        assert(a.to_set().contains(x) == a.contains(x));
        assert(b.to_set().contains(x) == b.contains(x));
    }
    if a.len() == 0 {
        if b.len() > 0 {
            assert(b.contains(b[0]));
            assert(a.contains(b[0]));
        }
        assert(a =~= b);
    } else {
        assert(a.contains(a.last()));
        assert(b.contains(a.last()));
        assert(b.contains(b.last()));
        assert(a.contains(b.last()));
        let i = choose|i: int| 0 <= i < b.len() && b[i] == a.last();
        let j = choose|j: int| 0 <= j < a.len() && a[j] == b.last();
        assert(a[j].0 <= a.last().0);
        assert(b[i].0 <= b.last().0);
        assert(a.last() == b.last());
        let a0 = a.drop_last();
        let b0 = b.drop_last();
        assert(a0.to_set() =~= b0.to_set()) by {
            assert forall|x: NodeId| a0.to_set().contains(x) == b0.to_set().contains(x) by {
                if a0.contains(x) {
                    let k = choose|k: int| 0 <= k < a0.len() && a0[k] == x;
                    assert(a[k] == x);
                    assert(a.contains(x));
                    let l = choose|l: int| 0 <= l < b.len() && b[l] == x;
                    assert(a[k].0 < a.last().0);
                    assert(b0[l] == x);
                }
                if b0.contains(x) {
                    let k = choose|k: int| 0 <= k < b0.len() && b0[k] == x;
                    assert(b[k] == x);
                    assert(b.contains(x));
                    let l = choose|l: int| 0 <= l < a.len() && a[l] == x;
                    assert(b[k].0 < b.last().0);
                    assert(a0[l] == x);
                }
            }
        }
        lemma_ascending_unique(a0, b0);
        assert(a =~= a0.push(a.last()));
        assert(b =~= b0.push(b.last()));
    }
}

/// An ascending sequence is the sorted form of its own elements.
proof fn lemma_sorted_ids(ids: Seq<NodeId>)
    requires
        ascending(ids),
    ensures
        sorted_ids(ids.to_set()) == ids,
{
    lemma_ascending_unique(sorted_ids(ids.to_set()), ids);
}

/// An ascending sequence has no duplicates, so its set is finite and has as
/// many members as the sequence is long.
pub proof fn lemma_ascending_len(ids: Seq<NodeId>)
    requires
        ascending(ids),
    ensures
        ids.to_set().finite(),
        ids.to_set().len() == ids.len(),
{
    ids.unique_seq_to_set();
}

/// Every finite set has a sorted form.
pub proof fn lemma_sorted_exists(set: Set<NodeId>)
    requires
        set.finite(),
    ensures
        ascending(sorted_ids(set)),
        sorted_ids(set).to_set() == set,
        sorted_ids(set).len() == set.len(),
    decreases set.len(),
{
    if set.len() == 0 {
        let empty: Seq<NodeId> = Seq::empty();
        assert(empty.to_set() =~= set);
        lemma_sorted_ids(empty);
    } else {
        let x = set.choose();
        let rest = set.remove(x);
        lemma_sorted_exists(rest);
        let r = sorted_ids(rest);
        assert(!r.contains(x)) by {
            assert(r.to_set().contains(x) == rest.contains(x));
        }
        let k = lemma_rank_exists(r, x);
        let full = r.insert(k, x);
        assert(full.to_set() =~= set) by {
            assert forall|y: NodeId| full.to_set().contains(y) == set.contains(y) by {
                r.insert_ensures(k, x);
                assert(r.to_set().contains(y) == rest.contains(y));
                if y == x {
                    assert(full[k] == x);
                } else if r.contains(y) {
                    let i = choose|i: int| 0 <= i < r.len() && r[i] == y;
                    if i < k {
                        assert(full[i] == y);
                    } else {
                        assert(full[i + 1] == y);
                    }
                } else if full.contains(y) {
                    let i = choose|i: int| 0 <= i < full.len() && full[i] == y;
                    if i < k {
                        assert(r[i] == y);
                    } else {
                        assert(r[i - 1] == y);
                    }
                }
            }
        }
        lemma_sorted_ids(full);
        lemma_ascending_len(full);
    }
}

proof fn lemma_rank_exists(ids: Seq<NodeId>, x: NodeId) -> (k: int)
    requires
        ascending(ids),
        !ids.contains(x),
    ensures
        0 <= k <= ids.len(),
        ascending(ids.insert(k, x)),
    decreases ids.len(),
{
    if ids.len() == 0 || ids.last().0 < x.0 {
        ids.len() as int
    } else {
        assert(ids.contains(ids.last()));
        let shorter = ids.drop_last();
        assert(!shorter.contains(x)) by {
            if shorter.contains(x) {
                let i = choose|i: int| 0 <= i < shorter.len() && shorter[i] == x;
                assert(ids[i] == x);
            }
        }
        let k = lemma_rank_exists(shorter, x);
        assert(ids.insert(k, x) =~= shorter.insert(k, x).push(ids.last()));
        let full = ids.insert(k, x);
        assert forall|i: int, j: int| 0 <= i < j < full.len() implies (#[trigger] full[i]).0 < (
        #[trigger] full[j]).0 by {
            if j < full.len() - 1 {
                assert(shorter.insert(k, x)[i].0 < shorter.insert(k, x)[j].0);
            } else if i == k {
            } else if i < k {
                assert(full[i] == ids[i]);
            } else {
                assert(full[i] == ids[i - 1]);
            }
        }
        k
    }
}

/// How many elements of an ascending slice are below `id`: where `id` is, or
/// where it belongs.
fn rank(ids: &[NodeId], id: NodeId) -> (position: usize)
    requires
        ascending(ids@),
    ensures
        position <= ids@.len(),
        forall|i: int| 0 <= i < position ==> (#[trigger] ids@[i]).0 < id.0,
        forall|i: int| position <= i < ids@.len() ==> (#[trigger] ids@[i]).0 >= id.0,
{
    let mut low: usize = 0;
    let mut high: usize = ids.len();
    while low < high
        invariant
            low <= high <= ids@.len(),
            ascending(ids@),
            forall|i: int| 0 <= i < low ==> (#[trigger] ids@[i]).0 < id.0,
            forall|i: int| high <= i < ids@.len() ==> (#[trigger] ids@[i]).0 >= id.0,
        decreases high - low,
    {
        let middle: usize = low + (high - low) / 2;
        if ids[middle].0 < id.0 {
            low = middle + 1;
        } else {
            high = middle;
        }
    }
    low
}

/// A set of node ids.
#[derive(Debug, Eq, PartialEq)]
pub struct NodeSet {
    items: Vec<NodeId>,
}

impl View for NodeSet {
    type V = Set<NodeId>;

    closed spec fn view(&self) -> Set<NodeId> {
        self.items@.to_set()
    }
}

impl NodeSet {
    /// The members are held in ascending order.
    pub closed spec fn wf(&self) -> bool {
        ascending(self.items@)
    }

    pub fn new() -> (set: Self)
        ensures
            set.wf(),
            set@ == Set::<NodeId>::empty(),
    {
        let set = NodeSet { items: Vec::new() };
        assert(set@ =~= Set::<NodeId>::empty());
        set
    }

    /// The set of the elements of `ids`.
    pub fn from_ids(ids: &[NodeId]) -> (set: Self)
        ensures
            set.wf(),
            set@ == ids@.to_set(),
    {
        let mut set = NodeSet::new();
        let mut i: usize = 0;
        assert(ids@.take(0).to_set() =~= Set::<NodeId>::empty());
        while i < ids.len()
            invariant
                i <= ids@.len(),
                set.wf(),
                set@ == ids@.take(i as int).to_set(),
            decreases ids.len() - i,
        {
            set.insert(ids[i]);
            proof {
                assert(ids@.take(i + 1) =~= ids@.take(i as int).push(ids@[i as int]));
                ids@.take(i as int).lemma_push_to_set_commute(ids@[i as int]);
            }
            i += 1;
        }
        assert(ids@.take(ids@.len() as int) =~= ids@);
        set
    }

    pub fn len(&self) -> (count: usize)
        requires
            self.wf(),
        ensures
            self@.finite(),
            count == self@.len(),
    {
        proof {
            lemma_ascending_len(self.items@);
        }
        self.items.len()
    }

    pub fn contains(&self, id: NodeId) -> (found: bool)
        requires
            self.wf(),
        ensures
            found == self@.contains(id),
    {
        let at: usize = rank(&self.items, id);
        if at < self.items.len() && self.items[at] == id {
            true
        } else {
            proof {
                if self.items@.contains(id) {
                    let i = choose|i: int| 0 <= i < self.items@.len() && self.items@[i] == id;
                    assert(i >= at);
                    assert(self.items@[at as int].0 >= id.0);
                }
            }
            false
        }
    }

    /// Adds `id`; tells whether it was absent before.
    pub fn insert(&mut self, id: NodeId) -> (added: bool)
        requires
            old(self).wf(),
        ensures
            final(self).wf(),
            final(self)@ == old(self)@.insert(id),
            added == !old(self)@.contains(id),
    {
        let at: usize = rank(&self.items, id);
        if at < self.items.len() && self.items[at] == id {
            assert(self@ =~= old(self)@.insert(id));
            return false;
        }
        proof {
            if self.items@.contains(id) {
                let i = choose|i: int| 0 <= i < self.items@.len() && self.items@[i] == id;
                assert(i >= at);
                assert(self.items@[at as int].0 >= id.0);
            }
        }
        let ghost before = self.items@;
        self.items.insert(at, id);
        proof {
            assert forall|x: NodeId| self@.contains(x) == before.to_set().insert(id).contains(x) by {
                before.insert_ensures(at as int, id);
                if x == id {
                    assert(self.items@[at as int] == id);
                } else if before.contains(x) {
                    let i = choose|i: int| 0 <= i < before.len() && before[i] == x;
                    if i < at {
                        assert(self.items@[i] == x);
                    } else {
                        assert(self.items@[i + 1] == x);
                    }
                } else if self.items@.contains(x) {
                    let i = choose|i: int| 0 <= i < self.items@.len() && self.items@[i] == x;
                    if i < at {
                        assert(before[i] == x);
                    } else {
                        assert(before[i - 1] == x);
                    }
                }
            }
            assert(self@ =~= old(self)@.insert(id));
        }
        true
    }

    /// Takes `id` out; tells whether it was there.
    pub fn remove(&mut self, id: NodeId) -> (removed: bool)
        requires
            old(self).wf(),
        ensures
            final(self).wf(),
            final(self)@ == old(self)@.remove(id),
            removed == old(self)@.contains(id),
    {
        let at: usize = rank(&self.items, id);
        let ghost before = self.items@;
        if at < self.items.len() && self.items[at] == id {
            let _ = self.items.remove(at);
            proof {
                assert(before.contains(id));
                assert forall|x: NodeId|
                    self@.contains(x) == before.to_set().remove(id).contains(x) by {
                    if before.contains(x) && x != id {
                        let i = choose|i: int| 0 <= i < before.len() && before[i] == x;
                        if i < at {
                            assert(self.items@[i] == x);
                        } else {
                            assert(self.items@[i - 1] == x);
                        }
                    }
                    if self.items@.contains(x) {
                        let i = choose|i: int| 0 <= i < self.items@.len() && self.items@[i] == x;
                        if i < at {
                            assert(before[i] == x);
                        } else {
                            assert(before[i + 1] == x);
                        }
                    }
                }
                assert(self@ =~= old(self)@.remove(id));
            }
            true
        } else {
            proof {
                if self.items@.contains(id) {
                    let i = choose|i: int| 0 <= i < self.items@.len() && self.items@[i] == id;
                    assert(i >= at);
                    assert(self.items@[at as int].0 >= id.0);
                }
                assert(self@ =~= old(self)@.remove(id));
            }
            false
        }
    }

    pub fn clear(&mut self)
        ensures
            final(self).wf(),
            final(self)@ == Set::<NodeId>::empty(),
    {
        self.items.clear();
        assert(self@ =~= Set::<NodeId>::empty());
    }

    /// The members in ascending order.
    pub fn as_slice(&self) -> (ids: &[NodeId])
        requires
            self.wf(),
        ensures
            ids@ == sorted_ids(self@),
            ascending(ids@),
            ids@.to_set() == self@,
    {
        proof {
            lemma_sorted_ids(self.items@);
        }
        &self.items
    }
}

impl Clone for NodeSet {
    fn clone(&self) -> (copy: Self)
        ensures
            self.wf() ==> copy.wf(),
            copy@ == self@,
    {
        let copy = NodeSet { items: self.items.clone() };
        assert(copy.items@ =~= self.items@);
        copy
    }
}

/// A map keyed by node id.
#[derive(Debug)]
pub struct NodeMap<V> {
    keys: Vec<NodeId>,
    values: Vec<V>,
}

/// Where `id` stands in `keys`.
spec fn position_of(keys: Seq<NodeId>, id: NodeId) -> int {
    choose|i: int| 0 <= i < keys.len() && keys[i] == id
}

impl<V> View for NodeMap<V> {
    type V = Map<NodeId, V>;

    closed spec fn view(&self) -> Map<NodeId, V> {
        Map::new(|id: NodeId| self.keys@.contains(id), |id: NodeId| self.values@[position_of(self.keys@, id)])
    }
}

impl<V> NodeMap<V> {
    /// The keys are held in ascending order, each beside its value.
    pub closed spec fn wf(&self) -> bool {
        ascending(self.keys@) && self.keys@.len() == self.values@.len()
    }

    proof fn lemma_at(&self, i: int)
        requires
            self.wf(),
            0 <= i < self.keys@.len(),
        ensures
            self@.contains_key(self.keys@[i]),
            self@[self.keys@[i]] == self.values@[i],
    {
        assert(self.keys@.contains(self.keys@[i]));
        let p = position_of(self.keys@, self.keys@[i]);
        assert(p == i) by {
            if p < i {
                assert(self.keys@[p].0 < self.keys@[i].0);
            } else if i < p {
                assert(self.keys@[i].0 < self.keys@[p].0);
            }
        }
    }

    pub fn new() -> (map: Self)
        ensures
            map.wf(),
            map@ == Map::<NodeId, V>::empty(),
    {
        let map = NodeMap { keys: Vec::new(), values: Vec::new() };
        assert(map@ =~= Map::<NodeId, V>::empty());
        map
    }

    pub fn len(&self) -> (count: usize)
        requires
            self.wf(),
        ensures
            self@.dom().finite(),
            count == self@.dom().len(),
    {
        proof {
            lemma_ascending_len(self.keys@);
            assert(self@.dom() =~= self.keys@.to_set());
        }
        self.keys.len()
    }

    /// The keys in ascending order.
    pub fn keys(&self) -> (ids: &[NodeId])
        requires
            self.wf(),
        ensures
            ids@ == sorted_ids(self@.dom()),
            ascending(ids@),
            ids@.to_set() == self@.dom(),
    {
        proof {
            lemma_sorted_ids(self.keys@);
            assert(self@.dom() =~= self.keys@.to_set());
        }
        &self.keys
    }

    fn find(&self, id: NodeId) -> (at: Option<usize>)
        requires
            self.wf(),
        ensures
            match at {
                Some(i) => i < self.keys@.len() && self.keys@[i as int] == id && self@.contains_key(id)
                    && self@[id] == self.values@[i as int],
                None => !self@.contains_key(id) && !self.keys@.contains(id),
            },
    {
        let at: usize = rank(&self.keys, id);
        if at < self.keys.len() && self.keys[at] == id {
            proof {
                self.lemma_at(at as int);
            }
            Some(at)
        } else {
            proof {
                if self.keys@.contains(id) {
                    let i = choose|i: int| 0 <= i < self.keys@.len() && self.keys@[i] == id;
                    assert(i >= at);
                    assert(self.keys@[at as int].0 >= id.0);
                }
            }
            None
        }
    }

    pub fn contains_key(&self, id: NodeId) -> (found: bool)
        requires
            self.wf(),
        ensures
            found == self@.contains_key(id),
    {
        self.find(id).is_some()
    }

    pub fn get(&self, id: NodeId) -> (value: Option<&V>)
        requires
            self.wf(),
        ensures
            match value {
                Some(v) => self@.contains_key(id) && *v == self@[id],
                None => !self@.contains_key(id),
            },
    {
        match self.find(id) {
            Some(i) => Some(&self.values[i]),
            None => None,
        }
    }

    pub fn get_mut(&mut self, id: NodeId) -> (value: Option<&mut V>)
        requires
            old(self).wf(),
        ensures
            final(self).wf(),
            match value {
                Some(v) => old(self)@.contains_key(id) && *v == old(self)@[id] && final(self)@
                    == old(self)@.insert(id, *final(v)),
                None => !old(self)@.contains_key(id) && *final(self) == *old(self),
            },
    {
        match self.find(id) {
            Some(i) => {
                let ghost before = *self;
                assert forall|after: Self, value: V|
                    after.keys@ == before.keys@ && after.values@ == #[trigger] before.values@.update(i as int, value)
                        implies #[trigger] after.wf() && after@ == before@.insert(id, value) by {
                    before.lemma_update(after, i as int, value);
                }
                Some(&mut self.values[i])
            },
            None => None,
        }
    }

    proof fn lemma_update(self, after: Self, i: int, value: V)
        requires
            self.wf(),
            0 <= i < self.keys@.len(),
            after.keys@ == self.keys@,
            after.values@ == self.values@.update(i, value),
        ensures
            after.wf(),
            after@ == self@.insert(self.keys@[i], value),
    {
        let id = self.keys@[i];
        assert(after@.dom() =~= self@.insert(id, value).dom()) by {
            assert(self.keys@.contains(id));
        }
        assert forall|x: NodeId| after@.contains_key(x) implies after@[x] == self@.insert(id, value)[x] by {
            let p = position_of(self.keys@, x);
            self.lemma_at(p);
            after.lemma_at(p);
            after.lemma_at(i);
            if x == id {
                if p < i {
                    assert(self.keys@[p].0 < self.keys@[i].0);
                } else if i < p {
                    assert(self.keys@[i].0 < self.keys@[p].0);
                }
            }
        }
        assert(after@ =~= self@.insert(id, value));
    }

    /// Maps `id` to `value`; hands back what it was mapped to before.
    pub fn insert(&mut self, id: NodeId, value: V) -> (previous: Option<V>)
        requires
            old(self).wf(),
        ensures
            final(self).wf(),
            final(self)@ == old(self)@.insert(id, value),
            match previous {
                Some(v) => old(self)@.contains_key(id) && v == old(self)@[id],
                None => !old(self)@.contains_key(id),
            },
    {
        let ghost before = *self;
        match self.find(id) {
            Some(i) => {
                self.values.push(value);
                let previous = self.values.swap_remove(i);
                proof {
                    assert(self.values@ =~= before.values@.update(i as int, value));
                    before.lemma_update(*self, i as int, value);
                }
                Some(previous)
            },
            None => {
                let at: usize = rank(&self.keys, id);
                self.keys.insert(at, id);
                self.values.insert(at, value);
                proof {
                    assert(ascending(self.keys@));
                    assert forall|x: NodeId| self@.contains_key(x) == before@.insert(id, value).contains_key(x) by {
                        if x == id {
                            assert(self.keys@[at as int] == id);
                        } else if before.keys@.contains(x) {
                            let i = position_of(before.keys@, x);
                            if i < at {
                                assert(self.keys@[i] == x);
                            } else {
                                assert(self.keys@[i + 1] == x);
                            }
                        } else if self.keys@.contains(x) {
                            let i = position_of(self.keys@, x);
                            if i < at {
                                assert(before.keys@[i] == x);
                            } else {
                                assert(before.keys@[i - 1] == x);
                            }
                        }
                    }
                    assert forall|x: NodeId| self@.contains_key(x) implies self@[x] == before@.insert(id, value)[x] by {
                        let i = position_of(self.keys@, x);
                        self.lemma_at(i);
                        if i < at {
                            assert(before.keys@[i] == x);
                            before.lemma_at(i);
                        } else if i > at {
                            assert(before.keys@[i - 1] == x);
                            before.lemma_at(i - 1);
                        }
                    }
                    assert(self@ =~= before@.insert(id, value));
                }
                None
            },
        }
    }

    /// Takes `id` and its value out.
    pub fn remove(&mut self, id: NodeId) -> (previous: Option<V>)
        requires
            old(self).wf(),
        ensures
            final(self).wf(),
            final(self)@ == old(self)@.remove(id),
            match previous {
                Some(v) => old(self)@.contains_key(id) && v == old(self)@[id],
                None => !old(self)@.contains_key(id),
            },
    {
        let ghost before = *self;
        match self.find(id) {
            Some(at) => {
                let _ = self.keys.remove(at);
                let previous = self.values.remove(at);
                proof {
                    assert forall|x: NodeId| self@.contains_key(x) == before@.remove(id).contains_key(x) by {
                        if before.keys@.contains(x) && x != id {
                            let i = position_of(before.keys@, x);
                            if i < at {
                                assert(self.keys@[i] == x);
                            } else {
                                assert(self.keys@[i - 1] == x);
                            }
                        }
                        if self.keys@.contains(x) {
                            let i = position_of(self.keys@, x);
                            if i < at {
                                assert(before.keys@[i] == x);
                            } else {
                                assert(before.keys@[i + 1] == x);
                            }
                        }
                    }
                    assert forall|x: NodeId| self@.contains_key(x) implies self@[x] == before@.remove(id)[x] by {
                        let i = position_of(self.keys@, x);
                        self.lemma_at(i);
                        if i < at {
                            assert(before.keys@[i] == x);
                            before.lemma_at(i);
                        } else {
                            assert(before.keys@[i + 1] == x);
                            before.lemma_at(i + 1);
                        }
                    }
                    assert(self@ =~= before@.remove(id));
                }
                Some(previous)
            },
            None => {
                assert(self@ =~= before@.remove(id));
                None
            },
        }
    }

    pub fn clear(&mut self)
        ensures
            final(self).wf(),
            final(self)@ == Map::<NodeId, V>::empty(),
    {
        self.keys.clear();
        self.values.clear();
        assert(self@ =~= Map::<NodeId, V>::empty());
    }
}

} // verus!
