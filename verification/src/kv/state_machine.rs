//! The key/value store that committed commands are applied to.

use vstd::prelude::*;

use crate::kv::codec;
use crate::kv::codec::{push_frame, read_frame};
use crate::kv::command::{Command, CommandView, DecodeError};
use crate::kv::order;
use crate::kv::order::{equal_bytes, less_bytes};

verus! {

/// What applying a command reports to its client.
#[derive(Debug, Eq, PartialEq)]
pub enum ApplyResult {
    Put { previous: Option<Vec<u8>> },
    Delete { previous: Option<Vec<u8>> },
    Get { value: Option<Vec<u8>> },
}

/// The view of an [`ApplyResult`].
#[verifier::ext_equal]
pub enum ApplyResultView {
    Put { previous: Option<Seq<u8>> },
    Delete { previous: Option<Seq<u8>> },
    Get { value: Option<Seq<u8>> },
}

/// The view of an optional byte string.
pub open spec fn view_bytes(bytes: Option<Vec<u8>>) -> Option<Seq<u8>> {
    match bytes {
        Some(bytes) => Some(bytes@),
        None => None,
    }
}

impl DeepView for ApplyResult {
    type V = ApplyResultView;

    open spec fn deep_view(&self) -> ApplyResultView {
        match self {
            ApplyResult::Put { previous } => ApplyResultView::Put { previous: view_bytes(*previous) },
            ApplyResult::Delete { previous } => ApplyResultView::Delete {
                previous: view_bytes(*previous),
            },
            ApplyResult::Get { value } => ApplyResultView::Get { value: view_bytes(*value) },
        }
    }
}

fn clone_bytes(bytes: &Option<Vec<u8>>) -> (copy: Option<Vec<u8>>)
    ensures
        view_bytes(copy) == view_bytes(*bytes),
{
    match bytes {
        Some(bytes) => Some(bytes.clone()),
        None => None,
    }
}

fn same_bytes(a: &Option<Vec<u8>>, b: &Option<Vec<u8>>) -> (same: bool)
    ensures
        same == (view_bytes(*a) == view_bytes(*b)),
{
    match (a, b) {
        (Some(a), Some(b)) => equal_bytes(a, b),
        (None, None) => true,
        _ => false,
    }
}

impl Clone for ApplyResult {
    fn clone(&self) -> (copy: Self)
        ensures
            copy.deep_view() == self.deep_view(),
    {
        match self {
            ApplyResult::Put { previous } => ApplyResult::Put { previous: clone_bytes(previous) },
            ApplyResult::Delete { previous } => ApplyResult::Delete {
                previous: clone_bytes(previous),
            },
            ApplyResult::Get { value } => ApplyResult::Get { value: clone_bytes(value) },
        }
    }
}

impl ApplyResult {
    /// Whether two results report the same.
    pub fn same(&self, other: &ApplyResult) -> (same: bool)
        ensures
            same == (self.deep_view() == other.deep_view()),
    {
        match (self, other) {
            (ApplyResult::Put { previous: a }, ApplyResult::Put { previous: b }) => same_bytes(a, b),
            (ApplyResult::Delete { previous: a }, ApplyResult::Delete { previous: b }) => same_bytes(
                a,
                b,
            ),
            (ApplyResult::Get { value: a }, ApplyResult::Get { value: b }) => same_bytes(a, b),
            _ => false,
        }
    }
}

/// What the store holds under `key`.
pub open spec fn lookup(entries: Map<Seq<u8>, Seq<u8>>, key: Seq<u8>) -> Option<Seq<u8>> {
    if entries.contains_key(key) {
        Some(entries[key])
    } else {
        None
    }
}

/// What a command leaves of the store.
pub open spec fn after(entries: Map<Seq<u8>, Seq<u8>>, command: CommandView) -> Map<
    Seq<u8>,
    Seq<u8>,
> {
    match command {
        CommandView::Put { key, value } => entries.insert(key, value),
        CommandView::Delete { key } => entries.remove(key),
        CommandView::Get { .. } => entries,
    }
}

/// What a command reports.
pub open spec fn report(entries: Map<Seq<u8>, Seq<u8>>, command: CommandView) -> ApplyResultView {
    match command {
        CommandView::Put { key, .. } => ApplyResultView::Put { previous: lookup(entries, key) },
        CommandView::Delete { key } => ApplyResultView::Delete { previous: lookup(entries, key) },
        CommandView::Get { key } => ApplyResultView::Get { value: lookup(entries, key) },
    }
}

/// The entries under `keys`, each a framed key and a framed value.
pub open spec fn encoded_entries(entries: Map<Seq<u8>, Seq<u8>>, keys: Seq<Seq<u8>>) -> Seq<u8>
    decreases keys.len(),
{
    if keys.len() == 0 {
        Seq::empty()
    } else {
        encoded_entries(entries, keys.drop_last()) + codec::frame(keys.last()) + codec::frame(
            entries[keys.last()],
        )
    }
}

/// The snapshot of a store: its entries in ascending order of key.
pub open spec fn snapshot_of(entries: Map<Seq<u8>, Seq<u8>>) -> Seq<u8> {
    encoded_entries(entries, order::sorted_keys(entries.dom()))
}

/// The store that `bytes` write from `position` on, added to `entries`.
pub open spec fn restored_from(bytes: Seq<u8>, position: int, entries: Map<Seq<u8>, Seq<u8>>) -> Option<
    Map<Seq<u8>, Seq<u8>>,
>
    decreases bytes.len() - position,
{
    if position >= bytes.len() {
        Some(entries)
    } else {
        match codec::framed_at(bytes, position) {
            None => None,
            Some((key, middle)) => match codec::framed_at(bytes, middle) {
                None => None,
                Some((value, end)) => if end <= position {
                    None
                } else {
                    restored_from(bytes, end, entries.insert(key, value))
                },
            },
        }
    }
}

/// The store that a snapshot's bytes write, if they are whole.
pub open spec fn restored(bytes: Seq<u8>) -> Option<Map<Seq<u8>, Seq<u8>>> {
    restored_from(bytes, 0, Map::empty())
}

/// Whether every key and value fits its length prefix.
pub open spec fn entries_fit(entries: Map<Seq<u8>, Seq<u8>>) -> bool {
    forall|key: Seq<u8>| #[trigger]
        entries.contains_key(key) ==> key.len() < 0x1_0000_0000 && entries[key].len()
            < 0x1_0000_0000
}

/// Restoring a snapshot gives back the store it was taken of. Lengths must fit
/// their 32-bit prefix.
pub proof fn snapshot_reads_back(entries: Map<Seq<u8>, Seq<u8>>)
    requires
        entries.dom().finite(),
        entries_fit(entries),
    ensures
        restored(snapshot_of(entries)) == Some(entries),
{
    let keys = order::sorted_keys(entries.dom());
    order::lemma_sorted_exists(entries.dom());
    let none: Map<Seq<u8>, Seq<u8>> = Map::empty();
    assert(entries.restrict(keys.take(0).to_set()) =~= none);
    assert(keys.take(0) =~= Seq::empty());
    assert(encoded_entries(entries, keys.take(0)) =~= Seq::empty());
    lemma_restores(entries, keys, 0);
}

proof fn lemma_encoded_prefix(entries: Map<Seq<u8>, Seq<u8>>, keys: Seq<Seq<u8>>, i: int)
    requires
        0 <= i <= keys.len(),
    ensures
        encoded_entries(entries, keys.take(i)).is_prefix_of(encoded_entries(entries, keys)),
    decreases keys.len() - i,
{
    if i == keys.len() {
        assert(keys.take(i) =~= keys);
    } else {
        lemma_encoded_prefix(entries, keys, i + 1);
        assert(keys.take(i + 1).drop_last() =~= keys.take(i));
        let a = encoded_entries(entries, keys.take(i));
        let b = encoded_entries(entries, keys.take(i + 1));
        assert(b.take(a.len() as int) =~= a);
        let c = encoded_entries(entries, keys);
        assert(c.take(a.len() as int) =~= b.take(a.len() as int));
    }
}

proof fn lemma_restores(entries: Map<Seq<u8>, Seq<u8>>, keys: Seq<Seq<u8>>, i: int)
    requires
        0 <= i <= keys.len(),
        keys.to_set() == entries.dom(),
        entries_fit(entries),
    ensures
        restored_from(
            encoded_entries(entries, keys),
            encoded_entries(entries, keys.take(i)).len() as int,
            entries.restrict(keys.take(i).to_set()),
        ) == Some(entries),
    decreases keys.len() - i,
{
    let all = encoded_entries(entries, keys);
    let before = encoded_entries(entries, keys.take(i));
    let seen = entries.restrict(keys.take(i).to_set());
    lemma_encoded_prefix(entries, keys, i);
    if i == keys.len() {
        assert(keys.take(i) =~= keys);
        assert(seen =~= entries);
    } else {
        let key = keys[i];
        let value = entries[key];
        assert(keys.to_set().contains(key));
        assert(entries.contains_key(key));
        assert(keys.take(i + 1).drop_last() =~= keys.take(i));
        assert(keys.take(i + 1).last() == key);
        let upto = encoded_entries(entries, keys.take(i + 1));
        assert(upto == before + codec::frame(key) + codec::frame(value));
        lemma_encoded_prefix(entries, keys, i + 1);
        let rest = all.skip(upto.len() as int);
        assert(all =~= upto + rest);
        codec::frame_reads_back(before, key, codec::frame(value) + rest);
        assert(all =~= before + codec::frame(key) + (codec::frame(value) + rest));
        codec::frame_reads_back(before + codec::frame(key), value, rest);
        assert(all =~= (before + codec::frame(key)) + codec::frame(value) + rest);
        assert(keys.take(i + 1) =~= keys.take(i).push(key));
        keys.take(i).lemma_push_to_set_commute(key);
        assert(entries.restrict(keys.take(i + 1).to_set()) =~= seen.insert(key, value));
        lemma_restores(entries, keys, i + 1);
    }
}

/// The state of a [`StateMachine`].
#[verifier::ext_equal]
pub struct StoreState {
    pub entries: Map<Seq<u8>, Seq<u8>>,
    pub last_applied: u64,
}

/// The replicated key/value store, with the index of the last log entry
/// applied to it.
#[derive(Debug)]
pub struct StateMachine {
    keys: Vec<Vec<u8>>,
    values: Vec<Vec<u8>>,
    last_applied: u64,
}

spec fn position_of(keys: Seq<Vec<u8>>, key: Seq<u8>) -> int {
    choose|i: int| 0 <= i < keys.len() && keys[i]@ == key
}

spec fn holds_key(keys: Seq<Vec<u8>>, key: Seq<u8>) -> bool {
    exists|i: int| 0 <= i < keys.len() && keys[i]@ == key
}

impl View for StateMachine {
    type V = StoreState;

    closed spec fn view(&self) -> StoreState {
        StoreState {
            entries: Map::new(
                |key: Seq<u8>| holds_key(self.keys@, key),
                |key: Seq<u8>| self.values@[position_of(self.keys@, key)]@,
            ),
            last_applied: self.last_applied,
        }
    }
}

impl StateMachine {
    /// The keys are in ascending order, each beside its value.
    pub closed spec fn wf(&self) -> bool {
        order::ascending(self.key_views()) && self.keys@.len() == self.values@.len()
    }

    pub closed spec fn key_views(&self) -> Seq<Seq<u8>> {
        self.keys@.map_values(|key: Vec<u8>| key@)
    }

    pub proof fn lemma_keys(&self)
        requires
            self.wf(),
        ensures
            self.key_views().to_set() == self@.entries.dom(),
            self.key_views() == order::sorted_keys(self@.entries.dom()),
            self@.entries.dom().finite(),
    {
        let keys = self.key_views();
        assert forall|key: Seq<u8>| keys.to_set().contains(key) == self@.entries.dom().contains(
            key,
        ) by {
            if keys.contains(key) {
                let i = choose|i: int| 0 <= i < keys.len() && keys[i] == key;
                assert(self.keys@[i]@ == key);
            }
            if holds_key(self.keys@, key) {
                let i = position_of(self.keys@, key);
                assert(keys[i] == key);
            }
        }
        assert(keys.to_set() =~= self@.entries.dom());
        order::lemma_sorted_keys(keys);
        vstd::seq_lib::seq_to_set_is_finite(keys);
    }

    proof fn lemma_at(&self, i: int)
        requires
            self.wf(),
            0 <= i < self.keys@.len(),
        ensures
            self@.entries.contains_key(self.keys@[i]@),
            self@.entries[self.keys@[i]@] == self.values@[i]@,
    {
        let key = self.keys@[i]@;
        assert(holds_key(self.keys@, key));
        let p = position_of(self.keys@, key);
        let keys = self.key_views();
        order::lemma_irreflexive(key);
        if p < i {
            assert(order::less(keys[p], keys[i]));
        } else if i < p {
            assert(order::less(keys[i], keys[p]));
        }
    }

    pub fn new() -> (machine: Self)
        ensures
            machine.wf(),
            machine@ == (StoreState { entries: Map::empty(), last_applied: 0 }),
    {
        let machine = StateMachine { keys: Vec::new(), values: Vec::new(), last_applied: 0 };
        assert(machine@.entries =~= Map::empty());
        machine
    }

    /// The index of the last log entry applied.
    pub fn last_applied(&self) -> (index: u64)
        ensures
            index == self@.last_applied,
    {
        self.last_applied
    }

    /// How many keys come before `key`: where it is, or where it belongs.
    fn rank(&self, key: &[u8]) -> (position: usize)
        requires
            self.wf(),
        ensures
            position <= self.keys@.len(),
            forall|i: int| 0 <= i < position ==> order::less(#[trigger] self.keys@[i]@, key@),
            forall|i: int|
                position <= i < self.keys@.len() ==> !order::less(#[trigger] self.keys@[i]@, key@),
    {
        let mut position: usize = 0;
        while position < self.keys.len() && less_bytes(&self.keys[position], key)
            invariant
                position <= self.keys@.len(),
                forall|i: int| 0 <= i < position ==> order::less(#[trigger] self.keys@[i]@, key@),
            decreases self.keys.len() - position,
        {
            position += 1;
        }
        proof {
            assert forall|i: int| position <= i < self.keys@.len() implies !order::less(
                #[trigger] self.keys@[i]@,
                key@,
            ) by {
                if i > position && order::less(self.keys@[i]@, key@) {
                    let keys = self.key_views();
                    assert(order::less(keys[position as int], keys[i]));
                    order::lemma_transitive(keys[position as int], keys[i], key@);
                }
            }
        }
        position
    }

    fn find(&self, key: &[u8]) -> (found: (usize, bool))
        requires
            self.wf(),
        ensures
            found.0 <= self.keys@.len(),
            found.1 == self@.entries.contains_key(key@),
            found.1 ==> found.0 < self.keys@.len() && self.keys@[found.0 as int]@ == key@
                && self.values@[found.0 as int]@ == self@.entries[key@],
            !found.1 ==> {
                &&& forall|i: int|
                    0 <= i < found.0 ==> order::less(#[trigger] self.keys@[i]@, key@)
                &&& forall|i: int|
                    found.0 <= i < self.keys@.len() ==> order::less(key@, #[trigger] self.keys@[i]@)
            },
    {
        let at: usize = self.rank(key);
        if at < self.keys.len() && equal_bytes(&self.keys[at], key) {
            proof {
                self.lemma_at(at as int);
            }
            return (at, true);
        }
        proof {
            let keys = self.key_views();
            assert forall|i: int| at <= i < self.keys@.len() implies order::less(
                key@,
                #[trigger] self.keys@[i]@,
            ) by {
                order::lemma_total(key@, self.keys@[i]@);
                if self.keys@[i]@ == key@ {
                    assert(i > at);
                    assert(order::less(keys[at as int], keys[i]));
                }
            }
            if holds_key(self.keys@, key@) {
                let i = position_of(self.keys@, key@);
                order::lemma_irreflexive(key@);
            }
        }
        (at, false)
    }

    /// The value under `key`.
    pub fn get(&self, key: &[u8]) -> (value: Option<&[u8]>)
        requires
            self.wf(),
        ensures
            match value {
                Some(value) => lookup(self@.entries, key@) == Some(value@),
                None => lookup(self@.entries, key@) is None,
            },
    {
        let (at, present) = self.find(key);
        if present {
            Some(&self.values[at])
        } else {
            None
        }
    }

    fn insert(&mut self, key: Vec<u8>, value: Vec<u8>) -> (previous: Option<Vec<u8>>)
        requires
            old(self).wf(),
        ensures
            final(self).wf(),
            final(self)@ == (StoreState {
                entries: old(self)@.entries.insert(key@, value@),
                ..old(self)@
            }),
            view_bytes(previous) == lookup(old(self)@.entries, key@),
    {
        let ghost before = *self;
        let ghost added = key@;
        let ghost content = value@;
        let (at, present) = self.find(&key);
        if present {
            self.values.push(value);
            let previous = self.values.swap_remove(at);
            proof {
                assert(self.key_views() =~= before.key_views());
                assert forall|k: Seq<u8>| self@.entries.contains_key(k) implies self@.entries[k]
                    == before@.entries.insert(added, content)[k] by {
                    let i = position_of(self.keys@, k);
                    self.lemma_at(i);
                    before.lemma_at(i);
                    if k == added {
                        self.lemma_at(at as int);
                    } else {
                        assert(i != at);
                    }
                }
                assert(self@.entries =~= before@.entries.insert(added, content));
            }
            Some(previous)
        } else {
            self.keys.insert(at, key);
            self.values.insert(at, value);
            proof {
                let old_keys = before.key_views();
                let keys = self.key_views();
                assert forall|i: int, j: int| 0 <= i < j < keys.len() implies order::less(
                    #[trigger] keys[i],
                    #[trigger] keys[j],
                ) by {
                    if i < at && j > at {
                        assert(order::less(old_keys[i], old_keys[j - 1]));
                    } else if j < at {
                        assert(order::less(old_keys[i], old_keys[j]));
                    } else if i > at {
                        assert(order::less(old_keys[i - 1], old_keys[j - 1]));
                    } else if i == at {
                        assert(order::less(added, before.keys@[j - 1]@));
                    } else {
                        assert(order::less(before.keys@[i]@, added));
                    }
                }
                assert forall|k: Seq<u8>| self@.entries.contains_key(k) == before@.entries.insert(
                    added,
                    content,
                ).contains_key(k) by {
                    if k == added {
                        assert(self.keys@[at as int]@ == added);
                    } else {
                        if holds_key(before.keys@, k) {
                            let i = position_of(before.keys@, k);
                            if i < at {
                                assert(self.keys@[i]@ == k);
                            } else {
                                assert(self.keys@[i + 1]@ == k);
                            }
                        }
                        if holds_key(self.keys@, k) {
                            let i = position_of(self.keys@, k);
                            if i < at {
                                assert(before.keys@[i]@ == k);
                            } else {
                                assert(before.keys@[i - 1]@ == k);
                            }
                        }
                    }
                }
                assert forall|k: Seq<u8>| self@.entries.contains_key(k) implies self@.entries[k]
                    == before@.entries.insert(added, content)[k] by {
                    let i = position_of(self.keys@, k);
                    self.lemma_at(i);
                    if i < at {
                        before.lemma_at(i);
                        order::lemma_irreflexive(added);
                        assert(order::less(keys[i], keys[at as int]));
                    } else if i > at {
                        before.lemma_at(i - 1);
                        order::lemma_irreflexive(added);
                        assert(order::less(keys[at as int], keys[i]));
                    }
                }
                assert(self@.entries =~= before@.entries.insert(added, content));
            }
            None
        }
    }

    fn remove(&mut self, key: &[u8]) -> (previous: Option<Vec<u8>>)
        requires
            old(self).wf(),
        ensures
            final(self).wf(),
            final(self)@ == (StoreState { entries: old(self)@.entries.remove(key@), ..old(self)@ }),
            view_bytes(previous) == lookup(old(self)@.entries, key@),
    {
        let ghost before = *self;
        let (at, present) = self.find(key);
        if present {
            let _ = self.keys.remove(at);
            let previous = self.values.remove(at);
            proof {
                let old_keys = before.key_views();
                let keys = self.key_views();
                order::lemma_irreflexive(key@);
                assert forall|i: int, j: int| 0 <= i < j < keys.len() implies order::less(
                    #[trigger] keys[i],
                    #[trigger] keys[j],
                ) by {
                    let i0 = if i < at {
                        i
                    } else {
                        i + 1
                    };
                    let j0 = if j < at {
                        j
                    } else {
                        j + 1
                    };
                    assert(order::less(old_keys[i0], old_keys[j0]));
                }
                assert forall|k: Seq<u8>| self@.entries.contains_key(k) == before@.entries.remove(
                    key@,
                ).contains_key(k) by {
                    if holds_key(before.keys@, k) && k != key@ {
                        let i = position_of(before.keys@, k);
                        if i < at {
                            assert(self.keys@[i]@ == k);
                        } else {
                            assert(self.keys@[i - 1]@ == k);
                        }
                    }
                    if holds_key(self.keys@, k) {
                        let i = position_of(self.keys@, k);
                        if i < at {
                            assert(before.keys@[i]@ == k);
                            assert(order::less(old_keys[i], old_keys[at as int]));
                        } else {
                            assert(before.keys@[i + 1]@ == k);
                            assert(order::less(old_keys[at as int], old_keys[i + 1]));
                        }
                    }
                }
                assert forall|k: Seq<u8>| self@.entries.contains_key(k) implies self@.entries[k]
                    == before@.entries.remove(key@)[k] by {
                    let i = position_of(self.keys@, k);
                    self.lemma_at(i);
                    if i < at {
                        before.lemma_at(i);
                    } else {
                        before.lemma_at(i + 1);
                    }
                }
                assert(self@.entries =~= before@.entries.remove(key@));
            }
            Some(previous)
        } else {
            assert(self@.entries =~= before@.entries.remove(key@));
            None
        }
    }

    /// Applies the next committed command and reports what its client is
    /// owed.
    pub fn apply(&mut self, command: &Command) -> (result: ApplyResult)
        requires
            old(self).wf(),
            old(self)@.last_applied < u64::MAX,
        ensures
            final(self).wf(),
            final(self)@ == (StoreState {
                entries: after(old(self)@.entries, command.deep_view()),
                last_applied: (old(self)@.last_applied + 1) as u64,
            }),
            result.deep_view() == report(old(self)@.entries, command.deep_view()),
    {
        let result = match command {
            Command::Put { key, value } => ApplyResult::Put {
                previous: self.insert(key.clone(), value.clone()),
            },
            Command::Delete { key } => ApplyResult::Delete { previous: self.remove(key) },
            Command::Get { key } => {
                let value = match self.get(key) {
                    Some(value) => Some(vstd::slice::slice_to_vec(value)),
                    None => None,
                };
                ApplyResult::Get { value }
            },
        };
        self.last_applied += 1;
        result
    }

    /// Whether two stores hold the same entries.
    pub fn same_entries(&self, other: &StateMachine) -> (same: bool)
        requires
            self.wf(),
            other.wf(),
        ensures
            same == (self@.entries == other@.entries),
    {
        proof {
            self.lemma_keys();
            other.lemma_keys();
        }
        if self.keys.len() != other.keys.len() {
            assert(self.key_views() != other.key_views());
            return false;
        }
        let mut i: usize = 0;
        while i < self.keys.len()
            invariant
                i <= self.keys@.len(),
                self.keys@.len() == other.keys@.len(),
                self.wf(),
                other.wf(),
                self@.entries == other@.entries ==> self.key_views() == other.key_views(),
                forall|j: int| 0 <= j < i ==> (#[trigger] self.keys@[j])@ == other.keys@[j]@,
                forall|j: int| 0 <= j < i ==> (#[trigger] self.values@[j])@ == other.values@[j]@,
            decreases self.keys.len() - i,
        {
            proof {
                self.lemma_at(i as int);
                other.lemma_at(i as int);
            }
            if !equal_bytes(&self.keys[i], &other.keys[i]) {
                assert(self.key_views()[i as int] != other.key_views()[i as int]);
                return false;
            }
            if !equal_bytes(&self.values[i], &other.values[i]) {
                return false;
            }
            i += 1;
        }
        proof {
            assert(self.key_views() =~= other.key_views());
            assert forall|key: Seq<u8>| self@.entries.contains_key(key) implies self@.entries[key]
                == other@.entries[key] by {
                let j = position_of(self.keys@, key);
                self.lemma_at(j);
                other.lemma_at(j);
            }
            assert(self@.entries =~= other@.entries);
        }
        true
    }

    /// Passes over a log entry that holds no command.
    pub fn skip(&mut self)
        requires
            old(self).wf(),
            old(self)@.last_applied < u64::MAX,
        ensures
            final(self).wf(),
            final(self)@ == (StoreState {
                last_applied: (old(self)@.last_applied + 1) as u64,
                ..old(self)@
            }),
    {
        self.last_applied += 1;
    }

    /// Passes over every log entry up to `index`.
    pub fn advance_to(&mut self, index: u64)
        requires
            old(self).wf(),
        ensures
            final(self).wf(),
            final(self)@ == (StoreState { last_applied: index, ..old(self)@ }),
    {
        self.last_applied = index;
    }

    /// Every entry, in ascending order of key.
    pub fn snapshot(&self) -> (bytes: Vec<u8>)
        requires
            self.wf(),
        ensures
            bytes@ == snapshot_of(self@.entries),
    {
        let ghost keys = self.key_views();
        proof {
            self.lemma_keys();
        }
        let mut bytes: Vec<u8> = Vec::new();
        let mut i: usize = 0;
        while i < self.keys.len()
            invariant
                i <= self.keys@.len(),
                self.wf(),
                keys == self.key_views(),
                bytes@ == encoded_entries(self@.entries, keys.take(i as int)),
            decreases self.keys.len() - i,
        {
            proof {
                self.lemma_at(i as int);
                assert(keys.take(i + 1).drop_last() =~= keys.take(i as int));
                assert(keys.take(i + 1).last() == self.keys@[i as int]@);
            }
            push_frame(&mut bytes, &self.keys[i]);
            push_frame(&mut bytes, &self.values[i]);
            i += 1;
        }
        assert(keys.take(keys.len() as int) =~= keys);
        bytes
    }

    /// Replaces the store by the one a snapshot holds, as of log index
    /// `last_included_index`. Bytes that end too soon change nothing.
    pub fn restore(&mut self, last_included_index: u64, bytes: &[u8]) -> (result: Result<
        (),
        DecodeError,
    >)
        requires
            old(self).wf(),
        ensures
            final(self).wf(),
            match result {
                Ok(_) => restored(bytes@) matches Some(entries) && final(self)@ == (StoreState {
                    entries,
                    last_applied: last_included_index,
                }),
                Err(error) => {
                    &&& error == DecodeError::Truncated
                    &&& restored(bytes@) is None
                    &&& final(self)@ == old(self)@
                },
            },
    {
        let mut machine = StateMachine::new();
        let mut position: usize = 0;
        while position < bytes.len()
            invariant
                machine.wf(),
                machine@.last_applied == 0,
                position <= bytes@.len(),
                restored(bytes@) == restored_from(bytes@, position as int, machine@.entries),
                old(self).wf(),
                *self == *old(self),
            decreases bytes.len() - position,
        {
            match read_frame(bytes, position) {
                None => {
                    return Err(DecodeError::Truncated);
                },
                Some((key, middle)) => match read_frame(bytes, middle) {
                    None => {
                        return Err(DecodeError::Truncated);
                    },
                    Some((value, end)) => {
                        let _ = machine.insert(key, value);
                        position = end;
                    },
                },
            }
        }
        machine.last_applied = last_included_index;
        *self = machine;
        Ok(())
    }
}

impl Clone for StateMachine {
    fn clone(&self) -> (copy: Self)
        ensures
            self.wf() ==> copy.wf() && copy@ == self@,
    {
        let keys = clone_all(&self.keys);
        let values = clone_all(&self.values);
        let copy = StateMachine { keys, values, last_applied: self.last_applied };
        proof {
            assert(copy.key_views() =~= self.key_views());
            assert forall|key: Seq<u8>| holds_key(copy.keys@, key) == holds_key(self.keys@, key) by {
                if holds_key(copy.keys@, key) {
                    let i = position_of(copy.keys@, key);
                    assert(self.keys@[i]@ == key);
                }
                if holds_key(self.keys@, key) {
                    let i = position_of(self.keys@, key);
                    assert(copy.keys@[i]@ == key);
                }
            }
            assert forall|key: Seq<u8>| copy@.entries.contains_key(key) && self.wf() implies copy@.entries[key]
                == self@.entries[key] by {
                let i = position_of(copy.keys@, key);
                copy.lemma_at(i);
                self.lemma_at(i);
            }
            if self.wf() {
                assert(copy@.entries =~= self@.entries);
            }
        }
        copy
    }
}

fn clone_all(strings: &Vec<Vec<u8>>) -> (copy: Vec<Vec<u8>>)
    ensures
        copy@.len() == strings@.len(),
        forall|i: int| 0 <= i < strings@.len() ==> (#[trigger] copy@[i])@ == strings@[i]@,
{
    let mut copy: Vec<Vec<u8>> = Vec::new();
    let mut i: usize = 0;
    while i < strings.len()
        invariant
            i <= strings@.len(),
            copy@.len() == i,
            forall|j: int| 0 <= j < i ==> (#[trigger] copy@[j])@ == strings@[j]@,
        decreases strings.len() - i,
    {
        copy.push(strings[i].clone());
        i += 1;
    }
    copy
}

} // verus!
