//! The lexicographic order of byte strings.

use vstd::prelude::*;

verus! {

/// Whether `a` comes before `b`: at the first difference it has the lesser
/// byte, or it ends there.
pub open spec fn less(a: Seq<u8>, b: Seq<u8>) -> bool
    decreases b.len(),
{
    b.len() > 0 && (a.len() == 0 || a[0] < b[0] || (a[0] == b[0] && less(
        a.drop_first(),
        b.drop_first(),
    )))
}

/// No byte string comes before itself.
pub proof fn lemma_irreflexive(a: Seq<u8>)
    ensures
        !less(a, a),
    decreases a.len(),
{
    if a.len() > 0 {
        lemma_irreflexive(a.drop_first());
    }
}

pub proof fn lemma_transitive(a: Seq<u8>, b: Seq<u8>, c: Seq<u8>)
    requires
        less(a, b),
        less(b, c),
    ensures
        less(a, c),
    decreases c.len(),
{
    if a.len() > 0 && a[0] == b[0] && b[0] == c[0] {
        lemma_transitive(a.drop_first(), b.drop_first(), c.drop_first());
    }
}

/// Of two different byte strings one comes before the other.
pub proof fn lemma_total(a: Seq<u8>, b: Seq<u8>)
    ensures
        a == b || less(a, b) || less(b, a),
    decreases a.len(),
{
    if a.len() == 0 {
        if b.len() == 0 {
            assert(a =~= b);
        }
    } else if b.len() > 0 && a[0] == b[0] {
        lemma_total(a.drop_first(), b.drop_first());
        if a.drop_first() == b.drop_first() {
            assert(a =~= seq![a[0]] + a.drop_first());
            assert(b =~= seq![b[0]] + b.drop_first());
        }
    }
}

/// What a common prefix leaves decides the order.
proof fn lemma_common_prefix(a: Seq<u8>, b: Seq<u8>, k: int)
    requires
        0 <= k <= a.len(),
        k <= b.len(),
        forall|i: int| 0 <= i < k ==> a[i] == b[i],
    ensures
        less(a, b) == less(a.skip(k), b.skip(k)),
    decreases k,
{
    if k == 0 {
        assert(a.skip(0) =~= a);
        assert(b.skip(0) =~= b);
    } else {
        let a1 = a.drop_first();
        let b1 = b.drop_first();
        assert forall|i: int| 0 <= i < k - 1 implies a1[i] == b1[i] by {
            assert(a[i + 1] == b[i + 1]);
        }
        lemma_common_prefix(a1, b1, k - 1);
        assert(a1.skip(k - 1) =~= a.skip(k));
        assert(b1.skip(k - 1) =~= b.skip(k));
        assert(a[0] == b[0]);
    }
}

/// Whether two byte strings are equal.
pub fn equal_bytes(a: &[u8], b: &[u8]) -> (equal: bool)
    ensures
        equal == (a@ == b@),
{
    if a.len() != b.len() {
        return false;
    }
    let mut i: usize = 0;
    while i < a.len()
        invariant
            a@.len() == b@.len(),
            i <= a@.len(),
            forall|j: int| 0 <= j < i ==> a@[j] == b@[j],
        decreases a.len() - i,
    {
        if a[i] != b[i] {
            return false;
        }
        i += 1;
    }
    assert(a@ =~= b@);
    true
}

/// Whether `a` comes before `b`.
pub fn less_bytes(a: &[u8], b: &[u8]) -> (before: bool)
    ensures
        before == less(a@, b@),
{
    let mut i: usize = 0;
    while i < a.len() && i < b.len() && a[i] == b[i]
        invariant
            i <= a@.len(),
            i <= b@.len(),
            forall|j: int| 0 <= j < i ==> a@[j] == b@[j],
        decreases a.len() - i,
    {
        i += 1;
    }
    proof {
        lemma_common_prefix(a@, b@, i as int);
    }
    if i == b.len() {
        false
    } else if i == a.len() {
        true
    } else {
        a[i] < b[i]
    }
}

/// Whether `keys` is strictly ascending.
pub open spec fn ascending(keys: Seq<Seq<u8>>) -> bool {
    forall|i: int, j: int| 0 <= i < j < keys.len() ==> less(#[trigger] keys[i], #[trigger] keys[j])
}

/// The members of a finite set of byte strings in ascending order.
pub open spec fn sorted_keys(set: Set<Seq<u8>>) -> Seq<Seq<u8>> {
    choose|keys: Seq<Seq<u8>>| ascending(keys) && #[trigger] keys.to_set() == set
}

/// An ascending sequence is the sorted form of its own elements.
pub proof fn lemma_sorted_keys(keys: Seq<Seq<u8>>)
    requires
        ascending(keys),
    ensures
        sorted_keys(keys.to_set()) == keys,
{
    lemma_ascending_unique(sorted_keys(keys.to_set()), keys);
}

/// Every finite set of byte strings has a sorted form.
pub proof fn lemma_sorted_exists(set: Set<Seq<u8>>)
    requires
        set.finite(),
    ensures
        ascending(sorted_keys(set)),
        sorted_keys(set).to_set() == set,
    decreases set.len(),
{
    if set.len() == 0 {
        let empty: Seq<Seq<u8>> = Seq::empty();
        assert(empty.to_set() =~= set);
    } else {
        let x = set.choose();
        let rest = set.remove(x);
        lemma_sorted_exists(rest);
        let keys = sorted_keys(rest);
        assert(!keys.contains(x)) by {
            assert(keys.to_set().contains(x) == rest.contains(x));
        }
        let k = lemma_rank_exists(keys, x);
        let full = keys.insert(k, x);
        assert forall|y: Seq<u8>| full.to_set().contains(y) == set.contains(y) by {
            assert(keys.to_set().contains(y) == rest.contains(y));
            if y == x {
                assert(full[k] == x);
            } else if keys.contains(y) {
                let i = choose|i: int| 0 <= i < keys.len() && keys[i] == y;
                assert(full[if i < k {
                    i
                } else {
                    i + 1
                }] == y);
            } else if full.contains(y) {
                let i = choose|i: int| 0 <= i < full.len() && full[i] == y;
                assert(keys[if i < k {
                    i
                } else {
                    i - 1
                }] == y);
            }
        }
        assert(full.to_set() =~= set);
    }
}

/// Where a byte string belongs among others.
proof fn lemma_rank_exists(keys: Seq<Seq<u8>>, x: Seq<u8>) -> (k: int)
    requires
        ascending(keys),
        !keys.contains(x),
    ensures
        0 <= k <= keys.len(),
        ascending(keys.insert(k, x)),
    decreases keys.len(),
{
    if keys.len() == 0 {
        assert(ascending(keys.insert(0, x)));
        0
    } else {
        let last = keys.last();
        let shorter = keys.drop_last();
        assert(keys.contains(last));
        assert(!shorter.contains(x)) by {
            if shorter.contains(x) {
                let i = choose|i: int| 0 <= i < shorter.len() && shorter[i] == x;
                assert(keys[i] == x);
            }
        }
        lemma_total(last, x);
        if less(last, x) {
            let full = keys.insert(keys.len() as int, x);
            assert forall|i: int, j: int| 0 <= i < j < full.len() implies less(
                #[trigger] full[i],
                #[trigger] full[j],
            ) by {
                if j == keys.len() && i < keys.len() - 1 {
                    assert(less(keys[i], keys[keys.len() - 1]));
                    lemma_transitive(keys[i], last, x);
                }
            }
            keys.len() as int
        } else {
            let k = lemma_rank_exists(shorter, x);
            let inner = shorter.insert(k, x);
            let full = keys.insert(k, x);
            assert(full =~= inner.push(last));
            assert forall|i: int, j: int| 0 <= i < j < full.len() implies less(
                #[trigger] full[i],
                #[trigger] full[j],
            ) by {
                if j < full.len() - 1 {
                    assert(less(inner[i], inner[j]));
                } else if i == k {
                    assert(less(x, last));
                } else {
                    let at = if i < k {
                        i
                    } else {
                        i - 1
                    };
                    assert(less(keys[at], keys[keys.len() - 1]));
                }
            }
            k
        }
    }
}

/// An ascending sequence is determined by its elements.
proof fn lemma_ascending_unique(a: Seq<Seq<u8>>, b: Seq<Seq<u8>>)
    requires
        ascending(a),
        ascending(b),
        a.to_set() == b.to_set(),
    ensures
        a == b,
    decreases a.len(),
{
    assert forall|x: Seq<u8>| a.contains(x) == b.contains(x) by {
        assert(a.to_set().contains(x) == a.contains(x));
        assert(b.to_set().contains(x) == b.contains(x));
    }
    if a.len() == 0 {
        if b.len() > 0 {
            assert(b.contains(b[0]));
        }
        assert(a =~= b);
    } else {
        assert(a.contains(a.last()));
        if b.len() == 0 {
            assert(b.contains(a.last()));
        }
        assert(b.contains(b.last()));
        let i = choose|i: int| 0 <= i < b.len() && b[i] == a.last();
        let j = choose|j: int| 0 <= j < a.len() && a[j] == b.last();
        if a.last() != b.last() {
            assert(less(a[j], a[a.len() - 1]));
            assert(less(b[i], b[b.len() - 1]));
            lemma_transitive(a.last(), b.last(), a.last());
            lemma_irreflexive(a.last());
        }
        let a0 = a.drop_last();
        let b0 = b.drop_last();
        assert(a0.to_set() =~= b0.to_set()) by {
            assert forall|x: Seq<u8>| a0.to_set().contains(x) == b0.to_set().contains(x) by {
                lemma_irreflexive(x);
                if a0.contains(x) {
                    let k = choose|k: int| 0 <= k < a0.len() && a0[k] == x;
                    assert(a[k] == x);
                    assert(a.contains(x) && b.contains(x));
                    assert(less(a[k], a[a.len() - 1]));
                    let l = choose|l: int| 0 <= l < b.len() && b[l] == x;
                    assert(b0[l] == x);
                }
                if b0.contains(x) {
                    let k = choose|k: int| 0 <= k < b0.len() && b0[k] == x;
                    assert(b[k] == x);
                    assert(b.contains(x) && a.contains(x));
                    assert(less(b[k], b[b.len() - 1]));
                    let l = choose|l: int| 0 <= l < a.len() && a[l] == x;
                    assert(a0[l] == x);
                }
            }
        }
        lemma_ascending_unique(a0, b0);
        assert(a =~= a0.push(a.last()));
        assert(b =~= b0.push(b.last()));
    }
}

} // verus!
