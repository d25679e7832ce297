//! Totally ordered index types, and a map keyed by them.

use vstd::prelude::*;

verus! {

/// The lexicographic order on pairs of integers.
pub open spec fn key_lt(a: (int, int), b: (int, int)) -> bool {
    a.0 < b.0 || (a.0 == b.0 && a.1 < b.1)
}

/// An index type whose values are told apart, and ordered, by a pair of
/// integers compared lexicographically.
pub trait OrderedKey: Copy {
    /// The pair of integers that a value is ordered by.
    spec fn key(self) -> (int, int);

    /// Two values with the same key are the same value.
    proof fn key_injective(a: Self, b: Self)
        requires
            a.key() == b.key(),
        ensures
            a == b,
    ;

    /// Whether `self` comes strictly before `other`.
    fn precedes(&self, other: &Self) -> (r: bool)
        ensures
            r == key_lt(self.key(), other.key()),
    ;

    /// Whether the two values are the same.
    fn same(&self, other: &Self) -> (r: bool)
        ensures
            r == (*self == *other),
    ;
}

impl OrderedKey for usize {
    open spec fn key(self) -> (int, int) {
        (0, self as int)
    }

    proof fn key_injective(a: Self, b: Self) {
    }

    fn precedes(&self, other: &Self) -> (r: bool) {
        *self < *other
    }

    fn same(&self, other: &Self) -> (r: bool) {
        *self == *other
    }
}

/// The elements of `s` increase strictly.
pub open spec fn increasing<K: OrderedKey>(s: Seq<K>) -> bool {
    forall|i: int, j: int|
        0 <= i < j < s.len() ==> key_lt((#[trigger] s[i]).key(), (#[trigger] s[j]).key())
}

/// A map from `K` to `V`, stored as entries in increasing order of the key.
pub struct KeyedMap<K: OrderedKey, V> {
    entries: Vec<(K, V)>,
}

/// The entries of `s` come in strictly increasing order of the key.
pub open spec fn strictly_keyed<K: OrderedKey, V>(s: Seq<(K, V)>) -> bool {
    forall|i: int, j: int|
        0 <= i < j < s.len() ==> key_lt((#[trigger] s[i]).0.key(), (#[trigger] s[j]).0.key())
}

/// Some entry of `s` is keyed by `k`.
pub open spec fn has_key<K, V>(s: Seq<(K, V)>, k: K) -> bool {
    exists|i: int| 0 <= i < s.len() && (#[trigger] s[i]).0 == k
}

/// The position of an entry of `s` keyed by `k`.
pub open spec fn key_position<K, V>(s: Seq<(K, V)>, k: K) -> int {
    choose|i: int| 0 <= i < s.len() && (#[trigger] s[i]).0 == k
}

/// The map that a sequence of entries with distinct keys stands for.
pub open spec fn entries_map<K, V>(s: Seq<(K, V)>) -> Map<K, V> {
    Map::new(|k: K| has_key(s, k), |k: K| s[key_position(s, k)].1)
}

/// Entry `i` is where its key is found.
proof fn lemma_entry<K: OrderedKey, V>(s: Seq<(K, V)>, i: int)
    requires
        strictly_keyed(s),
        0 <= i < s.len(),
    ensures
        has_key(s, s[i].0),
        key_position(s, s[i].0) == i,
        entries_map(s).dom().contains(s[i].0),
        entries_map(s)[s[i].0] == s[i].1,
{
    let p = key_position(s, s[i].0);
    assert(0 <= p < s.len() && s[p].0 == s[i].0);
    if p < i {
        assert(key_lt(s[p].0.key(), s[i].0.key()));
    } else if i < p {
        assert(key_lt(s[i].0.key(), s[p].0.key()));
    }
}

/// There are as many keys as entries.
proof fn lemma_entries_len<K: OrderedKey, V>(s: Seq<(K, V)>)
    requires
        strictly_keyed(s),
    ensures
        entries_map(s).dom().finite(),
        entries_map(s).dom().len() == s.len(),
{
    let ks = Seq::new(s.len(), |i: int| s[i].0);
    assert forall|i: int, j: int| 0 <= i < j < ks.len() implies ks[i] != ks[j] by {
        assert(key_lt(s[i].0.key(), s[j].0.key()));
    }
    ks.unique_seq_to_set();
    assert forall|k: K| ks.to_set().contains(k) == entries_map(s).dom().contains(k) by {
        if ks.contains(k) {
            let i = ks.index_of(k);
            assert(s[i].0 == k);
        }
        if has_key(s, k) {
            assert(ks[key_position(s, k)] == k);
        }
    }
    assert(ks.to_set() =~= entries_map(s).dom());
}

impl<K: OrderedKey, V> View for KeyedMap<K, V> {
    type V = Map<K, V>;

    closed spec fn view(&self) -> Map<K, V> {
        entries_map(self.entries@)
    }
}

impl<K: OrderedKey, V> KeyedMap<K, V> {
    #[verifier::type_invariant]
    spec fn well_formed(self) -> bool {
        strictly_keyed(self.entries@)
    }

    pub fn new() -> (m: Self)
        ensures
            m@ == Map::<K, V>::empty(),
    {
        let m = KeyedMap { entries: Vec::new() };
        assert(m@ =~= Map::<K, V>::empty());
        m
    }

    /// The position of the first entry whose key does not come before `k`.
    fn position(&self, k: &K) -> (r: usize)
        ensures
            r <= self.entries@.len(),
            forall|i: int| 0 <= i < r ==> key_lt((#[trigger] self.entries@[i]).0.key(), k.key()),
            forall|i: int|
                r <= i < self.entries@.len() ==> !key_lt(
                    (#[trigger] self.entries@[i]).0.key(),
                    k.key(),
                ),
            has_key(self.entries@, *k) <==> (r < self.entries@.len() && self.entries@[r as int].0
                == *k),
    {
        proof {
            use_type_invariant(self);
        }
        let mut lo: usize = 0;
        let mut hi: usize = self.entries.len();
        while lo < hi
            invariant
                lo <= hi <= self.entries@.len(),
                strictly_keyed(self.entries@),
                forall|i: int|
                    0 <= i < lo ==> key_lt((#[trigger] self.entries@[i]).0.key(), k.key()),
                forall|i: int|
                    hi <= i < self.entries@.len() ==> !key_lt(
                        (#[trigger] self.entries@[i]).0.key(),
                        k.key(),
                    ),
            decreases hi - lo,
        {
            let mid: usize = lo + (hi - lo) / 2;
            if self.entries[mid].0.precedes(k) {
                lo = mid + 1;
            } else {
                hi = mid;
            }
        }
        proof {
            if has_key(self.entries@, *k) {
                let i = key_position(self.entries@, *k);
                if i > lo {
                    assert(key_lt(self.entries@[lo as int].0.key(), self.entries@[i].0.key()));
                }
            }
        }
        lo
    }

    pub fn get(&self, k: &K) -> (r: Option<&V>)
        ensures
            r is Some == self@.dom().contains(*k),
            r matches Some(v) ==> *v == self@[*k],
    {
        let p: usize = self.position(k);
        if p < self.entries.len() && self.entries[p].0.same(k) {
            proof {
                use_type_invariant(self);
                lemma_entry(self.entries@, p as int);
            }
            Some(&self.entries[p].1)
        } else {
            None
        }
    }

    pub fn contains_key(&self, k: &K) -> (r: bool)
        ensures
            r == self@.dom().contains(*k),
    {
        self.get(k).is_some()
    }

    /// Bind `k` to `v`, in place of what `k` was bound to.
    pub fn insert(&mut self, k: K, v: V)
        ensures
            final(self)@ == old(self)@.insert(k, v),
    {
        proof {
            use_type_invariant(&*self);
        }
        let p: usize = self.position(&k);
        let mut entries: Vec<(K, V)> = Vec::new();
        core::mem::swap(&mut entries, &mut self.entries);
        let ghost before = entries@;
        if p < entries.len() && entries[p].0.same(&k) {
            entries[p] = (k, v);
        } else {
            proof {
                if p < before.len() && before[p as int].0.key() == k.key() {
                    K::key_injective(before[p as int].0, k);
                }
            }
            entries.insert(p, (k, v));
        }
        proof {
            let after = entries@;
            let shift: int = after.len() - before.len();
            assert forall|i: int, j: int| 0 <= i < j < after.len() implies key_lt(
                (#[trigger] after[i]).0.key(),
                (#[trigger] after[j]).0.key(),
            ) by {
                if i != p {
                    assert(after[i] == before[if i < p { i } else { i - shift }]);
                }
                if j != p {
                    assert(after[j] == before[if j < p { j } else { j - shift }]);
                }
                if p < before.len() && j - shift > p {
                    assert(key_lt(before[p as int].0.key(), before[j - shift].0.key()));
                }
            }
            assert forall|q: K| true implies #[trigger] has_key(after, q) == (has_key(before, q) || q
                == k) by {
                if has_key(before, q) {
                    let i = key_position(before, q);
                    let a = if i < p || shift == 0 { i } else { i + 1 };
                    assert(after[a].0 == q);
                }
                if q == k {
                    assert(after[p as int].0 == q);
                }
                if has_key(after, q) && q != k {
                    let i = key_position(after, q);
                    assert(before[if i < p { i } else { i - shift }].0 == q);
                }
            }
            assert forall|q: K| #[trigger] has_key(after, q) implies entries_map(after)[q]
                == entries_map(before).insert(k, v)[q] by {
                let i = key_position(after, q);
                lemma_entry(after, i);
                lemma_entry(after, p as int);
                if q != k {
                    let b = if i < p { i } else { i - shift };
                    assert(before[b] == after[i]);
                    lemma_entry(before, b);
                }
            }
            assert(entries_map(after) =~= entries_map(before).insert(k, v));
        }
        self.entries = entries;
    }

    /// Drop the binding of `k`, and hand back what it was bound to.
    pub fn remove(&mut self, k: &K) -> (r: Option<V>)
        ensures
            final(self)@ == old(self)@.remove(*k),
            r is Some == old(self)@.dom().contains(*k),
            r matches Some(v) ==> v == old(self)@[*k],
    {
        proof {
            use_type_invariant(&*self);
        }
        let p: usize = self.position(k);
        let mut entries: Vec<(K, V)> = Vec::new();
        core::mem::swap(&mut entries, &mut self.entries);
        let ghost before = entries@;
        let mut r: Option<V> = None;
        if p < entries.len() && entries[p].0.same(k) {
            let (_, v) = entries.remove(p);
            proof {
                lemma_entry(before, p as int);
            }
            r = Some(v);
        }
        proof {
            let after = entries@;
            let shift: int = before.len() - after.len();
            assert forall|i: int, j: int| 0 <= i < j < after.len() implies key_lt(
                (#[trigger] after[i]).0.key(),
                (#[trigger] after[j]).0.key(),
            ) by {
                assert(after[i] == before[if i < p { i } else { i + shift }]);
                assert(after[j] == before[if j < p { j } else { j + shift }]);
            }
            assert forall|q: K| true implies #[trigger] has_key(after, q) == (has_key(before, q) && q
                != *k) by {
                if has_key(before, q) && q != *k {
                    let i = key_position(before, q);
                    assert(after[if i < p { i } else { i - shift }].0 == q);
                }
                if has_key(after, q) {
                    let i = key_position(after, q);
                    let b = if i < p { i } else { i + shift };
                    assert(before[b].0 == q);
                    if shift == 1 {
                        lemma_entry(before, b);
                        lemma_entry(before, p as int);
                    }
                }
            }
            assert forall|q: K| #[trigger] has_key(after, q) implies entries_map(after)[q]
                == entries_map(before)[q] by {
                let i = key_position(after, q);
                let b = if i < p { i } else { i + shift };
                assert(before[b] == after[i]);
                lemma_entry(after, i);
                lemma_entry(before, b);
            }
            assert(entries_map(after) =~= entries_map(before).remove(*k));
        }
        self.entries = entries;
        r
    }

    /// The number of bindings.
    pub fn len(&self) -> (n: usize)
        ensures
            self@.dom().finite(),
            n == self@.dom().len(),
    {
        proof {
            use_type_invariant(self);
            lemma_entries_len(self.entries@);
        }
        self.entries.len()
    }

    /// The keys in increasing order.
    pub fn keys(&self) -> (ks: Vec<K>)
        ensures
            increasing(ks@),
            forall|k: K| ks@.contains(k) <==> #[trigger] self@.dom().contains(k),
            self@.dom().finite(),
            ks@.len() == self@.dom().len(),
    {
        proof {
            use_type_invariant(self);
        }
        let mut ks: Vec<K> = Vec::new();
        for i in 0..self.entries.len()
            invariant
                ks@.len() == i,
                forall|j: int| 0 <= j < i ==> ks@[j] == (#[trigger] self.entries@[j]).0,
        {
            ks.push(self.entries[i].0);
        }
        proof {
            let s = self.entries@;
            lemma_entries_len(s);
            assert forall|i: int, j: int| 0 <= i < j < ks@.len() implies key_lt(
                (#[trigger] ks@[i]).key(),
                (#[trigger] ks@[j]).key(),
            ) by {
                assert(key_lt(s[i].0.key(), s[j].0.key()));
            }
            assert forall|k: K| ks@.contains(k) <==> #[trigger] self@.dom().contains(k) by {
                if ks@.contains(k) {
                    let i = ks@.index_of(k);
                    assert(s[i].0 == k);
                }
                if has_key(s, k) {
                    assert(ks@[key_position(s, k)] == k);
                }
            }
        }
        ks
    }
}

/// The position of the first element of `v` that does not come before `k`.
fn sorted_position<K: OrderedKey>(v: &Vec<K>, k: &K) -> (r: usize)
    requires
        increasing(v@),
    ensures
        r <= v@.len(),
        forall|i: int| 0 <= i < r ==> key_lt((#[trigger] v@[i]).key(), k.key()),
        forall|i: int| r <= i < v@.len() ==> !key_lt((#[trigger] v@[i]).key(), k.key()),
        v@.contains(*k) <==> (r < v@.len() && v@[r as int] == *k),
{
    let mut lo: usize = 0;
    let mut hi: usize = v.len();
    while lo < hi
        invariant
            lo <= hi <= v@.len(),
            increasing(v@),
            forall|i: int| 0 <= i < lo ==> key_lt((#[trigger] v@[i]).key(), k.key()),
            forall|i: int| hi <= i < v@.len() ==> !key_lt((#[trigger] v@[i]).key(), k.key()),
        decreases hi - lo,
    {
        let mid: usize = lo + (hi - lo) / 2;
        if v[mid].precedes(k) {
            lo = mid + 1;
        } else {
            hi = mid;
        }
    }
    proof {
        if v@.contains(*k) {
            let i = v@.index_of(*k);
            if i > lo {
                assert(key_lt(v@[lo as int].key(), v@[i].key()));
            }
        }
    }
    lo
}

/// Whether the increasing vector `v` holds `k`.
pub fn sorted_contains<K: OrderedKey>(v: &Vec<K>, k: &K) -> (r: bool)
    requires
        increasing(v@),
    ensures
        r == v@.contains(*k),
{
    let p: usize = sorted_position(v, k);
    p < v.len() && v[p].same(k)
}

/// Add `k` to the increasing vector `v`; tells whether it was missing.
pub fn sorted_insert<K: OrderedKey>(v: &mut Vec<K>, k: K) -> (added: bool)
    requires
        increasing(old(v)@),
    ensures
        increasing(final(v)@),
        added == !old(v)@.contains(k),
        final(v)@.len() == old(v)@.len() + if added {
            1int
        } else {
            0int
        },
        forall|q: K| #[trigger] final(v)@.contains(q) <==> (old(v)@.contains(q) || q == k),
{
    let ghost before = v@;
    let p: usize = sorted_position(v, &k);
    if p < v.len() && v[p].same(&k) {
        assert(before[p as int] == k);
        false
    } else {
        proof {
            if p < before.len() && before[p as int].key() == k.key() {
                K::key_injective(before[p as int], k);
            }
        }
        v.insert(p, k);
        proof {
            let after = v@;
            assert forall|i: int, j: int| 0 <= i < j < after.len() implies key_lt(
                (#[trigger] after[i]).key(),
                (#[trigger] after[j]).key(),
            ) by {
                if i != p {
                    assert(after[i] == before[if i < p { i } else { i - 1 }]);
                }
                if j != p {
                    assert(after[j] == before[if j < p { j } else { j - 1 }]);
                }
                if p < before.len() && j - 1 > p {
                    assert(key_lt(before[p as int].key(), before[j - 1].key()));
                }
            }
            assert forall|q: K| #[trigger] after.contains(q) <==> (before.contains(q) || q == k) by {
                if before.contains(q) {
                    let i = before.index_of(q);
                    assert(after[if i < p { i } else { i + 1 }] == q);
                }
                assert(after[p as int] == k);
                if after.contains(q) && q != k {
                    let i = after.index_of(q);
                    assert(before[if i < p { i } else { i - 1 }] == q);
                }
            }
        }
        true
    }
}

/// Take `k` out of the increasing vector `v`; tells whether it was there.
pub fn sorted_remove<K: OrderedKey>(v: &mut Vec<K>, k: &K) -> (removed: bool)
    requires
        increasing(old(v)@),
    ensures
        increasing(final(v)@),
        removed == old(v)@.contains(*k),
        final(v)@.len() == old(v)@.len() - if removed {
            1int
        } else {
            0int
        },
        forall|q: K| #[trigger] final(v)@.contains(q) <==> (old(v)@.contains(q) && q != *k),
{
    let ghost before = v@;
    let p: usize = sorted_position(v, k);
    if p < v.len() && v[p].same(k) {
        let _ = v.remove(p);
        proof {
            let after = v@;
            assert forall|i: int, j: int| 0 <= i < j < after.len() implies key_lt(
                (#[trigger] after[i]).key(),
                (#[trigger] after[j]).key(),
            ) by {
                assert(after[i] == before[if i < p { i } else { i + 1 }]);
                assert(after[j] == before[if j < p { j } else { j + 1 }]);
            }
            assert forall|q: K| #[trigger] after.contains(q) <==> (before.contains(q) && q != *k) by {
                if before.contains(q) && q != *k {
                    let i = before.index_of(q);
                    assert(after[if i < p { i } else { i - 1 }] == q);
                }
                if after.contains(q) {
                    let i = after.index_of(q);
                    let b = if i < p { i } else { i + 1 };
                    assert(before[b] == q);
                    if b < p {
                        assert(key_lt(before[b].key(), before[p as int].key()));
                    } else {
                        assert(key_lt(before[p as int].key(), before[b].key()));
                    }
                }
            }
        }
        true
    } else {
        false
    }
}

} // verus!
