//! A hash map with a fixed-size table of chained buckets.
//!
//! Every operation first computes a bucket index for the key, then works on
//! that bucket's chain: an ordered sequence of (key, value) entries holding at
//! most one entry per key. A bucket slot is absent until its first entry is
//! inserted and is set back to absent when its last entry is removed. The
//! table never resizes: keys hashing to the same bucket beyond its capacity
//! only make that chain's linear scan longer.

use vstd::map::*;
use vstd::prelude::*;

use crate::hasher_trait::bucket_index_of;
use crate::hasher_trait::HashableKey;
use crate::hasher_trait::KeyToIndexHasherTrait;
use crate::hasher_trait::DEFAULT_MAX_SIZE;

verus! {

/// A map value that can be copied out for read access.
pub trait CloneValue: Sized {
    /// An equal copy of the value.
    fn clone_value(&self) -> (r: Self)
        ensures
            r == *self,
    ;
}

impl CloneValue for String {
    fn clone_value(&self) -> (r: Self) {
        self.clone()
    }
}

impl<'a> CloneValue for &'a str {
    fn clone_value(&self) -> (r: Self) {
        *self
    }
}

impl CloneValue for i32 {
    fn clone_value(&self) -> (r: Self) {
        *self
    }
}

/// Some entry of the chain holds a key with abstract value `kv`.
pub open spec fn chain_has_key<K: View, V>(chain: Seq<(K, V)>, kv: K::V) -> bool {
    exists|j: int| 0 <= j < chain.len() && chain[j].0@ == kv
}

/// The position of the entry whose key has abstract value `kv`; meaningful
/// only when the chain has such an entry and keys are unique.
pub open spec fn chain_key_at<K: View, V>(chain: Seq<(K, V)>, kv: K::V) -> int {
    choose|j: int| 0 <= j < chain.len() && chain[j].0@ == kv
}

/// The value stored under the key with abstract value `kv`.
pub open spec fn chain_value_of<K: View, V>(chain: Seq<(K, V)>, kv: K::V) -> V {
    chain[chain_key_at(chain, kv)].1
}

/// No two entries of the chain hold keys with the same abstract value.
pub open spec fn chain_unique_keys<K: View, V>(chain: Seq<(K, V)>) -> bool {
    forall|j1: int, j2: int| 0 <= j1 < j2 < chain.len()
        ==> (#[trigger] chain[j1]).0@ != (#[trigger] chain[j2]).0@
}

/// In a chain with unique keys, an entry holding `kv` at position `j` is the
/// one that `chain_key_at` and `chain_value_of` speak of.
proof fn lemma_chain_entry_at<K: View, V>(chain: Seq<(K, V)>, kv: K::V, j: int)
    requires
        chain_unique_keys(chain),
        0 <= j < chain.len(),
        chain[j].0@ == kv,
    ensures
        chain_has_key(chain, kv),
        chain_key_at(chain, kv) == j,
        chain_value_of(chain, kv) == chain[j].1,
{
    assert(chain_has_key(chain, kv));
    let j2 = chain_key_at(chain, kv);
    assert(0 <= j2 < chain.len() && chain[j2].0@ == kv);
    if j != j2 {
        assert(chain[j].0@ != chain[j2].0@);
        assert(false);
    }
}

/// Appending an entry under a fresh key keeps keys unique, binds that key to
/// the new value, and leaves every other key's binding unchanged.
proof fn lemma_chain_push<K: View, V>(chain: Seq<(K, V)>, entry: (K, V), kv: K::V)
    requires
        chain_unique_keys(chain),
        !chain_has_key(chain, entry.0@),
    ensures
        chain_unique_keys(chain.push(entry)),
        chain_has_key(chain.push(entry), entry.0@),
        chain_value_of(chain.push(entry), entry.0@) == entry.1,
        kv != entry.0@ ==> chain_has_key(chain.push(entry), kv) == chain_has_key(chain, kv),
        kv != entry.0@ && chain_has_key(chain, kv)
            ==> chain_value_of(chain.push(entry), kv) == chain_value_of(chain, kv),
{
    let new_chain = chain.push(entry);
    let n = chain.len() as int;
    assert forall|j: int| 0 <= j < n implies (#[trigger] new_chain[j]) == chain[j] by {}
    assert(new_chain[n] == entry);
    assert(chain_unique_keys(new_chain));
    lemma_chain_entry_at(new_chain, entry.0@, n);
    if kv != entry.0@ {
        if chain_has_key(chain, kv) {
            let j = chain_key_at(chain, kv);
            assert(0 <= j < n && chain[j].0@ == kv);
            lemma_chain_entry_at(chain, kv, j);
            lemma_chain_entry_at(new_chain, kv, j);
        }
        if chain_has_key(new_chain, kv) {
            let j = chain_key_at(new_chain, kv);
            assert(0 <= j < n + 1 && new_chain[j].0@ == kv);
            assert(j != n);
            assert(chain_has_key(chain, kv));
        }
    }
}

/// Replacing the entry at position `j` by one under the same key keeps keys
/// unique, rebinds that key, and leaves every other key's binding unchanged.
proof fn lemma_chain_update<K: View, V>(chain: Seq<(K, V)>, j: int, entry: (K, V), kv: K::V)
    requires
        chain_unique_keys(chain),
        0 <= j < chain.len(),
        entry.0@ == chain[j].0@,
    ensures
        chain_unique_keys(chain.update(j, entry)),
        chain_has_key(chain.update(j, entry), entry.0@),
        chain_value_of(chain.update(j, entry), entry.0@) == entry.1,
        kv != entry.0@ ==> chain_has_key(chain.update(j, entry), kv) == chain_has_key(chain, kv),
        kv != entry.0@ && chain_has_key(chain, kv)
            ==> chain_value_of(chain.update(j, entry), kv) == chain_value_of(chain, kv),
{
    let new_chain = chain.update(j, entry);
    assert(new_chain.len() == chain.len());
    assert forall|j2: int| 0 <= j2 < chain.len() && j2 != j
        implies (#[trigger] new_chain[j2]) == chain[j2] by {}
    assert forall|j2: int| 0 <= j2 < chain.len()
        implies (#[trigger] new_chain[j2]).0@ == chain[j2].0@ by {}
    assert(chain_unique_keys(new_chain));
    lemma_chain_entry_at(new_chain, entry.0@, j);
    if kv != entry.0@ {
        if chain_has_key(chain, kv) {
            let j2 = chain_key_at(chain, kv);
            lemma_chain_entry_at(chain, kv, j2);
            assert(j2 != j);
            lemma_chain_entry_at(new_chain, kv, j2);
        }
        if chain_has_key(new_chain, kv) {
            let j2 = chain_key_at(new_chain, kv);
            assert(0 <= j2 < chain.len() && new_chain[j2].0@ == kv);
            assert(chain[j2].0@ == kv);
            assert(chain_has_key(chain, kv));
        }
    }
}

/// Removing the entry at position `j` keeps keys unique, drops that entry's
/// key, and leaves every other key's binding unchanged.
proof fn lemma_chain_remove<K: View, V>(chain: Seq<(K, V)>, j: int, kv: K::V)
    requires
        chain_unique_keys(chain),
        0 <= j < chain.len(),
    ensures
        chain_unique_keys(chain.remove(j)),
        !chain_has_key(chain.remove(j), chain[j].0@),
        kv != chain[j].0@ ==> chain_has_key(chain.remove(j), kv) == chain_has_key(chain, kv),
        kv != chain[j].0@ && chain_has_key(chain, kv)
            ==> chain_value_of(chain.remove(j), kv) == chain_value_of(chain, kv),
{
    let new_chain = chain.remove(j);
    assert(new_chain.len() == chain.len() - 1);
    assert forall|j2: int| 0 <= j2 < j implies (#[trigger] new_chain[j2]) == chain[j2] by {}
    assert forall|j2: int| j <= j2 < new_chain.len()
        implies (#[trigger] new_chain[j2]) == chain[j2 + 1] by {}
    assert(chain_unique_keys(new_chain));
    if chain_has_key(new_chain, chain[j].0@) {
        let j2 = chain_key_at(new_chain, chain[j].0@);
        assert(0 <= j2 < new_chain.len() && new_chain[j2].0@ == chain[j].0@);
        if j2 < j {
            assert(chain[j2].0@ == chain[j].0@);
            assert(false);
        } else {
            assert(chain[j2 + 1].0@ == chain[j].0@);
            assert(false);
        }
    }
    if kv != chain[j].0@ {
        if chain_has_key(chain, kv) {
            let j2 = chain_key_at(chain, kv);
            lemma_chain_entry_at(chain, kv, j2);
            assert(j2 != j);
            if j2 < j {
                lemma_chain_entry_at(new_chain, kv, j2);
            } else {
                assert(new_chain[j2 - 1] == chain[j2]);
                lemma_chain_entry_at(new_chain, kv, j2 - 1);
            }
        }
        if chain_has_key(new_chain, kv) {
            let j2 = chain_key_at(new_chain, kv);
            assert(0 <= j2 < new_chain.len() && new_chain[j2].0@ == kv);
            if j2 < j {
                assert(chain[j2].0@ == kv);
            } else {
                assert(chain[j2 + 1].0@ == kv);
            }
            assert(chain_has_key(chain, kv));
        }
    }
}

/// The set of key values stored in a chain.
spec fn chain_key_set<K: View, V>(chain: Seq<(K, V)>) -> Set<K::V> {
    Set::new(|kv: K::V| chain_has_key(chain, kv))
}

/// A chain with unique keys stores exactly as many distinct key values as it
/// has entries.
proof fn lemma_chain_key_set_len<K: View, V>(chain: Seq<(K, V)>)
    requires
        chain_unique_keys(chain),
    ensures
        chain_key_set(chain).finite(),
        chain_key_set(chain).len() == chain.len(),
    decreases chain.len(),
{
    if chain.len() == 0 {
        assert(chain_key_set(chain) =~= Set::<K::V>::empty());
    } else {
        let prefix = chain.drop_last();
        let last = chain.last();
        assert forall|j: int| 0 <= j < prefix.len() implies (#[trigger] prefix[j]) == chain[j] by {}
        assert(chain_unique_keys(prefix));
        lemma_chain_key_set_len::<K, V>(prefix);
        assert(!chain_has_key(prefix, last.0@)) by {
            if chain_has_key(prefix, last.0@) {
                let j = chain_key_at(prefix, last.0@);
                assert(chain[j].0@ == chain[chain.len() - 1].0@);
                assert(false);
            }
        }
        assert(chain_key_set(chain) =~= chain_key_set(prefix).insert(last.0@)) by {
            assert forall|kv: K::V| #[trigger]
                chain_has_key(chain, kv) implies chain_has_key(prefix, kv) || kv == last.0@ by {
                let j = chain_key_at(chain, kv);
                assert(0 <= j < chain.len() && chain[j].0@ == kv);
                if j < chain.len() - 1 {
                    assert(prefix[j].0@ == kv);
                }
            }
            assert forall|kv: K::V| chain_has_key(prefix, kv) || kv == last.0@ implies #[trigger]
                chain_has_key(chain, kv) by {
                if chain_has_key(prefix, kv) {
                    let j = chain_key_at(prefix, kv);
                    assert(chain[j].0@ == kv);
                } else {
                    assert(chain[chain.len() - 1].0@ == kv);
                }
            }
        }
        vstd::set::axiom_set_insert_len(chain_key_set(prefix), last.0@);
    }
}

/// Law: a key that was never inserted is absent, so `get` returns nothing
/// for it; inserting it binds it to the given value, grows the map by exactly
/// one key, and leaves every other key's binding unchanged.
pub proof fn lemma_insert_absent_key<KV, V>(m: Map<KV, V>, k: KV, v: V)
    requires
        m.dom().finite(),
        !m.contains_key(k),
    ensures
        m.insert(k, v).contains_key(k),
        m.insert(k, v)[k] == v,
        m.insert(k, v).dom().finite(),
        m.insert(k, v).dom().len() == m.dom().len() + 1,
        forall|k2: KV| k2 != k
            ==> #[trigger] m.insert(k, v).contains_key(k2) == m.contains_key(k2),
        forall|k2: KV| k2 != k && m.contains_key(k2) ==> #[trigger] m.insert(k, v)[k2] == m[k2],
{
    vstd::set::axiom_set_insert_len(m.dom(), k);
}

/// Law: inserting a key that is already bound to some value rebinds it to
/// the new value, keeps the set of keys (and so the size) unchanged, and
/// leaves every other key's binding unchanged; a later `get` of the key
/// returns the new value.
pub proof fn lemma_insert_present_key<KV, V>(m: Map<KV, V>, k: KV, v2: V)
    requires
        m.dom().finite(),
        m.contains_key(k),
    ensures
        m.insert(k, v2).contains_key(k),
        m.insert(k, v2)[k] == v2,
        m.insert(k, v2).dom() == m.dom(),
        m.insert(k, v2).dom().len() == m.dom().len(),
        forall|k2: KV| k2 != k
            ==> #[trigger] m.insert(k, v2).contains_key(k2) == m.contains_key(k2),
        forall|k2: KV| k2 != k && m.contains_key(k2)
            ==> #[trigger] m.insert(k, v2)[k2] == m[k2],
{
    assert(m.insert(k, v2).dom() =~= m.dom());
}

/// Law: removing a present key shrinks the map by exactly one key, makes a
/// later `get` of that key return nothing, and leaves every other key's
/// binding unchanged.
pub proof fn lemma_remove_present_key<KV, V>(m: Map<KV, V>, k: KV)
    requires
        m.dom().finite(),
        m.contains_key(k),
    ensures
        !m.remove(k).contains_key(k),
        m.remove(k).dom().finite(),
        m.remove(k).dom().len() == m.dom().len() - 1,
        forall|k2: KV| k2 != k
            ==> #[trigger] m.remove(k).contains_key(k2) == m.contains_key(k2),
        forall|k2: KV| k2 != k && m.contains_key(k2) ==> #[trigger] m.remove(k)[k2] == m[k2],
{
    vstd::set::axiom_set_remove_len(m.dom(), k);
}

/// Law: removing an absent key returns nothing and changes nothing, the size
/// included.
pub proof fn lemma_remove_absent_key<KV, V>(m: Map<KV, V>, k: KV)
    requires
        !m.contains_key(k),
    ensures
        m.remove(k) == m,
{
    assert(m.remove(k) =~= m);
}

/// Law: removing a key twice yields its value and then absence: after the
/// first removal the key is gone, and the second removal changes nothing.
pub proof fn lemma_remove_twice<KV, V>(m: Map<KV, V>, k: KV)
    ensures
        !m.remove(k).contains_key(k),
        m.remove(k).remove(k) == m.remove(k),
{
    lemma_remove_absent_key(m.remove(k), k);
}

/// Law: two distinct keys are insertable, retrievable, and removable without
/// affecting each other. The contracts of `insert`, `get`, and `remove`
/// mention bucket indexes nowhere, so this holds in particular for two keys
/// that hash to the same bucket.
pub proof fn lemma_distinct_keys_independent<KV, V>(m: Map<KV, V>, k1: KV, v1: V, k2: KV, v2: V)
    requires
        k1 != k2,
    ensures
        m.insert(k1, v1).insert(k2, v2)[k1] == v1,
        m.insert(k1, v1).insert(k2, v2)[k2] == v2,
        m.insert(k1, v1).insert(k2, v2).remove(k1)[k2] == v2,
        m.insert(k1, v1).insert(k2, v2).remove(k1).contains_key(k2),
        !m.insert(k1, v1).insert(k2, v2).remove(k1).contains_key(k1),
        m.insert(k1, v1).insert(k2, v2).remove(k2)[k1] == v1,
        m.insert(k1, v1).insert(k2, v2).remove(k2).contains_key(k1),
        !m.insert(k1, v1).insert(k2, v2).remove(k2).contains_key(k2),
{
}

/// A hash map from keys to values over a fixed-size table of bucket chains.
///
/// `array` has one optional chain per bucket index; `current_size` counts the
/// entries across all chains.
pub struct HashMap<K, V> {
    current_size: usize,
    array: Vec<Option<Vec<(K, V)>>>,
}

impl<K: HashableKey, V: CloneValue> KeyToIndexHasherTrait<K> for HashMap<K, V> {

}

impl<K: HashableKey, V: CloneValue> View for HashMap<K, V> {
    type V = Map<K::V, V>;

    closed spec fn view(&self) -> Map<K::V, V> {
        self.as_map()
    }
}

impl<K: HashableKey, V: CloneValue> HashMap<K, V> {
    /// The entries stored in bucket `i`, in insertion order; an absent slot
    /// holds no entries.
    pub closed spec fn bucket_seq(self, i: int) -> Seq<(K, V)> {
        match self.array@[i] {
            Some(chain) => chain@,
            None => Seq::empty(),
        }
    }

    /// The recorded number of entries.
    pub closed spec fn spec_size(self) -> int {
        self.current_size as int
    }

    /// Total number of entries in buckets `0..n`.
    pub closed spec fn count_below(self, n: int) -> int
        decreases n,
    {
        if n <= 0 {
            0
        } else {
            self.count_below(n - 1) + self.bucket_seq(n - 1).len()
        }
    }

    /// Bucket `i` is sound: a present slot is non-empty, keys are unique, and
    /// every stored key hashes to `i`.
    pub closed spec fn bucket_wf(self, i: int) -> bool {
        &&& self.array@[i] is Some ==> self.bucket_seq(i).len() > 0
        &&& chain_unique_keys(self.bucket_seq(i))
        &&& forall|j: int| 0 <= j < self.bucket_seq(i).len()
            ==> bucket_index_of::<K>((#[trigger] self.bucket_seq(i)[j]).0@) == i
    }

    /// The table has exactly `DEFAULT_MAX_SIZE` slots, every bucket is sound,
    /// and the size counter equals the total number of entries.
    pub closed spec fn wf(self) -> bool {
        &&& self.array@.len() == DEFAULT_MAX_SIZE
        &&& forall|i: int| 0 <= i < DEFAULT_MAX_SIZE ==> #[trigger] self.bucket_wf(i)
        &&& self.current_size == self.count_below(DEFAULT_MAX_SIZE as int)
    }

    /// The map's abstract value: each key's abstract value is bound to the
    /// value stored in the bucket that the key hashes to.
    pub closed spec fn as_map(self) -> Map<K::V, V> {
        Map::new(
            |kv: K::V| chain_has_key(self.bucket_seq(bucket_index_of::<K>(kv)), kv),
            |kv: K::V| chain_value_of(self.bucket_seq(bucket_index_of::<K>(kv)), kv),
        )
    }

    /// Buckets `0..n` of `a` and `b` agree except possibly at `index`, where
    /// the lengths differ by `delta`: the totals then differ by `delta`.
    proof fn lemma_count_below_change(a: Self, b: Self, n: int, index: int, delta: int)
        requires
            0 <= index,
            forall|i: int| 0 <= i < n && i != index
                ==> #[trigger] b.bucket_seq(i) == a.bucket_seq(i),
            b.bucket_seq(index).len() == a.bucket_seq(index).len() + delta,
        ensures
            index < n ==> b.count_below(n) == a.count_below(n) + delta,
            n <= index ==> b.count_below(n) == a.count_below(n),
        decreases n,
    {
        if n > 0 {
            Self::lemma_count_below_change(a, b, n - 1, index, delta);
        }
    }

    /// With every bucket below `n` empty, the total below `n` is zero.
    proof fn lemma_count_below_zero(m: Self, n: int)
        requires
            forall|i: int| 0 <= i < n ==> (#[trigger] m.bucket_seq(i)).len() == 0,
        ensures
            m.count_below(n) == 0,
        decreases n,
    {
        if n > 0 {
            Self::lemma_count_below_zero(m, n - 1);
        }
    }

    /// A zero total below `n` means every bucket below `n` is empty.
    proof fn lemma_count_below_all_empty(m: Self, n: int)
        requires
            m.count_below(n) == 0,
        ensures
            forall|i: int| 0 <= i < n ==> (#[trigger] m.bucket_seq(i)).len() == 0,
        decreases n,
    {
        if n > 0 {
            assert(m.count_below(n - 1) >= 0) by {
                Self::lemma_count_below_nonneg(m, n - 1);
            }
            Self::lemma_count_below_all_empty(m, n - 1);
        }
    }

    /// The total below `n` is never negative.
    proof fn lemma_count_below_nonneg(m: Self, n: int)
        ensures
            m.count_below(n) >= 0,
        decreases n,
    {
        if n > 0 {
            Self::lemma_count_below_nonneg(m, n - 1);
        }
    }

    /// The set of key values stored in buckets `0..n`.
    spec fn key_set_below(self, n: int) -> Set<K::V> {
        Set::new(
            |kv: K::V| bucket_index_of::<K>(kv) < n && chain_has_key(
                self.bucket_seq(bucket_index_of::<K>(kv)),
                kv,
            ),
        )
    }

    /// Buckets `0..n` store exactly `count_below(n)` distinct key values.
    proof fn lemma_key_set_below_len(self, n: int)
        requires
            self.wf(),
            0 <= n <= DEFAULT_MAX_SIZE,
        ensures
            self.key_set_below(n).finite(),
            self.key_set_below(n).len() == self.count_below(n),
        decreases n,
    {
        if n <= 0 {
            assert(self.key_set_below(n) =~= Set::<K::V>::empty());
        } else {
            self.lemma_key_set_below_len(n - 1);
            assert(self.bucket_wf(n - 1));
            lemma_chain_key_set_len(self.bucket_seq(n - 1));
            let a = self.key_set_below(n - 1);
            let b = chain_key_set(self.bucket_seq(n - 1));
            assert forall|kv: K::V| #[trigger] b.contains(kv)
                implies bucket_index_of::<K>(kv) == n - 1 by {
                let j = chain_key_at(self.bucket_seq(n - 1), kv);
                assert(self.bucket_seq(n - 1)[j].0@ == kv);
            }
            assert(a.disjoint(b));
            assert(self.key_set_below(n) =~= a + b);
            vstd::set_lib::lemma_set_disjoint_lens(a, b);
        }
    }

    /// Law: the recorded size equals the number of distinct keys the map
    /// holds, so `size()` counts exactly the keys of the map's abstract
    /// value.
    pub proof fn lemma_size_is_key_count(self)
        requires
            self.wf(),
        ensures
            self@.dom().finite(),
            self@.dom().len() == self.spec_size(),
    {
        self.lemma_key_set_below_len(DEFAULT_MAX_SIZE as int);
        assert(self@.dom() =~= self.key_set_below(DEFAULT_MAX_SIZE as int)) by {
            assert forall|kv: K::V| true
                implies bucket_index_of::<K>(kv) < DEFAULT_MAX_SIZE by {}
        }
    }

    /// Find the position of the entry holding `key` in a chain, scanning from
    /// the front; `None` when no entry holds it.
    fn chain_find(chain: &Vec<(K, V)>, key: &K) -> (r: Option<usize>)
        ensures
            match r {
                Some(j) => 0 <= j < chain@.len() && chain@[j as int].0@ == key@,
                None => !chain_has_key(chain@, key@),
            },
    {
        let mut j: usize = 0;
        while j < chain.len()
            invariant
                j <= chain@.len(),
                forall|j2: int| 0 <= j2 < j ==> (#[trigger] chain@[j2]).0@ != key@,
            decreases chain@.len() - j,
        {
            let entry = &chain[j];
            if entry.0.key_eq(key) {
                return Some(j);
            }
            j = j + 1;
        }
        None
    }

    /// A fresh table with every slot absent.
    fn empty_table() -> (array: Vec<Option<Vec<(K, V)>>>)
        ensures
            array@.len() == DEFAULT_MAX_SIZE,
            forall|i: int| 0 <= i < DEFAULT_MAX_SIZE ==> (#[trigger] array@[i]) is None,
    {
        let mut array: Vec<Option<Vec<(K, V)>>> = Vec::new();
        let mut i: usize = 0;
        while i < DEFAULT_MAX_SIZE
            invariant
                i == array@.len(),
                i <= DEFAULT_MAX_SIZE,
                forall|i2: int| 0 <= i2 < i ==> (#[trigger] array@[i2]) is None,
            decreases DEFAULT_MAX_SIZE - i,
        {
            array.push(None);
            i = i + 1;
        }
        array
    }

    /// An empty map: every slot absent, no entries.
    pub fn new() -> (m: Self)
        ensures
            m.wf(),
            m@ == Map::<K::V, V>::empty(),
            m.spec_size() == 0,
    {
        let m = HashMap { current_size: 0, array: Self::empty_table() };
        proof {
            assert forall|i: int| 0 <= i < DEFAULT_MAX_SIZE
                implies (#[trigger] m.bucket_seq(i)).len() == 0 by {}
            Self::lemma_count_below_zero(m, DEFAULT_MAX_SIZE as int);
            assert forall|i: int| 0 <= i < DEFAULT_MAX_SIZE implies #[trigger] m.bucket_wf(i) by {}
            assert(m.as_map() =~= Map::<K::V, V>::empty());
        }
        m
    }

    /// True if and only if the map holds no entries.
    pub fn is_empty(&self) -> (r: bool)
        requires
            self.wf(),
        ensures
            r == (self.spec_size() == 0),
            r == (self@ == Map::<K::V, V>::empty()),
    {
        proof {
            if self.current_size == 0 {
                Self::lemma_count_below_all_empty(*self, DEFAULT_MAX_SIZE as int);
                assert(self.as_map() =~= Map::<K::V, V>::empty());
            } else {
                assert(exists|i: int|
                    0 <= i < DEFAULT_MAX_SIZE && (#[trigger] self.bucket_seq(i)).len() > 0) by {
                    if !(exists|i: int|
                        0 <= i < DEFAULT_MAX_SIZE && (#[trigger] self.bucket_seq(i)).len() > 0) {
                        assert forall|i: int| 0 <= i < DEFAULT_MAX_SIZE
                            implies (#[trigger] self.bucket_seq(i)).len() == 0 by {}
                        Self::lemma_count_below_zero(*self, DEFAULT_MAX_SIZE as int);
                    }
                }
                let i = choose|i: int|
                    0 <= i < DEFAULT_MAX_SIZE && (#[trigger] self.bucket_seq(i)).len() > 0;
                assert(self.bucket_wf(i));
                let kv = self.bucket_seq(i)[0].0@;
                assert(bucket_index_of::<K>(kv) == i);
                assert(chain_has_key(self.bucket_seq(i), kv));
                assert(self.as_map().contains_key(kv));
                assert(self@ != Map::<K::V, V>::empty());
            }
        }
        self.current_size == 0
    }

    /// Current number of entries.
    pub fn size(&self) -> (r: usize)
        requires
            self.wf(),
        ensures
            r as int == self.spec_size(),
    {
        self.current_size
    }

    /// The total below `n` is at least the size of any one bucket below `n`.
    proof fn lemma_count_below_at_least(m: Self, n: int, i: int)
        requires
            0 <= i < n,
        ensures
            m.count_below(n) >= m.bucket_seq(i).len(),
        decreases n,
    {
        if i == n - 1 {
            Self::lemma_count_below_nonneg(m, n - 1);
        } else {
            Self::lemma_count_below_at_least(m, n - 1, i);
        }
    }

    /// Inserts a key and value pair. If the key was absent, appends a new
    /// entry to its bucket's chain and returns `None`; if the key was
    /// present, replaces the stored value in place, leaving the size and the
    /// entry's position unchanged, and returns the old value.
    pub fn insert(&mut self, key: K, value: V) -> (r: Option<V>)
        requires
            old(self).wf(),
            old(self).spec_size() < usize::MAX,
        ensures
            final(self).wf(),
            final(self)@ == old(self)@.insert(key@, value),
            r == if old(self)@.contains_key(key@) {
                Some(old(self)@[key@])
            } else {
                None::<V>
            },
            old(self)@.contains_key(key@) ==> final(self).spec_size() == old(self).spec_size(),
            !old(self)@.contains_key(key@)
                ==> final(self).spec_size() == old(self).spec_size() + 1,
    {
        let index = self.get_index(key.clone_key());
        let ghost key_view = key@;
        let ghost old_chain = old(self).bucket_seq(index as int);
        proof {
            assert(index as int == bucket_index_of::<K>(key_view));
            assert(old(self).bucket_wf(index as int));
        }
        let ghost new_entry: (K, V) = (key, value);
        let slot = self.array[index].take();
        match slot {
            None => {
                let mut chain: Vec<(K, V)> = Vec::new();
                chain.push((key, value));
                self.array[index] = Some(chain);
                self.current_size = self.current_size + 1;
                proof {
                    assert(old_chain.len() == 0);
                    assert(!old(self)@.contains_key(key_view));
                    self.lemma_after_chain_change(
                        *old(self),
                        index as int,
                        old_chain.push(new_entry),
                        1,
                    );
                    assert_maps_equal!(
                        self.as_map(),
                        old(self).as_map().insert(key_view, value),
                        kv => {
                            lemma_chain_push(old_chain, new_entry, kv);
                        }
                    );
                }
                None
            },
            Some(mut chain) => {
                let found = Self::chain_find(&chain, &key);
                match found {
                    Some(j) => {
                        let (found_key, old_value) = chain.remove(j);
                        let ghost updated_entry: (K, V) = (found_key, value);
                        chain.insert(j, (found_key, value));
                        proof {
                            assert(chain@ =~= old_chain.update(j as int, updated_entry));
                        }
                        self.array[index] = Some(chain);
                        proof {
                            lemma_chain_entry_at(old_chain, key_view, j as int);
                            assert(old(self)@.contains_key(key_view));
                            assert(old(self)@[key_view] == old_value);
                            self.lemma_after_chain_change(
                                *old(self),
                                index as int,
                                old_chain.update(j as int, updated_entry),
                                0,
                            );
                            assert_maps_equal!(
                                self.as_map(),
                                old(self).as_map().insert(key_view, value),
                                kv => {
                                    lemma_chain_update(old_chain, j as int, updated_entry, kv);
                                }
                            );
                        }
                        Some(old_value)
                    },
                    None => {
                        chain.push((key, value));
                        self.array[index] = Some(chain);
                        self.current_size = self.current_size + 1;
                        proof {
                            assert(!old(self)@.contains_key(key_view));
                            self.lemma_after_chain_change(
                                *old(self),
                                index as int,
                                old_chain.push(new_entry),
                                1,
                            );
                            assert_maps_equal!(
                                self.as_map(),
                                old(self).as_map().insert(key_view, value),
                                kv => {
                                    lemma_chain_push(old_chain, new_entry, kv);
                                }
                            );
                        }
                        None
                    },
                }
            },
        }
    }

    /// After an operation that rewrote only bucket `index` to `new_chain`
    /// (whose size changed by `delta`, with unique keys all hashing to
    /// `index`) and adjusted the size counter accordingly, the map is well
    /// formed again and the other buckets are untouched.
    proof fn lemma_after_chain_change(
        self,
        prev: Self,
        index: int,
        new_chain: Seq<(K, V)>,
        delta: int,
    )
        requires
            prev.wf(),
            0 <= index < DEFAULT_MAX_SIZE,
            self.array@.len() == prev.array@.len(),
            forall|i: int| 0 <= i < DEFAULT_MAX_SIZE && i != index
                ==> #[trigger] self.array@[i] == prev.array@[i],
            self.bucket_seq(index) == new_chain,
            self.array@[index] is Some ==> new_chain.len() > 0,
            new_chain.len() == prev.bucket_seq(index).len() + delta,
            chain_unique_keys(new_chain),
            forall|j: int| 0 <= j < new_chain.len()
                ==> bucket_index_of::<K>((#[trigger] new_chain[j]).0@) == index,
            self.current_size as int == prev.current_size + delta,
        ensures
            self.wf(),
            forall|i: int| 0 <= i < DEFAULT_MAX_SIZE && i != index
                ==> #[trigger] self.bucket_seq(i) == prev.bucket_seq(i),
    {
        assert forall|i: int| 0 <= i < DEFAULT_MAX_SIZE && i != index
            implies #[trigger] self.bucket_seq(i) == prev.bucket_seq(i) by {}
        assert forall|i: int| 0 <= i < DEFAULT_MAX_SIZE implies #[trigger] self.bucket_wf(i) by {
            assert(prev.bucket_wf(i));
        }
        Self::lemma_count_below_change(prev, self, DEFAULT_MAX_SIZE as int, index, delta);
    }

    /// Removes the entry for a given key and returns its value, or `None`
    /// when the key is absent. The other entries of the bucket keep their
    /// relative order, and a bucket whose last entry is removed has its slot
    /// set back to absent, never left as an empty chain.
    pub fn remove(&mut self, key: K) -> (r: Option<V>)
        requires
            old(self).wf(),
        ensures
            final(self).wf(),
            final(self)@ == old(self)@.remove(key@),
            r == if old(self)@.contains_key(key@) {
                Some(old(self)@[key@])
            } else {
                None::<V>
            },
            old(self)@.contains_key(key@)
                ==> final(self).spec_size() == old(self).spec_size() - 1,
            !old(self)@.contains_key(key@)
                ==> final(self).spec_size() == old(self).spec_size(),
    {
        let index = self.get_index(key.clone_key());
        let ghost key_view = key@;
        let ghost old_chain = old(self).bucket_seq(index as int);
        proof {
            assert(index as int == bucket_index_of::<K>(key_view));
            assert(old(self).bucket_wf(index as int));
        }
        let slot = self.array[index].take();
        match slot {
            None => {
                proof {
                    assert(old_chain.len() == 0);
                    assert(!old(self)@.contains_key(key_view));
                    self.lemma_after_chain_change(*old(self), index as int, old_chain, 0);
                    assert_maps_equal!(
                        self.as_map(),
                        old(self).as_map().remove(key_view),
                        kv => {}
                    );
                }
                None
            },
            Some(mut chain) => {
                let found = Self::chain_find(&chain, &key);
                match found {
                    Some(j) => {
                        proof {
                            Self::lemma_count_below_at_least(
                                *old(self),
                                DEFAULT_MAX_SIZE as int,
                                index as int,
                            );
                        }
                        let (removed_key, removed_value) = chain.remove(j);
                        if chain.len() == 0 {
                            proof {
                                assert(self.bucket_seq(index as int)
                                    =~= old_chain.remove(j as int));
                            }
                        } else {
                            self.array[index] = Some(chain);
                        }
                        self.current_size = self.current_size - 1;
                        proof {
                            lemma_chain_entry_at(old_chain, key_view, j as int);
                            assert(old(self)@.contains_key(key_view));
                            assert(old(self)@[key_view] == removed_value);
                            lemma_chain_remove(old_chain, j as int, key_view);
                            self.lemma_after_chain_change(
                                *old(self),
                                index as int,
                                old_chain.remove(j as int),
                                -1,
                            );
                            assert_maps_equal!(
                                self.as_map(),
                                old(self).as_map().remove(key_view),
                                kv => {
                                    lemma_chain_remove(old_chain, j as int, kv);
                                }
                            );
                        }
                        Some(removed_value)
                    },
                    None => {
                        self.array[index] = Some(chain);
                        proof {
                            assert(!old(self)@.contains_key(key_view));
                            self.lemma_after_chain_change(*old(self), index as int, old_chain, 0);
                            assert_maps_equal!(
                                self.as_map(),
                                old(self).as_map().remove(key_view),
                                kv => {}
                            );
                        }
                        None
                    },
                }
            },
        }
    }

    /// Clears all entries: every bucket slot is reset to absent and the size
    /// to zero.
    pub fn clear(&mut self)
        ensures
            final(self).wf(),
            final(self)@ == Map::<K::V, V>::empty(),
            final(self).spec_size() == 0,
            forall|i: int| 0 <= i < DEFAULT_MAX_SIZE
                ==> (#[trigger] final(self).bucket_seq(i)).len() == 0,
    {
        self.array = Self::empty_table();
        self.current_size = 0;
        proof {
            assert forall|i: int| 0 <= i < DEFAULT_MAX_SIZE
                implies (#[trigger] self.bucket_seq(i)).len() == 0 by {}
            Self::lemma_count_below_zero(*self, DEFAULT_MAX_SIZE as int);
            assert forall|i: int| 0 <= i < DEFAULT_MAX_SIZE
                implies #[trigger] self.bucket_wf(i) by {}
            assert(self.as_map() =~= Map::<K::V, V>::empty());
        }
    }

    /// The entries of bucket `index`, in insertion order, with the keys
    /// copied and the values as stored; empty when the slot is absent.
    pub fn entries_at(&self, index: usize) -> (r: Vec<(K, V)>)
        requires
            self.wf(),
            index < DEFAULT_MAX_SIZE,
        ensures
            r@.len() == self.bucket_seq(index as int).len(),
            forall|j: int| 0 <= j < r@.len()
                ==> (#[trigger] r@[j]).0@ == self.bucket_seq(index as int)[j].0@
                    && r@[j].1 == self.bucket_seq(index as int)[j].1,
    {
        let mut entries: Vec<(K, V)> = Vec::new();
        let slot: &Option<Vec<(K, V)>> = &self.array[index];
        match slot {
            None => {},
            Some(chain) => {
                let mut j: usize = 0;
                while j < chain.len()
                    invariant
                        j <= chain@.len(),
                        entries@.len() == j,
                        forall|j2: int| 0 <= j2 < j
                            ==> (#[trigger] entries@[j2]).0@ == chain@[j2].0@
                                && entries@[j2].1 == chain@[j2].1,
                    decreases chain@.len() - j,
                {
                    let entry = &chain[j];
                    entries.push((entry.0.clone_key(), entry.1.clone_value()));
                    j = j + 1;
                }
            },
        }
        entries
    }

    /// Gets the value for a given key, or `None` when the key is absent. No
    /// mutation, no side effects.
    pub fn get(&self, key: K) -> (r: Option<V>)
        requires
            self.wf(),
        ensures
            r == if self@.contains_key(key@) {
                Some(self@[key@])
            } else {
                None::<V>
            },
    {
        let index = self.get_index(key.clone_key());
        proof {
            assert(index as int == bucket_index_of::<K>(key@));
            assert(self.bucket_wf(index as int));
        }
        let slot: &Option<Vec<(K, V)>> = &self.array[index];
        match slot {
            None => None,
            Some(chain) => {
                match Self::chain_find(chain, &key) {
                    Some(j) => {
                        proof {
                            lemma_chain_entry_at(self.bucket_seq(index as int), key@, j as int);
                        }
                        Some(chain[j].1.clone_value())
                    },
                    None => None,
                }
            },
        }
    }
}

} // verus!
