//! A generic, byte-budgeted, recency-ordered key/value store with strict LRU
//! eviction.
//!
//! The cache owns a sequence of entries kept in recency order: the entry at
//! index `0` is the least recently touched, the entry at the end is the most
//! recently touched. Every operation — `put`, `get`, and even `contains` —
//! perturbs that order, so all of them take `&mut self`.
//!
//! Capacity pressure is never an error: when an insertion would push the sum
//! of entry sizes over the configured byte budget, least-recently-used
//! entries are evicted until the new entry fits or the cache is empty. A
//! single entry larger than the whole budget is stored anyway, alone, and
//! becomes the first eviction candidate of the next insertion.

use vstd::prelude::*;

verus! {

/// Keys of a cache: equality is decidable at run time and coincides with
/// logical equality.
pub trait CacheKey: Sized {
    fn key_eq(&self, other: &Self) -> (b: bool)
        ensures
            b <==> *self == *other,
    ;
}

impl CacheKey for u64 {
    fn key_eq(&self, other: &Self) -> (b: bool)
        ensures
            b <==> *self == *other,
    {
        *self == *other
    }
}

/// Values of a cache: each value reports the number of bytes it is accounted
/// for when it resides in a cache.
pub trait ByteSized: Sized {
    spec fn size_spec(&self) -> u64;

    fn size_bytes(&self) -> (r: u64)
        ensures
            r == self.size_spec(),
    ;
}

/// One resident cache entry: a key, a value, and the byte size the value was
/// measured at when it was inserted.
pub struct CacheEntry<K, V> {
    pub key: K,
    pub value: V,
    pub size: u64,
}

/// Sum of the sizes of the entries of `s`.
pub open spec fn total_size<K, V>(s: Seq<CacheEntry<K, V>>) -> int
    decreases s.len(),
{
    if s.len() == 0 {
        0
    } else {
        s[0].size + total_size(s.drop_first())
    }
}

/// Index of the first entry of `s` whose key is `key`, or `-1` if there is
/// none.
pub open spec fn find_key<K, V>(s: Seq<CacheEntry<K, V>>, key: K) -> int
    decreases s.len(),
{
    if s.len() == 0 {
        -1
    } else if s[0].key == key {
        0
    } else {
        let r = find_key(s.drop_first(), key);
        if r < 0 {
            -1
        } else {
            r + 1
        }
    }
}

/// Whether some entry of `s` has key `key`.
pub open spec fn has_key<K, V>(s: Seq<CacheEntry<K, V>>, key: K) -> bool {
    find_key(s, key) >= 0
}

/// `s` with the entry keyed `key` taken out, if there is one.
pub open spec fn remove_key<K, V>(s: Seq<CacheEntry<K, V>>, key: K) -> Seq<CacheEntry<K, V>> {
    if has_key(s, key) {
        s.remove(find_key(s, key))
    } else {
        s
    }
}

/// Least-recently-used entries of `s` dropped, in recency order, until an
/// additional `need` bytes fit under `budget` or nothing is left.
pub open spec fn evict_to_fit<K, V>(s: Seq<CacheEntry<K, V>>, need: int, budget: int) -> Seq<
    CacheEntry<K, V>,
>
    decreases s.len(),
{
    if s.len() == 0 || total_size(s) + need <= budget {
        s
    } else {
        evict_to_fit(s.drop_first(), need, budget)
    }
}

/// The entries after `put(key, value)` on a cache holding `s` under `budget`:
/// a previous entry for `key` is replaced, older entries are evicted until the
/// new one fits, and the new entry becomes the most recently used.
pub open spec fn put_model<K, V: ByteSized>(
    s: Seq<CacheEntry<K, V>>,
    key: K,
    value: V,
    budget: u64,
) -> Seq<CacheEntry<K, V>> {
    evict_to_fit(remove_key(s, key), value.size_spec() as int, budget as int).push(
        (CacheEntry { key, value, size: value.size_spec() }),
    )
}

/// The entries after a successful read of `key`: the entry moves to the
/// most-recently-used end, everything else keeps its relative order.
pub open spec fn touch_model<K, V>(s: Seq<CacheEntry<K, V>>, key: K) -> Seq<CacheEntry<K, V>> {
    let i = find_key(s, key);
    s.remove(i).push(s[i])
}

/// No two entries of `s` share a key.
pub open spec fn distinct_keys<K, V>(s: Seq<CacheEntry<K, V>>) -> bool {
    forall|i: int, j: int| 0 <= i < j < s.len() ==> s[i].key != s[j].key
}

/// Every entry's recorded size is the size its value reports.
pub open spec fn entry_sizes_ok<K, V: ByteSized>(s: Seq<CacheEntry<K, V>>) -> bool {
    forall|i: int| 0 <= i < s.len() ==> #[trigger] s[i].size == s[i].value.size_spec()
}

/// Entries fit the byte budget — except that a single oversized entry is
/// admitted on its own.
pub open spec fn fits_budget<K, V>(s: Seq<CacheEntry<K, V>>, budget: int) -> bool {
    s.len() >= 2 ==> total_size(s) <= budget
}

pub struct LruMemoryCache<K: CacheKey, V: ByteSized> {
    items: Vec<CacheEntry<K, V>>,
    used: u64,
    budget: u64,
}

impl<K: CacheKey, V: ByteSized> LruMemoryCache<K, V> {
    /// The resident entries, least recently used first.
    pub closed spec fn entries(&self) -> Seq<CacheEntry<K, V>> {
        self.items@
    }

    /// The configured byte budget.
    pub closed spec fn budget(&self) -> u64 {
        self.budget
    }

    /// The running byte total matches the entries held.
    pub closed spec fn accounting_ok(&self) -> bool {
        self.used as int == total_size(self.entries())
    }

    /// Invariant of a cache: keys are unique, recorded sizes are honest, the
    /// byte accounting is exact, and the entries fit the budget (a lone
    /// oversized entry excepted).
    pub open spec fn inv(&self) -> bool {
        &&& distinct_keys(self.entries())
        &&& entry_sizes_ok(self.entries())
        &&& self.accounting_ok()
        &&& fits_budget(self.entries(), self.budget() as int)
    }

    /// An empty cache with the given byte budget.
    pub fn new(budget: u64) -> (c: Self)
        ensures
            c.inv(),
            c.budget() == budget,
            c.entries() == Seq::<CacheEntry<K, V>>::empty(),
    {
        let c = LruMemoryCache { items: Vec::new(), used: 0, budget };
        proof {
            assert(c.entries() =~= Seq::<CacheEntry<K, V>>::empty());
        }
        c
    }

    /// Number of resident entries.
    pub fn len(&self) -> (n: usize)
        ensures
            n == self.entries().len(),
    {
        self.items.len()
    }

    /// Sum of the sizes of the resident entries.
    pub fn used_bytes(&self) -> (r: u64)
        requires
            self.accounting_ok(),
        ensures
            r as int == total_size(self.entries()),
    {
        self.used
    }

    /// Index of the entry keyed `*key`, if it is resident.
    fn index_of(&self, key: &K) -> (r: Option<usize>)
        ensures
            match r {
                Some(i) => i == find_key(self.entries(), *key) && i < self.entries().len()
                    && self.entries()[i as int].key == *key,
                None => !has_key(self.entries(), *key),
            },
    {
        let n = self.items.len();
        let mut i: usize = 0;
        while i < n
            invariant
                i <= n,
                n == self.entries().len(),
                forall|j: int| 0 <= j < i ==> self.entries()[j].key != *key,
            decreases n - i,
        {
            if self.items[i].key.key_eq(key) {
                proof {
                    lemma_find_key_at(self.entries(), *key, i as int);
                }
                return Some(i);
            }
            i += 1;
        }
        proof {
            lemma_find_key_none(self.entries(), *key);
        }
        None
    }

    /// Returns the value stored under `*key`, if any, and marks that entry
    /// most recently used. Absence is a cache miss, not an error. A hit
    /// perturbs the recency order; a miss leaves the cache unchanged.
    pub fn get(&mut self, key: &K) -> (r: Option<&V>)
        requires
            old(self).inv(),
        ensures
            final(self).inv(),
            final(self).budget() == old(self).budget(),
            has_key(old(self).entries(), *key) ==> {
                &&& r matches Some(v) && *v == old(self).entries()[find_key(
                    old(self).entries(),
                    *key,
                )].value
                &&& final(self).entries() == touch_model(old(self).entries(), *key)
            },
            !has_key(old(self).entries(), *key) ==> r is None && final(self).entries() == old(
                self,
            ).entries(),
    {
        match self.index_of(key) {
            Some(i) => {
                proof {
                    lemma_touch_preserves_inv(self.entries(), *key, self.budget() as int);
                    lemma_total_size_remove(self.entries(), i as int);
                    lemma_total_size_push(
                        self.entries().remove(i as int),
                        self.entries()[i as int],
                    );
                }
                let e = self.items.remove(i);
                self.items.push(e);
                let n = self.items.len();
                Some(&self.items[n - 1].value)
            },
            None => None,
        }
    }

    /// Inserts or replaces the entry for `key`. The entry's size is measured
    /// from the value; if the new byte total would exceed the budget,
    /// least-recently-used entries are evicted, in strict recency order,
    /// until the new entry fits or the cache is empty. A single entry larger
    /// than the whole budget is stored anyway, alone. Capacity pressure is
    /// never an error: `put` cannot fail.
    pub fn put(&mut self, key: K, value: V)
        requires
            old(self).inv(),
        ensures
            final(self).inv(),
            final(self).budget() == old(self).budget(),
            final(self).entries() == put_model(old(self).entries(), key, value, old(self).budget()),
    {
        let size = value.size_bytes();
        match self.index_of(&key) {
            Some(i) => {
                proof {
                    lemma_total_size_remove(self.entries(), i as int);
                    lemma_total_size_nonneg(self.entries().remove(i as int));
                    lemma_remove_at(self.entries(), i as int);
                }
                let e = self.items.remove(i);
                self.used = self.used - e.size;
            },
            None => {},
        }
        let ghost mid = self.items@;
        proof {
            assert(mid == remove_key(old(self).entries(), key));
        }
        while self.items.len() > 0 && (self.used as u128) + (size as u128) > (self.budget
            as u128)
            invariant
                self.budget == old(self).budget(),
                self.used as int == total_size(self.items@),
                distinct_keys(self.items@),
                entry_sizes_ok(self.items@),
                !has_key(self.items@, key),
                evict_to_fit(self.items@, size as int, self.budget as int) == evict_to_fit(
                    mid,
                    size as int,
                    self.budget as int,
                ),
            decreases self.items.len(),
        {
            proof {
                let s = self.items@;
                lemma_total_size_nonneg(s.drop_first());
                lemma_find_key_props(s, key);
                lemma_remove_at(s, 0);
                assert(s.remove(0) =~= s.drop_first());
                assert(forall|j: int| 0 <= j < s.drop_first().len()
                    ==> s.drop_first()[j] == s[j + 1]);
                assert forall|j: int| 0 <= j < s.drop_first().len() implies s.drop_first()[j].key
                    != key by {}
                lemma_find_key_none(s.drop_first(), key);
            }
            let e = self.items.remove(0);
            self.used = self.used - e.size;
        }
        proof {
            let s = self.items@;
            let b = self.budget as int;
            assert(evict_to_fit(s, size as int, b) == s);
            lemma_find_key_props(s, key);
            lemma_total_size_push(s, (CacheEntry { key, value, size }));
            if s.len() == 0 {
                assert(total_size(s) == 0);
            }
        }
        self.used = self.used + size;
        let ghost pre_push = self.items@;
        self.items.push(CacheEntry { key, value, size });
        proof {
            let s = self.items@;
            assert forall|a: int, b: int| 0 <= a < b < s.len() implies s[a].key != s[b].key by {
                if b == s.len() - 1 {
                    assert(s[a] == pre_push[a]);
                }
            }
            assert forall|a: int| 0 <= a < s.len() implies #[trigger] s[a].size
                == s[a].value.size_spec() by {
                if a < s.len() - 1 {
                    assert(s[a] == pre_push[a]);
                }
            }
        }
    }

    /// Existence check for `*key`. In this contract it is an access with the
    /// same side effect as `get`: a hit marks the entry most recently used.
    pub fn contains(&mut self, key: &K) -> (r: bool)
        requires
            old(self).inv(),
        ensures
            final(self).inv(),
            final(self).budget() == old(self).budget(),
            r == has_key(old(self).entries(), *key),
            r ==> final(self).entries() == touch_model(old(self).entries(), *key),
            !r ==> final(self).entries() == old(self).entries(),
    {
        self.get(key).is_some()
    }
}

/// `find_key` points at the first occurrence of a key: it is `-1` exactly
/// when the key is absent, and otherwise indexes an entry holding the key
/// with no earlier occurrence.
pub proof fn lemma_find_key_props<K, V>(s: Seq<CacheEntry<K, V>>, key: K)
    ensures
        find_key(s, key) == -1 || (0 <= find_key(s, key) < s.len()),
        find_key(s, key) == -1 ==> forall|j: int| 0 <= j < s.len() ==> s[j].key != key,
        find_key(s, key) >= 0 ==> s[find_key(s, key)].key == key && (forall|j: int|
            0 <= j < find_key(s, key) ==> s[j].key != key),
    decreases s.len(),
{
    if s.len() != 0 && s[0].key != key {
        lemma_find_key_props(s.drop_first(), key);
        assert(forall|j: int| 1 <= j < s.len() ==> s[j] == s.drop_first()[j - 1]);
    }
}

/// If `s[i]` holds `key` and no earlier entry does, `find_key` returns `i`.
pub proof fn lemma_find_key_at<K, V>(s: Seq<CacheEntry<K, V>>, key: K, i: int)
    requires
        0 <= i < s.len(),
        s[i].key == key,
        forall|j: int| 0 <= j < i ==> s[j].key != key,
    ensures
        find_key(s, key) == i,
    decreases s.len(),
{
    if s[0].key != key {
        assert(forall|j: int| 0 <= j < i - 1 ==> s.drop_first()[j] == s[j + 1]);
        lemma_find_key_at(s.drop_first(), key, i - 1);
    }
}

/// A key held by no entry of `s` is not found.
pub proof fn lemma_find_key_none<K, V>(s: Seq<CacheEntry<K, V>>, key: K)
    requires
        forall|j: int| 0 <= j < s.len() ==> s[j].key != key,
    ensures
        find_key(s, key) == -1,
{
    lemma_find_key_props(s, key);
    if find_key(s, key) >= 0 {
        assert(s[find_key(s, key)].key == key);
        assert(false);
    }
}

/// Removing the entry at `i` subtracts exactly its size from the total.
pub proof fn lemma_total_size_remove<K, V>(s: Seq<CacheEntry<K, V>>, i: int)
    requires
        0 <= i < s.len(),
    ensures
        total_size(s.remove(i)) == total_size(s) - s[i].size,
    decreases s.len(),
{
    if i == 0 {
        assert(s.remove(0) =~= s.drop_first());
    } else {
        lemma_total_size_remove(s.drop_first(), i - 1);
        assert(s.remove(i).drop_first() =~= s.drop_first().remove(i - 1));
        assert(s.remove(i)[0] == s[0]);
    }
}

/// A byte total is never negative.
pub proof fn lemma_total_size_nonneg<K, V>(s: Seq<CacheEntry<K, V>>)
    ensures
        total_size(s) >= 0,
    decreases s.len(),
{
    if s.len() != 0 {
        lemma_total_size_nonneg(s.drop_first());
    }
}

/// Removing the entry at `i` keeps keys distinct and sizes honest, and — when
/// keys were distinct — leaves no entry with the removed key behind.
pub proof fn lemma_remove_at<K, V: ByteSized>(s: Seq<CacheEntry<K, V>>, i: int)
    requires
        0 <= i < s.len(),
        distinct_keys(s),
        entry_sizes_ok(s),
    ensures
        distinct_keys(s.remove(i)),
        entry_sizes_ok(s.remove(i)),
        !has_key(s.remove(i), s[i].key),
{
    let t = s.remove(i);
    assert(forall|j: int| 0 <= j < t.len() ==> t[j] == (if j < i {
        s[j]
    } else {
        s[j + 1]
    }));
    assert forall|a: int, b: int| 0 <= a < b < t.len() implies t[a].key != t[b].key by {}
    assert forall|a: int| 0 <= a < t.len() implies #[trigger] t[a].size == t[a].value.size_spec()
        by {}
    assert forall|j: int| 0 <= j < t.len() implies t[j].key != s[i].key by {}
    lemma_find_key_none(t, s[i].key);
}

/// Appending an entry adds exactly its size to the total.
pub proof fn lemma_total_size_push<K, V>(s: Seq<CacheEntry<K, V>>, e: CacheEntry<K, V>)
    ensures
        total_size(s.push(e)) == total_size(s) + e.size,
    decreases s.len(),
{
    if s.len() == 0 {
        assert(s.push(e)[0] == e);
        assert(s.push(e).drop_first() =~= Seq::<CacheEntry<K, V>>::empty());
        assert(total_size(s.push(e)) == e.size + total_size(Seq::<CacheEntry<K, V>>::empty()));
    } else {
        lemma_total_size_push(s.drop_first(), e);
        assert(s.push(e).drop_first() =~= s.drop_first().push(e));
        assert(s.push(e)[0] == s[0]);
        assert(total_size(s.push(e)) == s[0].size + total_size(s.drop_first().push(e)));
    }
}

/// The entries after a whole sequence of `put` operations, applied in order.
pub open spec fn run_puts<K, V: ByteSized>(
    s: Seq<CacheEntry<K, V>>,
    ops: Seq<(K, V)>,
    budget: u64,
) -> Seq<CacheEntry<K, V>>
    decreases ops.len(),
{
    if ops.len() == 0 {
        s
    } else {
        run_puts(put_model(s, ops[0].0, ops[0].1, budget), ops.drop_first(), budget)
    }
}

/// Eviction stops only once the needed bytes fit — or nothing is left.
pub proof fn lemma_evict_fits<K, V>(s: Seq<CacheEntry<K, V>>, need: int, budget: int)
    ensures
        evict_to_fit(s, need, budget).len() == 0 || total_size(evict_to_fit(s, need, budget))
            + need <= budget,
    decreases s.len(),
{
    if !(s.len() == 0 || total_size(s) + need <= budget) {
        lemma_evict_fits(s.drop_first(), need, budget);
    }
}

/// What eviction leaves is a suffix of the entries, in order.
pub proof fn lemma_evict_is_skip<K, V>(s: Seq<CacheEntry<K, V>>, need: int, budget: int)
    ensures
        exists|m: int|
            0 <= m <= s.len() && evict_to_fit(s, need, budget) == s.skip(m),
    decreases s.len(),
{
    if s.len() == 0 || total_size(s) + need <= budget {
        assert(evict_to_fit(s, need, budget) == s.skip(0)) by {
            assert(s.skip(0) =~= s);
        }
    } else {
        lemma_evict_is_skip(s.drop_first(), need, budget);
        let m = choose|m: int|
            0 <= m <= s.drop_first().len() && evict_to_fit(s.drop_first(), need, budget)
                == s.drop_first().skip(m);
        assert(s.drop_first().skip(m) =~= s.skip(m + 1));
        assert(evict_to_fit(s, need, budget) == s.skip(m + 1));
    }
}

/// A key is resident exactly when some entry holds it.
pub proof fn lemma_has_key_iff<K, V>(s: Seq<CacheEntry<K, V>>, key: K)
    ensures
        has_key(s, key) <==> exists|j: int| 0 <= j < s.len() && s[j].key == key,
{
    lemma_find_key_props(s, key);
    if has_key(s, key) {
        assert(s[find_key(s, key)].key == key);
    }
}

/// One `put` never pushes the byte total over the budget, provided the new
/// value itself fits the budget.
pub proof fn lemma_put_model_budget<K, V: ByteSized>(
    s: Seq<CacheEntry<K, V>>,
    key: K,
    value: V,
    budget: u64,
)
    requires
        value.size_spec() <= budget,
    ensures
        total_size(put_model(s, key, value, budget)) <= budget,
{
    let need = value.size_spec() as int;
    let t = remove_key(s, key);
    let ev = evict_to_fit(t, need, budget as int);
    lemma_evict_fits(t, need, budget as int);
    lemma_total_size_push(ev, (CacheEntry { key, value, size: value.size_spec() }));
    if ev.len() == 0 {
        assert(total_size(ev) == 0);
    }
}

/// Budget invariant: however a cache's contents came about, after any
/// non-empty sequence of `put` operations whose values each fit the budget,
/// the sum of resident entry sizes is at most the budget. Applied to every
/// prefix of a workload, this bounds the cache after each operation.
pub proof fn lemma_budget_invariant<K, V: ByteSized>(
    s: Seq<CacheEntry<K, V>>,
    ops: Seq<(K, V)>,
    budget: u64,
)
    requires
        ops.len() > 0,
        forall|i: int| 0 <= i < ops.len() ==> (#[trigger] ops[i].1).size_spec() <= budget,
    ensures
        total_size(run_puts(s, ops, budget)) <= budget,
    decreases ops.len(),
{
    let stepped = put_model(s, ops[0].0, ops[0].1, budget);
    if ops.len() == 1 {
        lemma_put_model_budget(s, ops[0].0, ops[0].1, budget);
        assert(run_puts(stepped, ops.drop_first(), budget) == stepped);
    } else {
        assert(forall|i: int|
            0 <= i < ops.drop_first().len() ==> ops.drop_first()[i] == ops[i + 1]);
        lemma_budget_invariant(stepped, ops.drop_first(), budget);
    }
}

/// A `put` leaves its own key resident.
pub proof fn lemma_put_makes_present<K, V: ByteSized>(
    s: Seq<CacheEntry<K, V>>,
    key: K,
    value: V,
    budget: u64,
)
    ensures
        has_key(put_model(s, key, value, budget), key),
{
    let r = put_model(s, key, value, budget);
    assert(r[r.len() - 1].key == key);
    lemma_has_key_iff(r, key);
}

/// A `put` introduces no key other than its own: any other key resident
/// afterwards was already resident before.
pub proof fn lemma_put_only_adds<K, V: ByteSized>(
    s: Seq<CacheEntry<K, V>>,
    key: K,
    value: V,
    budget: u64,
    other: K,
)
    requires
        other != key,
        has_key(put_model(s, key, value, budget), other),
    ensures
        has_key(s, other),
{
    let need = value.size_spec() as int;
    let t = remove_key(s, key);
    let ev = evict_to_fit(t, need, budget as int);
    let r = put_model(s, key, value, budget);
    lemma_has_key_iff(r, other);
    let j = choose|j: int| 0 <= j < r.len() && r[j].key == other;
    assert(j < r.len() - 1);
    assert(ev[j] == r[j]);
    lemma_evict_is_skip(t, need, budget as int);
    let m = choose|m: int| 0 <= m <= t.len() && ev == t.skip(m);
    assert(t[m + j] == ev[j]);
    lemma_find_key_props(s, key);
    if has_key(s, key) {
        let i = find_key(s, key);
        assert(t[m + j] == (if m + j < i {
            s[m + j]
        } else {
            s[m + j + 1]
        }));
    }
    lemma_has_key_iff(s, other);
}

/// Touching a resident key changes no key's residency.
pub proof fn lemma_touch_same_keys<K, V>(s: Seq<CacheEntry<K, V>>, key: K, other: K)
    requires
        has_key(s, key),
    ensures
        has_key(touch_model(s, key), other) <==> has_key(s, other),
{
    lemma_find_key_props(s, key);
    let i = find_key(s, key);
    let t = touch_model(s, key);
    lemma_has_key_iff(s, other);
    lemma_has_key_iff(t, other);
    assert(forall|j: int| 0 <= j < s.remove(i).len() ==> s.remove(i)[j] == (if j < i {
        s[j]
    } else {
        s[j + 1]
    }));
    if has_key(s, other) {
        let j = choose|j: int| 0 <= j < s.len() && s[j].key == other;
        if j == i {
            assert(t[t.len() - 1].key == other);
        } else if j < i {
            assert(t[j].key == other);
        } else {
            assert(t[j - 1].key == other);
        }
    }
    if has_key(t, other) {
        let j = choose|j: int| 0 <= j < t.len() && t[j].key == other;
        if j == t.len() - 1 {
            assert(s[i].key == other);
        }
    }
}

/// The entries that a sequence of `put` operations of uniformly sized
/// values creates, in insertion order.
pub open spec fn uniform_entries<K, V>(ops: Seq<(K, V)>, uniform: u64) -> Seq<CacheEntry<K, V>> {
    Seq::new(ops.len(), |i: int| CacheEntry { key: ops[i].0, value: ops[i].1, size: uniform })
}

/// Running a concatenated workload is running its parts in order.
pub proof fn lemma_run_puts_append<K, V: ByteSized>(
    s: Seq<CacheEntry<K, V>>,
    ops1: Seq<(K, V)>,
    ops2: Seq<(K, V)>,
    budget: u64,
)
    ensures
        run_puts(s, ops1 + ops2, budget) == run_puts(run_puts(s, ops1, budget), ops2, budget),
    decreases ops1.len(),
{
    if ops1.len() == 0 {
        assert(ops1 + ops2 =~= ops2);
    } else {
        assert((ops1 + ops2)[0] == ops1[0]);
        assert((ops1 + ops2).drop_first() =~= ops1.drop_first() + ops2);
        lemma_run_puts_append(
            put_model(s, ops1[0].0, ops1[0].1, budget),
            ops1.drop_first(),
            ops2,
            budget,
        );
    }
}

/// Puts of distinct fresh keys that fit the budget together evict nothing:
/// they append their entries in insertion order, and the byte total grows by
/// exactly one value size per insertion.
pub proof fn lemma_puts_fill<K, V: ByteSized>(
    s: Seq<CacheEntry<K, V>>,
    ops: Seq<(K, V)>,
    uniform: u64,
    budget: u64,
)
    requires
        forall|i: int| 0 <= i < ops.len() ==> (#[trigger] ops[i].1).size_spec() == uniform,
        forall|i: int, j: int| 0 <= i < j < ops.len() ==> ops[i].0 != ops[j].0,
        forall|i: int| 0 <= i < ops.len() ==> !has_key(s, (#[trigger] ops[i]).0),
        total_size(s) + ops.len() * uniform <= budget,
    ensures
        run_puts(s, ops, budget) == s + uniform_entries(ops, uniform),
        total_size(run_puts(s, ops, budget)) == total_size(s) + ops.len() * uniform,
    decreases ops.len(),
{
    if ops.len() == 0 {
        assert(s + uniform_entries(ops, uniform) =~= s);
    } else {
        let key = ops[0].0;
        let value = ops[0].1;
        let e = CacheEntry { key, value, size: uniform };
        assert(remove_key(s, key) == s);
        assert(total_size(s) + uniform <= budget) by {
            assert(ops.len() * uniform >= 1 * uniform) by (nonlinear_arith)
                requires
                    ops.len() >= 1,
                    uniform >= 0,
            ;
        }
        assert(evict_to_fit(s, uniform as int, budget as int) == s);
        assert(put_model(s, key, value, budget) == s.push(e));
        lemma_total_size_push(s, e);
        let stepped = s.push(e);
        let rest = ops.drop_first();
        assert(forall|i: int| 0 <= i < rest.len() ==> rest[i] == ops[i + 1]);
        assert forall|i: int| 0 <= i < rest.len() implies !has_key(
            stepped,
            (#[trigger] rest[i]).0,
        ) by {
            lemma_has_key_iff(stepped, rest[i].0);
            lemma_has_key_iff(s, rest[i].0);
            if exists|j: int| 0 <= j < stepped.len() && stepped[j].key == rest[i].0 {
                let j = choose|j: int| 0 <= j < stepped.len() && stepped[j].key == rest[i].0;
                if j == stepped.len() - 1 {
                    assert(ops[0].0 == ops[i + 1].0);
                }
            }
        }
        assert(total_size(stepped) + rest.len() * uniform <= budget) by {
            assert(rest.len() * uniform + uniform == ops.len() * uniform) by (nonlinear_arith)
                requires
                    rest.len() + 1 == ops.len(),
            ;
        }
        lemma_puts_fill(stepped, rest, uniform, budget);
        assert(stepped + uniform_entries(rest, uniform) =~= s + uniform_entries(ops, uniform));
        assert(total_size(run_puts(s, ops, budget)) == total_size(s) + ops.len() * uniform) by {
            assert(rest.len() * uniform + uniform == ops.len() * uniform) by (nonlinear_arith)
                requires
                    rest.len() + 1 == ops.len(),
            ;
        }
    }
}

/// LRU correctness from a cold start: with a budget that holds exactly N
/// uniformly sized entries, inserting N+1 distinct keys into an empty cache
/// evicts exactly the least-recently-touched key — the first one inserted —
/// and leaves the other N resident in insertion order.
pub proof fn lemma_lru_eviction_from_empty<K, V: ByteSized>(
    ops: Seq<(K, V)>,
    uniform: u64,
    budget: u64,
)
    requires
        ops.len() >= 2,
        uniform > 0,
        forall|i: int| 0 <= i < ops.len() ==> (#[trigger] ops[i].1).size_spec() == uniform,
        forall|i: int, j: int| 0 <= i < j < ops.len() ==> ops[i].0 != ops[j].0,
        (ops.len() - 1) * uniform == budget,
    ensures
        run_puts(Seq::<CacheEntry<K, V>>::empty(), ops, budget) == uniform_entries(
            ops,
            uniform,
        ).drop_first(),
{
    let n = ops.len() - 1;
    let empty = Seq::<CacheEntry<K, V>>::empty();
    let first = ops.take(n as int);
    let last = ops.skip(n as int);
    assert(ops =~= first + last);
    lemma_run_puts_append(empty, first, last, budget);
    lemma_puts_fill(empty, first, uniform, budget);
    let filled = run_puts(empty, first, budget);
    assert(filled =~= uniform_entries(first, uniform));
    assert(forall|i: int| 0 <= i < n ==> (#[trigger] filled[i]).key == ops[i].0);
    assert(forall|i: int| 0 <= i < n ==> (#[trigger] filled[i]).size == uniform);
    assert(!has_key(filled, ops[n as int].0)) by {
        assert(forall|j: int| 0 <= j < filled.len() ==> filled[j].key != ops[n as int].0);
        lemma_find_key_none(filled, ops[n as int].0);
    }
    lemma_lru_eviction(filled, ops[n as int].0, ops[n as int].1, uniform, budget);
    assert(last.len() == 1 && last[0] == ops[n as int]);
    let after = put_model(filled, last[0].0, last[0].1, budget);
    assert(run_puts(filled, last, budget) == run_puts(after, last.drop_first(), budget));
    assert(last.drop_first().len() == 0);
    assert(run_puts(after, last.drop_first(), budget) == after);
    assert(filled.drop_first().push(
        (CacheEntry { key: ops[n as int].0, value: ops[n as int].1, size: uniform }),
    ) =~= uniform_entries(ops, uniform).drop_first());
}

/// LRU correctness, protection half, from a cold start: if one of the N
/// resident keys is touched (as `get` and `contains` touch it) before the
/// (N+1)th insertion, that key is still resident afterwards.
pub proof fn lemma_touched_key_survives<K, V: ByteSized>(
    ops: Seq<(K, V)>,
    t: int,
    uniform: u64,
    budget: u64,
)
    requires
        ops.len() >= 3,
        uniform > 0,
        forall|i: int| 0 <= i < ops.len() ==> (#[trigger] ops[i].1).size_spec() == uniform,
        forall|i: int, j: int| 0 <= i < j < ops.len() ==> ops[i].0 != ops[j].0,
        (ops.len() - 1) * uniform == budget,
        0 <= t < ops.len() - 1,
    ensures
        has_key(
            put_model(
                touch_model(
                    run_puts(Seq::<CacheEntry<K, V>>::empty(), ops.take(ops.len() - 1), budget),
                    ops[t].0,
                ),
                ops[ops.len() - 1].0,
                ops[ops.len() - 1].1,
                budget,
            ),
            ops[t].0,
        ),
{
    let n = ops.len() - 1;
    let empty = Seq::<CacheEntry<K, V>>::empty();
    let first = ops.take(n as int);
    lemma_puts_fill(empty, first, uniform, budget);
    let filled = run_puts(empty, first, budget);
    assert(filled =~= uniform_entries(first, uniform));
    assert(forall|i: int| 0 <= i < n ==> (#[trigger] filled[i]).key == ops[i].0);
    assert(forall|i: int| 0 <= i < n ==> (#[trigger] filled[i]).size == uniform);
    assert(has_key(filled, ops[t].0)) by {
        assert(filled[t].key == ops[t].0);
        lemma_has_key_iff(filled, ops[t].0);
    }
    assert(!has_key(filled, ops[n as int].0)) by {
        assert(forall|j: int| 0 <= j < filled.len() ==> filled[j].key != ops[n as int].0);
        lemma_find_key_none(filled, ops[n as int].0);
    }
    lemma_touch_protects(filled, ops[t].0, ops[n as int].0, ops[n as int].1, uniform, budget);
}

/// One operation of a cache history, as the adapter narrows them: an
/// insertion, or a read (`get` or `contains` — on a hit both move the entry
/// to the most-recently-used end, on a miss both leave the cache unchanged).
pub enum CacheOp<K, V> {
    Put(K, V),
    Read(K),
}

/// The entries after one operation.
pub open spec fn apply_op<K, V: ByteSized>(
    s: Seq<CacheEntry<K, V>>,
    op: CacheOp<K, V>,
    budget: u64,
) -> Seq<CacheEntry<K, V>> {
    match op {
        CacheOp::Put(key, value) => put_model(s, key, value, budget),
        CacheOp::Read(key) => if has_key(s, key) {
            touch_model(s, key)
        } else {
            s
        },
    }
}

/// The entries after a whole history of operations, applied in order.
pub open spec fn run_ops<K, V: ByteSized>(
    s: Seq<CacheEntry<K, V>>,
    ops: Seq<CacheOp<K, V>>,
    budget: u64,
) -> Seq<CacheEntry<K, V>>
    decreases ops.len(),
{
    if ops.len() == 0 {
        s
    } else {
        run_ops(apply_op(s, ops[0], budget), ops.drop_first(), budget)
    }
}

/// Residency comes only from insertion: if a key is resident after a
/// history of operations and was not resident before it, some operation of
/// the history was a `put` of that key. Together with
/// [`lemma_put_makes_present`] (a `put` leaves its key resident at once)
/// and the `ensures` of `get`, `contains` and `has` (each reports exactly
/// the current residency), this pins the narrowed interface: `has(hash)`
/// is true exactly when a prior `put(hash, _)` occurred and that entry has
/// not since been evicted or displaced.
pub proof fn lemma_presence_implies_prior_put<K, V: ByteSized>(
    s: Seq<CacheEntry<K, V>>,
    ops: Seq<CacheOp<K, V>>,
    budget: u64,
    key: K,
)
    requires
        !has_key(s, key),
        has_key(run_ops(s, ops, budget), key),
    ensures
        exists|i: int|
            0 <= i < ops.len() && ((#[trigger] ops[i]) matches CacheOp::Put(k, _) && k == key),
    decreases ops.len(),
{
    let stepped = apply_op(s, ops[0], budget);
    match ops[0] {
        CacheOp::Put(k, v) => {
            if k == key {
                assert(ops[0] matches CacheOp::Put(k2, _) && k2 == key);
            } else {
                if has_key(stepped, key) {
                    lemma_put_only_adds(s, k, v, budget, key);
                }
                lemma_presence_implies_prior_put(stepped, ops.drop_first(), budget, key);
                let i = choose|i: int|
                    0 <= i < ops.drop_first().len() && ((#[trigger] ops.drop_first()[i]) matches
                        CacheOp::Put(k2, _) && k2 == key);
                assert(ops[i + 1] == ops.drop_first()[i]);
            }
        },
        CacheOp::Read(k) => {
            if has_key(s, k) {
                lemma_touch_same_keys(s, k, key);
            }
            lemma_presence_implies_prior_put(stepped, ops.drop_first(), budget, key);
            let i = choose|i: int|
                0 <= i < ops.drop_first().len() && ((#[trigger] ops.drop_first()[i]) matches
                    CacheOp::Put(k2, _) && k2 == key);
            assert(ops[i + 1] == ops.drop_first()[i]);
        },
    }
}

/// Reads alone never create or destroy residency: a history without `put`
/// operations leaves every key's residency as it was.
pub proof fn lemma_reads_preserve_residency<K, V: ByteSized>(
    s: Seq<CacheEntry<K, V>>,
    ops: Seq<CacheOp<K, V>>,
    budget: u64,
    key: K,
)
    requires
        forall|i: int| 0 <= i < ops.len() ==> (#[trigger] ops[i]) matches CacheOp::Read(_),
    ensures
        has_key(run_ops(s, ops, budget), key) == has_key(s, key),
    decreases ops.len(),
{
    if ops.len() != 0 {
        let stepped = apply_op(s, ops[0], budget);
        match ops[0] {
            CacheOp::Put(_, _) => {},
            CacheOp::Read(k) => {
                if has_key(s, k) {
                    lemma_touch_same_keys(s, k, key);
                }
            },
        }
        assert(forall|i: int|
            0 <= i < ops.drop_first().len() ==> ops.drop_first()[i] == ops[i + 1]);
        lemma_reads_preserve_residency(stepped, ops.drop_first(), budget, key);
    }
}

/// LRU correctness, eviction half: in a cache filled to its budget with
/// uniformly sized entries, inserting one more entry of that size under a
/// fresh key evicts exactly the least-recently-touched entry — the one at
/// the front — and nothing else.
pub proof fn lemma_lru_eviction<K, V: ByteSized>(
    s: Seq<CacheEntry<K, V>>,
    key: K,
    value: V,
    uniform: u64,
    budget: u64,
)
    requires
        s.len() >= 1,
        uniform > 0,
        forall|i: int| 0 <= i < s.len() ==> (#[trigger] s[i]).size == uniform,
        total_size(s) == budget,
        !has_key(s, key),
        value.size_spec() == uniform,
    ensures
        put_model(s, key, value, budget) == s.drop_first().push(
            (CacheEntry { key, value, size: uniform }),
        ),
{
    assert(remove_key(s, key) == s);
    lemma_total_size_remove(s, 0);
    assert(s.remove(0) =~= s.drop_first());
    assert(total_size(s.drop_first()) == budget - uniform);
    assert(evict_to_fit(s, uniform as int, budget as int) == evict_to_fit(
        s.drop_first(),
        uniform as int,
        budget as int,
    ));
    assert(evict_to_fit(s.drop_first(), uniform as int, budget as int) == s.drop_first());
}

/// LRU correctness, protection half: touching a resident key via `get`
/// before the overflowing insertion protects it — after the insertion the
/// evicted entry is the front of the touched order, and the touched key is
/// still resident.
pub proof fn lemma_touch_protects<K, V: ByteSized>(
    s: Seq<CacheEntry<K, V>>,
    touched: K,
    key: K,
    value: V,
    uniform: u64,
    budget: u64,
)
    requires
        s.len() >= 2,
        uniform > 0,
        forall|i: int| 0 <= i < s.len() ==> (#[trigger] s[i]).size == uniform,
        total_size(s) == budget,
        has_key(s, touched),
        !has_key(s, key),
        value.size_spec() == uniform,
    ensures
        put_model(touch_model(s, touched), key, value, budget) == touch_model(
            s,
            touched,
        ).drop_first().push((CacheEntry { key, value, size: uniform })),
        has_key(put_model(touch_model(s, touched), key, value, budget), touched),
{
    lemma_find_key_props(s, touched);
    let i = find_key(s, touched);
    let t = touch_model(s, touched);
    lemma_total_size_remove(s, i);
    lemma_total_size_push(s.remove(i), s[i]);
    assert(forall|j: int| 0 <= j < s.remove(i).len() ==> s.remove(i)[j] == (if j < i {
        s[j]
    } else {
        s[j + 1]
    }));
    assert(forall|j: int| 0 <= j < t.len() ==> (#[trigger] t[j]).size == uniform);
    assert(!has_key(t, key)) by {
        lemma_has_key_iff(t, key);
        lemma_has_key_iff(s, key);
        if exists|j: int| 0 <= j < t.len() && t[j].key == key {
            let j = choose|j: int| 0 <= j < t.len() && t[j].key == key;
            if j == t.len() - 1 {
                assert(s[i].key == key);
            } else if j < i {
                assert(s[j].key == key);
            } else {
                assert(s[j + 1].key == key);
            }
        }
    }
    lemma_lru_eviction(t, key, value, uniform, budget);
    assert(has_key(put_model(t, key, value, budget), touched)) by {
        let r = t.drop_first().push((CacheEntry { key, value, size: uniform }));
        assert(t[t.len() - 1].key == touched);
        assert(t.drop_first()[t.len() - 2] == t[t.len() - 1]);
        assert(r[t.len() - 2].key == touched);
        lemma_has_key_iff(r, touched);
    }
}

/// Moving a resident entry to the most-recently-used end preserves the cache
/// invariant, the key set, and the byte total.
pub proof fn lemma_touch_preserves_inv<K, V: ByteSized>(
    s: Seq<CacheEntry<K, V>>,
    key: K,
    budget: int,
)
    requires
        distinct_keys(s),
        entry_sizes_ok(s),
        fits_budget(s, budget),
        has_key(s, key),
    ensures
        distinct_keys(touch_model(s, key)),
        entry_sizes_ok(touch_model(s, key)),
        fits_budget(touch_model(s, key), budget),
        total_size(touch_model(s, key)) == total_size(s),
        touch_model(s, key).len() == s.len(),
{
    lemma_find_key_props(s, key);
    let i = find_key(s, key);
    let t = s.remove(i);
    lemma_total_size_remove(s, i);
    lemma_total_size_push(t, s[i]);
    assert(forall|j: int| 0 <= j < t.len() ==> t[j] == (if j < i {
        s[j]
    } else {
        s[j + 1]
    }));
    assert(distinct_keys(touch_model(s, key))) by {
        let u = touch_model(s, key);
        assert forall|a: int, b: int| 0 <= a < b < u.len() implies u[a].key != u[b].key by {
            if b < t.len() {
            } else {
                assert(u[b] == s[i]);
            }
        }
    }
}

} // verus!
