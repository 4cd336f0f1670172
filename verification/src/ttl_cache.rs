//! A key-value cache bounded in size and in age. Entries are kept in the
//! order in which they were inserted, oldest first: when the cache is full
//! the oldest insertion leaves, and a sweep drops what has outlived its
//! time to live.

use crate::types::{AccountAddress, SlotKey};
use vstd::prelude::*;

verus! {

/// What a cache key has to offer: a test for equality.
pub trait CacheKey: Sized {
    fn same(&self, other: &Self) -> (r: bool)
        ensures
            r == (*self == *other),
    ;
}

impl CacheKey for u64 {
    fn same(&self, other: &u64) -> (r: bool) {
        *self == *other
    }
}

impl CacheKey for AccountAddress {
    fn same(&self, other: &AccountAddress) -> (r: bool) {
        self.hi == other.hi && self.lo == other.lo
    }
}

impl CacheKey for SlotKey {
    fn same(&self, other: &SlotKey) -> (r: bool) {
        self.account.hi == other.account.hi && self.account.lo == other.account.lo && self.seq
            == other.seq
    }
}

/// One cached value, with the time after which a sweep may drop it.
pub struct CacheEntry<K, V> {
    pub key: K,
    pub value: V,
    pub expires_at: u64,
}

/// Whether some entry of `s` has the key `key`.
pub open spec fn holds_key<K, V>(s: Seq<CacheEntry<K, V>>, key: K) -> bool {
    exists|i: int| 0 <= i < s.len() && (#[trigger] s[i]).key == key
}

/// The value cached under `key`, if any entry has that key.
pub open spec fn value_of<K, V>(s: Seq<CacheEntry<K, V>>, key: K) -> Option<V> {
    if holds_key(s, key) {
        Some(s[choose|i: int| 0 <= i < s.len() && (#[trigger] s[i]).key == key].value)
    } else {
        None
    }
}

/// No key occurs twice.
pub open spec fn distinct_keys<K, V>(s: Seq<CacheEntry<K, V>>) -> bool {
    forall|i: int, j: int|
        0 <= i < j < s.len() ==> (#[trigger] s[i]).key != (#[trigger] s[j]).key
}

/// The entries of `s` that a sweep at `now` keeps, in their order.
pub open spec fn live_at<K, V>(s: Seq<CacheEntry<K, V>>, now: u64) -> Seq<CacheEntry<K, V>> {
    s.filter(|e: CacheEntry<K, V>| e.expires_at >= now)
}

/// `new` is `old` after `value` was cached under `key` at the time `now`, in
/// a cache of `capacity` entries that keeps its entries for `timeout`. The
/// new entry is the newest. It takes the place of the entry of the same key;
/// where there is none and the cache is full, the oldest entry leaves.
/// Nothing changes where `now + timeout` is beyond the range of times, or the
/// capacity is zero.
pub open spec fn inserted<K, V>(
    old: Seq<CacheEntry<K, V>>,
    new: Seq<CacheEntry<K, V>>,
    capacity: nat,
    timeout: u64,
    key: K,
    value: V,
    now: u64,
) -> bool {
    if now + timeout > u64::MAX || capacity == 0 {
        new == old
    } else {
        let entry = CacheEntry { key, value, expires_at: (now + timeout) as u64 };
        &&& holds_key(old, key) ==> exists|i: int|
            0 <= i < old.len() && old[i].key == key && new == #[trigger] old.remove(i).push(entry)
        &&& !holds_key(old, key) && old.len() < capacity ==> new == old.push(entry)
        &&& !holds_key(old, key) && old.len() >= capacity ==> new == old.drop_first().push(entry)
        &&& value_of(new, key) == Some(value)
        &&& forall|k: K|
            k != key && #[trigger] holds_key(new, k) ==> value_of(new, k) == value_of(old, k)
    }
}

/// `new` is `old` without the entry of `key`.
pub open spec fn dropped<K, V>(
    old: Seq<CacheEntry<K, V>>,
    new: Seq<CacheEntry<K, V>>,
    key: K,
) -> bool {
    &&& !holds_key(new, key)
    &&& !holds_key(old, key) ==> new == old
    &&& holds_key(old, key) ==> exists|i: int|
        0 <= i < old.len() && old[i].key == key && new == #[trigger] old.remove(i)
}

/// With distinct keys, the entry that has a key gives the key's value.
pub proof fn lemma_value_at<K, V>(s: Seq<CacheEntry<K, V>>, i: int)
    requires
        distinct_keys(s),
        0 <= i < s.len(),
    ensures
        holds_key(s, s[i].key),
        value_of(s, s[i].key) == Some(s[i].value),
{
    let key = s[i].key;
    assert(holds_key(s, key));
    let j = choose|j: int| 0 <= j < s.len() && (#[trigger] s[j]).key == key;
    if j < i {
        assert(s[j].key != s[i].key);
    } else if i < j {
        assert(s[i].key != s[j].key);
    }
}

/// A cache of at most `capacity` entries, each valid for `default_timeout`
/// after its insertion.
pub struct TtlCache<K, V> {
    capacity: usize,
    default_timeout: u64,
    entries: Vec<CacheEntry<K, V>>,
}

impl<K, V> View for TtlCache<K, V> {
    type V = Seq<CacheEntry<K, V>>;

    /// The entries, least recently inserted first.
    closed spec fn view(&self) -> Seq<CacheEntry<K, V>> {
        self.entries@
    }
}

impl<K: CacheKey, V> TtlCache<K, V> {
    /// The most entries the cache holds.
    pub closed spec fn capacity(&self) -> nat {
        self.capacity as nat
    }

    /// How long an entry stays valid after its insertion.
    pub closed spec fn timeout(&self) -> u64 {
        self.default_timeout
    }

    /// Keys are distinct and the size stays within the capacity.
    pub open spec fn wf(&self) -> bool {
        &&& distinct_keys(self@)
        &&& self@.len() <= self.capacity()
    }

    pub fn new(capacity: usize, default_timeout: u64) -> (r: Self)
        ensures
            r.wf(),
            r@ == Seq::<CacheEntry<K, V>>::empty(),
            r.capacity() == capacity,
            r.timeout() == default_timeout,
    {
        TtlCache { capacity, default_timeout, entries: Vec::new() }
    }

    /// The number of entries.
    pub fn size(&self) -> (r: usize)
        ensures
            r == self@.len(),
    {
        self.entries.len()
    }

    /// The place of `key` among the entries.
    fn position(&self, key: &K) -> (r: Option<usize>)
        ensures
            match r {
                Some(i) => i < self@.len() && self@[i as int].key == *key,
                None => !holds_key(self@, *key),
            },
    {
        let mut i: usize = 0;
        while i < self.entries.len()
            invariant
                i <= self@.len(),
                forall|j: int| 0 <= j < i ==> (#[trigger] self@[j]).key != *key,
            decreases self@.len() - i,
        {
            if self.entries[i].key.same(key) {
                return Some(i);
            }
            i += 1;
        }
        None
    }

    /// The value cached under `key`.
    pub fn get(&self, key: &K) -> (r: Option<&V>)
        requires
            self.wf(),
        ensures
            match r {
                Some(v) => value_of(self@, *key) == Some(*v),
                None => value_of(self@, *key) is None,
            },
    {
        match self.position(key) {
            Some(i) => {
                proof {
                    lemma_value_at(self@, i as int);
                }
                Some(&self.entries[i].value)
            },
            None => None,
        }
    }

    /// Caches `value` under `key` as the newest entry, valid until
    /// `now + timeout`. An entry with the same key is replaced; otherwise,
    /// when the cache is full, the least recently inserted entry leaves.
    /// Nothing changes when `now + timeout` is beyond the range of times or
    /// the capacity is zero.
    pub fn insert(&mut self, key: K, value: V, now: u64)
        requires
            old(self).wf(),
        ensures
            final(self).wf(),
            final(self).capacity() == old(self).capacity(),
            final(self).timeout() == old(self).timeout(),
            inserted(
                old(self)@,
                final(self)@,
                old(self).capacity(),
                old(self).timeout(),
                key,
                value,
                now,
            ),
    {
        if self.capacity == 0 || now > u64::MAX - self.default_timeout {
            return ;
        }
        let expires_at: u64 = now + self.default_timeout;
        let ghost before = self@;
        let ghost shift: int = 0;
        let ghost cut: int = 0;
        match self.position(&key) {
            Some(i) => {
                self.entries.remove(i);
                proof {
                    shift = 1;
                    cut = i as int;
                    assert(self@ == before.remove(i as int));
                }
            },
            None => {
                if self.entries.len() == self.capacity {
                    self.entries.remove(0);
                    proof {
                        shift = 1;
                        cut = 0;
                        assert(self@ =~= before.drop_first());
                        assert(self@ =~= before.remove(0));
                    }
                }
            },
        }
        let ghost mid = self@;
        proof {
            assert(mid.len() == before.len() - shift);
            assert forall|j: int| 0 <= j < mid.len() implies #[trigger] mid[j] == before[if shift
                == 1 && j >= cut {
                j + 1
            } else {
                j
            }] by {}
            assert forall|j: int| 0 <= j < mid.len() implies (#[trigger] mid[j]).key != key by {
                let j0 = if shift == 1 && j >= cut { j + 1 } else { j };
                assert(mid[j] == before[j0]);
                if holds_key(before, key) {
                    assert(before[cut].key == key);
                    if j0 < cut {
                        assert(before[j0].key != before[cut].key);
                    } else {
                        assert(before[cut].key != before[j0].key);
                    }
                }
            }
            assert forall|a: int, b: int| 0 <= a < b < mid.len() implies (#[trigger] mid[a]).key
                != (#[trigger] mid[b]).key by {
                let a0 = if shift == 1 && a >= cut { a + 1 } else { a };
                let b0 = if shift == 1 && b >= cut { b + 1 } else { b };
                assert(mid[a] == before[a0]);
                assert(mid[b] == before[b0]);
                assert(before[a0].key != before[b0].key);
            }
        }
        self.entries.push(CacheEntry { key, value, expires_at });
        proof {
            let after = self@;
            assert(distinct_keys(after)) by {
                assert forall|a: int, b: int| 0 <= a < b < after.len() implies (
                #[trigger] after[a]).key != (#[trigger] after[b]).key by {
                    if b < mid.len() {
                        assert(mid[a].key != mid[b].key);
                    } else {
                        assert(mid[a].key != key);
                    }
                }
            }
            lemma_value_at(after, after.len() - 1);
            assert forall|k: K| k != key && #[trigger] holds_key(after, k) implies value_of(
                after,
                k,
            ) == value_of(before, k) by {
                let a = choose|a: int| 0 <= a < after.len() && (#[trigger] after[a]).key == k;
                assert(a < mid.len());
                let b = if shift == 1 && a >= cut { a + 1 } else { a };
                assert(mid[a] == before[b]);
                lemma_value_at(after, a);
                lemma_value_at(before, b);
            }
        }
    }

    /// Takes the entry of `key` out and returns its value.
    pub fn remove(&mut self, key: &K) -> (r: Option<V>)
        requires
            old(self).wf(),
        ensures
            final(self).wf(),
            final(self).capacity() == old(self).capacity(),
            final(self).timeout() == old(self).timeout(),
            r == value_of(old(self)@, *key),
            dropped(old(self)@, final(self)@, *key),
    {
        let ghost before = self@;
        match self.position(key) {
            Some(i) => {
                proof {
                    lemma_value_at(before, i as int);
                }
                let entry = self.entries.remove(i);
                assert(self@ == before.remove(i as int));
                proof {
                    let after = self@;
                    assert forall|a: int| 0 <= a < after.len() implies (#[trigger] after[a]).key
                        != *key by {
                        if a < i {
                            assert(before[a].key != before[i as int].key);
                        } else {
                            assert(before[i as int].key != before[a + 1].key);
                        }
                    }
                    assert forall|a: int, b: int| 0 <= a < b < after.len() implies (
                    #[trigger] after[a]).key != (#[trigger] after[b]).key by {
                        let a0 = if a < i { a } else { a + 1 };
                        let b0 = if b < i { b } else { b + 1 };
                        assert(before[a0].key != before[b0].key);
                    }
                }
                Some(entry.value)
            },
            None => None,
        }
    }

    /// Drops every entry whose time to live ended before `now`.
    pub fn gc(&mut self, now: u64)
        requires
            old(self).wf(),
        ensures
            final(self).wf(),
            final(self).capacity() == old(self).capacity(),
            final(self).timeout() == old(self).timeout(),
            final(self)@ == live_at(old(self)@, now),
    {
        let ghost before = self@;
        let ghost pred = |e: CacheEntry<K, V>| e.expires_at >= now;
        let mut i: usize = self.entries.len();
        proof {
            assert(before.skip(i as int) =~= Seq::<CacheEntry<K, V>>::empty());
            assert(before.take(i as int) =~= before);
            assert(before.take(i as int) + before.skip(i as int).filter(pred) =~= before);
        }
        while i > 0
            invariant
                i <= before.len(),
                before.len() <= self.capacity(),
                distinct_keys(before),
                pred == (|e: CacheEntry<K, V>| e.expires_at >= now),
                self@ == before.take(i as int) + before.skip(i as int).filter(pred),
                self.capacity() == old(self).capacity(),
                self.timeout() == old(self).timeout(),
            decreases i,
        {
            i -= 1;
            proof {
                let tail = before.skip(i as int);
                let rest = before.skip(i + 1);
                assert(tail =~= seq![before[i as int]] + rest);
                Seq::filter_distributes_over_add(seq![before[i as int]], rest, pred);
                reveal_with_fuel(Seq::filter, 2);
                assert(seq![before[i as int]].drop_last() =~= Seq::<CacheEntry<K, V>>::empty());
                assert(before.take(i + 1) =~= before.take(i as int).push(before[i as int]));
            }
            if self.entries[i].expires_at < now {
                self.entries.remove(i);
                assert(self@ =~= before.take(i as int) + before.skip(i as int).filter(pred));
            } else {
                assert(seq![before[i as int]].filter(pred) =~= seq![before[i as int]]);
                assert(self@ =~= before.take(i as int) + before.skip(i as int).filter(pred));
            }
        }
        proof {
            assert(before.skip(0) =~= before);
            assert(before.take(0) =~= Seq::<CacheEntry<K, V>>::empty());
            assert(self@ =~= before.filter(pred));
            lemma_live_keeps_order(before, now);
        }
    }
}

/// A sweep keeps the survivors distinct and does not grow the cache.
pub proof fn lemma_live_keeps_order<K, V>(s: Seq<CacheEntry<K, V>>, now: u64)
    requires
        distinct_keys(s),
    ensures
        distinct_keys(live_at(s, now)),
        live_at(s, now).len() <= s.len(),
        forall|i: int|
            0 <= i < live_at(s, now).len() ==> s.contains(#[trigger] live_at(s, now)[i]),
    decreases s.len(),
{
    let pred = |e: CacheEntry<K, V>| e.expires_at >= now;
    reveal(Seq::filter);
    if s.len() > 0 {
        let front = s.drop_last();
        assert forall|i: int, j: int| 0 <= i < j < front.len() implies (#[trigger] front[i]).key
            != (#[trigger] front[j]).key by {
            assert(s[i].key != s[j].key);
        }
        lemma_live_keeps_order(front, now);
        let lf = live_at(front, now);
        let ls = live_at(s, now);
        assert forall|i: int| 0 <= i < ls.len() implies s.contains(#[trigger] ls[i]) by {
            if i < lf.len() {
                assert(front.contains(lf[i]));
                let k = choose|k: int| 0 <= k < front.len() && front[k] == lf[i];
                assert(s[k] == lf[i]);
            } else {
                assert(s[s.len() - 1] == ls[i]);
            }
        }
        assert forall|i: int, j: int| 0 <= i < j < ls.len() implies (#[trigger] ls[i]).key != (
        #[trigger] ls[j]).key by {
            if j < lf.len() {
                assert(lf[i].key != lf[j].key);
            } else {
                assert(front.contains(lf[i]));
                let k = choose|k: int| 0 <= k < front.len() && front[k] == lf[i];
                assert(s[k].key != s[s.len() - 1].key);
            }
        }
    }
}

} // verus!
