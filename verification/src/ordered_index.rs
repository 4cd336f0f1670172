//! A set of index entries kept in strictly increasing order. Every index of
//! the pool is one of these: an entry names a slot and carries the two
//! numbers by which the index orders it.

use crate::types::{slot_lt, SlotKey};
use vstd::prelude::*;

verus! {

/// A reference to the record in `slot`, ordered by `major`, then `minor`,
/// then the slot itself.
#[derive(Clone, Copy, Debug, PartialEq, Eq, Structural)]
pub struct IndexEntry {
    pub major: u128,
    pub minor: u128,
    pub slot: SlotKey,
}

/// Strict lexicographic order on entries.
pub open spec fn entry_lt(a: IndexEntry, b: IndexEntry) -> bool {
    a.major < b.major || (a.major == b.major && (a.minor < b.minor || (a.minor == b.minor
        && slot_lt(a.slot, b.slot))))
}

/// Every entry stands before all later ones.
pub open spec fn strictly_sorted(s: Seq<IndexEntry>) -> bool {
    forall|i: int, j: int| 0 <= i < j < s.len() ==> entry_lt(#[trigger] s[i], #[trigger] s[j])
}

/// Two distinct entries are always ordered one way or the other, and never
/// both ways.
pub proof fn lemma_entry_order_total(a: IndexEntry, b: IndexEntry)
    ensures
        a != b ==> (entry_lt(a, b) || entry_lt(b, a)),
        !(entry_lt(a, b) && entry_lt(b, a)),
        !entry_lt(a, a),
{
}

/// A strictly sorted sequence is determined by the entries it holds.
pub proof fn lemma_sorted_unique(s: Seq<IndexEntry>, t: Seq<IndexEntry>)
    requires
        strictly_sorted(s),
        strictly_sorted(t),
        forall|e: IndexEntry| s.contains(e) <==> t.contains(e),
    ensures
        s == t,
    decreases s.len(),
{
    if s.len() == 0 {
        if t.len() > 0 {
            assert(t.contains(t[0]));
            assert(s.contains(t[0]));
        }
        assert(s =~= t);
    } else {
        assert(s.contains(s[0]));
        assert(t.contains(s[0]));
        assert(t.len() > 0);
        assert(t.contains(t[0]));
        assert(s.contains(t[0]));
        let i = choose|i: int| 0 <= i < t.len() && t[i] == s[0];
        let j = choose|j: int| 0 <= j < s.len() && s[j] == t[0];
        if i != 0 {
            assert(entry_lt(t[0], t[i]));
            if j != 0 {
                assert(entry_lt(s[0], s[j]));
            }
        }
        assert(s[0] == t[0]);
        let s1 = s.drop_first();
        let t1 = t.drop_first();
        assert forall|e: IndexEntry| s1.contains(e) <==> t1.contains(e) by {
            if s1.contains(e) {
                let k = choose|k: int| 0 <= k < s1.len() && s1[k] == e;
                assert(s[k + 1] == e);
                assert(s.contains(e));
                assert(entry_lt(s[0], s[k + 1]));
                let m = choose|m: int| 0 <= m < t.len() && t[m] == e;
                assert(m != 0);
                assert(t1[m - 1] == e);
            }
            if t1.contains(e) {
                let k = choose|k: int| 0 <= k < t1.len() && t1[k] == e;
                assert(t[k + 1] == e);
                assert(t.contains(e));
                assert(entry_lt(t[0], t[k + 1]));
                let m = choose|m: int| 0 <= m < s.len() && s[m] == e;
                assert(m != 0);
                assert(s1[m - 1] == e);
            }
        }
        assert(strictly_sorted(s1)) by {
            assert forall|a: int, b: int| 0 <= a < b < s1.len() implies entry_lt(
                #[trigger] s1[a],
                #[trigger] s1[b],
            ) by {
                assert(entry_lt(s[a + 1], s[b + 1]));
            }
        }
        assert(strictly_sorted(t1)) by {
            assert forall|a: int, b: int| 0 <= a < b < t1.len() implies entry_lt(
                #[trigger] t1[a],
                #[trigger] t1[b],
            ) by {
                assert(entry_lt(t[a + 1], t[b + 1]));
            }
        }
        lemma_sorted_unique(s1, t1);
        assert(s =~= seq![s[0]] + s1);
        assert(t =~= seq![t[0]] + t1);
    }
}

impl IndexEntry {
    pub fn new(major: u128, minor: u128, slot: SlotKey) -> (r: Self)
        ensures
            r == (IndexEntry { major, minor, slot }),
    {
        IndexEntry { major, minor, slot }
    }

    pub fn lt(&self, other: &IndexEntry) -> (r: bool)
        ensures
            r == entry_lt(*self, *other),
    {
        self.major < other.major || (self.major == other.major && (self.minor < other.minor || (
        self.minor == other.minor && self.slot.lt(&other.slot))))
    }
}

/// A set of entries, stored in increasing order.
pub struct OrderedIndex {
    entries: Vec<IndexEntry>,
}

impl View for OrderedIndex {
    type V = Seq<IndexEntry>;

    /// The entries in increasing order.
    closed spec fn view(&self) -> Seq<IndexEntry> {
        self.entries@
    }
}

impl OrderedIndex {
    /// The entries are strictly increasing, so none occurs twice.
    pub open spec fn wf(&self) -> bool {
        strictly_sorted(self@)
    }

    /// Whether the index holds `e`.
    pub open spec fn has(&self, e: IndexEntry) -> bool {
        self@.contains(e)
    }

    pub fn new() -> (r: Self)
        ensures
            r@ == Seq::<IndexEntry>::empty(),
            r.wf(),
    {
        OrderedIndex { entries: Vec::new() }
    }

    pub fn len(&self) -> (r: usize)
        ensures
            r == self@.len(),
    {
        self.entries.len()
    }

    pub fn is_empty(&self) -> (r: bool)
        ensures
            r == (self@.len() == 0),
    {
        self.entries.len() == 0
    }

    /// The entry at rank `i` of the order.
    pub fn get(&self, i: usize) -> (r: IndexEntry)
        requires
            i < self@.len(),
        ensures
            r == self@[i as int],
    {
        self.entries[i]
    }

    /// The least entry, if there is one.
    pub fn first(&self) -> (r: Option<IndexEntry>)
        ensures
            self@.len() == 0 ==> r is None,
            self@.len() > 0 ==> r == Some(self@[0]),
    {
        if self.entries.len() == 0 {
            None
        } else {
            Some(self.entries[0])
        }
    }

    /// The number of entries that stand before `e`.
    pub fn lower_bound(&self, e: &IndexEntry) -> (r: usize)
        requires
            self.wf(),
        ensures
            r <= self@.len(),
            forall|j: int| 0 <= j < r ==> entry_lt(#[trigger] self@[j], *e),
            forall|j: int| r <= j < self@.len() ==> !entry_lt(#[trigger] self@[j], *e),
    {
        let mut lo: usize = 0;
        let mut hi: usize = self.entries.len();
        while lo < hi
            invariant
                lo <= hi <= self@.len(),
                self.wf(),
                forall|j: int| 0 <= j < lo ==> entry_lt(#[trigger] self@[j], *e),
                forall|j: int| hi <= j < self@.len() ==> !entry_lt(#[trigger] self@[j], *e),
            decreases hi - lo,
        {
            let mid: usize = lo + (hi - lo) / 2;
            if self.entries[mid].lt(e) {
                assert forall|j: int| 0 <= j < mid + 1 implies entry_lt(
                    #[trigger] self@[j],
                    *e,
                ) by {
                    if j < mid {
                        assert(entry_lt(self@[j], self@[mid as int]));
                    }
                }
                lo = mid + 1;
            } else {
                assert forall|j: int| mid <= j < self@.len() implies !entry_lt(
                    #[trigger] self@[j],
                    *e,
                ) by {
                    if j > mid {
                        assert(entry_lt(self@[mid as int], self@[j]));
                    }
                }
                hi = mid;
            }
        }
        lo
    }

    pub fn contains(&self, e: &IndexEntry) -> (r: bool)
        requires
            self.wf(),
        ensures
            r == self.has(*e),
    {
        let i = self.lower_bound(e);
        if i < self.entries.len() && self.entries[i] == *e {
            true
        } else {
            assert forall|j: int| 0 <= j < self@.len() implies self@[j] != *e by {
                if j > i {
                    assert(entry_lt(self@[i as int], self@[j]));
                }
            }
            false
        }
    }

    /// Adds `e` to the set. Returns whether it was new.
    pub fn insert(&mut self, e: IndexEntry) -> (added: bool)
        requires
            old(self).wf(),
        ensures
            final(self).wf(),
            added == !old(self).has(e),
            forall|x: IndexEntry| #[trigger] final(self).has(x) <==> (old(self).has(x) || x == e),
            final(self)@.len() == old(self)@.len() + (if added { 1int } else { 0int }),
            !added ==> final(self)@ == old(self)@,
            added ==> exists|i: int|
                0 <= i <= old(self)@.len() && final(self)@ == #[trigger] old(self)@.insert(i, e),
    {
        let i = self.lower_bound(&e);
        if i < self.entries.len() && self.entries[i] == e {
            false
        } else {
            assert forall|j: int| 0 <= j < self@.len() implies self@[j] != e by {
                if j > i {
                    assert(entry_lt(self@[i as int], self@[j]));
                }
            }
            let ghost before = self@;
            self.entries.insert(i, e);
            assert(self@ == before.insert(i as int, e));
            assert(strictly_sorted(self@)) by {
                assert forall|a: int, b: int| 0 <= a < b < self@.len() implies entry_lt(
                    #[trigger] self@[a],
                    #[trigger] self@[b],
                ) by {
                    if b < i {
                        assert(entry_lt(before[a], before[b]));
                    } else if b == i {
                        assert(entry_lt(before[a], e));
                    } else if a < i {
                        assert(entry_lt(before[a], e));
                        assert(!entry_lt(before[b - 1], e));
                        assert(before[b - 1] != e);
                    } else if a == i {
                        assert(!entry_lt(before[b - 1], e));
                        assert(before[b - 1] != e);
                    } else {
                        assert(entry_lt(before[a - 1], before[b - 1]));
                    }
                }
            }
            assert forall|x: IndexEntry| #[trigger] self.has(x) <==> (before.contains(x) || x
                == e) by {
                if before.contains(x) {
                    let k = choose|k: int| 0 <= k < before.len() && before[k] == x;
                    if k < i {
                        assert(self@[k] == x);
                    } else {
                        assert(self@[k + 1] == x);
                    }
                }
                if x == e {
                    assert(self@[i as int] == x);
                }
                if self@.contains(x) {
                    let k = choose|k: int| 0 <= k < self@.len() && self@[k] == x;
                    if k < i {
                        assert(before[k] == x);
                    } else if k > i {
                        assert(before[k - 1] == x);
                    }
                }
            }
            true
        }
    }

    /// Takes `e` out of the set. Returns whether it was there.
    pub fn remove(&mut self, e: &IndexEntry) -> (removed: bool)
        requires
            old(self).wf(),
        ensures
            final(self).wf(),
            removed == old(self).has(*e),
            forall|x: IndexEntry| #[trigger] final(self).has(x) <==> (old(self).has(x) && x != *e),
            final(self)@.len() == old(self)@.len() - (if removed { 1int } else { 0int }),
            !removed ==> final(self)@ == old(self)@,
            removed ==> exists|i: int|
                0 <= i < old(self)@.len() && old(self)@[i] == *e && final(self)@
                    == #[trigger] old(self)@.remove(i),
    {
        let i = self.lower_bound(e);
        if i < self.entries.len() && self.entries[i] == *e {
            let ghost before = self@;
            self.entries.remove(i);
            assert(self@ == before.remove(i as int));
            assert(strictly_sorted(self@)) by {
                assert forall|a: int, b: int| 0 <= a < b < self@.len() implies entry_lt(
                    #[trigger] self@[a],
                    #[trigger] self@[b],
                ) by {
                    let a0 = if a < i { a } else { a + 1 };
                    let b0 = if b < i { b } else { b + 1 };
                    assert(entry_lt(before[a0], before[b0]));
                }
            }
            assert forall|x: IndexEntry| #[trigger] self.has(x) <==> (before.contains(x) && x
                != *e) by {
                if before.contains(x) && x != *e {
                    let k = choose|k: int| 0 <= k < before.len() && before[k] == x;
                    if k < i {
                        assert(self@[k] == x);
                    } else {
                        assert(self@[k - 1] == x);
                    }
                }
                if self@.contains(x) {
                    let k = choose|k: int| 0 <= k < self@.len() && self@[k] == x;
                    let k0 = if k < i { k } else { k + 1 };
                    assert(before[k0] == x);
                    if k0 < i {
                        assert(entry_lt(before[k0], before[i as int]));
                    } else {
                        assert(entry_lt(before[i as int], before[k0]));
                    }
                }
            }
            true
        } else {
            assert forall|j: int| 0 <= j < self@.len() implies self@[j] != *e by {
                if j > i {
                    assert(entry_lt(self@[i as int], self@[j]));
                }
            }
            false
        }
    }
}

} // verus!
