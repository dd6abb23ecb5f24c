//! A bounded least-recently-used list of keys.
//!
//! Entries live in an arena whose free slots are tracked by a [`Bitmap`];
//! they form a doubly linked list from the most recent (`head`) to the least
//! recent (`tail`) entry, and `map` finds the slot of each key.

use std::collections::BTreeMap;
use vstd::prelude::*;

use super::bitmap::Bitmap;

verus! {

/// The link that marks the end of the list.
pub const NIL: usize = usize::MAX;

/// One arena slot: a key and the slots of its neighbours.
#[derive(Clone, Copy)]
pub struct LruEntry {
    pub key: u32,
    pub prev: usize,
    pub next: usize,
}

/// The slots of a list, in order.
pub open spec fn slot_seq(l: Seq<(usize, u32)>) -> Seq<int> {
    l.map_values(|e: (usize, u32)| e.0 as int)
}

/// The keys of a list, in order.
pub open spec fn key_seq(l: Seq<(usize, u32)>) -> Seq<u32> {
    l.map_values(|e: (usize, u32)| e.1)
}

/// The slot at position `i`, or [`NIL`] past the end.
pub open spec fn at_slot(l: Seq<(usize, u32)>, i: int) -> usize {
    if 0 <= i < l.len() {
        l[i].0
    } else {
        NIL
    }
}

/// The slot before position `i`, or [`NIL`] at the front.
pub open spec fn prev_slot(l: Seq<(usize, u32)>, i: int) -> usize {
    if i == 0 {
        NIL
    } else {
        l[i - 1].0
    }
}

/// A list whose slots lie in an arena of `alen` entries and whose slots and
/// keys are distinct.
pub open spec fn valid_list(l: Seq<(usize, u32)>, alen: nat) -> bool {
    &&& slot_seq(l).no_duplicates()
    &&& key_seq(l).no_duplicates()
    &&& forall|i: int| 0 <= i < l.len() ==> (#[trigger] l[i]).0 < alen
}

/// With one more allocated slot than listed entries, the list is shorter
/// than the capacity.
proof fn lemma_insert_len(lru: &Lru, at: usize)
    requires
        lru.inv(Some(at)),
        !slot_seq(lru.list@).contains(at as int),
    ensures
        lru.list@.len() < lru.cap,
{
    let s = slot_seq(lru.list@);
    s.unique_seq_to_set();
    vstd::set_lib::lemma_int_range(0, lru.cap as int);
    assert(lru.bitmap.allocated().subset_of(vstd::set_lib::set_int_range(0, lru.cap as int)));
    vstd::set_lib::lemma_len_subset(
        lru.bitmap.allocated(),
        vstd::set_lib::set_int_range(0, lru.cap as int),
    );
    assert(!s.to_set().contains(at as int));
}

pub proof fn lemma_remove_no_dup<A>(s: Seq<A>, p: int)
    requires
        s.no_duplicates(),
        0 <= p < s.len(),
    ensures
        s.remove(p).no_duplicates(),
{
    let r = s.remove(p);
    assert forall|i: int, j: int| 0 <= i < r.len() && 0 <= j < r.len() && i != j implies r[i]
        != r[j] by {
        let a = if i < p { i } else { i + 1 };
        let b = if j < p { j } else { j + 1 };
        assert(r[i] == s[a] && r[j] == s[b]);
    }
}

pub proof fn lemma_insert_no_dup<A>(s: Seq<A>, p: int, x: A)
    requires
        s.no_duplicates(),
        0 <= p <= s.len(),
        !s.contains(x),
    ensures
        s.insert(p, x).no_duplicates(),
{
    let r = s.insert(p, x);
    assert forall|i: int, j: int| 0 <= i < r.len() && 0 <= j < r.len() && i != j implies r[i]
        != r[j] by {
        if i != p && j != p {
            let a = if i < p { i } else { i - 1 };
            let b = if j < p { j } else { j - 1 };
            assert(r[i] == s[a] && r[j] == s[b]);
        } else if i == p {
            let b = if j < p { j } else { j - 1 };
            assert(r[j] == s[b]);
        } else {
            let a = if i < p { i } else { i - 1 };
            assert(r[i] == s[a]);
        }
    }
}

pub proof fn lemma_remove_to_set<A>(s: Seq<A>, p: int)
    requires
        s.no_duplicates(),
        0 <= p < s.len(),
    ensures
        s.remove(p).to_set() == s.to_set().remove(s[p]),
{
    let r = s.remove(p);
    assert forall|x: A| r.to_set().contains(x) <==> s.to_set().remove(s[p]).contains(x) by {
        if r.contains(x) {
            let i = choose|i: int| 0 <= i < r.len() && r[i] == x;
            let a = if i < p { i } else { i + 1 };
            assert(s[a] == x);
        }
        if s.contains(x) && x != s[p] {
            let a = choose|a: int| 0 <= a < s.len() && s[a] == x;
            let i = if a < p { a } else { a - 1 };
            assert(r[i] == x);
        }
    }
    assert(r.to_set() =~= s.to_set().remove(s[p]));
}

pub proof fn lemma_insert_to_set<A>(s: Seq<A>, p: int, x: A)
    requires
        0 <= p <= s.len(),
    ensures
        s.insert(p, x).to_set() == s.to_set().insert(x),
{
    let r = s.insert(p, x);
    assert forall|y: A| r.to_set().contains(y) <==> s.to_set().insert(x).contains(y) by {
        if r.contains(y) {
            let i = choose|i: int| 0 <= i < r.len() && r[i] == y;
            if i != p {
                let a = if i < p { i } else { i - 1 };
                assert(s[a] == y);
            }
        }
        if s.contains(y) {
            let a = choose|a: int| 0 <= a < s.len() && s[a] == y;
            let i = if a < p { a } else { a + 1 };
            assert(r[i] == y);
        }
        if y == x {
            assert(r[p] == x);
        }
    }
    assert(r.to_set() =~= s.to_set().insert(x));
}

/// The least-recently-used list.
pub struct Lru {
    map: BTreeMap<u32, usize>,
    cap: usize,
    arena: Vec<LruEntry>,
    bitmap: Bitmap,
    head: usize,
    tail: usize,
    list: Ghost<Seq<(usize, u32)>>,
}

impl Lru {
    /// The `(slot, key)` entries from the most recent to the least recent.
    pub closed spec fn list(&self) -> Seq<(usize, u32)> {
        self.list@
    }

    /// The keys from the most recent to the least recent.
    pub open spec fn keys(&self) -> Seq<u32> {
        key_seq(self.list())
    }

    /// The maximal number of keys.
    pub closed spec fn spec_cap(&self) -> nat {
        self.cap as nat
    }

    /// The number of arena slots ever used.
    pub closed spec fn arena_len(&self) -> nat {
        self.arena@.len()
    }

    /// The invariant, where `extra` names a slot allocated in the bitmap but
    /// not yet linked into the list.
    closed spec fn inv(&self, extra: Option<usize>) -> bool {
        let l = self.list@;
        &&& self.cap % 128 == 0
        &&& self.cap < NIL
        &&& self.bitmap.wf()
        &&& self.bitmap.spec_size() == self.cap
        &&& self.arena@.len() <= self.cap
        &&& l.len() <= self.cap
        &&& valid_list(l, self.arena@.len())
        &&& self.bitmap.allocated() == match extra {
            Some(s) => slot_seq(l).to_set().insert(s as int),
            None => slot_seq(l).to_set(),
        }
        &&& self.head == at_slot(l, 0)
        &&& self.tail == prev_slot(l, l.len() as int)
        &&& forall|i: int|
            0 <= i < l.len() ==> #[trigger] self.arena@[l[i].0 as int] == (LruEntry {
                key: l[i].1,
                prev: prev_slot(l, i),
                next: at_slot(l, i + 1),
            })
        &&& self.map@.dom() == key_seq(l).to_set()
        &&& forall|i: int| 0 <= i < l.len() ==> self.map@[#[trigger] l[i].1] == l[i].0
    }

    /// The list's internal invariant.
    pub closed spec fn wf(&self) -> bool {
        self.inv(None)
    }

    /// Creates an empty list of at most `cap` keys.
    pub fn new(cap: usize) -> (lru: Self)
        requires
            cap % 128 == 0,
        ensures
            lru.wf(),
            lru.spec_cap() == cap,
            lru.list() == Seq::<(usize, u32)>::empty(),
            lru.arena_len() == 0,
    {
        let lru = Lru {
            map: BTreeMap::new(),
            cap,
            arena: Vec::new(),
            bitmap: Bitmap::new(cap),
            head: NIL,
            tail: NIL,
            list: Ghost(Seq::empty()),
        };
        assert(slot_seq(lru.list@).to_set() =~= Set::<int>::empty());
        assert(key_seq(lru.list@).to_set() =~= Set::<u32>::empty());
        lru
    }

    proof fn lemma_len(&self)
        requires
            self.wf(),
        ensures
            self.map@.len() == self.list@.len(),
            self.map@.dom().finite(),
    {
        key_seq(self.list@).unique_seq_to_set();
    }

    /// The number of keys.
    pub fn len(&self) -> (n: usize)
        requires
            self.wf(),
        ensures
            n == self.list().len(),
    {
        proof {
            self.lemma_len();
        }
        self.map.len()
    }

    /// The maximal number of keys.
    pub fn cap(&self) -> (c: usize)
        ensures
            c == self.spec_cap(),
    {
        self.cap
    }

    /// The slot of `key`, if present.
    pub fn get(&self, key: u32) -> (at: Option<usize>)
        requires
            self.wf(),
        ensures
            match at {
                Some(s) => exists|i: int|
                    0 <= i < self.list().len() && self.list()[i] == (s, key),
                None => !self.keys().contains(key),
            },
    {
        match self.map.get(&key) {
            Some(at) => {
                proof {
                    assert(key_seq(self.list@).to_set().contains(key));
                    let i = choose|i: int| 0 <= i < self.list@.len() && key_seq(self.list@)[i] == key;
                    assert(self.list()[i] == (*at, key));
                }
                Some(*at)
            },
            None => {
                proof {
                    if self.keys().contains(key) {
                        assert(key_seq(self.list@).to_set().contains(key));
                    }
                }
                None
            },
        }
    }

    /// The least recently used key, if any.
    pub fn least_recent(&self) -> (key: Option<u32>)
        requires
            self.wf(),
        ensures
            self.keys().len() == 0 ==> key is None,
            self.keys().len() > 0 ==> key == Some(self.keys().last()),
    {
        if self.tail == NIL {
            proof {
                if self.list@.len() > 0 {
                    let l = self.list@;
                    assert(l[l.len() - 1].0 < self.arena@.len());
                }
            }
            None
        } else {
            let l = Ghost(self.list@);
            proof {
                assert(l@.len() > 0);
                assert(self.arena@[l@[l@.len() - 1].0 as int].key == l@[l@.len() - 1].1);
            }
            Some(self.arena[self.tail].key)
        }
    }

    /// Unlinks the entry at slot `at`, the one at position `p`, and returns
    /// it with its former links.
    pub fn remove_at(&mut self, at: usize, Ghost(p): Ghost<int>) -> (entry: LruEntry)
        requires
            old(self).wf(),
            0 <= p < old(self).list().len(),
            old(self).list()[p].0 == at,
        ensures
            final(self).wf(),
            final(self).spec_cap() == old(self).spec_cap(),
            final(self).arena_len() == old(self).arena_len(),
            final(self).list() == old(self).list().remove(p),
            entry == (LruEntry {
                key: old(self).list()[p].1,
                prev: prev_slot(old(self).list(), p),
                next: at_slot(old(self).list(), p + 1),
            }),
    {
        let ghost l = self.list@;
        let ghost nl = l.remove(p);
        proof {
            assert(self.arena@[l[p].0 as int] == (LruEntry {
                key: l[p].1,
                prev: prev_slot(l, p),
                next: at_slot(l, p + 1),
            }));
        }
        let entry = self.arena[at];
        self.arena.set(at, LruEntry { key: 0, prev: 0, next: 0 });
        let mapped_at = self.map.remove(&entry.key);
        proof {
            assert(key_seq(l)[p] == entry.key);
            assert(key_seq(l).to_set().contains(entry.key));
            assert(mapped_at == Some(at));
            assert(slot_seq(l)[p] == at as int);
            assert(self.bitmap.allocated().contains(at as int));
        }
        self.bitmap.dealloc(at);
        if entry.prev == NIL {
            self.head = entry.next;
        } else {
            proof {
                assert(p > 0);
                assert(slot_seq(l)[p - 1] != slot_seq(l)[p]);
            }
            let e = self.arena[entry.prev];
            self.arena.set(entry.prev, LruEntry { key: e.key, prev: e.prev, next: entry.next });
        }
        if entry.next == NIL {
            self.tail = entry.prev;
        } else {
            proof {
                assert(p + 1 < l.len());
                assert(slot_seq(l)[p + 1] != slot_seq(l)[p]);
                if p > 0 {
                    assert(slot_seq(l)[p + 1] != slot_seq(l)[p - 1]);
                }
            }
            let e = self.arena[entry.next];
            self.arena.set(entry.next, LruEntry { key: e.key, prev: entry.prev, next: e.next });
        }
        proof {
            self.list@ = nl;
            assert(slot_seq(nl) =~= slot_seq(l).remove(p));
            assert(key_seq(nl) =~= key_seq(l).remove(p));
            lemma_remove_no_dup(slot_seq(l), p);
            lemma_remove_no_dup(key_seq(l), p);
            assert(slot_seq(nl).to_set() =~= slot_seq(l).to_set().remove(at as int)) by {
                lemma_remove_to_set(slot_seq(l), p);
            }
            assert(key_seq(nl).to_set() =~= key_seq(l).to_set().remove(entry.key)) by {
                lemma_remove_to_set(key_seq(l), p);
            }
            assert forall|i: int| 0 <= i < nl.len() implies #[trigger] self.arena@[nl[i].0 as int]
                == (LruEntry { key: nl[i].1, prev: prev_slot(nl, i), next: at_slot(nl, i + 1) }) by {
                if i < p {
                    assert(nl[i] == l[i]);
                    assert(slot_seq(l)[i] != slot_seq(l)[p]);
                    if i + 1 < p {
                        assert(slot_seq(l)[i] != slot_seq(l)[p - 1]);
                    }
                    if p + 1 < l.len() {
                        assert(slot_seq(l)[i] != slot_seq(l)[p + 1]);
                    }
                } else {
                    assert(nl[i] == l[i + 1]);
                    assert(slot_seq(l)[i + 1] != slot_seq(l)[p]);
                    if p > 0 {
                        assert(slot_seq(l)[i + 1] != slot_seq(l)[p - 1]);
                    }
                    if i > p {
                        assert(slot_seq(l)[i + 1] != slot_seq(l)[p + 1]);
                    }
                }
            }
            assert forall|i: int| 0 <= i < nl.len() implies self.map@[#[trigger] nl[i].1]
                == nl[i].0 by {
                if i < p {
                    assert(nl[i] == l[i]);
                    assert(key_seq(l)[i] != key_seq(l)[p]);
                } else {
                    assert(nl[i] == l[i + 1]);
                    assert(key_seq(l)[i + 1] != key_seq(l)[p]);
                }
            }
            assert forall|i: int| 0 <= i < nl.len() implies (#[trigger] nl[i]).0 < self.arena@.len() by {
                if i < p {
                    assert(nl[i] == l[i]);
                } else {
                    assert(nl[i] == l[i + 1]);
                }
            }
            if nl.len() > 0 {
                if p == nl.len() {
                    assert(self.tail == l[p - 1].0);
                }
            }
        }
        entry
    }

    /// Links `entry` into the already allocated slot `at` at position `p`.
    fn insert_allocated_at(&mut self, at: usize, entry: LruEntry, Ghost(p): Ghost<int>)
        requires
            old(self).inv(Some(at)),
            !slot_seq(old(self).list()).contains(at as int),
            at <= old(self).arena_len(),
            !old(self).keys().contains(entry.key),
            0 <= p <= old(self).list().len(),
            entry.prev == prev_slot(old(self).list(), p),
            entry.next == at_slot(old(self).list(), p),
        ensures
            final(self).wf(),
            final(self).spec_cap() == old(self).spec_cap(),
            final(self).arena_len() == if at == old(self).arena_len() {
                old(self).arena_len() + 1
            } else {
                old(self).arena_len()
            },
            final(self).list() == old(self).list().insert(p, (at, entry.key)),
    {
        let ghost l = self.list@;
        let ghost nl = l.insert(p, (at, entry.key));
        proof {
            lemma_insert_len(self, at);
            assert(self.bitmap.allocated().contains(at as int));
            assert(at < self.cap);
        }
        let key = entry.key;
        let prev = entry.prev;
        let next = entry.next;
        if at == self.arena.len() {
            self.arena.push(entry);
        } else {
            self.arena.set(at, entry);
        }
        let previous = self.map.insert(key, at);
        if prev == NIL {
            self.head = at;
        } else {
            proof {
                assert(slot_seq(l)[p - 1] != at as int);
            }
            let e = self.arena[prev];
            self.arena.set(prev, LruEntry { key: e.key, prev: e.prev, next: at });
        }
        if next == NIL {
            self.tail = at;
        } else {
            proof {
                assert(slot_seq(l)[p] != at as int);
                if p > 0 {
                    assert(slot_seq(l)[p] != slot_seq(l)[p - 1]);
                }
            }
            let e = self.arena[next];
            self.arena.set(next, LruEntry { key: e.key, prev: at, next: e.next });
        }
        proof {
            self.list@ = nl;
            assert(slot_seq(nl) =~= slot_seq(l).insert(p, at as int));
            assert(key_seq(nl) =~= key_seq(l).insert(p, key));
            lemma_insert_no_dup(slot_seq(l), p, at as int);
            lemma_insert_no_dup(key_seq(l), p, key);
            assert(slot_seq(nl).to_set() =~= slot_seq(l).to_set().insert(at as int)) by {
                lemma_insert_to_set(slot_seq(l), p, at as int);
            }
            assert(key_seq(nl).to_set() =~= key_seq(l).to_set().insert(key)) by {
                lemma_insert_to_set(key_seq(l), p, key);
            }
            assert forall|i: int| 0 <= i < nl.len() implies #[trigger] self.arena@[nl[i].0 as int]
                == (LruEntry { key: nl[i].1, prev: prev_slot(nl, i), next: at_slot(nl, i + 1) }) by {
                if i < p {
                    assert(nl[i] == l[i]);
                    assert(slot_seq(l)[i] != at as int);
                    if i + 1 < p {
                        assert(slot_seq(l)[i] != slot_seq(l)[p - 1]);
                    }
                    if p < l.len() {
                        assert(slot_seq(l)[i] != slot_seq(l)[p]);
                    }
                } else if i > p {
                    assert(nl[i] == l[i - 1]);
                    assert(slot_seq(l)[i - 1] != at as int);
                    if p > 0 {
                        assert(slot_seq(l)[i - 1] != slot_seq(l)[p - 1]);
                    }
                    if i - 1 > p {
                        assert(slot_seq(l)[i - 1] != slot_seq(l)[p]);
                    }
                }
            }
            assert forall|i: int| 0 <= i < nl.len() implies self.map@[#[trigger] nl[i].1]
                == nl[i].0 by {
                if i < p {
                    assert(nl[i] == l[i]);
                    assert(key_seq(l)[i] != key);
                } else if i > p {
                    assert(nl[i] == l[i - 1]);
                    assert(key_seq(l)[i - 1] != key);
                }
            }
            assert forall|i: int| 0 <= i < nl.len() implies (#[trigger] nl[i]).0 < self.arena@.len() by {
                if i < p {
                    assert(nl[i] == l[i]);
                } else if i > p {
                    assert(nl[i] == l[i - 1]);
                }
            }
        }
    }

    /// Inserts the new `key` at the front.
    pub fn insert_at_head(&mut self, key: u32)
        requires
            old(self).wf(),
            !old(self).keys().contains(key),
            old(self).list().len() < old(self).spec_cap(),
        ensures
            final(self).wf(),
            final(self).spec_cap() == old(self).spec_cap(),
            final(self).arena_len() >= old(self).arena_len(),
            exists|s: usize| final(self).list() == seq![(s, key)] + old(self).list(),
    {
        let ghost l = self.list@;
        proof {
            self.lemma_free_slot();
        }
        let at = self.bitmap.allocate().expect("LRU must have a free slot before inserting an entry");
        proof {
            if at > self.arena@.len() {
                assert(old(self).bitmap.allocated().contains(self.arena@.len() as int));
                let i = choose|i: int| 0 <= i < l.len() && slot_seq(l)[i] == self.arena@.len();
                assert(l[i].0 < self.arena@.len());
            }
        }
        let entry = LruEntry { key, prev: NIL, next: self.head };
        self.insert_allocated_at(at, entry, Ghost(0));
        proof {
            assert(l.insert(0, (at, key)) =~= seq![(at, key)] + l);
        }
    }

    /// Restores `entry` into the free slot `at`, at position `p`.
    pub fn restore_at(&mut self, at: usize, entry: LruEntry, Ghost(p): Ghost<int>)
        requires
            old(self).wf(),
            at < old(self).arena_len(),
            !slot_seq(old(self).list()).contains(at as int),
            !old(self).keys().contains(entry.key),
            0 <= p <= old(self).list().len(),
            entry.prev == prev_slot(old(self).list(), p),
            entry.next == at_slot(old(self).list(), p),
        ensures
            final(self).wf(),
            final(self).spec_cap() == old(self).spec_cap(),
            final(self).arena_len() == old(self).arena_len(),
            final(self).list() == old(self).list().insert(p, (at, entry.key)),
    {
        proof {
            assert(!self.bitmap.allocated().contains(at as int));
        }
        self.bitmap.alloc_at(at);
        self.insert_allocated_at(at, entry, Ghost(p));
    }

    /// With fewer keys than the capacity, the bitmap has a free slot.
    proof fn lemma_free_slot(&self)
        requires
            self.wf(),
            self.list@.len() < self.cap,
        ensures
            exists|j: int| 0 <= j < self.cap && !self.bitmap.allocated().contains(j),
    {
        if forall|j: int| 0 <= j < self.cap ==> self.bitmap.allocated().contains(j) {
            vstd::set_lib::lemma_int_range(0, self.cap as int);
            slot_seq(self.list@).unique_seq_to_set();
            assert(vstd::set_lib::set_int_range(0, self.cap as int).subset_of(
                slot_seq(self.list@).to_set(),
            ));
            vstd::set_lib::lemma_len_subset(
                vstd::set_lib::set_int_range(0, self.cap as int),
                slot_seq(self.list@).to_set(),
            );
        }
    }

    /// The listed entries are valid.
    pub proof fn lemma_valid(&self)
        requires
            self.wf(),
        ensures
            valid_list(self.list(), self.arena_len()),
            self.list().len() <= self.spec_cap(),
            self.arena_len() <= self.spec_cap(),
    {
    }

    /// The slot of the least recent entry.
    pub fn tail_slot(&self) -> (at: usize)
        requires
            self.wf(),
            self.list().len() > 0,
        ensures
            at == self.list().last().0,
    {
        self.tail
    }

    /// The keys from the most recent to the least recent.
    pub fn recent_keys(&self) -> (keys: Vec<u32>)
        requires
            self.wf(),
        ensures
            keys@ == self.keys(),
    {
        let mut keys: Vec<u32> = Vec::new();
        let mut at = self.head;
        let ghost l = self.list@;
        let mut i: usize = 0;
        while at != NIL
            invariant
                self.wf(),
                l == self.list@,
                i <= l.len(),
                at == at_slot(l, i as int),
                keys@ == key_seq(l).take(i as int),
            decreases l.len() - i,
        {
            proof {
                if i >= l.len() {
                    assert(at == NIL);
                }
                assert(self.arena@[l[i as int].0 as int].key == l[i as int].1);
            }
            let entry = self.arena[at];
            keys.push(entry.key);
            at = entry.next;
            i += 1;
            proof {
                assert(key_seq(l).take(i as int) =~= key_seq(l).take(i - 1).push(l[i - 1].1));
            }
        }
        proof {
            if i < l.len() {
                assert(l[i as int].0 < self.arena@.len());
            }
            assert(key_seq(l).take(i as int) =~= key_seq(l));
        }
        keys
    }
}

} // verus!
