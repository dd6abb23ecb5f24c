//! A bounded pool of distinct values under numeric keys, evicting the least
//! recently used value when full. The producer keeps one pool of strings and
//! one of paths; each change is logged so that a transaction can be rolled
//! back to a savepoint.

use vstd::prelude::*;

use super::bitmap::Bitmap;
use super::lru::{Lru, key_seq, lemma_insert_to_set, lemma_remove_to_set};
use super::lru_txn::{LruPutResult, LruTxn, put_keys};
use crate::patch::Path;

verus! {

/// A value that a pool can hold: it can be compared and copied.
pub trait PoolItem: View + Sized {
    /// Whether `self` and `other` have the same value.
    fn same(&self, other: &Self) -> (b: bool)
        ensures
            b == (self@ == other@),
    ;

    /// A copy of `self`.
    fn duplicate(&self) -> (c: Self)
        ensures
            c@ == self@,
    ;
}

impl PoolItem for String {
    fn same(&self, other: &Self) -> (b: bool) {
        *self == *other
    }

    fn duplicate(&self) -> (c: Self) {
        self.clone()
    }
}

impl PoolItem for Path {
    fn same(&self, other: &Self) -> (b: bool) {
        Path::same(self, other)
    }

    fn duplicate(&self) -> (c: Self) {
        Path::duplicate(self)
    }
}

/// What inserting into a pool did.
#[derive(Clone, Copy, Debug, PartialEq, Eq, Structural)]
pub enum InsertResult {
    /// The value was already pooled under `key`.
    Existing { key: u32 },
    /// The value took the free `key`.
    Inserted { key: u32 },
    /// The pool was full: the least recent value under `key` made way.
    Replaced { key: u32 },
}

/// How to undo one change of the pooled values.
pub enum PoolUndo<T> {
    /// Put `value` back under `key`.
    Restore { key: u32, value: T },
    /// Remove the value under `key`.
    Clear { key: u32 },
}

/// A position in a pool transaction to roll back to.
#[derive(Clone, Copy, Debug, PartialEq, Eq, Structural)]
pub struct PoolSavepoint {
    pub log_len: usize,
    pub lru: usize,
}

/// The values of `values` by key.
pub open spec fn pool_map<T: View>(values: Seq<Option<T>>) -> Map<u32, T::V> {
    Map::new(
        |k: u32| (k as int) < values.len() && values[k as int] is Some,
        |k: u32| values[k as int]->Some_0@,
    )
}

/// The pool's values are distinct and its keys are below `cap`.
pub open spec fn valid_map<V>(m: Map<u32, V>, cap: nat) -> bool {
    &&& forall|k: u32| m.contains_key(k) ==> (k as int) < cap
    &&& forall|a: u32, b: u32| m.contains_key(a) && m.contains_key(b) && a != b ==> m[a] != m[b]
}

/// The recency list holds exactly the pooled keys.
pub open spec fn consistent<V>(m: Map<u32, V>, l: Seq<(usize, u32)>) -> bool {
    key_seq(l).to_set() == m.dom()
}

/// Whether undoing `e` on the values `after` gives the values `before`.
pub open spec fn pool_undo_rel<T: View>(e: PoolUndo<T>, after: Map<u32, T::V>, before: Map<u32, T::V>) -> bool {
    match e {
        PoolUndo::Restore { key, value } => !after.contains_key(key) && before == after.insert(
            key,
            value@,
        ),
        PoolUndo::Clear { key } => after.contains_key(key) && before == after.remove(key),
    }
}

/// The lowest key not in `m`.
pub open spec fn lowest_free<V>(m: Map<u32, V>, k: u32) -> bool {
    &&& !m.contains_key(k)
    &&& forall|j: u32| j < k ==> m.contains_key(j)
}

/// What pooling `v` into the values `m` with recency `keys` and capacity
/// `cap` returns and leaves: an existing value becomes the most recent; a new
/// one takes the lowest free key or, when the pool is full, replaces the
/// least recently used value.
pub open spec fn insert_spec<V>(
    m: Map<u32, V>,
    keys: Seq<u32>,
    cap: nat,
    v: V,
    result: InsertResult,
    new_m: Map<u32, V>,
    new_keys: Seq<u32>,
) -> bool {
    if exists|k: u32| m.contains_key(k) && m[k] == v {
        &&& result matches InsertResult::Existing { key }
        &&& m.contains_key(key) && m[key] == v
        &&& new_m == m
        &&& new_keys == put_keys(keys, key, cap)
    } else if keys.len() == cap {
        &&& result == (InsertResult::Replaced { key: keys.last() })
        &&& new_m == m.insert(keys.last(), v)
        &&& new_keys == seq![keys.last()] + keys.drop_last()
    } else {
        &&& result matches InsertResult::Inserted { key }
        &&& (key as int) < cap
        &&& lowest_free(m, key)
        &&& new_m == m.insert(key, v)
        &&& new_keys == seq![key] + keys
    }
}

/// What pooling `v` returns and leaves, as one value: the pooling result,
/// the values and the recency order.
pub open spec fn insert_outcome<V>(m: Map<u32, V>, keys: Seq<u32>, cap: nat, v: V) -> (
    InsertResult,
    Map<u32, V>,
    Seq<u32>,
) {
    choose|t: (InsertResult, Map<u32, V>, Seq<u32>)| insert_spec(m, keys, cap, v, t.0, t.1, t.2)
}

/// In a pool whose values are distinct, pooling has one outcome.
pub proof fn lemma_insert_outcome<V>(
    m: Map<u32, V>,
    keys: Seq<u32>,
    cap: nat,
    v: V,
    result: InsertResult,
    new_m: Map<u32, V>,
    new_keys: Seq<u32>,
)
    requires
        valid_map(m, cap),
        insert_spec(m, keys, cap, v, result, new_m, new_keys),
    ensures
        insert_outcome(m, keys, cap, v) == (result, new_m, new_keys),
{
    let w = (result, new_m, new_keys);
    assert(insert_spec(m, keys, cap, v, w.0, w.1, w.2));
    let t = insert_outcome(m, keys, cap, v);
    assert(insert_spec(m, keys, cap, v, t.0, t.1, t.2));
    if exists|k: u32| m.contains_key(k) && m[k] == v {
        let a = t.0->Existing_key;
        let b = result->Existing_key;
        assert(a == b) by {
            if a != b {
                assert(m.contains_key(a) && m.contains_key(b) && m[a] == m[b]);
            }
        }
    } else if keys.len() == cap {
    } else {
        let a = t.0->Inserted_key;
        let b = result->Inserted_key;
        assert(a == b) by {
            if a < b {
                assert(m.contains_key(a));
            } else if b < a {
                assert(m.contains_key(b));
            }
        }
    }
}

/// A committed pool.
pub struct ValuePool<T> {
    values: Vec<Option<T>>,
    slots: Bitmap,
    lru: Lru,
}

/// A pool under a transaction.
pub struct ValuePoolTxn<T: View> {
    values: Vec<Option<T>>,
    slots: Bitmap,
    lru: LruTxn,
    log: Vec<PoolUndo<T>>,
    states: Ghost<Seq<Map<u32, T::V>>>,
}

impl<T: PoolItem> ValuePool<T> {
    /// The values by key.
    pub closed spec fn map(&self) -> Map<u32, T::V> {
        pool_map(self.values@)
    }

    /// The keys from the most recently to the least recently used.
    pub closed spec fn recency(&self) -> Seq<u32> {
        self.lru.keys()
    }

    /// The capacity.
    pub closed spec fn spec_cap(&self) -> nat {
        self.values@.len()
    }

    /// The pool's invariant.
    pub closed spec fn wf(&self) -> bool {
        let m = pool_map(self.values@);
        &&& self.values@.len() % 128 == 0
        &&& 0 < self.values@.len() <= 0x1_0000_0000
        &&& self.slots.wf()
        &&& self.slots.spec_size() == self.values@.len()
        &&& forall|j: int| #[trigger]
            self.slots.allocated().contains(j) <==> (0 <= j < self.values@.len()
                && self.values@[j] is Some)
        &&& self.lru.wf()
        &&& self.lru.spec_cap() == self.values@.len()
        &&& valid_map(m, self.values@.len() as nat)
        &&& consistent(m, self.lru.list())
    }

    /// An empty pool of `cap` values.
    pub fn new(cap: usize) -> (pool: Self)
        requires
            cap % 128 == 0,
            0 < cap <= 0x1_0000_0000,
        ensures
            pool.wf(),
            pool.spec_cap() == cap,
            pool.map() == Map::<u32, T::V>::empty(),
            pool.recency() == Seq::<u32>::empty(),
    {
        let mut values: Vec<Option<T>> = Vec::new();
        let mut i: usize = 0;
        while i < cap
            invariant
                i <= cap,
                values@.len() == i,
                forall|j: int| 0 <= j < i ==> values@[j] is None,
            decreases cap - i,
        {
            values.push(None);
            i += 1;
        }
        let pool = ValuePool { values, slots: Bitmap::new(cap), lru: Lru::new(cap) };
        proof {
            assert(pool_map(pool.values@) =~= Map::<u32, T::V>::empty());
            assert(key_seq(pool.lru.list()).to_set() =~= Set::<u32>::empty());
            assert(key_seq(pool.lru.list()) =~= Seq::<u32>::empty());
        }
        pool
    }

    /// Begins a transaction.
    pub fn txn(self) -> (txn: ValuePoolTxn<T>)
        requires
            self.wf(),
        ensures
            txn.wf(),
            txn.map() == self.map(),
            txn.recency() == self.recency(),
            txn.spec_cap() == self.spec_cap(),
            txn.savepoint_valid(PoolSavepoint { log_len: 0, lru: 0 }),
            txn.saved_map(0) == self.map(),
            txn.saved_recency(0) == self.recency(),
    {
        let ghost m = pool_map(self.values@);
        let ghost st = seq![m];
        let ValuePool { values, slots, lru } = self;
        ValuePoolTxn { values, slots, lru: LruTxn::new(lru), log: Vec::new(), states: Ghost(st) }
    }

    /// The values from the most recently to the least recently used.
    pub fn recent_values(&self) -> (r: Vec<T>)
        requires
            self.wf(),
        ensures
            r@.len() == self.recency().len(),
            forall|i: int|
                0 <= i < r@.len() ==> self.map().contains_key(self.recency()[i])
                    && #[trigger] r@[i]@ == self.map()[self.recency()[i]],
    {
        let keys = self.lru.recent_keys();
        let mut r: Vec<T> = Vec::new();
        let mut i: usize = 0;
        while i < keys.len()
            invariant
                self.wf(),
                keys@ == self.recency(),
                i <= keys@.len(),
                r@.len() == i,
                forall|j: int|
                    0 <= j < i ==> self.map().contains_key(self.recency()[j])
                        && #[trigger] r@[j]@ == self.map()[self.recency()[j]],
            decreases keys@.len() - i,
        {
            let k = keys[i];
            proof {
                assert(key_seq(self.lru.list()).to_set().contains(k));
                assert(pool_map(self.values@).contains_key(k));
            }
            match &self.values[k as usize] {
                Some(v) => r.push(v.duplicate()),
                None => {
                    proof {
                        assert(false);
                    }
                },
            }
            i += 1;
        }
        r
    }
}

/// A set of keys below `cap` with `cap` members holds every key below `cap`;
/// one with fewer misses one.
proof fn lemma_dom_card(d: Set<u32>, cap: nat)
    requires
        d.finite(),
        cap <= 0x1_0000_0000,
        forall|k: u32| d.contains(k) ==> (k as int) < cap,
    ensures
        d.len() <= cap,
        d.len() < cap ==> exists|j: u32| (j as int) < cap && !d.contains(j),
        d.len() == cap ==> forall|j: u32| (j as int) < cap ==> d.contains(j),
{
    let f = |k: u32| k as int;
    let di = d.map(f);
    let r = vstd::set_lib::set_int_range(0, cap as int);
    assert(vstd::relations::injective_on(f, d));
    vstd::set_lib::lemma_map_size(d, di, f);
    vstd::set_lib::lemma_int_range(0, cap as int);
    assert(di.subset_of(r)) by {
        assert forall|i: int| di.contains(i) implies r.contains(i) by {
            let k = choose|k: u32| d.contains(k) && f(k) == i;
        }
    }
    vstd::set_lib::lemma_len_subset(di, r);
    if d.len() < cap {
        if forall|i: int| r.contains(i) ==> di.contains(i) {
            assert(r.subset_of(di));
            vstd::set_lib::lemma_len_subset(r, di);
        }
        let i = choose|i: int| r.contains(i) && !di.contains(i);
        let j = i as u32;
        assert(j as int == i);
        if d.contains(j) {
            assert(di.contains(f(j)));
        }
    }
    if d.len() == cap {
        vstd::set_lib::lemma_subset_equality(di, r);
        assert forall|j: u32| (j as int) < cap implies d.contains(j) by {
            assert(r.contains(j as int));
            assert(di.contains(j as int));
            let k = choose|k: u32| d.contains(k) && f(k) == j as int;
        }
    }
}

impl<T: PoolItem> ValuePoolTxn<T> {
    /// The values by key.
    pub closed spec fn map(&self) -> Map<u32, T::V> {
        pool_map(self.values@)
    }

    /// The keys from the most recently to the least recently used.
    pub closed spec fn recency(&self) -> Seq<u32> {
        self.lru.keys()
    }

    /// The capacity.
    pub closed spec fn spec_cap(&self) -> nat {
        self.values@.len()
    }

    /// The number of logged changes of the values.
    pub closed spec fn log_len(&self) -> nat {
        self.log@.len()
    }

    /// The number of logged changes of the recency list.
    pub closed spec fn lru_log_len(&self) -> nat {
        self.lru.log_len()
    }

    /// The values when the log held `i` changes.
    pub closed spec fn saved_map(&self, i: int) -> Map<u32, T::V> {
        self.states@[i]
    }

    /// The recency list when its log held `i` changes.
    pub closed spec fn saved_recency(&self, i: int) -> Seq<u32> {
        key_seq(self.lru.saved(i))
    }

    /// Whether rolling back to `sp` gives a consistent pool.
    pub closed spec fn savepoint_valid(&self, sp: PoolSavepoint) -> bool {
        &&& sp.log_len <= self.log@.len()
        &&& sp.lru <= self.lru.log_len()
        &&& consistent(self.states@[sp.log_len as int], self.lru.saved(sp.lru as int))
    }

    closed spec fn inner_wf(&self) -> bool {
        let m = pool_map(self.values@);
        let cap = self.values@.len();
        &&& cap % 128 == 0
        &&& 0 < cap <= 0x1_0000_0000
        &&& self.slots.wf()
        &&& self.slots.spec_size() == cap
        &&& forall|j: int| #[trigger]
            self.slots.allocated().contains(j) <==> (0 <= j < cap && self.values@[j] is Some)
        &&& self.lru.wf()
        &&& self.lru.spec_cap() == cap
        &&& self.states@.len() == self.log@.len() + 1
        &&& self.states@.last() == m
        &&& forall|i: int|
            0 <= i < self.log@.len() ==> pool_undo_rel(
                #[trigger] self.log@[i],
                self.states@[i + 1],
                self.states@[i],
            )
        &&& forall|i: int|
            0 <= i < self.states@.len() ==> valid_map(#[trigger] self.states@[i], cap as nat)
    }

    /// The transaction's invariant.
    pub closed spec fn wf(&self) -> bool {
        &&& self.inner_wf()
        &&& consistent(pool_map(self.values@), self.lru.current())
    }

    pub proof fn lemma_counts(&self)
        requires
            self.wf(),
        ensures
            self.map().dom().finite(),
            self.recency().len() == self.map().dom().len(),
            self.recency().no_duplicates(),
            self.recency().to_set() == self.map().dom(),
            self.recency().len() <= self.spec_cap(),
            self.recency().len() < self.spec_cap() ==> exists|j: u32|
                (j as int) < self.spec_cap() && !self.map().contains_key(j),
            self.recency().len() == self.spec_cap() ==> forall|j: u32|
                (j as int) < self.spec_cap() ==> self.map().contains_key(j),
    {
        self.lru.lemma_wf();
        key_seq(self.lru.current()).unique_seq_to_set();
        assert(valid_map(self.states@.last(), self.values@.len() as nat));
        lemma_dom_card(self.map().dom(), self.values@.len() as nat);
    }

    /// The slots allocated in the pool's bitmap.
    pub closed spec fn slots(&self) -> Set<int> {
        self.slots.allocated()
    }

    /// A slot is allocated exactly when a value is pooled under its key.
    pub proof fn lemma_slots(&self)
        requires
            self.wf(),
        ensures
            forall|k: u32| #[trigger] self.slots().contains(k as int) <==> self.map().contains_key(k),
            forall|j: int| #[trigger] self.slots().contains(j) ==> 0 <= j < self.spec_cap(),
    {
        assert forall|k: u32| #[trigger] self.slots().contains(k as int) <==> self.map().contains_key(k) by {
            assert(self.slots.allocated().contains(k as int) <==> (0 <= k < self.values@.len()
                && self.values@[k as int] is Some));
        }
    }

    /// The values are pooled once each, under keys below the capacity.
    pub proof fn lemma_map_valid(&self)
        requires
            self.wf(),
        ensures
            valid_map(self.map(), self.spec_cap() as nat),
    {
        assert(valid_map(self.states@.last(), self.values@.len() as nat));
    }

    /// A valid savepoint lies within the logs.
    pub proof fn lemma_savepoint_bounds(&self)
        ensures
            forall|sp: PoolSavepoint| #[trigger]
                self.savepoint_valid(sp) ==> sp.log_len <= self.log_len() && sp.lru
                    <= self.lru_log_len(),
    {
    }

    /// The current values and recency are the last saved ones.
    pub proof fn lemma_saved_current(&self)
        requires
            self.wf(),
        ensures
            self.saved_map(self.log_len() as int) == self.map(),
            self.saved_recency(self.lru_log_len() as int) == self.recency(),
    {
        self.lru.lemma_wf();
    }

    /// The key of `value`, if pooled.
    pub fn get_key(&self, value: &T) -> (key: Option<u32>)
        requires
            self.wf(),
        ensures
            match key {
                Some(k) => self.map().contains_key(k) && self.map()[k] == value@,
                None => forall|k: u32| #[trigger]
                    self.map().contains_key(k) ==> self.map()[k] != value@,
            },
    {
        let mut k: usize = 0;
        while k < self.values.len()
            invariant
                self.wf(),
                k <= self.values@.len(),
                forall|j: u32|
                    (j as int) < k && #[trigger] self.map().contains_key(j) ==> self.map()[j]
                        != value@,
            decreases self.values@.len() - k,
        {
            match &self.values[k] {
                Some(v) => {
                    if v.same(value) {
                        proof {
                            assert(self.map().contains_key(k as u32));
                        }
                        return Some(k as u32);
                    }
                },
                None => {},
            }
            proof {
                assert forall|j: u32|
                    (j as int) < k + 1 && #[trigger] self.map().contains_key(j) implies self.map()[j]
                    != value@ by {
                    if j as int == k {
                        assert(self.values@[k as int] is Some);
                    }
                }
            }
            k += 1;
        }
        None
    }

    /// The value under `key`, if any.
    pub fn get(&self, key: u32) -> (value: Option<&T>)
        requires
            self.wf(),
        ensures
            match value {
                Some(v) => self.map().contains_key(key) && v@ == self.map()[key],
                None => !self.map().contains_key(key),
            },
    {
        if (key as usize) < self.values.len() {
            match &self.values[key as usize] {
                Some(v) => Some(v),
                None => None,
            }
        } else {
            None
        }
    }

    /// The current log lengths, to roll back to later.
    pub fn savepoint(&self) -> (sp: PoolSavepoint)
        requires
            self.wf(),
        ensures
            sp.log_len == self.log_len(),
            sp.lru == self.lru_log_len(),
            self.savepoint_valid(sp),
    {
        proof {
            self.lru.lemma_wf();
        }
        PoolSavepoint { log_len: self.log.len(), lru: self.lru.savepoint() }
    }
    /// Pools `value`: an existing value becomes the most recent, a new one
    /// takes the lowest free key or, when the pool is full, the key of the
    /// least recently used value.
    pub fn insert(&mut self, value: T) -> (result: InsertResult)
        requires
            old(self).wf(),
        ensures
            final(self).wf(),
            final(self).spec_cap() == old(self).spec_cap(),
            final(self).log_len() >= old(self).log_len(),
            final(self).lru_log_len() >= old(self).lru_log_len(),
            forall|i: int| 0 <= i <= old(self).log_len() ==> final(self).saved_map(i) == old(self).saved_map(i),
            forall|i: int|
                0 <= i <= old(self).lru_log_len() ==> final(self).saved_recency(i)
                    == old(self).saved_recency(i),
            forall|sp: PoolSavepoint|
                old(self).savepoint_valid(sp) ==> #[trigger] final(self).savepoint_valid(sp),
            insert_spec(
                old(self).map(),
                old(self).recency(),
                old(self).spec_cap(),
                value@,
                result,
                final(self).map(),
                final(self).recency(),
            ),
    {
        let ghost m0 = pool_map(self.values@);
        let ghost st0 = self.states@;
        proof {
            self.lemma_counts();
            self.lru.lemma_wf();
        }
        match self.get_key(&value) {
            Some(key) => {
                proof {
                    assert(self.recency().to_set().contains(key));
                }
                let r = self.lru.put(key);
                proof {
                    let old_keys = old(self).recency();
                    let idx = old_keys.index_of(key);
                    old_keys.index_of_first(key);
                    assert(old_keys.contains(key));
                    lemma_remove_to_set(old_keys, idx);
                    assert(self.recency().to_set() =~= old_keys.to_set()) by {
                        assert(self.recency() == seq![key] + old_keys.remove(idx));
                        assert(seq![key] + old_keys.remove(idx) =~= old_keys.remove(idx).insert(
                            0,
                            key,
                        ));
                        lemma_insert_to_set(old_keys.remove(idx), 0, key);
                    }
                    self.lru.lemma_wf();
                    assert forall|sp: PoolSavepoint| old(self).savepoint_valid(
                        sp,
                    ) implies #[trigger] self.savepoint_valid(sp) by {
                        assert(self.lru.saved(sp.lru as int) == old(self).lru.saved(sp.lru as int));
                    }
                }
                return InsertResult::Existing { key };
            },
            None => {},
        }
        let cap = self.values.len();
        let evicted = if self.lru.lru().len() == cap {
            let e = self.lru.lru().least_recent().expect("a full pool has a least recent key");
            proof {
                assert(self.recency().to_set().contains(e));
                assert(m0.contains_key(e));
            }
            let mut taken: Option<T> = None;
            self.values.set_and_swap(e as usize, &mut taken);
            match taken {
                Some(previous) => {
                    self.log.push(PoolUndo::Restore { key: e, value: previous });
                },
                None => {
                    proof {
                        assert(false);
                    }
                },
            }
            proof {
                assert(self.slots.allocated().contains(e as int));
            }
            self.slots.dealloc(e as usize);
            proof {
                let m1 = pool_map(self.values@);
                assert(m1 =~= m0.remove(e));
                assert(m1.insert(e, m0[e]) =~= m0);
                self.states@ = self.states@.push(m1);
                assert(valid_map(m1, cap as nat));
                assert forall|j: int| #[trigger]
                    self.slots.allocated().contains(j) <==> (0 <= j < cap
                        && self.values@[j] is Some) by {
                    if j == e as int {
                    } else {
                        assert(old(self).slots.allocated().contains(j) == self.slots.allocated().contains(j));
                    }
                }
                assert forall|i: int|
                    0 <= i < self.log@.len() implies pool_undo_rel(
                    #[trigger] self.log@[i],
                    self.states@[i + 1],
                    self.states@[i],
                ) by {
                    if i < old(self).log@.len() {
                        assert(self.log@[i] == old(self).log@[i]);
                        assert(self.states@[i] == st0[i]);
                        assert(self.states@[i + 1] == st0[i + 1]);
                    }
                }
            }
            true
        } else {
            false
        };
        let ghost m1 = pool_map(self.values@);
        let ghost st1 = self.states@;
        proof {
            if !evicted {
                let j = choose|j: u32| (j as int) < cap && !m0.contains_key(j);
                assert(!self.slots.allocated().contains(j as int));
            } else {
                assert(!self.slots.allocated().contains(old(self).recency().last() as int));
            }
        }
        let key = self.slots.allocate().expect("the pool must leave a free slot");
        proof {
            if evicted {
                let e = old(self).recency().last();
                if key != e as usize {
                    assert(m0.contains_key(key as u32));
                    assert(self.values@[key as int] is Some);
                }
            }
        }
        self.values.set(key, Some(value));
        self.log.push(PoolUndo::Clear { key: key as u32 });
        proof {
            let m2 = pool_map(self.values@);
            assert(m2 =~= m1.insert(key as u32, value@));
            assert(m2.remove(key as u32) =~= m1);
            self.states@ = self.states@.push(m2);
            assert forall|j: int| #[trigger]
                self.slots.allocated().contains(j) <==> (0 <= j < cap
                    && self.values@[j] is Some) by {
            }
            assert forall|i: int|
                0 <= i < self.log@.len() implies pool_undo_rel(
                #[trigger] self.log@[i],
                self.states@[i + 1],
                self.states@[i],
            ) by {
                if i < st1.len() - 1 {
                    assert(self.states@[i] == st1[i]);
                    assert(self.states@[i + 1] == st1[i + 1]);
                }
            }
            assert forall|i: int| 0 <= i < self.states@.len() implies valid_map(
                #[trigger] self.states@[i],
                cap as nat,
            ) by {
                if i < st1.len() {
                    assert(self.states@[i] == st1[i]);
                } else {
                    assert forall|a: u32, b: u32|
                        m2.contains_key(a) && m2.contains_key(b) && a != b implies m2[a] != m2[b] by {
                        if a == key as u32 {
                            assert(m0.contains_key(b) && m0[b] == m2[b]);
                        } else if b == key as u32 {
                            assert(m0.contains_key(a) && m0[a] == m2[a]);
                        } else {
                            assert(m1.contains_key(a) && m1.contains_key(b));
                        }
                    }
                }
            }
            if evicted {
                assert(key as u32 == old(self).recency().last());
                assert(self.recency().contains(key as u32));
            } else {
                assert(!self.recency().contains(key as u32)) by {
                    if self.recency().contains(key as u32) {
                        assert(self.recency().to_set().contains(key as u32));
                        assert(m0.contains_key(key as u32));
                    }
                };
            }
        }
        let ghost keys_before = self.recency();
        let r = self.lru.put(key as u32);
        proof {
            self.lru.lemma_wf();
            let old_keys = old(self).recency();
            let m2 = pool_map(self.values@);
            if evicted {
                let e = old_keys.last();
                assert(key as u32 == e);
                let idx = old_keys.len() - 1;
                assert(old_keys[idx] == e);
                old_keys.index_of_first(e);
                assert(old_keys.contains(e));
                assert(old_keys.index_of(e) == idx) by {
                    let q = old_keys.index_of(e);
                    assert(old_keys[q] == e);
                }
                assert(old_keys.remove(idx) =~= old_keys.drop_last());
                assert(m2 =~= m0.insert(e, value@));
                lemma_remove_to_set(old_keys, idx);
                assert(seq![e] + old_keys.drop_last() =~= old_keys.drop_last().insert(0, e));
                lemma_insert_to_set(old_keys.drop_last(), 0, e);
                assert(self.recency().to_set() =~= m2.dom());
            } else {
                assert(m2 =~= m0.insert(key as u32, value@));
                assert(seq![key as u32] + old_keys =~= old_keys.insert(0, key as u32));
                lemma_insert_to_set(old_keys, 0, key as u32);
                assert(self.recency().to_set() =~= m2.dom());
                assert forall|j: u32| j < key as u32 implies m0.contains_key(j) by {
                    assert(old(self).slots.allocated().contains(j as int));
                }
            }
            assert forall|sp: PoolSavepoint| old(self).savepoint_valid(
                sp,
            ) implies #[trigger] self.savepoint_valid(sp) by {
                assert(self.lru.saved(sp.lru as int) == old(self).lru.saved(sp.lru as int));
                assert(self.states@[sp.log_len as int] == st0[sp.log_len as int]);
            }
        }
        if evicted {
            InsertResult::Replaced { key: key as u32 }
        } else {
            InsertResult::Inserted { key: key as u32 }
        }
    }

    /// Undoes the changes logged after `sp`.
    pub fn rollback_to(&mut self, sp: PoolSavepoint)
        requires
            old(self).wf(),
            old(self).savepoint_valid(sp),
        ensures
            final(self).wf(),
            final(self).spec_cap() == old(self).spec_cap(),
            final(self).log_len() == sp.log_len,
            final(self).lru_log_len() == sp.lru,
            final(self).map() == old(self).saved_map(sp.log_len as int),
            final(self).recency() == old(self).saved_recency(sp.lru as int),
            forall|i: int| 0 <= i <= sp.log_len ==> final(self).saved_map(i) == old(self).saved_map(i),
            forall|i: int| 0 <= i <= sp.lru ==> final(self).saved_recency(i) == old(self).saved_recency(i),
            forall|sp2: PoolSavepoint|
                old(self).savepoint_valid(sp2) && sp2.log_len <= sp.log_len && sp2.lru <= sp.lru
                    ==> #[trigger] final(self).savepoint_valid(sp2),
    {
        while self.log.len() > sp.log_len
            invariant
                self.inner_wf(),
                self.lru == old(self).lru,
                self.values@.len() == old(self).values@.len(),
                sp.log_len <= self.log@.len() <= old(self).log@.len(),
                forall|i: int| 0 <= i <= self.log@.len() ==> self.states@[i] == old(self).states@[i],
            decreases self.log@.len(),
        {
            self.undo_last();
        }
        self.lru.rollback_to(sp.lru);
        proof {
            self.lru.lemma_wf();
            assert forall|sp2: PoolSavepoint|
                old(self).savepoint_valid(sp2) && sp2.log_len <= sp.log_len && sp2.lru <= sp.lru
                implies #[trigger] self.savepoint_valid(sp2) by {
                assert(self.lru.saved(sp2.lru as int) == old(self).lru.saved(sp2.lru as int));
            }
        }
    }

    fn undo_last(&mut self)
        requires
            old(self).inner_wf(),
            old(self).log@.len() > 0,
        ensures
            final(self).inner_wf(),
            final(self).lru == old(self).lru,
            final(self).values@.len() == old(self).values@.len(),
            final(self).log@.len() == old(self).log@.len() - 1,
            forall|i: int| 0 <= i <= final(self).log@.len() ==> final(self).states@[i] == old(self).states@[i],
    {
        let ghost n = self.log@.len() - 1;
        let ghost st = self.states@;
        let ghost cap = self.values@.len();
        proof {
            assert(pool_undo_rel(self.log@[n], st[n + 1], st[n]));
            assert(valid_map(st[n], cap as nat));
        }
        let entry = self.log.pop().unwrap();
        match entry {
            PoolUndo::Restore { key, value } => {
                proof {
                    assert(st[n].contains_key(key));
                    assert(!self.slots.allocated().contains(key as int));
                }
                self.slots.alloc_at(key as usize);
                self.values.set(key as usize, Some(value));
            },
            PoolUndo::Clear { key } => {
                proof {
                    assert(self.slots.allocated().contains(key as int));
                }
                self.slots.dealloc(key as usize);
                self.values.set(key as usize, None);
            },
        }
        proof {
            assert(pool_map(self.values@) =~= st[n]);
            self.states@ = st.take(n + 1);
            assert forall|j: int| #[trigger]
                self.slots.allocated().contains(j) <==> (0 <= j < cap && self.values@[j] is Some) by {
                if 0 <= j < cap {
                    assert(old(self).slots.allocated().contains(j) <==> old(self).values@[j] is Some);
                }
            }
        }
    }

    /// Ends the transaction, keeping its changes.
    pub fn commit(self) -> (pool: ValuePool<T>)
        requires
            self.wf(),
        ensures
            pool.wf(),
            pool.map() == self.map(),
            pool.recency() == self.recency(),
            pool.spec_cap() == self.spec_cap(),
    {
        proof {
            self.lru.lemma_wf();
            assert(valid_map(self.states@.last(), self.values@.len() as nat));
        }
        let ValuePoolTxn { values, slots, lru, log: _, states: _ } = self;
        ValuePool { values, slots, lru: lru.commit() }
    }

    /// Ends the transaction, undoing its changes.
    pub fn rollback(self) -> (pool: ValuePool<T>)
        requires
            self.wf(),
            self.savepoint_valid(PoolSavepoint { log_len: 0, lru: 0 }),
        ensures
            pool.wf(),
            pool.map() == self.saved_map(0),
            pool.recency() == self.saved_recency(0),
            pool.spec_cap() == self.spec_cap(),
    {
        let mut txn = self;
        txn.rollback_to(PoolSavepoint { log_len: 0, lru: 0 });
        txn.commit()
    }
}

} // verus!
