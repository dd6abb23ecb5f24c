//! The producer's pools of strings and paths.

use vstd::prelude::*;

use super::pool::{InsertResult, PoolSavepoint, ValuePool, ValuePoolTxn};
use super::{PATH_POOL_CAPACITY, STRING_POOL_CAPACITY};
use crate::patch::{Path, SegmentView};

verus! {

/// What inserting a string did.
pub type InsertStringResult = InsertResult;

/// What inserting a path did.
pub type InsertPathResult = InsertResult;

/// The producer's committed pools.
pub struct ProducerState {
    path_pool: ValuePool<Path>,
    string_pool: ValuePool<String>,
}

/// The producer's pools under a transaction.
pub struct ProducerStateTxn {
    path_pool: ValuePoolTxn<Path>,
    string_pool: ValuePoolTxn<String>,
}

/// A position in a producer transaction to roll back to.
#[derive(Clone, Copy, Debug, PartialEq, Eq, Structural)]
pub struct ProducerStateSavepoint {
    pub strings: PoolSavepoint,
    pub paths: PoolSavepoint,
}

impl ProducerState {
    /// The pooled strings by key.
    pub closed spec fn strings(&self) -> Map<u32, Seq<char>> {
        self.string_pool.map()
    }

    /// The pooled paths by key.
    pub closed spec fn paths(&self) -> Map<u32, Seq<SegmentView>> {
        self.path_pool.map()
    }

    /// The string keys from the most recently to the least recently used.
    pub closed spec fn string_recency(&self) -> Seq<u32> {
        self.string_pool.recency()
    }

    /// The path keys from the most recently to the least recently used.
    pub closed spec fn path_recency(&self) -> Seq<u32> {
        self.path_pool.recency()
    }

    /// The state's invariant.
    pub closed spec fn wf(&self) -> bool {
        &&& self.string_pool.wf()
        &&& self.path_pool.wf()
        &&& self.string_pool.spec_cap() == STRING_POOL_CAPACITY
        &&& self.path_pool.spec_cap() == PATH_POOL_CAPACITY
    }

    /// Empty pools.
    pub fn new() -> (state: Self)
        ensures
            state.wf(),
            state.strings() == Map::<u32, Seq<char>>::empty(),
            state.paths() == Map::<u32, Seq<SegmentView>>::empty(),
            state.string_recency() == Seq::<u32>::empty(),
            state.path_recency() == Seq::<u32>::empty(),
    {
        ProducerState {
            path_pool: ValuePool::new(PATH_POOL_CAPACITY),
            string_pool: ValuePool::new(STRING_POOL_CAPACITY),
        }
    }

    /// Begins a transaction.
    pub fn txn(self) -> (txn: ProducerStateTxn)
        requires
            self.wf(),
        ensures
            txn.wf(),
            txn.strings() == self.strings(),
            txn.paths() == self.paths(),
            txn.string_recency() == self.string_recency(),
            txn.path_recency() == self.path_recency(),
            txn.savepoint_valid(txn.initial()),
            txn.saved_strings(txn.initial()) == self.strings(),
            txn.saved_paths(txn.initial()) == self.paths(),
            txn.saved_string_recency(txn.initial()) == self.string_recency(),
            txn.saved_path_recency(txn.initial()) == self.path_recency(),
    {
        let ProducerState { path_pool, string_pool } = self;
        ProducerStateTxn { path_pool: path_pool.txn(), string_pool: string_pool.txn() }
    }

    /// The pooled strings from the most recently to the least recently used.
    pub fn recent_strings(&self) -> (r: Vec<String>)
        requires
            self.wf(),
        ensures
            r@.len() == self.string_recency().len(),
            forall|i: int|
                0 <= i < r@.len() ==> #[trigger] r@[i]@ == self.strings()[self.string_recency()[i]],
    {
        self.string_pool.recent_values()
    }

    /// The pooled paths from the most recently to the least recently used.
    pub fn recent_paths(&self) -> (r: Vec<Path>)
        requires
            self.wf(),
        ensures
            r@.len() == self.path_recency().len(),
            forall|i: int|
                0 <= i < r@.len() ==> #[trigger] r@[i]@ == self.paths()[self.path_recency()[i]],
    {
        self.path_pool.recent_values()
    }
}

impl ProducerStateTxn {
    /// The pooled strings by key.
    pub closed spec fn strings(&self) -> Map<u32, Seq<char>> {
        self.string_pool.map()
    }

    /// The pooled paths by key.
    pub closed spec fn paths(&self) -> Map<u32, Seq<SegmentView>> {
        self.path_pool.map()
    }

    /// The string keys from the most recently to the least recently used.
    pub closed spec fn string_recency(&self) -> Seq<u32> {
        self.string_pool.recency()
    }

    /// The path keys from the most recently to the least recently used.
    pub closed spec fn path_recency(&self) -> Seq<u32> {
        self.path_pool.recency()
    }

    /// The savepoint of the transaction's beginning.
    pub open spec fn initial(&self) -> ProducerStateSavepoint {
        ProducerStateSavepoint {
            strings: PoolSavepoint { log_len: 0, lru: 0 },
            paths: PoolSavepoint { log_len: 0, lru: 0 },
        }
    }

    /// Whether rolling back to `sp` gives consistent pools.
    pub closed spec fn savepoint_valid(&self, sp: ProducerStateSavepoint) -> bool {
        &&& self.string_pool.savepoint_valid(sp.strings)
        &&& self.path_pool.savepoint_valid(sp.paths)
    }

    /// Whether `later` was taken no earlier than `sp`.
    pub closed spec fn not_after(sp: ProducerStateSavepoint, later: ProducerStateSavepoint) -> bool {
        &&& sp.strings.log_len <= later.strings.log_len
        &&& sp.strings.lru <= later.strings.lru
        &&& sp.paths.log_len <= later.paths.log_len
        &&& sp.paths.lru <= later.paths.lru
    }

    /// The pooled strings at `sp`.
    pub closed spec fn saved_strings(&self, sp: ProducerStateSavepoint) -> Map<u32, Seq<char>> {
        self.string_pool.saved_map(sp.strings.log_len as int)
    }

    /// The pooled paths at `sp`.
    pub closed spec fn saved_paths(&self, sp: ProducerStateSavepoint) -> Map<u32, Seq<SegmentView>> {
        self.path_pool.saved_map(sp.paths.log_len as int)
    }

    /// The string recency at `sp`.
    pub closed spec fn saved_string_recency(&self, sp: ProducerStateSavepoint) -> Seq<u32> {
        self.string_pool.saved_recency(sp.strings.lru as int)
    }

    /// The path recency at `sp`.
    pub closed spec fn saved_path_recency(&self, sp: ProducerStateSavepoint) -> Seq<u32> {
        self.path_pool.saved_recency(sp.paths.lru as int)
    }

    /// Whether every savepoint valid in `old` is valid and unchanged in `self`.
    pub open spec fn keeps_savepoints(&self, old: &ProducerStateTxn) -> bool {
        forall|sp: ProducerStateSavepoint|
            old.savepoint_valid(sp) ==> #[trigger] self.savepoint_valid(sp) && self.saved_strings(sp)
                == old.saved_strings(sp) && self.saved_paths(sp) == old.saved_paths(sp)
                && self.saved_string_recency(sp) == old.saved_string_recency(sp)
                && self.saved_path_recency(sp) == old.saved_path_recency(sp)
    }

    /// Law: rolling back to a savepoint restores the pools and recency
    /// orders held when it was taken. The savepoint `sp` was taken at `at`;
    /// `later` followed through any changes that keep the savepoints (each
    /// insertion, savepoint and later rollback does); `after` is what rolling
    /// `later` back to `sp` leaves.
    pub proof fn lemma_savepoint_restores(
        at: &ProducerStateTxn,
        sp: ProducerStateSavepoint,
        later: &ProducerStateTxn,
        after: &ProducerStateTxn,
    )
        requires
            at.savepoint_valid(sp),
            at.saved_strings(sp) == at.strings(),
            at.saved_paths(sp) == at.paths(),
            at.saved_string_recency(sp) == at.string_recency(),
            at.saved_path_recency(sp) == at.path_recency(),
            later.keeps_savepoints(at),
            after.strings() == later.saved_strings(sp),
            after.paths() == later.saved_paths(sp),
            after.string_recency() == later.saved_string_recency(sp),
            after.path_recency() == later.saved_path_recency(sp),
        ensures
            later.savepoint_valid(sp),
            after.strings() == at.strings(),
            after.paths() == at.paths(),
            after.string_recency() == at.string_recency(),
            after.path_recency() == at.path_recency(),
    {
    }

    /// Law: rolling a transaction back restores the state it was begun on.
    /// `start` is the transaction begun on `state`; `later` followed through
    /// any changes that keep the savepoints; `after` is the state that
    /// rolling `later` back leaves.
    pub proof fn lemma_rollback_restores(
        state: &ProducerState,
        start: &ProducerStateTxn,
        later: &ProducerStateTxn,
        after: &ProducerState,
    )
        requires
            start.savepoint_valid(start.initial()),
            start.saved_strings(start.initial()) == state.strings(),
            start.saved_paths(start.initial()) == state.paths(),
            start.saved_string_recency(start.initial()) == state.string_recency(),
            start.saved_path_recency(start.initial()) == state.path_recency(),
            later.keeps_savepoints(start),
            after.strings() == later.saved_strings(later.initial()),
            after.paths() == later.saved_paths(later.initial()),
            after.string_recency() == later.saved_string_recency(later.initial()),
            after.path_recency() == later.saved_path_recency(later.initial()),
        ensures
            later.savepoint_valid(later.initial()),
            after.strings() == state.strings(),
            after.paths() == state.paths(),
            after.string_recency() == state.string_recency(),
            after.path_recency() == state.path_recency(),
    {
        assert(later.initial() == start.initial());
    }

    /// A savepoint is not after itself.
    pub proof fn lemma_not_after_refl(sp: ProducerStateSavepoint)
        ensures
            Self::not_after(sp, sp),
    {
    }

    /// Keeping savepoints is transitive.
    pub proof fn lemma_keeps_trans(a: &ProducerStateTxn, b: &ProducerStateTxn, c: &ProducerStateTxn)
        requires
            b.keeps_savepoints(a),
            c.keeps_savepoints(b),
        ensures
            c.keeps_savepoints(a),
    {
        assert forall|sp: ProducerStateSavepoint| a.savepoint_valid(sp) implies #[trigger] c.savepoint_valid(sp)
            && c.saved_strings(sp) == a.saved_strings(sp) && c.saved_paths(sp) == a.saved_paths(sp)
            && c.saved_string_recency(sp) == a.saved_string_recency(sp)
            && c.saved_path_recency(sp) == a.saved_path_recency(sp) by {
            assert(b.savepoint_valid(sp));
            assert(b.saved_strings(sp) == a.saved_strings(sp));
            assert(c.savepoint_valid(sp));
        }
    }

    /// The transaction's invariant.
    pub closed spec fn wf(&self) -> bool {
        &&& self.string_pool.wf()
        &&& self.path_pool.wf()
        &&& self.string_pool.spec_cap() == STRING_POOL_CAPACITY
        &&& self.path_pool.spec_cap() == PATH_POOL_CAPACITY
    }

    /// The slots allocated in the string pool's bitmap.
    pub closed spec fn string_slots(&self) -> Set<int> {
        self.string_pool.slots()
    }

    /// The slots allocated in the path pool's bitmap.
    pub closed spec fn path_slots(&self) -> Set<int> {
        self.path_pool.slots()
    }

    /// Law: in every well-formed transaction, each pool maps its keys one to
    /// one onto its values (so a value is found under exactly one key), holds
    /// at most its capacity of values under keys below it, has exactly its
    /// keys allocated in its bitmap, and has exactly its keys, each once, in
    /// its recency order.
    pub proof fn lemma_pools_agree(&self)
        requires
            self.wf(),
        ensures
            forall|a: u32, b: u32|
                self.strings().contains_key(a) && self.strings().contains_key(b) && #[trigger] self.strings()[a]
                    == #[trigger] self.strings()[b] ==> a == b,
            forall|a: u32, b: u32|
                self.paths().contains_key(a) && self.paths().contains_key(b) && #[trigger] self.paths()[a]
                    == #[trigger] self.paths()[b] ==> a == b,
            self.strings().dom().len() <= STRING_POOL_CAPACITY,
            self.paths().dom().len() <= PATH_POOL_CAPACITY,
            forall|k: u32| #[trigger] self.strings().contains_key(k) ==> (k as int) < STRING_POOL_CAPACITY,
            forall|k: u32| #[trigger] self.paths().contains_key(k) ==> (k as int) < PATH_POOL_CAPACITY,
            forall|k: u32| #[trigger] self.string_slots().contains(k as int) <==> self.strings().contains_key(k),
            forall|k: u32| #[trigger] self.path_slots().contains(k as int) <==> self.paths().contains_key(k),
            forall|j: int| #[trigger] self.string_slots().contains(j) ==> 0 <= j < STRING_POOL_CAPACITY,
            forall|j: int| #[trigger] self.path_slots().contains(j) ==> 0 <= j < PATH_POOL_CAPACITY,
            self.string_recency().no_duplicates(),
            self.string_recency().to_set() == self.strings().dom(),
            self.path_recency().no_duplicates(),
            self.path_recency().to_set() == self.paths().dom(),
    {
        self.lemma_pools_valid();
        self.string_pool.lemma_slots();
        self.path_pool.lemma_slots();
        self.string_pool.lemma_counts();
        self.path_pool.lemma_counts();
    }

    /// The pools hold each value under one key at most, below their
    /// capacities.
    pub proof fn lemma_pools_valid(&self)
        requires
            self.wf(),
        ensures
            super::pool::valid_map(self.strings(), STRING_POOL_CAPACITY as nat),
            super::pool::valid_map(self.paths(), PATH_POOL_CAPACITY as nat),
            self.string_recency().no_duplicates(),
            self.string_recency().to_set() == self.strings().dom(),
            self.string_recency().len() <= STRING_POOL_CAPACITY,
            self.path_recency().no_duplicates(),
            self.path_recency().to_set() == self.paths().dom(),
            self.path_recency().len() <= PATH_POOL_CAPACITY,
    {
        self.string_pool.lemma_map_valid();
        self.path_pool.lemma_map_valid();
        self.string_pool.lemma_counts();
        self.path_pool.lemma_counts();
    }

    /// Ends the transaction, keeping its changes.
    pub fn commit(self) -> (state: ProducerState)
        requires
            self.wf(),
        ensures
            state.wf(),
            state.strings() == self.strings(),
            state.paths() == self.paths(),
            state.string_recency() == self.string_recency(),
            state.path_recency() == self.path_recency(),
    {
        let ProducerStateTxn { path_pool, string_pool } = self;
        ProducerState { path_pool: path_pool.commit(), string_pool: string_pool.commit() }
    }

    /// Ends the transaction, undoing its changes.
    pub fn rollback(self) -> (state: ProducerState)
        requires
            self.wf(),
            self.savepoint_valid(self.initial()),
        ensures
            state.wf(),
            state.strings() == self.saved_strings(self.initial()),
            state.paths() == self.saved_paths(self.initial()),
            state.string_recency() == self.saved_string_recency(self.initial()),
            state.path_recency() == self.saved_path_recency(self.initial()),
    {
        let ProducerStateTxn { path_pool, string_pool } = self;
        ProducerState { path_pool: path_pool.rollback(), string_pool: string_pool.rollback() }
    }

    /// The key of a pooled path.
    pub fn get_path_key(&self, value: &Path) -> (key: Option<u32>)
        requires
            self.wf(),
        ensures
            match key {
                Some(k) => self.paths().contains_key(k) && self.paths()[k] == value@,
                None => forall|k: u32| #[trigger]
                    self.paths().contains_key(k) ==> self.paths()[k] != value@,
            },
    {
        self.path_pool.get_key(value)
    }

    /// The key of a pooled string.
    pub fn get_string_key(&self, value: &String) -> (key: Option<u32>)
        requires
            self.wf(),
        ensures
            match key {
                Some(k) => self.strings().contains_key(k) && self.strings()[k] == value@,
                None => forall|k: u32| #[trigger]
                    self.strings().contains_key(k) ==> self.strings()[k] != value@,
            },
    {
        self.string_pool.get_key(value)
    }

    /// The current position, to roll back to later.
    pub fn savepoint(&self) -> (sp: ProducerStateSavepoint)
        requires
            self.wf(),
        ensures
            self.savepoint_valid(sp),
            self.saved_strings(sp) == self.strings(),
            self.saved_paths(sp) == self.paths(),
            self.saved_string_recency(sp) == self.string_recency(),
            self.saved_path_recency(sp) == self.path_recency(),
            forall|old_sp: ProducerStateSavepoint|
                self.savepoint_valid(old_sp) ==> #[trigger] Self::not_after(old_sp, sp),
    {
        proof {
            self.string_pool.lemma_saved_current();
            self.path_pool.lemma_saved_current();
            self.string_pool.lemma_savepoint_bounds();
            self.path_pool.lemma_savepoint_bounds();
        }
        ProducerStateSavepoint { strings: self.string_pool.savepoint(), paths: self.path_pool.savepoint() }
    }

    /// Undoes the changes made after `sp`.
    pub fn rollback_to(&mut self, sp: ProducerStateSavepoint)
        requires
            old(self).wf(),
            old(self).savepoint_valid(sp),
        ensures
            final(self).wf(),
            final(self).strings() == old(self).saved_strings(sp),
            final(self).paths() == old(self).saved_paths(sp),
            final(self).string_recency() == old(self).saved_string_recency(sp),
            final(self).path_recency() == old(self).saved_path_recency(sp),
            forall|sp2: ProducerStateSavepoint|
                old(self).savepoint_valid(sp2) && Self::not_after(sp2, sp) ==> #[trigger] final(self).savepoint_valid(sp2) && final(self).saved_strings(sp2) == old(self).saved_strings(
                    sp2,
                ) && final(self).saved_paths(sp2) == old(self).saved_paths(sp2) && final(self).saved_string_recency(sp2) == old(self).saved_string_recency(sp2) && final(self).saved_path_recency(sp2) == old(self).saved_path_recency(sp2),
    {
        self.string_pool.rollback_to(sp.strings);
        self.path_pool.rollback_to(sp.paths);
    }

    /// Pools a string; see [`ValuePoolTxn::insert`].
    pub fn insert_string(&mut self, value: String) -> (result: InsertStringResult)
        requires
            old(self).wf(),
        ensures
            final(self).wf(),
            final(self).keeps_savepoints(old(self)),
            final(self).paths() == old(self).paths(),
            final(self).path_recency() == old(self).path_recency(),
            super::pool::insert_spec(
                old(self).strings(),
                old(self).string_recency(),
                STRING_POOL_CAPACITY as nat,
                value@,
                result,
                final(self).strings(),
                final(self).string_recency(),
            ),
    {
        let r = self.string_pool.insert(value);
        proof {
            old(self).string_pool.lemma_savepoint_bounds();
            old(self).path_pool.lemma_savepoint_bounds();
            assert forall|sp: ProducerStateSavepoint| old(self).savepoint_valid(sp) implies #[trigger] self.savepoint_valid(sp)
                && self.saved_strings(sp) == old(self).saved_strings(sp) && self.saved_paths(sp) == old(self).saved_paths(sp)
                && self.saved_string_recency(sp) == old(self).saved_string_recency(sp)
                && self.saved_path_recency(sp) == old(self).saved_path_recency(sp) by {
                assert(self.string_pool.savepoint_valid(sp.strings));
            }
        }
        r
    }

    /// Pools a path; see [`ValuePoolTxn::insert`].
    pub fn insert_path(&mut self, value: Path) -> (result: InsertPathResult)
        requires
            old(self).wf(),
        ensures
            final(self).wf(),
            final(self).keeps_savepoints(old(self)),
            final(self).strings() == old(self).strings(),
            final(self).string_recency() == old(self).string_recency(),
            super::pool::insert_spec(
                old(self).paths(),
                old(self).path_recency(),
                PATH_POOL_CAPACITY as nat,
                value@,
                result,
                final(self).paths(),
                final(self).path_recency(),
            ),
    {
        let r = self.path_pool.insert(value);
        proof {
            old(self).string_pool.lemma_savepoint_bounds();
            old(self).path_pool.lemma_savepoint_bounds();
            assert forall|sp: ProducerStateSavepoint| old(self).savepoint_valid(sp) implies #[trigger] self.savepoint_valid(sp)
                && self.saved_strings(sp) == old(self).saved_strings(sp) && self.saved_paths(sp) == old(self).saved_paths(sp)
                && self.saved_string_recency(sp) == old(self).saved_string_recency(sp)
                && self.saved_path_recency(sp) == old(self).saved_path_recency(sp) by {
                assert(self.path_pool.savepoint_valid(sp.paths));
            }
        }
        r
    }
}

impl Default for ProducerState {
    fn default() -> (state: Self)
        ensures
            state.wf(),
            state.strings() == Map::<u32, Seq<char>>::empty(),
            state.paths() == Map::<u32, Seq<SegmentView>>::empty(),
            state.string_recency() == Seq::<u32>::empty(),
            state.path_recency() == Seq::<u32>::empty(),
    {
        ProducerState::new()
    }
}

} // verus!
