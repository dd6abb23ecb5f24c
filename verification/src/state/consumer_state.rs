//! The consumer's pools of strings and paths, as defined by received
//! messages.

use std::collections::BTreeMap;
use vstd::prelude::*;

use crate::patch::{Path, SegmentView};

verus! {

/// The values of a pool after setting each `(key, value)` of `patch` in order.
pub open spec fn patched<V>(m: Map<u32, V>, patch: Seq<(u32, V)>) -> Map<u32, V>
    decreases patch.len(),
{
    if patch.len() == 0 {
        m
    } else {
        patched(m, patch.drop_last()).insert(patch.last().0, patch.last().1)
    }
}

/// The strings of a patch, by their views.
pub open spec fn string_patch_view(p: Seq<(u32, String)>) -> Seq<(u32, Seq<char>)> {
    p.map_values(|e: (u32, String)| (e.0, e.1@))
}

/// The paths of a patch, by their views.
pub open spec fn path_patch_view(p: Seq<(u32, Path)>) -> Seq<(u32, Seq<SegmentView>)> {
    p.map_values(|e: (u32, Path)| (e.0, e.1@))
}

/// The consumer's committed pools.
pub struct ConsumerState {
    path_pool: BTreeMap<u32, Path>,
    string_pool: BTreeMap<u32, String>,
}

/// How to undo one change.
pub enum ConsumerStateRollbackEntry {
    StringPoolSet { key: u32, previous: Option<String> },
    PathPoolSet { key: u32, previous_path: Option<Path> },
}

/// The abstract state: strings and paths by key.
pub type PoolsView = (Map<u32, Seq<char>>, Map<u32, Seq<SegmentView>>);

/// Whether undoing `e` on `after` gives `before`.
pub open spec fn consumer_undo_rel(e: ConsumerStateRollbackEntry, after: PoolsView, before: PoolsView) -> bool {
    match e {
        ConsumerStateRollbackEntry::StringPoolSet { key, previous } => {
            &&& before.1 == after.1
            &&& after.0.contains_key(key)
            &&& before.0 == match previous {
                Some(v) => after.0.insert(key, v@),
                None => after.0.remove(key),
            }
        },
        ConsumerStateRollbackEntry::PathPoolSet { key, previous_path } => {
            &&& before.0 == after.0
            &&& after.1.contains_key(key)
            &&& before.1 == match previous_path {
                Some(v) => after.1.insert(key, v@),
                None => after.1.remove(key),
            }
        },
    }
}

/// The consumer's pools under a transaction.
pub struct ConsumerStateTxn {
    string_pool: BTreeMap<u32, String>,
    path_pool: BTreeMap<u32, Path>,
    rollback_log: Vec<ConsumerStateRollbackEntry>,
    states: Ghost<Seq<PoolsView>>,
}

/// A position in a consumer transaction to roll back to.
#[derive(Clone, Copy, Debug, PartialEq, Eq, Structural)]
pub struct ConsumerStateSavepoint {
    pub rollback_log_len: usize,
}

impl ConsumerState {
    /// The strings by key.
    pub closed spec fn strings(&self) -> Map<u32, Seq<char>> {
        self.string_pool@.map_values(|s: String| s@)
    }

    /// The paths by key.
    pub closed spec fn paths(&self) -> Map<u32, Seq<SegmentView>> {
        self.path_pool@.map_values(|p: Path| p@)
    }

    /// Empty pools.
    pub fn new() -> (state: Self)
        ensures
            state.strings() == Map::<u32, Seq<char>>::empty(),
            state.paths() == Map::<u32, Seq<SegmentView>>::empty(),
    {
        let state = ConsumerState { path_pool: BTreeMap::new(), string_pool: BTreeMap::new() };
        proof {
            assert(state.strings() =~= Map::<u32, Seq<char>>::empty());
            assert(state.paths() =~= Map::<u32, Seq<SegmentView>>::empty());
        }
        state
    }

    /// Moves the pools into a transaction without copying them.
    pub fn txn(self) -> (txn: ConsumerStateTxn)
        ensures
            txn.wf(),
            txn.strings() == self.strings(),
            txn.paths() == self.paths(),
            txn.log_len() == 0,
            txn.saved(0) == (self.strings(), self.paths()),
    {
        let ghost st = seq![(self.strings(), self.paths())];
        let ConsumerState { path_pool, string_pool } = self;
        ConsumerStateTxn { string_pool, path_pool, rollback_log: Vec::new(), states: Ghost(st) }
    }
}

impl ConsumerStateTxn {
    /// The strings by key.
    pub closed spec fn strings(&self) -> Map<u32, Seq<char>> {
        self.string_pool@.map_values(|s: String| s@)
    }

    /// The paths by key.
    pub closed spec fn paths(&self) -> Map<u32, Seq<SegmentView>> {
        self.path_pool@.map_values(|p: Path| p@)
    }

    /// The number of logged changes.
    pub closed spec fn log_len(&self) -> nat {
        self.rollback_log@.len()
    }

    /// The pools when the log held `i` changes.
    pub closed spec fn saved(&self, i: int) -> PoolsView {
        self.states@[i]
    }

    /// Whether `self` follows `old` through changes that keep the pools
    /// saved so far.
    pub open spec fn keeps_saved(&self, old: &ConsumerStateTxn) -> bool {
        &&& self.log_len() >= old.log_len()
        &&& forall|i: int| 0 <= i <= old.log_len() ==> #[trigger] self.saved(i) == old.saved(i)
    }

    /// Law: rolling back to a savepoint restores the pools held when it was
    /// taken. The savepoint `sp` was taken at `at`; `later` followed through
    /// any changes that keep the saved pools (each patch does); `after` is
    /// what rolling `later` back to `sp` leaves.
    pub proof fn lemma_savepoint_restores(
        at: &ConsumerStateTxn,
        sp: ConsumerStateSavepoint,
        later: &ConsumerStateTxn,
        after: &ConsumerStateTxn,
    )
        requires
            sp.rollback_log_len == at.log_len(),
            at.saved(sp.rollback_log_len as int) == (at.strings(), at.paths()),
            later.keeps_saved(at),
            (after.strings(), after.paths()) == later.saved(sp.rollback_log_len as int),
        ensures
            sp.rollback_log_len <= later.log_len(),
            after.strings() == at.strings(),
            after.paths() == at.paths(),
    {
        assert(later.saved(sp.rollback_log_len as int) == at.saved(sp.rollback_log_len as int));
    }

    /// Law: rolling a transaction back restores the state it was begun on.
    /// `start` is the transaction begun on `state`; `later` followed through
    /// any changes that keep the saved pools; `after` is the state that
    /// rolling `later` back leaves.
    pub proof fn lemma_rollback_restores(
        state: &ConsumerState,
        start: &ConsumerStateTxn,
        later: &ConsumerStateTxn,
        after: &ConsumerState,
    )
        requires
            start.log_len() == 0,
            start.saved(0) == (state.strings(), state.paths()),
            later.keeps_saved(start),
            (after.strings(), after.paths()) == later.saved(0),
        ensures
            after.strings() == state.strings(),
            after.paths() == state.paths(),
    {
        assert(later.saved(0) == start.saved(0));
    }

    /// The transaction's invariant.
    pub closed spec fn wf(&self) -> bool {
        &&& self.states@.len() == self.rollback_log@.len() + 1
        &&& self.states@.last() == (self.strings(), self.paths())
        &&& forall|i: int|
            0 <= i < self.rollback_log@.len() ==> consumer_undo_rel(
                #[trigger] self.rollback_log@[i],
                self.states@[i + 1],
                self.states@[i],
            )
    }

    /// The string under `key`, if any.
    pub fn get_string(&self, key: u32) -> (s: Option<&String>)
        ensures
            match s {
                Some(v) => self.strings().contains_key(key) && v@ == self.strings()[key],
                None => !self.strings().contains_key(key),
            },
    {
        self.string_pool.get(&key)
    }

    /// The path under `key`, if any.
    pub fn get_path(&self, key: u32) -> (p: Option<&Path>)
        ensures
            match p {
                Some(v) => self.paths().contains_key(key) && v@ == self.paths()[key],
                None => !self.paths().contains_key(key),
            },
    {
        self.path_pool.get(&key)
    }

    /// Sets each `(key, string)` of `patch`, in order.
    pub fn apply_string_pool_patch(&mut self, patch: Vec<(u32, String)>)
        requires
            old(self).wf(),
        ensures
            final(self).wf(),
            final(self).strings() == patched(old(self).strings(), string_patch_view(patch@)),
            final(self).paths() == old(self).paths(),
            final(self).log_len() >= old(self).log_len(),
            forall|i: int| 0 <= i <= old(self).log_len() ==> final(self).saved(i) == old(self).saved(i),
    {
        let mut i: usize = 0;
        while i < patch.len()
            invariant
                self.wf(),
                i <= patch@.len(),
                self.strings() == patched(old(self).strings(), string_patch_view(patch@.take(i as int))),
                self.paths() == old(self).paths(),
                self.log_len() >= old(self).log_len(),
                forall|j: int| 0 <= j <= old(self).log_len() ==> self.saved(j) == old(self).saved(j),
            decreases patch@.len() - i,
        {
            let key = patch[i].0;
            let value = patch[i].1.clone();
            let ghost before = (self.strings(), self.paths());
            let ghost st = self.states@;
            let previous = self.string_pool.insert(key, value);
            let ghost prev_v = previous;
            self.rollback_log.push(ConsumerStateRollbackEntry::StringPoolSet { key, previous });
            proof {
                let after = (self.strings(), self.paths());
                assert(self.strings() =~= before.0.insert(key, patch@[i as int].1@));
                match prev_v {
                    Some(v) => {
                        assert(before.0 =~= after.0.insert(key, v@));
                    },
                    None => {
                        assert(before.0 =~= after.0.remove(key));
                    },
                }
                self.states@ = st.push(after);
                assert(string_patch_view(patch@.take(i + 1)).drop_last() =~= string_patch_view(
                    patch@.take(i as int),
                ));
                assert forall|j: int|
                    0 <= j < self.rollback_log@.len() implies consumer_undo_rel(
                    #[trigger] self.rollback_log@[j],
                    self.states@[j + 1],
                    self.states@[j],
                ) by {
                    if j < self.rollback_log@.len() - 1 {
                        assert(self.states@[j] == st[j]);
                        assert(self.states@[j + 1] == st[j + 1]);
                    }
                }
            }
            i += 1;
        }
        proof {
            assert(patch@.take(patch@.len() as int) =~= patch@);
        }
    }

    /// Sets each `(key, path)` of `patch`, in order.
    pub fn apply_path_pool_patch(&mut self, patch: Vec<(u32, Path)>)
        requires
            old(self).wf(),
        ensures
            final(self).wf(),
            final(self).paths() == patched(old(self).paths(), path_patch_view(patch@)),
            final(self).strings() == old(self).strings(),
            final(self).log_len() >= old(self).log_len(),
            forall|i: int| 0 <= i <= old(self).log_len() ==> final(self).saved(i) == old(self).saved(i),
    {
        let mut i: usize = 0;
        while i < patch.len()
            invariant
                self.wf(),
                i <= patch@.len(),
                self.paths() == patched(old(self).paths(), path_patch_view(patch@.take(i as int))),
                self.strings() == old(self).strings(),
                self.log_len() >= old(self).log_len(),
                forall|j: int| 0 <= j <= old(self).log_len() ==> self.saved(j) == old(self).saved(j),
            decreases patch@.len() - i,
        {
            let key = patch[i].0;
            let value = patch[i].1.duplicate();
            let ghost before = (self.strings(), self.paths());
            let ghost st = self.states@;
            let previous = self.path_pool.insert(key, value);
            let ghost prev_v = previous;
            self.rollback_log.push(ConsumerStateRollbackEntry::PathPoolSet { key, previous_path: previous });
            proof {
                let after = (self.strings(), self.paths());
                assert(self.paths() =~= before.1.insert(key, patch@[i as int].1@));
                match prev_v {
                    Some(v) => {
                        assert(before.1 =~= after.1.insert(key, v@));
                    },
                    None => {
                        assert(before.1 =~= after.1.remove(key));
                    },
                }
                self.states@ = st.push(after);
                assert(path_patch_view(patch@.take(i + 1)).drop_last() =~= path_patch_view(
                    patch@.take(i as int),
                ));
                assert forall|j: int|
                    0 <= j < self.rollback_log@.len() implies consumer_undo_rel(
                    #[trigger] self.rollback_log@[j],
                    self.states@[j + 1],
                    self.states@[j],
                ) by {
                    if j < self.rollback_log@.len() - 1 {
                        assert(self.states@[j] == st[j]);
                        assert(self.states@[j + 1] == st[j + 1]);
                    }
                }
            }
            i += 1;
        }
        proof {
            assert(patch@.take(patch@.len() as int) =~= patch@);
        }
    }

    /// The current position, to roll back to later.
    pub fn savepoint(&self) -> (sp: ConsumerStateSavepoint)
        requires
            self.wf(),
        ensures
            sp.rollback_log_len == self.log_len(),
            self.saved(sp.rollback_log_len as int) == (self.strings(), self.paths()),
    {
        ConsumerStateSavepoint { rollback_log_len: self.rollback_log.len() }
    }

    /// Undoes the changes made after `savepoint`.
    pub fn rollback_to(&mut self, savepoint: ConsumerStateSavepoint)
        requires
            old(self).wf(),
            savepoint.rollback_log_len <= old(self).log_len(),
        ensures
            final(self).wf(),
            final(self).log_len() == savepoint.rollback_log_len,
            (final(self).strings(), final(self).paths()) == old(self).saved(
                savepoint.rollback_log_len as int,
            ),
            forall|i: int|
                0 <= i <= savepoint.rollback_log_len ==> final(self).saved(i) == old(self).saved(i),
    {
        while self.rollback_log.len() > savepoint.rollback_log_len
            invariant
                self.wf(),
                savepoint.rollback_log_len <= self.log_len() <= old(self).log_len(),
                forall|i: int| 0 <= i <= self.log_len() ==> self.saved(i) == old(self).saved(i),
            decreases self.rollback_log@.len(),
        {
            let ghost n = self.rollback_log@.len() - 1;
            let ghost st = self.states@;
            proof {
                assert(consumer_undo_rel(self.rollback_log@[n], st[n + 1], st[n]));
            }
            let entry = self.rollback_log.pop().unwrap();
            match entry {
                ConsumerStateRollbackEntry::StringPoolSet { key, previous } => match previous {
                    Some(value) => {
                        self.string_pool.insert(key, value);
                    },
                    None => {
                        self.string_pool.remove(&key);
                    },
                },
                ConsumerStateRollbackEntry::PathPoolSet { key, previous_path } => match previous_path {
                    Some(value) => {
                        self.path_pool.insert(key, value);
                    },
                    None => {
                        self.path_pool.remove(&key);
                    },
                },
            }
            proof {
                assert(self.strings() =~= st[n].0);
                assert(self.paths() =~= st[n].1);
                self.states@ = st.take(n + 1);
            }
        }
    }

    /// Ends the transaction, keeping its changes.
    pub fn commit(self) -> (state: ConsumerState)
        ensures
            state.strings() == self.strings(),
            state.paths() == self.paths(),
    {
        let ConsumerStateTxn { string_pool, path_pool, rollback_log: _, states: _ } = self;
        ConsumerState { string_pool, path_pool }
    }

    /// Ends the transaction, undoing its changes.
    pub fn rollback(self) -> (state: ConsumerState)
        requires
            self.wf(),
        ensures
            (state.strings(), state.paths()) == self.saved(0),
    {
        let mut txn = self;
        txn.rollback_to(ConsumerStateSavepoint { rollback_log_len: 0 });
        txn.commit()
    }
}

} // verus!
