//! Transactions over a [`Lru`]: every change is logged so that it can be
//! undone back to any savepoint.

use vstd::prelude::*;

use super::lru::{Lru, LruEntry, at_slot, key_seq, prev_slot, slot_seq, valid_list};

verus! {

/// What a [`LruTxn::put`] did.
#[derive(Clone, Copy, Debug, PartialEq, Eq, Structural)]
pub enum LruPutResult {
    /// The key was new and a free slot took it.
    Inserted,
    /// The key was present and became the most recent.
    Updated,
    /// The list was full: `key`, the least recent, was evicted.
    Evicted { key: u32 },
}

/// How to undo one change.
pub enum LruRollbackEntry {
    /// Remove the entry of `key`, which a put placed at the front.
    Remove { key: u32 },
    /// Restore the entry of `key` into slot `at` between `prev` and `next`.
    Put { key: u32, prev: usize, next: usize, at: usize },
}

/// Whether undoing `e` on the list `after` gives the list `before`.
pub open spec fn undo_rel(
    e: LruRollbackEntry,
    after: Seq<(usize, u32)>,
    before: Seq<(usize, u32)>,
) -> bool {
    match e {
        LruRollbackEntry::Remove { key } => {
            &&& after.len() > 0
            &&& after[0].1 == key
            &&& before == after.drop_first()
        },
        LruRollbackEntry::Put { key, prev, next, at } => exists|p: int|
            0 <= p <= after.len() && before == after.insert(p, (at, key)) && prev == prev_slot(
                after,
                p,
            ) && next == at_slot(after, p),
    }
}

/// The keys after putting `key` into a list of `keys` bounded by `cap`.
pub open spec fn put_keys(keys: Seq<u32>, key: u32, cap: nat) -> Seq<u32> {
    if keys.contains(key) {
        seq![key] + keys.remove(keys.index_of(key))
    } else if keys.len() == cap {
        seq![key] + keys.drop_last()
    } else {
        seq![key] + keys
    }
}

/// What putting `key` into a list of `keys` bounded by `cap` reports.
pub open spec fn put_result(keys: Seq<u32>, key: u32, cap: nat) -> LruPutResult {
    if keys.contains(key) {
        LruPutResult::Updated
    } else if keys.len() == cap {
        LruPutResult::Evicted { key: keys.last() }
    } else {
        LruPutResult::Inserted
    }
}

/// A [`Lru`] under a transaction.
pub struct LruTxn {
    lru: Lru,
    rollback_log: Vec<LruRollbackEntry>,
    states: Ghost<Seq<Seq<(usize, u32)>>>,
}

proof fn lemma_insert_fresh<A>(s: Seq<A>, p: int, x: A)
    requires
        0 <= p <= s.len(),
        s.insert(p, x).no_duplicates(),
    ensures
        !s.contains(x),
{
    if s.contains(x) {
        let i = choose|i: int| 0 <= i < s.len() && s[i] == x;
        let j = if i < p { i } else { i + 1 };
        assert(s.insert(p, x)[j] == x);
        assert(s.insert(p, x)[p] == x);
    }
}

impl LruTxn {
    /// The entries now.
    pub closed spec fn current(&self) -> Seq<(usize, u32)> {
        self.lru.list()
    }

    /// The keys now, from the most recent to the least recent.
    pub open spec fn keys(&self) -> Seq<u32> {
        key_seq(self.current())
    }

    /// The number of logged changes.
    pub closed spec fn log_len(&self) -> nat {
        self.rollback_log@.len()
    }

    /// The entries when the log held `i` changes.
    pub closed spec fn saved(&self, i: int) -> Seq<(usize, u32)> {
        self.states@[i]
    }

    /// The capacity.
    pub closed spec fn spec_cap(&self) -> nat {
        self.lru.spec_cap()
    }

    /// The number of arena slots ever used.
    pub closed spec fn arena_len(&self) -> nat {
        self.lru.arena_len()
    }

    /// The transaction's invariant.
    pub closed spec fn wf(&self) -> bool {
        let st = self.states@;
        let log = self.rollback_log@;
        &&& self.lru.wf()
        &&& st.len() == log.len() + 1
        &&& st.last() == self.lru.list()
        &&& forall|i: int| 0 <= i < log.len() ==> undo_rel(#[trigger] log[i], st[i + 1], st[i])
        &&& forall|i: int|
            0 <= i < st.len() ==> valid_list(#[trigger] st[i], self.lru.arena_len())
                && st[i].len() <= self.lru.spec_cap()
    }

    /// The current entries are the last saved ones.
    pub proof fn lemma_wf(&self)
        requires
            self.wf(),
        ensures
            self.saved(self.log_len() as int) == self.current(),
            valid_list(self.current(), self.arena_len()),
            self.current().len() <= self.spec_cap(),
    {
        self.lru.lemma_valid();
    }

    /// Begins a transaction on `lru`.
    pub fn new(lru: Lru) -> (txn: Self)
        requires
            lru.wf(),
        ensures
            txn.wf(),
            txn.log_len() == 0,
            txn.current() == lru.list(),
            txn.saved(0) == lru.list(),
            txn.spec_cap() == lru.spec_cap(),
    {
        proof {
            lru.lemma_valid();
        }
        let ghost st = seq![lru.list()];
        LruTxn { lru, rollback_log: Vec::new(), states: Ghost(st) }
    }

    /// The list under the transaction.
    pub fn lru(&self) -> (lru: &Lru)
        ensures
            lru.list() == self.current(),
            self.wf() ==> lru.wf(),
            lru.spec_cap() == self.spec_cap(),
    {
        &self.lru
    }

    /// Makes `key` the most recent key, evicting the least recent one when
    /// the list is full.
    pub fn put(&mut self, key: u32) -> (result: LruPutResult)
        requires
            old(self).wf(),
            old(self).spec_cap() > 0,
        ensures
            final(self).wf(),
            final(self).spec_cap() == old(self).spec_cap(),
            final(self).keys() == put_keys(old(self).keys(), key, old(self).spec_cap()),
            result == put_result(old(self).keys(), key, old(self).spec_cap()),
            final(self).log_len() > old(self).log_len(),
            forall|i: int| 0 <= i <= old(self).log_len() ==> final(self).saved(i) == old(self).saved(i),
    {
        let ghost l0 = self.lru.list();
        let ghost st0 = self.states@;
        proof {
            self.lru.lemma_valid();
        }
        let result = match self.lru.get(key) {
            Some(at) => {
                let ghost p = choose|p: int| 0 <= p < l0.len() && l0[p] == (at, key);
                let entry = self.lru.remove_at(at, Ghost(p));
                self.rollback_log.push(
                    LruRollbackEntry::Put { key: entry.key, prev: entry.prev, next: entry.next, at },
                );
                proof {
                    self.states@ = self.states@.push(self.lru.list());
                    assert(l0.remove(p).insert(p, (at, key)) =~= l0);
                    assert(prev_slot(self.lru.list(), p) == prev_slot(l0, p));
                    assert(at_slot(self.lru.list(), p) == at_slot(l0, p + 1));
                    assert(self.lru.list().insert(p, (at, l0[p].1)) == l0);
                    assert(undo_rel(self.rollback_log@.last(), self.lru.list(), l0));
                    self.lru.lemma_valid();
                    assert(key_seq(l0)[p] == key);
                    assert(key_seq(l0).index_of(key) == p) by {
                        key_seq(l0).index_of_first(key);
                        assert(key_seq(l0).contains(key));
                        let q = key_seq(l0).index_of(key);
                        assert(key_seq(l0)[q] == key);
                    }
                    assert(key_seq(self.lru.list()) =~= key_seq(l0).remove(p));
                }
                LruPutResult::Updated
            },
            None => {
                if self.lru.len() == self.lru.cap() {
                    let ghost p = l0.len() - 1;
                    let at = self.lru.tail_slot();
                    let entry = self.lru.remove_at(at, Ghost(p));
                    let evicted_key = entry.key;
                    self.rollback_log.push(
                        LruRollbackEntry::Put {
                            key: entry.key,
                            prev: entry.prev,
                            next: entry.next,
                            at,
                        },
                    );
                    proof {
                        self.states@ = self.states@.push(self.lru.list());
                        assert(l0.remove(p).insert(p, l0[p]) =~= l0);
                        assert(prev_slot(self.lru.list(), p) == prev_slot(l0, p));
                        assert(at_slot(self.lru.list(), p) == at_slot(l0, p + 1));
                        assert(self.lru.list().insert(p, (at, l0[p].1)) == l0);
                        assert(undo_rel(self.rollback_log@.last(), self.lru.list(), l0));
                        self.lru.lemma_valid();
                        assert(key_seq(self.lru.list()) =~= key_seq(l0).drop_last());
                    }
                    LruPutResult::Evicted { key: evicted_key }
                } else {
                    LruPutResult::Inserted
                }
            },
        };
        let ghost l1 = self.lru.list();
        let ghost alen1 = self.lru.arena_len();
        proof {
            self.lru.lemma_valid();
            assert(!key_seq(l1).contains(key)) by {
                if key_seq(l1).contains(key) {
                    let i = choose|i: int| 0 <= i < l1.len() && key_seq(l1)[i] == key;
                    if key_seq(l0).contains(key) {
                        let p = choose|p: int| 0 <= p < l0.len() && l0[p].1 == key;
                        assert(key_seq(l0)[p] == key);
                        let j = if i < p { i } else { i + 1 };
                        assert(key_seq(l0)[j] == key);
                    } else {
                        let j = i;
                        assert(key_seq(l0)[j] == key);
                    }
                }
            }
        }
        self.lru.insert_at_head(key);
        self.rollback_log.push(LruRollbackEntry::Remove { key });
        proof {
            let l2 = self.lru.list();
            self.states@ = self.states@.push(l2);
            assert(l2.drop_first() =~= l1);
            self.lru.lemma_valid();
            assert forall|i: int| 0 <= i < self.states@.len() implies valid_list(
                #[trigger] self.states@[i],
                self.lru.arena_len(),
            ) && self.states@[i].len() <= self.lru.spec_cap() by {
                if i < st0.len() {
                    assert(self.states@[i] == st0[i]);
                    assert(valid_list(st0[i], old(self).lru.arena_len()));
                } else if i < self.states@.len() - 1 {
                    assert(self.states@[i] == l1);
                    assert(valid_list(l1, alen1));
                }
            }
            assert forall|i: int| 0 <= i < self.rollback_log@.len() implies undo_rel(
                #[trigger] self.rollback_log@[i],
                self.states@[i + 1],
                self.states@[i],
            ) by {
                if i < old(self).rollback_log@.len() {
                    assert(self.rollback_log@[i] == old(self).rollback_log@[i]);
                    assert(self.states@[i] == st0[i]);
                    assert(self.states@[i + 1] == st0[i + 1]);
                } else if i < self.rollback_log@.len() - 1 {
                    assert(self.states@[i] == l0);
                    assert(self.states@[i + 1] == l1);
                }
            }
            assert(key_seq(l2) =~= seq![key] + key_seq(l1));
        }
        result
    }

    /// The current log length, to roll back to later.
    pub fn savepoint(&self) -> (sp: usize)
        ensures
            sp == self.log_len(),
    {
        self.rollback_log.len()
    }

    /// Undoes the changes logged after `savepoint`.
    pub fn rollback_to(&mut self, savepoint: usize)
        requires
            old(self).wf(),
            savepoint <= old(self).log_len(),
        ensures
            final(self).wf(),
            final(self).spec_cap() == old(self).spec_cap(),
            final(self).log_len() == savepoint,
            final(self).current() == old(self).saved(savepoint as int),
            forall|i: int| 0 <= i <= savepoint ==> final(self).saved(i) == old(self).saved(i),
    {
        while self.rollback_log.len() > savepoint
            invariant
                self.wf(),
                self.spec_cap() == old(self).spec_cap(),
                savepoint <= self.log_len() <= old(self).log_len(),
                forall|i: int| 0 <= i <= self.log_len() ==> self.saved(i) == old(self).saved(i),
            decreases self.rollback_log@.len(),
        {
            self.undo_last();
        }
    }

    /// Undoes the last logged change.
    fn undo_last(&mut self)
        requires
            old(self).wf(),
            old(self).log_len() > 0,
        ensures
            final(self).wf(),
            final(self).spec_cap() == old(self).spec_cap(),
            final(self).log_len() == old(self).log_len() - 1,
            forall|i: int| 0 <= i <= final(self).log_len() ==> final(self).saved(i) == old(self).saved(i),
    {
        let ghost n = self.rollback_log@.len() - 1;
        let ghost st = self.states@;
        let ghost old_alen = self.lru.arena_len();
        proof {
            assert(undo_rel(self.rollback_log@[n], st[n + 1], st[n]));
            assert(valid_list(st[n], old_alen));
        }
        let entry = self.rollback_log.pop().unwrap();
        match entry {
            LruRollbackEntry::Remove { key } => {
                proof {
                    assert(key_seq(st[n + 1])[0] == key);
                    assert(key_seq(st[n + 1]).contains(key));
                }
                let at = self.lru.get(key).expect("rollback key must be present in the LRU");
                proof {
                    let l = st[n + 1];
                    let i = choose|i: int| 0 <= i < l.len() && l[i] == (at, key);
                    assert(key_seq(l)[i] == key_seq(l)[0]);
                    assert(i == 0);
                }
                self.lru.remove_at(at, Ghost(0));
            },
            LruRollbackEntry::Put { key, prev, next, at } => {
                let ghost after = st[n + 1];
                let ghost p = choose|p: int|
                    0 <= p <= after.len() && st[n] == after.insert(p, (at, key)) && prev
                        == prev_slot(after, p) && next == at_slot(after, p);
                proof {
                    assert(st[n][p] == (at, key));
                    assert(slot_seq(st[n]) =~= slot_seq(after).insert(p, at as int));
                    assert(key_seq(st[n]) =~= key_seq(after).insert(p, key));
                    lemma_insert_fresh(slot_seq(after), p, at as int);
                    lemma_insert_fresh(key_seq(after), p, key);
                }
                self.lru.restore_at(at, LruEntry { key, prev, next }, Ghost(p));
            },
        }
        proof {
            self.states@ = st.take(n + 1);
            assert(self.states@.last() == st[n]);
        }
    }

    /// Ends the transaction, keeping its changes.
    pub fn commit(self) -> (lru: Lru)
        requires
            self.wf(),
        ensures
            lru.wf(),
            lru.list() == self.current(),
            lru.spec_cap() == self.spec_cap(),
    {
        let LruTxn { lru, rollback_log: _, states: _ } = self;
        lru
    }

    /// Ends the transaction, undoing its changes.
    pub fn rollback(self) -> (lru: Lru)
        requires
            self.wf(),
        ensures
            lru.wf(),
            lru.list() == self.saved(0),
            lru.spec_cap() == self.spec_cap(),
    {
        let mut txn = self;
        txn.rollback_to(0);
        txn.commit()
    }
}

} // verus!
