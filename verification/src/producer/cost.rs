//! The exact encoded length of a growing list of actions.

use vstd::prelude::*;

use crate::error::Result;
use crate::message::packed::decoder::actions_view;
use crate::message::packed::encoder::{
    action_paths_valid, encode_message, packable, packing, packs, values_fit,
};
use crate::message::packed::format::fits;
use crate::message::packed::frame::action_value;
use crate::patch::{Action, ActionView, SegmentView};
use crate::protocol::consts::DEFAULT_ACTIONS_LIMIT;
use crate::state::producer_state::{ProducerStateSavepoint, ProducerStateTxn};

verus! {

/// Whether the value an action carries, if any, can be encoded.
pub open spec fn action_fits(a: ActionView) -> bool {
    match action_value(a) {
        Some(v) => fits(v),
        None => true,
    }
}

/// At most as many actions as a message holds, all of them snapshots: such
/// actions always encode.
pub open spec fn only_snapshots(acts: Seq<ActionView>) -> bool {
    &&& acts.len() <= crate::protocol::consts::DEFAULT_ACTIONS_LIMIT
    &&& forall|i: int| 0 <= i < acts.len() ==> #[trigger] acts[i] is Snapshot
}

/// Actions that no message holds: too many of them, or one whose paths are
/// beyond the limits of a definition.
pub open spec fn unpackable(acts: Seq<ActionView>) -> bool {
    ||| acts.len() > DEFAULT_ACTIONS_LIMIT
    ||| exists|i: int| 0 <= i < acts.len() && !action_paths_valid(#[trigger] acts[i])
}

/// The length of the message that packs `acts` against the pools `base`
/// (string pool, path pool and their recency orders), declaring nothing.
pub open spec fn packed_len(
    acts: Seq<ActionView>,
    base: (Map<u32, Seq<char>>, Map<u32, Seq<SegmentView>>, Seq<u32>, Seq<u32>),
) -> nat {
    packing(None, acts, base.0, base.2, base.1, base.3).len()
}

/// Law: a cost session measures what encoding gives. The length that
/// [`CostSession::encoded_len`] returns for the selected actions `acts` over
/// the pools `base` (string pool, path pool and their recency orders) is
/// the length of the bytes that `Message::encode` gives for a message of
/// the same actions, on a transaction over the same pools.
pub proof fn lemma_measured_is_encoded(
    acts: Seq<ActionView>,
    base: (Map<u32, Seq<char>>, Map<u32, Seq<SegmentView>>, Seq<u32>, Seq<u32>),
    measured: nat,
    encoded: Seq<u8>,
)
    requires
        measured == packed_len(acts, base),
        encoded == packing(None, acts, base.0, base.2, base.1, base.3),
    ensures
        measured == encoded.len(),
{
}

/// Whether `acts` pack against the pools `base` (string pool, path pool and
/// their recency orders).
pub open spec fn packs_on(
    acts: Seq<ActionView>,
    base: (Map<u32, Seq<char>>, Map<u32, Seq<SegmentView>>, Seq<u32>, Seq<u32>),
) -> bool {
    packs(acts, base.0, base.2, base.1, base.3)
}

/// Adding an action whose value fits keeps the values fitting.
pub proof fn lemma_values_fit_push(acts: Seq<ActionView>, a: ActionView)
    requires
        values_fit(acts),
        action_fits(a),
    ensures
        values_fit(acts.push(a)),
{
    assert forall|i: int| 0 <= i < acts.push(a).len() implies match action_value(
        #[trigger] acts.push(a)[i],
    ) {
        Some(v) => fits(v),
        None => true,
    } by {
        if i < acts.len() {
            assert(acts.push(a)[i] == acts[i]);
        }
    }
}

/// The actions selected so far. Each length is measured by encoding against
/// the producer's pools, which are rolled back afterwards: the pools stay as
/// they were when the session began.
pub struct CostSession {
    start: ProducerStateSavepoint,
    actions: Vec<Action>,
    base_strings: Ghost<Map<u32, Seq<char>>>,
    base_paths: Ghost<Map<u32, Seq<SegmentView>>>,
    base_string_recency: Ghost<Seq<u32>>,
    base_path_recency: Ghost<Seq<u32>>,
}

impl CostSession {
    /// The actions selected so far.
    pub closed spec fn acts(&self) -> Seq<ActionView> {
        actions_view(self.actions@)
    }

    /// The session's invariant over the transaction it measures with: the
    /// pools are those at the session's beginning.
    pub closed spec fn inv(&self, txn: ProducerStateTxn) -> bool {
        &&& txn.wf()
        &&& txn.savepoint_valid(self.start)
        &&& txn.saved_strings(self.start) == self.base_strings@
        &&& txn.saved_paths(self.start) == self.base_paths@
        &&& txn.saved_string_recency(self.start) == self.base_string_recency@
        &&& txn.saved_path_recency(self.start) == self.base_path_recency@
        &&& txn.strings() == self.base_strings@
        &&& txn.paths() == self.base_paths@
        &&& txn.string_recency() == self.base_string_recency@
        &&& txn.path_recency() == self.base_path_recency@
        &&& values_fit(self.acts())
    }

    /// Whether each prefix of the selected actions packs against the pools
    /// at the session's beginning.
    pub open spec fn prefixes_pack(&self) -> bool {
        forall|k: int| 0 <= k <= self.acts().len() ==> #[trigger] packs_on(self.acts().take(k), self.base())
    }

    /// The pools at the session's beginning.
    pub closed spec fn base(&self) -> (
        Map<u32, Seq<char>>,
        Map<u32, Seq<SegmentView>>,
        Seq<u32>,
        Seq<u32>,
    ) {
        (self.base_strings@, self.base_paths@, self.base_string_recency@, self.base_path_recency@)
    }

    /// Under the invariant the transaction is well formed, its pools are
    /// those at the session's beginning, and the selected actions' values
    /// can be encoded.
    pub proof fn lemma_inv(&self, txn: ProducerStateTxn)
        requires
            self.inv(txn),
        ensures
            txn.wf(),
            (txn.strings(), txn.paths(), txn.string_recency(), txn.path_recency()) == self.base(),
            values_fit(self.acts()),
    {
    }

    /// A session with no action, over the pools of `txn`.
    pub fn new(txn: &ProducerStateTxn) -> (s: Self)
        requires
            txn.wf(),
        ensures
            s.inv(*txn),
            s.acts() == Seq::<ActionView>::empty(),
            s.prefixes_pack(),
            s.base() == (txn.strings(), txn.paths(), txn.string_recency(), txn.path_recency()),
    {
        let start = txn.savepoint();
        let s = CostSession {
            start,
            actions: Vec::new(),
            base_strings: Ghost(txn.strings()),
            base_paths: Ghost(txn.paths()),
            base_string_recency: Ghost(txn.string_recency()),
            base_path_recency: Ghost(txn.path_recency()),
        };
        proof {
            assert(s.acts() =~= Seq::<ActionView>::empty());
            assert forall|k: int| 0 <= k <= s.acts().len() implies #[trigger] packs_on(s.acts().take(k), s.base()) by {
                assert(s.acts().take(k) =~= Seq::<ActionView>::empty());
            }
        }
        s
    }

    /// The encoded length of the selected actions, or the error that
    /// encoding them gives.
    pub fn encoded_len(&self, txn: &mut ProducerStateTxn) -> (r: Result<usize>)
        requires
            self.inv(*old(txn)),
        ensures
            self.inv(*final(txn)),
            match r {
                Ok(n) => n == packed_len(self.acts(), self.base()),
                Err(e) => e.spec_kind() == crate::error::ErrorKind::InvalidData,
            },
            unpackable(self.acts()) ==> r is Err,
            only_snapshots(self.acts()) ==> r is Ok,
            packable(self.acts()) ==> r is Ok,
            r is Ok <==> packs_on(self.acts(), self.base()),
    {
        let ghost before = *txn;
        proof {
            if only_snapshots(self.acts()) {
                assert forall|i: int| 0 <= i < self.actions@.len() implies #[trigger] self.actions@[i]@ is Snapshot by {
                    assert(self.acts()[i] == self.actions@[i]@);
                }
            }
        }
        proof {
            if unpackable(self.acts()) && self.actions@.len() <= DEFAULT_ACTIONS_LIMIT {
                let i = choose|i: int|
                    0 <= i < self.acts().len() && !action_paths_valid(#[trigger] self.acts()[i]);
                assert(self.acts()[i] == self.actions@[i]@);
            }
        }
        let result = encode_message(&self.actions, None, txn);
        let ghost mid = *txn;
        proof {
            ProducerStateTxn::lemma_not_after_refl(self.start);
            assert(before.savepoint_valid(self.start));
            assert(mid.savepoint_valid(self.start));
        }
        txn.rollback_to(self.start);
        proof {
            assert(txn.savepoint_valid(self.start));
        }
        match result {
            Ok(bytes) => Ok(bytes.len()),
            Err(e) => Err(e),
        }
    }

    /// The encoded length of the selected actions followed by `action`.
    pub fn encoded_len_with(&mut self, txn: &mut ProducerStateTxn, action: &Action) -> (r: Result<usize>)
        requires
            old(self).inv(*old(txn)),
            action_fits(action@),
        ensures
            final(self).inv(*final(txn)),
            final(self).acts() == old(self).acts(),
            final(self).base() == old(self).base(),
            match r {
                Ok(n) => n == packed_len(old(self).acts().push(action@), old(self).base()),
                Err(e) => e.spec_kind() == crate::error::ErrorKind::InvalidData,
            },
            unpackable(old(self).acts().push(action@)) ==> r is Err,
            only_snapshots(old(self).acts().push(action@)) ==> r is Ok,
            packable(old(self).acts().push(action@)) ==> r is Ok,
            r is Ok <==> packs_on(old(self).acts().push(action@), old(self).base()),
    {
        let ghost before = self.acts();
        self.actions.push(action.duplicate());
        proof {
            assert(self.acts() =~= before.push(action@));
            lemma_values_fit_push(before, action@);
        }
        let r = self.encoded_len(txn);
        self.actions.pop();
        proof {
            assert(self.acts() =~= before);
        }
        r
    }

    /// Selects `action` when the actions with it can be encoded; otherwise
    /// the selection stays as it was and the encoding error is returned.
    pub fn append(&mut self, txn: &mut ProducerStateTxn, action: Action) -> (r: Result<()>)
        requires
            old(self).inv(*old(txn)),
            action_fits(action@),
        ensures
            final(self).inv(*final(txn)),
            final(self).base() == old(self).base(),
            match r {
                Ok(()) => final(self).acts() == old(self).acts().push(action@),
                Err(e) => final(self).acts() == old(self).acts() && e.spec_kind()
                    == crate::error::ErrorKind::InvalidData,
            },
            only_snapshots(old(self).acts().push(action@)) ==> r is Ok,
            packable(old(self).acts().push(action@)) ==> r is Ok,
            r is Ok <==> packs_on(old(self).acts().push(action@), old(self).base()),
            old(self).prefixes_pack() ==> final(self).prefixes_pack(),
    {
        let ghost before = self.acts();
        let ghost a = action@;
        self.actions.push(action);
        proof {
            assert(self.acts() =~= before.push(a));
            lemma_values_fit_push(before, a);
        }
        match self.encoded_len(txn) {
            Ok(_) => {
                proof {
                    if old(self).prefixes_pack() {
                        assert forall|k: int| 0 <= k <= self.acts().len() implies #[trigger] packs_on(
                            self.acts().take(k),
                            self.base(),
                        ) by {
                            if k < self.acts().len() {
                                assert(self.acts().take(k) =~= before.take(k));
                                assert(packs_on(before.take(k), old(self).base()));
                            } else {
                                assert(self.acts().take(k) =~= self.acts());
                            }
                        }
                    }
                }
                Ok(())
            },
            Err(e) => {
                self.actions.pop();
                proof {
                    assert(self.acts() =~= before);
                }
                Err(e)
            },
        }
    }

    /// The selected actions.
    pub fn into_actions(self) -> (r: Vec<Action>)
        ensures
            actions_view(r@) == self.acts(),
    {
        self.actions
    }
}

} // verus!
