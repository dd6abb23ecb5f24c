//! Messages: a list of actions, and their packed form.

pub mod packed;

use vstd::prelude::*;

use crate::error::{ErrorKind, Result};
use crate::patch::{Action, ActionView, SegmentView};
use crate::state::consumer_state::ConsumerStateTxn;
use crate::state::producer_state::ProducerStateTxn;
use packed::decoder::{actions_view, decode_message};
use packed::encoder::{encode_message, packing, paths_prepared, strings_prepared, values_fit};
use packed::frame::{actions_ready, dec_message, enc_message, prepared};

verus! {

/// A packed message: the bytes that travel.
pub struct PackedMessage {
    inner: Vec<u8>,
}

impl View for PackedMessage {
    type V = Seq<u8>;

    closed spec fn view(&self) -> Seq<u8> {
        self.inner@
    }
}

impl PackedMessage {
    /// A packed message holding a copy of `bytes`.
    pub fn from_bytes(bytes: &[u8]) -> (m: Self)
        ensures
            m@ == bytes@,
    {
        PackedMessage { inner: vstd::slice::slice_to_vec(bytes) }
    }

    /// A packed message holding `bytes`.
    pub fn from_vec(bytes: Vec<u8>) -> (m: Self)
        ensures
            m@ == bytes@,
    {
        PackedMessage { inner: bytes }
    }

    /// The bytes.
    pub fn bytes(&self) -> (b: &[u8])
        ensures
            b@ == self@,
    {
        self.inner.as_slice()
    }
}

/// A structured message: the actions it carries, in order.
#[derive(Debug, PartialEq)]
pub struct Message {
    actions: Vec<Action>,
}

impl View for Message {
    type V = Seq<ActionView>;

    closed spec fn view(&self) -> Seq<ActionView> {
        actions_view(self.actions@)
    }
}

impl Message {
    /// The message carrying `actions`.
    pub fn new(actions: Vec<Action>) -> (m: Self)
        ensures
            m@ == actions_view(actions@),
    {
        Message { actions }
    }

    /// The actions.
    pub fn actions(&self) -> (a: &[Action])
        ensures
            actions_view(a@) == self@,
    {
        self.actions.as_slice()
    }

    /// The actions, taken out of the message.
    pub fn into_actions(self) -> (a: Vec<Action>)
        ensures
            actions_view(a@) == self@,
    {
        self.actions
    }

    /// Reads a packed message against the consumer's pools. Successful
    /// changes stay in the transaction; on failure its pools are as they
    /// were. The message is read as one after a stream's first, so a
    /// protocol declaration is refused: a [`Consumer`](crate::consumer::Consumer)
    /// reads the first one.
    pub fn decode(packed: PackedMessage, state_txn: &mut ConsumerStateTxn) -> (r: Result<Message>)
        requires
            old(state_txn).wf(),
        ensures
            final(state_txn).wf(),
            forall|i: int|
                0 <= i <= old(state_txn).log_len() ==> final(state_txn).saved(i) == old(state_txn).saved(i),
            match dec_message(packed@, false, old(state_txn).strings(), old(state_txn).paths()) {
                Some((acts, s2, q2)) => {
                    &&& r matches Ok(m) && m@ == acts
                    &&& final(state_txn).strings() == s2
                    &&& final(state_txn).paths() == q2
                    &&& final(state_txn).log_len() >= old(state_txn).log_len()
                },
                None => {
                    &&& r matches Err(err) && err.spec_kind() == ErrorKind::InvalidData
                    &&& final(state_txn).strings() == old(state_txn).strings()
                    &&& final(state_txn).paths() == old(state_txn).paths()
                    &&& final(state_txn).log_len() == old(state_txn).log_len()
                },
            },
    {
        let actions = decode_message(packed.bytes(), false, state_txn)?;
        Ok(Message { actions })
    }

    /// Packs the message against the producer's pools: the pools are
    /// prepared, then the metadata defining their new entries and the
    /// actions are written. On failure the pools are as they were. No
    /// protocol is declared: a [`Producer`](crate::producer::Producer)
    /// declares it in a stream's first message.
    pub fn encode(&self, state_txn: &mut ProducerStateTxn) -> (r: Result<PackedMessage>)
        requires
            old(state_txn).wf(),
            values_fit(self@),
        ensures
            final(state_txn).wf(),
            final(state_txn).keeps_savepoints(old(state_txn)),
            match r {
                Ok(p) => exists|sp: Seq<(u32, Seq<char>)>, pp: Seq<(u32, Seq<SegmentView>)>|
                    prepared(
                        old(state_txn).strings(),
                        old(state_txn).paths(),
                        sp,
                        pp,
                        final(state_txn).strings(),
                        final(state_txn).paths(),
                    ) && actions_ready(self@, final(state_txn).paths()) && p@ == enc_message(
                        None,
                        self@,
                        sp,
                        pp,
                        final(state_txn).strings(),
                        final(state_txn).paths(),
                    ),
                Err(e) => {
                    &&& e.spec_kind() == ErrorKind::InvalidData
                    &&& final(state_txn).strings() == old(state_txn).strings()
                    &&& final(state_txn).paths() == old(state_txn).paths()
                    &&& final(state_txn).string_recency() == old(state_txn).string_recency()
                    &&& final(state_txn).path_recency() == old(state_txn).path_recency()
                },
            },
            self@.len() > crate::protocol::consts::DEFAULT_ACTIONS_LIMIT ==> r is Err,
            crate::producer::cost::only_snapshots(self@) ==> r is Ok,
            crate::message::packed::encoder::packable(self@) ==> r is Ok,
            r is Ok <==> crate::message::packed::encoder::packs(
                self@,
                old(state_txn).strings(),
                old(state_txn).string_recency(),
                old(state_txn).paths(),
                old(state_txn).path_recency(),
            ),
            r matches Ok(p) ==> {
                let sp = strings_prepared(self@, old(state_txn).strings(), old(state_txn).string_recency());
                let pp = paths_prepared(self@, old(state_txn).paths(), old(state_txn).path_recency());
                &&& p@ == packing(
                    None,
                    self@,
                    old(state_txn).strings(),
                    old(state_txn).string_recency(),
                    old(state_txn).paths(),
                    old(state_txn).path_recency(),
                )
                &&& final(state_txn).strings() == sp.pool
                &&& final(state_txn).string_recency() == sp.recency
                &&& final(state_txn).paths() == pp.pool
                &&& final(state_txn).path_recency() == pp.recency
            },
    {
        proof {
            if crate::producer::cost::only_snapshots(self@) {
                assert forall|i: int| 0 <= i < self.actions@.len() implies #[trigger] self.actions@[i]@ is Snapshot by {
                    assert(self@[i] == self.actions@[i]@);
                }
            }
        }
        let bytes = encode_message(&self.actions, None, state_txn)?;
        Ok(PackedMessage { inner: bytes })
    }
}

} // verus!
