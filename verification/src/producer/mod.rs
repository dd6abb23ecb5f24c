//! The sending side: diffs planned between documents and packed against the
//! pools.

pub mod cost;
pub mod differ;
pub mod planning;

use vstd::prelude::*;

use crate::document::Document;
use crate::error::{Error, ErrorKind, Result};
use crate::message::packed::decoder::actions_view;
use crate::message::packed::encoder::{
    encode_message, packable, packing, packs, paths_prepared, strings_prepared, value_fits,
    values_fit,
};
use crate::message::packed::frame::{action_value, actions_ready, enc_message, prepared};
use crate::message::{Message, PackedMessage};
use crate::patch::{Action, ActionView, SegmentView};
use crate::protocol::consts::SUPPORTED_PROTOCOL;
use crate::state::producer_state::ProducerState;
use crate::value::{canonical, view_digest, ValueView};
use cost::only_snapshots;
use crate::message::packed::format::fits;
use cost::packs_on;
use planning::{plan, plan_packs, planned, planned_by_cost, plans_packable};

verus! {

/// Whether `p` is the packing of `acts`, declaring the protocol `declare`
/// where it is given, against the pools `(s0, p0)`, which became `(s1, p1)`:
/// the pools are prepared for the actions, and the bytes are the metadata
/// defining the new entries followed by the actions.
pub open spec fn packed_as(
    p: Seq<u8>,
    declare: Option<u32>,
    acts: Seq<ActionView>,
    s0: Map<u32, Seq<char>>,
    p0: Map<u32, Seq<SegmentView>>,
    s1: Map<u32, Seq<char>>,
    p1: Map<u32, Seq<SegmentView>>,
) -> bool {
    exists|sp: Seq<(u32, Seq<char>)>, pp: Seq<(u32, Seq<SegmentView>)>|
        prepared(s0, p0, sp, pp, s1, p1) && actions_ready(acts, p1) && p == #[trigger] enc_message(
            declare,
            acts,
            sp,
            pp,
            s1,
            p1,
        )
}

/// Whether `p` packs a plan from `last` (if any) to `current`, declaring the
/// protocol `declare` where it is given, against the pools `(s0, p0)`, which
/// became `(s1, p1)`.
pub open spec fn produced(
    last: Option<ValueView>,
    current: ValueView,
    p: Seq<u8>,
    declare: Option<u32>,
    s0: Map<u32, Seq<char>>,
    p0: Map<u32, Seq<SegmentView>>,
    s1: Map<u32, Seq<char>>,
    p1: Map<u32, Seq<SegmentView>>,
) -> bool {
    exists|acts: Seq<ActionView>|
        planned(last, current, acts) && #[trigger] packed_as(p, declare, acts, s0, p0, s1, p1)
}

/// Whether `p` is the packing of `acts` against the pools `(s0, p0)` with
/// the recency orders `(sr0, pr0)`, declaring `declare` where it is given,
/// and `(s1, p1)` with `(sr1, pr1)` are the pools and recency orders after
/// it.
pub open spec fn packed_exactly(
    p: Seq<u8>,
    declare: Option<u32>,
    acts: Seq<ActionView>,
    s0: Map<u32, Seq<char>>,
    sr0: Seq<u32>,
    p0: Map<u32, Seq<SegmentView>>,
    pr0: Seq<u32>,
    s1: Map<u32, Seq<char>>,
    sr1: Seq<u32>,
    p1: Map<u32, Seq<SegmentView>>,
    pr1: Seq<u32>,
) -> bool {
    let sp = strings_prepared(acts, s0, sr0);
    let pp = paths_prepared(acts, p0, pr0);
    &&& p == packing(declare, acts, s0, sr0, p0, pr0)
    &&& s1 == sp.pool
    &&& sr1 == sp.recency
    &&& p1 == pp.pool
    &&& pr1 == pp.recency
}

/// Whether `p` is the packing, as [`packed_exactly`] states it, of the plan
/// that the producer selects from `last` (if any) to `current`.
pub open spec fn produced_exactly(
    last: Option<ValueView>,
    current: ValueView,
    p: Seq<u8>,
    declare: Option<u32>,
    s0: Map<u32, Seq<char>>,
    sr0: Seq<u32>,
    p0: Map<u32, Seq<SegmentView>>,
    pr0: Seq<u32>,
    s1: Map<u32, Seq<char>>,
    sr1: Seq<u32>,
    p1: Map<u32, Seq<SegmentView>>,
    pr1: Seq<u32>,
) -> bool {
    exists|acts: Seq<ActionView>|
        planned(last, current, acts) && planned_by_cost(last, current, (s0, p0, sr0, pr0), acts)
            && #[trigger] packed_exactly(
            p,
            declare,
            acts,
            s0,
            sr0,
            p0,
            pr0,
            s1,
            sr1,
            p1,
            pr1,
        )
}

/// Whether the last emitted document has the current one's hash.
pub open spec fn unchanged_since_emitted(last: Option<ValueView>, current: ValueView) -> bool {
    last matches Some(l) && view_digest(l) == view_digest(current)
}

/// A producer: its pools, the protocol it selected and whether a packed
/// message declared it yet, the current document and the last document it
/// emitted.
pub struct Producer {
    state: ProducerState,
    protocol: u32,
    declared: bool,
    current_document: Document,
    last_emitted_document: Option<Document>,
}

impl Producer {
    #[verifier::type_invariant]
    spec fn well_formed(self) -> bool {
        self.state.wf()
    }

    /// The string pool.
    pub closed spec fn strings(&self) -> Map<u32, Seq<char>> {
        self.state.strings()
    }

    /// The path pool.
    pub closed spec fn paths(&self) -> Map<u32, Seq<SegmentView>> {
        self.state.paths()
    }

    /// The string keys, most recently used first.
    pub closed spec fn string_recency(&self) -> Seq<u32> {
        self.state.string_recency()
    }

    /// The path keys, most recently used first.
    pub closed spec fn path_recency(&self) -> Seq<u32> {
        self.state.path_recency()
    }

    /// The selected protocol version.
    pub closed spec fn protocol(&self) -> u32 {
        self.protocol
    }

    /// Whether a packed message declared the protocol.
    pub closed spec fn declared(&self) -> bool {
        self.declared
    }

    /// The protocol that the next packed message declares: the selected
    /// one on the stream's first message, none after it.
    pub open spec fn declaration(&self) -> Option<u32> {
        if self.declared() {
            None
        } else {
            Some(self.protocol())
        }
    }

    /// The current document.
    pub closed spec fn current(&self) -> ValueView {
        self.current_document@
    }

    /// The last emitted document, if any.
    pub closed spec fn last(&self) -> Option<ValueView> {
        match self.last_emitted_document {
            Some(d) => Some(d@),
            None => None,
        }
    }

    /// A producer of `current_document` for a peer that implements the
    /// protocol versions `protocols`: the highest version both sides
    /// implement is selected; without one the error is `InvalidData`.
    pub fn new(current_document: Document, protocols: &[u32]) -> (r: Result<Self>)
        ensures
            match r {
                Ok(p) => {
                    &&& exists|i: int| 0 <= i < protocols@.len() && protocols@[i] == SUPPORTED_PROTOCOL
                    &&& p.protocol() == SUPPORTED_PROTOCOL
                    &&& !p.declared()
                    &&& p.current() == current_document@
                    &&& p.last() is None
                    &&& p.strings() == Map::<u32, Seq<char>>::empty()
                    &&& p.paths() == Map::<u32, Seq<SegmentView>>::empty()
                },
                Err(e) => {
                    &&& e.spec_kind() == ErrorKind::InvalidData
                    &&& forall|i: int|
                        0 <= i < protocols@.len() ==> protocols@[i] != SUPPORTED_PROTOCOL
                },
            },
    {
        let mut found = false;
        let mut i: usize = 0;
        while i < protocols.len()
            invariant
                i <= protocols@.len(),
                found == exists|j: int| 0 <= j < i && protocols@[j] == SUPPORTED_PROTOCOL,
            decreases protocols@.len() - i,
        {
            if protocols[i] == SUPPORTED_PROTOCOL {
                found = true;
            }
            i += 1;
        }
        if !found {
            return Err(Error::new(ErrorKind::InvalidData, "no common protocol version"));
        }
        Ok(Producer {
            state: ProducerState::new(),
            protocol: SUPPORTED_PROTOCOL,
            declared: false,
            current_document,
            last_emitted_document: None,
        })
    }

    /// Replaces the current document; no message is produced.
    pub fn replace(&mut self, new_document: Document)
        ensures
            final(self).current() == new_document@,
            final(self).last() == old(self).last(),
            final(self).strings() == old(self).strings(),
            final(self).paths() == old(self).paths(),
            final(self).string_recency() == old(self).string_recency(),
            final(self).path_recency() == old(self).path_recency(),
            final(self).protocol() == old(self).protocol(),
            final(self).declared() == old(self).declared(),
    {
        proof {
            use_type_invariant(&*self);
        }
        self.current_document = new_document;
    }

    /// Packs `actions` against the pools, declaring the protocol on the
    /// stream's first message: on success the pools keep the changes and
    /// the protocol is declared, on failure they are as they were.
    fn pack_actions(&mut self, actions: &Vec<Action>) -> (r: Result<PackedMessage>)
        requires
            values_fit(actions_view(actions@)),
        ensures
            only_snapshots(actions_view(actions@)) ==> r is Ok,
            packable(actions_view(actions@)) ==> r is Ok,
            r is Ok <==> packs(
                actions_view(actions@),
                old(self).strings(),
                old(self).string_recency(),
                old(self).paths(),
                old(self).path_recency(),
            ),
            r matches Ok(p) ==> packed_exactly(
                p@,
                old(self).declaration(),
                actions_view(actions@),
                old(self).strings(),
                old(self).string_recency(),
                old(self).paths(),
                old(self).path_recency(),
                final(self).strings(),
                final(self).string_recency(),
                final(self).paths(),
                final(self).path_recency(),
            ),
            final(self).current() == old(self).current(),
            final(self).last() == old(self).last(),
            final(self).protocol() == old(self).protocol(),
            final(self).declared() == (old(self).declared() || r is Ok),
            match r {
                Ok(p) => packed_as(
                    p@,
                    old(self).declaration(),
                    actions_view(actions@),
                    old(self).strings(),
                    old(self).paths(),
                    final(self).strings(),
                    final(self).paths(),
                ),
                Err(e) => {
                    &&& e.spec_kind() == ErrorKind::InvalidData
                    &&& final(self).strings() == old(self).strings()
                    &&& final(self).paths() == old(self).paths()
                    &&& final(self).string_recency() == old(self).string_recency()
                    &&& final(self).path_recency() == old(self).path_recency()
                },
            },
    {
        proof {
            use_type_invariant(&*self);
        }
        let mut state = ProducerState::new();
        std::mem::swap(&mut state, &mut self.state);
        let mut txn = state.txn();
        proof {
            if only_snapshots(actions_view(actions@)) {
                assert forall|i: int| 0 <= i < actions@.len() implies #[trigger] actions@[i]@ is Snapshot by {
                    assert(actions_view(actions@)[i] == actions@[i]@);
                }
            }
        }
        let declare = if self.declared {
            None
        } else {
            Some(self.protocol)
        };
        let result = encode_message(actions, declare, &mut txn);
        self.state = txn.commit();
        match result {
            Ok(bytes) => {
                self.declared = true;
                Ok(PackedMessage::from_vec(bytes))
            },
            Err(e) => Err(e),
        }
    }

    /// Packs `diff` against the pools: on success the pools keep the
    /// changes, on failure they are as they were. The first message packed
    /// declares the selected protocol. A value with a map key of 2^62 bytes
    /// or more cannot be packed.
    pub fn pack_diff(&mut self, diff: Message) -> (r: Result<PackedMessage>)
        ensures
            final(self).current() == old(self).current(),
            final(self).last() == old(self).last(),
            final(self).protocol() == old(self).protocol(),
            final(self).declared() == (old(self).declared() || r is Ok),
            values_fit(diff@) && packable(diff@) ==> r is Ok,
            r is Ok <==> values_fit(diff@) && packs(
                diff@,
                old(self).strings(),
                old(self).string_recency(),
                old(self).paths(),
                old(self).path_recency(),
            ),
            r matches Ok(p) ==> packed_exactly(
                p@,
                old(self).declaration(),
                diff@,
                old(self).strings(),
                old(self).string_recency(),
                old(self).paths(),
                old(self).path_recency(),
                final(self).strings(),
                final(self).string_recency(),
                final(self).paths(),
                final(self).path_recency(),
            ),
            match r {
                Ok(p) => values_fit(diff@) && packed_as(
                    p@,
                    old(self).declaration(),
                    diff@,
                    old(self).strings(),
                    old(self).paths(),
                    final(self).strings(),
                    final(self).paths(),
                ),
                Err(e) => {
                    &&& e.spec_kind() == ErrorKind::InvalidData
                    &&& final(self).strings() == old(self).strings()
                    &&& final(self).paths() == old(self).paths()
                    &&& final(self).string_recency() == old(self).string_recency()
                    &&& final(self).path_recency() == old(self).path_recency()
                },
            },
    {
        let ghost d = diff@;
        let actions = diff.into_actions();
        let mut i: usize = 0;
        while i < actions.len()
            invariant
                actions_view(actions@) == d,
                d == diff@,
                i <= actions@.len(),
                forall|j: int|
                    0 <= j < i ==> match action_value(#[trigger] actions_view(actions@)[j]) {
                        Some(v) => crate::message::packed::format::fits(v),
                        None => true,
                    },
            decreases actions@.len() - i,
        {
            proof {
                assert(actions_view(actions@)[i as int] == actions@[i as int]@);
            }
            let fits = match &actions[i] {
                Action::Snapshot { value } => value_fits(value),
                Action::Add { value, .. } => value_fits(value),
                Action::Replace { value, .. } => value_fits(value),
                _ => true,
            };
            if !fits {
                proof {
                    assert(match action_value(d[i as int]) {
                        Some(v) => !crate::message::packed::format::fits(v),
                        None => false,
                    });
                    assert(!values_fit(d));
                }
                return Err(Error::new(ErrorKind::InvalidData, "a map key is too long"));
            }
            i += 1;
        }
        self.pack_actions(&actions)
    }

    /// The plan from the last emitted document to the current one, with the
    /// pools left as they were; nothing when the two have the same hash.
    fn next_message(&mut self) -> (r: Result<Option<Vec<Action>>>)
        ensures
            final(self).current() == old(self).current(),
            final(self).last() == old(self).last(),
            final(self).protocol() == old(self).protocol(),
            final(self).declared() == old(self).declared(),
            final(self).strings() == old(self).strings(),
            final(self).paths() == old(self).paths(),
            final(self).string_recency() == old(self).string_recency(),
            final(self).path_recency() == old(self).path_recency(),
            unchanged_since_emitted(old(self).last(), old(self).current()) ==> r matches Ok(None),
            old(self).last() is None && fits(old(self).current()) ==> r matches Ok(Some(_)),
            !unchanged_since_emitted(old(self).last(), old(self).current()) && fits(
                old(self).current(),
            ) && plans_packable(old(self).last(), old(self).current()) ==> r matches Ok(Some(_)),
            !unchanged_since_emitted(old(self).last(), old(self).current()) ==> (r matches Ok(Some(_))
                <==> fits(old(self).current()) && plan_packs(
                old(self).last(),
                old(self).current(),
                (old(self).strings(), old(self).paths(), old(self).string_recency(), old(self).path_recency()),
            )),
            !unchanged_since_emitted(old(self).last(), old(self).current()) ==> match r {
                Ok(Some(acts)) => planned(old(self).last(), old(self).current(), actions_view(acts@))
                    && values_fit(actions_view(acts@)) && planned_by_cost(
                    old(self).last(),
                    old(self).current(),
                    (old(self).strings(), old(self).paths(), old(self).string_recency(), old(self).path_recency()),
                    actions_view(acts@),
                ),
                Ok(None) => false,
                Err(e) => e.spec_kind() == ErrorKind::InvalidData,
            },
    {
        proof {
            use_type_invariant(&*self);
        }
        if let Some(last) = &self.last_emitted_document {
            if last.value_ref().eq(self.current_document.value_ref()) {
                return Ok(None);
            }
        }
        if !value_fits(self.current_document.value_ref()) {
            return Err(Error::new(ErrorKind::InvalidData, "a map key is too long"));
        }
        let ghost before = *self;
        let mut state = ProducerState::new();
        std::mem::swap(&mut state, &mut self.state);
        let mut txn = state.txn();
        let result = plan(self.last_emitted_document.as_ref(), &self.current_document, &mut txn);
        self.state = txn.commit();
        proof {
            assert(self.state.strings() == before.state.strings());
            assert(self.state.paths() == before.state.paths());
        }
        match result {
            Ok(actions) => Ok(Some(actions)),
            Err(e) => Err(e),
        }
    }

    /// Plans the change from the last emitted document to the current one
    /// and packs it, declaring the selected protocol in the stream's first
    /// message; the current document becomes the last emitted one.
    /// Nothing is produced when the two have the same hash. On failure the
    /// pools and the last emitted document stay as they were, so that the
    /// same update can be tried again.
    pub fn produce_diff(&mut self) -> (r: Result<Option<PackedMessage>>)
        ensures
            final(self).current() == old(self).current(),
            final(self).protocol() == old(self).protocol(),
            final(self).declared() == (old(self).declared() || r matches Ok(Some(_))),
            canonical(old(self).current()),
            old(self).last() matches Some(l) ==> canonical(l),
            old(self).last() is None && fits(old(self).current()) ==> r matches Ok(Some(_)),
            !unchanged_since_emitted(old(self).last(), old(self).current()) && fits(
                old(self).current(),
            ) && plans_packable(old(self).last(), old(self).current()) ==> r matches Ok(Some(_)),
            !unchanged_since_emitted(old(self).last(), old(self).current()) ==> (r matches Ok(Some(_))
                <==> fits(old(self).current()) && plan_packs(
                old(self).last(),
                old(self).current(),
                (old(self).strings(), old(self).paths(), old(self).string_recency(), old(self).path_recency()),
            )),
            unchanged_since_emitted(old(self).last(), old(self).current()) ==> {
                &&& r matches Ok(None)
                &&& final(self).last() == old(self).last()
                &&& final(self).strings() == old(self).strings()
                &&& final(self).paths() == old(self).paths()
            },
            !unchanged_since_emitted(old(self).last(), old(self).current()) ==> match r {
                Ok(Some(p)) => {
                    &&& produced(
                        old(self).last(),
                        old(self).current(),
                        p@,
                        old(self).declaration(),
                        old(self).strings(),
                        old(self).paths(),
                        final(self).strings(),
                        final(self).paths(),
                    )
                    &&& final(self).last() == Some(old(self).current())
                    &&& produced_exactly(
                        old(self).last(),
                        old(self).current(),
                        p@,
                        old(self).declaration(),
                        old(self).strings(),
                        old(self).string_recency(),
                        old(self).paths(),
                        old(self).path_recency(),
                        final(self).strings(),
                        final(self).string_recency(),
                        final(self).paths(),
                        final(self).path_recency(),
                    )
                },
                Ok(None) => false,
                Err(e) => {
                    &&& e.spec_kind() == ErrorKind::InvalidData
                    &&& final(self).last() == old(self).last()
                    &&& final(self).strings() == old(self).strings()
                    &&& final(self).paths() == old(self).paths()
                    &&& final(self).string_recency() == old(self).string_recency()
                    &&& final(self).path_recency() == old(self).path_recency()
                },
            },
    {
        proof {
            use_type_invariant(&self.current_document);
            self.current_document.lemma_canonical();
            if let Some(l) = &self.last_emitted_document {
                use_type_invariant(l);
                l.lemma_canonical();
            }
        }
        let actions = match self.next_message() {
            Ok(Some(a)) => a,
            Ok(None) => {
                return Ok(None);
            },
            Err(e) => {
                return Err(e);
            },
        };
        let ghost acts = actions_view(actions@);
        proof {
            let base = (self.strings(), self.paths(), self.string_recency(), self.path_recency());
            if plan_packs(old(self).last(), old(self).current(), base) {
                assert(planned_by_cost(old(self).last(), old(self).current(), base, acts));
                if acts.len() > 0 {
                    assert(packs_on((Seq::<ActionView>::empty() + acts).take(acts.len() as int), base));
                    assert((Seq::<ActionView>::empty() + acts).take(acts.len() as int) =~= acts);
                } else {
                    assert(packs(acts, base.0, base.2, base.1, base.3));
                }
            }
        }
        let packed = match self.pack_actions(&actions) {
            Ok(p) => p,
            Err(e) => {
                return Err(e);
            },
        };
        proof {
            use_type_invariant(&*self);
        }
        self.last_emitted_document = Some(Document::new(self.current_document.value()));
        proof {
            assert(planned(old(self).last(), old(self).current(), acts));
            assert(packed_as(
                packed@,
                old(self).declaration(),
                acts,
                old(self).strings(),
                old(self).paths(),
                self.strings(),
                self.paths(),
            ));
            assert(packed_exactly(
                packed@,
                old(self).declaration(),
                acts,
                old(self).strings(),
                old(self).string_recency(),
                old(self).paths(),
                old(self).path_recency(),
                self.strings(),
                self.string_recency(),
                self.paths(),
                self.path_recency(),
            ));
            assert(produced_exactly(
                old(self).last(),
                old(self).current(),
                packed@,
                old(self).declaration(),
                old(self).strings(),
                old(self).string_recency(),
                old(self).paths(),
                old(self).path_recency(),
                self.strings(),
                self.string_recency(),
                self.paths(),
                self.path_recency(),
            ));
            assert(produced(
                old(self).last(),
                old(self).current(),
                packed@,
                old(self).declaration(),
                old(self).strings(),
                old(self).paths(),
                self.strings(),
                self.paths(),
            ));
        }
        Ok(Some(packed))
    }

    /// Plans the change from the last emitted document to the current one
    /// without packing it; the current document becomes the last emitted
    /// one. Pack the message with [`Producer::pack_diff`] before asking for
    /// another.
    pub fn produce_diff_unpacked(&mut self) -> (r: Result<Option<Message>>)
        ensures
            final(self).current() == old(self).current(),
            final(self).protocol() == old(self).protocol(),
            final(self).declared() == old(self).declared(),
            final(self).strings() == old(self).strings(),
            final(self).paths() == old(self).paths(),
            final(self).string_recency() == old(self).string_recency(),
            final(self).path_recency() == old(self).path_recency(),
            unchanged_since_emitted(old(self).last(), old(self).current()) ==> {
                &&& r matches Ok(None)
                &&& final(self).last() == old(self).last()
            },
            old(self).last() is None && fits(old(self).current()) ==> r matches Ok(Some(_)),
            !unchanged_since_emitted(old(self).last(), old(self).current()) && fits(
                old(self).current(),
            ) && plans_packable(old(self).last(), old(self).current()) ==> r matches Ok(Some(_)),
            !unchanged_since_emitted(old(self).last(), old(self).current()) ==> (r matches Ok(Some(_))
                <==> fits(old(self).current()) && plan_packs(
                old(self).last(),
                old(self).current(),
                (old(self).strings(), old(self).paths(), old(self).string_recency(), old(self).path_recency()),
            )),
            !unchanged_since_emitted(old(self).last(), old(self).current()) ==> match r {
                Ok(Some(m)) => {
                    &&& planned(old(self).last(), old(self).current(), m@)
                    &&& planned_by_cost(
                        old(self).last(),
                        old(self).current(),
                        (old(self).strings(), old(self).paths(), old(self).string_recency(), old(self).path_recency()),
                        m@,
                    )
                    &&& final(self).last() == Some(old(self).current())
                },
                Ok(None) => false,
                Err(e) => {
                    &&& e.spec_kind() == ErrorKind::InvalidData
                    &&& final(self).last() == old(self).last()
                },
            },
    {
        let actions = match self.next_message() {
            Ok(Some(a)) => a,
            Ok(None) => {
                return Ok(None);
            },
            Err(e) => {
                return Err(e);
            },
        };
        proof {
            use_type_invariant(&*self);
        }
        self.last_emitted_document = Some(Document::new(self.current_document.value()));
        Ok(Some(Message::new(actions)))
    }
}

} // verus!
