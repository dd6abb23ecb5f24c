//! The receiving side: messages read against the pools and applied to the
//! document.

pub mod applier;

use vstd::prelude::*;

use crate::document::Document;
use crate::error::{ErrorKind, Result};
use crate::message::packed::decoder::decode_message;
use crate::message::packed::frame::dec_message;
use crate::message::{Message, PackedMessage};
use crate::patch::SegmentView;
use crate::state::consumer_state::ConsumerState;
use crate::value::ValueView;
use applier::{apply_message, doc_view, Applier};

verus! {

/// A consumer: its pools, whether the stream's protocol was declared to it
/// and, once a snapshot arrived, its document.
pub struct Consumer {
    state: ConsumerState,
    initialized: bool,
    document: Option<Document>,
}

impl Consumer {
    /// The string pool.
    pub closed spec fn strings(&self) -> Map<u32, Seq<char>> {
        self.state.strings()
    }

    /// The path pool.
    pub closed spec fn paths(&self) -> Map<u32, Seq<SegmentView>> {
        self.state.paths()
    }

    /// Whether a message declared the stream's protocol: the next message
    /// is then read as a later one, else as the first.
    pub closed spec fn initialized(&self) -> bool {
        self.initialized
    }

    /// The document, if any.
    pub closed spec fn doc(&self) -> Option<ValueView> {
        match self.document {
            Some(d) => Some(d@),
            None => None,
        }
    }

    /// A consumer with empty pools and no document.
    pub fn new() -> (c: Self)
        ensures
            c.strings() == Map::<u32, Seq<char>>::empty(),
            c.paths() == Map::<u32, Seq<SegmentView>>::empty(),
            c.doc() is None,
            !c.initialized(),
    {
        Consumer { state: ConsumerState::new(), initialized: false, document: None }
    }

    /// The document, once a snapshot arrived.
    pub fn document(&self) -> (d: Option<&Document>)
        ensures
            doc_view(d) == self.doc(),
    {
        match &self.document {
            Some(d) => Some(d),
            None => None,
        }
    }

    /// Reads `diff` against the pools and applies its actions to the
    /// document. The stream's first message must lead its metadata with the
    /// declaration of the supported protocol; a later one must declare
    /// nothing. On success the pools and the document take the new state and
    /// the protocol counts as declared; on failure all stay as they were.
    pub fn consume_diff(&mut self, diff: PackedMessage) -> (r: Result<()>)
        ensures
            match dec_message(diff@, !old(self).initialized(), old(self).strings(), old(self).paths()) {
                None => {
                    &&& r matches Err(e) && e.spec_kind() == ErrorKind::InvalidData
                    &&& final(self).strings() == old(self).strings()
                    &&& final(self).paths() == old(self).paths()
                    &&& final(self).doc() == old(self).doc()
                    &&& final(self).initialized() == old(self).initialized()
                },
                Some((acts, s2, p2)) => match apply_message(old(self).doc(), acts) {
                    Ok(d) => {
                        &&& r is Ok
                        &&& final(self).strings() == s2
                        &&& final(self).paths() == p2
                        &&& final(self).doc() == d
                        &&& final(self).initialized()
                    },
                    Err(k) => {
                        &&& r matches Err(e) && e.spec_kind() == k
                        &&& final(self).strings() == old(self).strings()
                        &&& final(self).paths() == old(self).paths()
                        &&& final(self).doc() == old(self).doc()
                        &&& final(self).initialized() == old(self).initialized()
                    },
                },
            },
    {
        let mut state = ConsumerState::new();
        std::mem::swap(&mut state, &mut self.state);
        let mut state_txn = state.txn();
        let result = match decode_message(diff.bytes(), !self.initialized, &mut state_txn) {
            Ok(actions) => Applier::new(self.document.as_ref()).apply(&Message::new(actions)),
            Err(e) => Err(e),
        };
        match result {
            Ok(document) => {
                self.state = state_txn.commit();
                self.initialized = true;
                self.document = document;
                Ok(())
            },
            Err(error) => {
                self.state = state_txn.rollback();
                Err(error)
            },
        }
    }
}

} // verus!
