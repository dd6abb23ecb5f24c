# doxsync

A document synchronization engine: a producer diffs documents and packs the
changes against string and path pools; a consumer reads the packed message
against its own pools and applies the actions. Everything in `src/` is
verified with Verus, but for two calls into code that Verus does not read:
`blake3_hash` in `value.rs`, which calls `blake3::hash` and names its digest
`blake3_digest`, and `utf8_text` in `message/packed/decoder.rs`, which calls
`std::str::from_utf8`. Their contracts are trusted.

## Layout

- `value.rs`, `convert.rs`: document values (canonical maps, content hashes)
  and conversions of Rust values into them.
- `patch.rs`: paths and actions; `document.rs`: documents with their index of
  subvalues by content hash.
- `state/`: bitmaps, LRU lists and pools with transactions (savepoints,
  commit, rollback) for the producer and the consumer.
- `protocol/`: wire constants, varints, headers and pool preparation.
- `message/`: packed messages, the encoder and decoder, and the codec's
  round trip.
- `producer/`: the cost session, the differ, planning and the `Producer`.
- `consumer/`: the applier and the `Consumer`.
- `convergence.rs`: a planned diff, applied to the old document, gives the new
  one; with the codec's round trip, a consumer whose pools are the
  producer's, at the same point of the stream, follows its producer. Both
  laws assume that the documents are canonical and that no subvalue of the
  old document shares its content hash with a different subvalue of the new
  one.
- `app/`: floating-point helpers, a printable error and the JavaScript
  bindings (wasm32 only).

The contracts fix the packed bytes: each string and path a message uses is
touched once, in order, pooled at the key the pool's recency rule gives, and
defined in the metadata when new to its pool. The differ measures each
candidate action by the exact length of the message so far, and takes a copy
only when that message is strictly shorter than with the direct action.

The first message a producer packs declares the selected protocol (metadata
instruction `2`, then the version); a consumer refuses a first message
without that declaration and a later message with one.
