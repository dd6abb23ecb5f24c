//! Protocol state shared by the two ends of a stream: the pools of strings
//! and paths that messages refer to by key.

pub mod bitmap;
pub mod consumer_state;
pub mod lru;
pub mod lru_txn;
pub mod pool;
pub mod producer_state;

use vstd::prelude::*;

verus! {

/// The number of strings a pool holds.
pub const STRING_POOL_CAPACITY: usize = 4096;
/// The number of paths a pool holds.
pub const PATH_POOL_CAPACITY: usize = 4096;
/// The maximal number of segments of a path.
pub const PATH_SEGMENTS_LIMIT: usize = 256;
/// The maximal total byte length of the keys of a path.
pub const PATH_KEY_BYTES_LIMIT: usize = 65536;
/// The maximal byte length of the path definitions of a message.
pub const PATH_PATCH_BYTES_LIMIT: usize = 1048576;

} // verus!
