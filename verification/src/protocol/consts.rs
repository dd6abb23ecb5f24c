//! Tags and limits of the packed wire format.

use vstd::prelude::*;

verus! {

/// The maximal number of actions in one message.
pub const DEFAULT_ACTIONS_LIMIT: usize = 65535;

pub const TAG_POSINT: u8 = 0b0000;
pub const TAG_NEGINT: u8 = 0b0001;
pub const TAG_BSTR: u8 = 0b0010;
pub const TAG_TSTR: u8 = 0b0011;
pub const TAG_ARRAY: u8 = 0b0100;
pub const TAG_MAP: u8 = 0b0101;
pub const TAG_FLOAT: u8 = 0b0111;
pub const TAG_TSTR_REF: u8 = 0b1000;
pub const TAG_POSDECIMAL: u8 = 0b1001;
pub const TAG_NEGDECIMAL: u8 = 0b1010;

/// The bits of a header byte below its tag.
pub const TAG_WIDTH: u8 = 4;
/// The payload bits of a header byte.
pub const PAYLOAD_MASK: u8 = 0x0F;

pub const ACTION_SNAPSHOT: u8 = 0;
pub const ACTION_ADD: u8 = 1;
pub const ACTION_DELETE: u8 = 2;
pub const ACTION_COPY: u8 = 3;
pub const ACTION_REPLACE: u8 = 4;

/// Header payloads up to this value carry an integer or a length inline.
pub const INLINE: u8 = 11;
/// The header payload announcing one following byte.
pub const BITS_8: u8 = 12;
/// The header payload announcing two following bytes.
pub const BITS_16: u8 = 13;
/// The header payload announcing four following bytes.
pub const BITS_32: u8 = 14;
/// The header payload announcing eight following bytes.
pub const BITS_64: u8 = 15;

/// Simple values share the float tag.
pub const FLOAT_FALSE: u8 = 4;
pub const FLOAT_TRUE: u8 = 5;
pub const FLOAT_NULL: u8 = 6;
pub const FLOAT_BITS_64: u8 = 11;

/// The protocol versions this build implements.
pub const SUPPORTED_PROTOCOL: u32 = 1;

pub const METADATA_PROTOCOL: u64 = 2;
pub const METADATA_STRINGS: u64 = 0;
pub const METADATA_PATHS: u64 = 1;

} // verus!
