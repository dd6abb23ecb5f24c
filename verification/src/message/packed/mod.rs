//! The packed form of a message.

pub mod decoder;
pub mod encoder;
pub mod format;
pub mod frame;
pub mod roundtrip;
