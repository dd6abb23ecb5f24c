//! Wire representation rules shared by the encoder and the decoder, and the
//! preparation of pool patches.

pub mod consts;
pub mod layout;
pub mod preparation;
pub mod varuint;
