pub mod error;
pub mod le;
pub mod patch;
pub mod protocol;
pub mod state;
pub mod value;
pub mod convert;
pub mod consumer;
pub mod document;
pub mod producer;
pub mod convergence;
pub mod message;
