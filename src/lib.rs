//! Decoder for the single-wire pulse-width protocol of DHTxx humidity and
//! temperature sensors.

pub mod decoder;
pub mod error;
pub mod laws;
pub mod read;

pub use error::DhtError;
pub use read::{read_raw, Delay, InputOutputPin, LineOp};
