//! Numeric helpers shared by the decoder.

pub mod log_space;
