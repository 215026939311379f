//! Framing of log messages into bounded, self-describing datagrams, and the
//! byte accounting that decides whether a message was handed over in full.
pub mod chunked;
pub mod delivery;
pub mod error;
