//! A bidirectional state-synchronization registry.
//!
//! The registry stores named state values, gives typed access to them, and
//! bridges them to an external serialized event channel through update
//! envelopes. Values travel over the channel in a small JSON wire encoding
//! whose serializer and parser are verified, including the round-trip law:
//! parsing an encoded value gives the value back.

pub mod json;
pub mod laws;
pub mod model;
pub mod state;
