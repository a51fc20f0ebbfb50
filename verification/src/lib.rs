//! A periodic metrics bridge: queue statistics read from a key-value
//! store are assembled into timestamped gauge metrics and forwarded to a
//! remote monitoring API.
//!
//! The library holds everything the bridge decides and computes: key
//! namespacing, the backlog sum, the processed-counter delta, series
//! assembly, the wire format of a delivery and its response check, and
//! the reconnect state machine of the poll loop. The surrounding
//! process (store round trips, the HTTP POST, the interval sleep) hands
//! plain values in and takes plain values back.

pub mod metrics;
pub mod namespace;
pub mod stats;
pub mod supervisor;
pub mod wire;
