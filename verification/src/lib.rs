//! An in-memory key-value store with read-frequency tracking and a textual
//! snapshot format for persistence.
//!
//! The `store` module holds the key-to-value mapping and `freq` the
//! per-key read counters.  `codec` defines the snapshot text format in
//! both directions, `persist` builds a starting store from a snapshot
//! text, and `roundtrip` proves that a written snapshot reads back to
//! exactly what was written.  `service` is the request-handling facade
//! over all of it, `shutdown` the coordinator of the one save performed
//! on termination, and `laws` states the laws relating successive
//! operations.

pub mod codec;
pub mod freq;
pub mod laws;
pub mod persist;
pub mod roundtrip;
pub mod service;
pub mod shutdown;
pub mod store;

pub use codec::WrappedEntry;
pub use freq::FrequencyTracker;
pub use freq::ReadFrequency;
pub use service::DataMapService;
pub use service::RpcError;
pub use shutdown::ShutdownCoordinator;
pub use shutdown::ShutdownState;
pub use store::Entry;
pub use store::Store;
