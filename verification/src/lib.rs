//! A verified, in-memory reference implementation of the storage adaptor
//! for a small event-scheduling service.
//!
//! The store holds events (each with proposed meeting times and a
//! timezone), people who register availability against an event, and a
//! singleton usage counter. The operations are the adaptor contract of
//! the service: keyed reads and writes, a touch-on-read liveness bump,
//! lazily materialized counters, and a transactional cutoff-based
//! cascade delete whose all-or-nothing behaviour is exercised through a
//! fault-injection hook.

mod clock;
mod codec;
pub mod errors;
pub mod laws;
pub mod model;
pub mod store;
pub mod values;

pub use errors::AdaptorError;
pub use errors::StoreError;
pub use values::Event;
pub use values::Person;
pub use values::Stats;
