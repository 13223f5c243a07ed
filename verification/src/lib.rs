//! Live-track reconciliation engine.
//!
//! The engine ingests already-decoded telemetry reports from two independent
//! feeds (a streaming vessel feed and a polling aircraft feed), reconciles
//! each into a single up-to-date record per tracked object, suppresses no-op
//! updates, ages out objects that stop reporting, and emits normalized
//! lifecycle events (spawn / update / destroy) for a downstream
//! recording/visualization sink. Transport, decoding, request construction
//! and the sink's own format live outside this crate.

pub mod batch;
pub mod driver;
pub mod events;
pub mod ids;
pub mod laws;
pub mod record;
pub mod report;
pub mod store;

pub use ids::IdentityKey;
pub use ids::KeyModel;
