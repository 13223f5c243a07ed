//! Track records: the reconciled, deduplicated state the engine keeps for
//! one identity key.

use vstd::prelude::*;
use crate::ids::IdentityKey;
use crate::ids::KeyModel;
use crate::report::Descriptor;
use crate::report::DescModel;
use crate::report::Position;
use crate::report::PosModel;

verus! {

/// The liveness flag every record starts with when it is spawned; it is
/// toggled (not set) on every accepted change thereafter, as a heartbeat
/// for downstream consumers.
pub const INITIAL_LIVENESS: bool = true;

/// Reconciled state for one identity key.
///
/// The key never changes after creation. The internal handle is assigned
/// exactly once, at creation, and is how the downstream sink addresses the
/// corresponding object; it is never reassigned while the record is alive.
pub struct TrackRecord {
    pub key: IdentityKey,
    pub fields: Descriptor,
    pub position: Position,
    /// Tick time of the most recent accepted report.
    pub last_seen: u64,
    /// Heartbeat flag, toggled on every accepted change.
    pub live: bool,
    /// Opaque identifier owned by the store, stable for the record's lifetime.
    pub handle: u64,
}

/// Mathematical value of a `TrackRecord`. The handle is widened to `int`
/// so that freshness can be stated without overflow concerns.
#[verifier::ext_equal]
pub struct RecordModel {
    pub key: KeyModel,
    pub fields: DescModel,
    pub position: PosModel,
    pub last_seen: u64,
    pub live: bool,
    pub handle: int,
}

impl View for TrackRecord {
    type V = RecordModel;

    open spec fn view(&self) -> RecordModel {
        RecordModel {
            key: self.key@,
            fields: self.fields@,
            position: self.position@,
            last_seen: self.last_seen,
            live: self.live,
            handle: self.handle as int,
        }
    }
}

impl Clone for TrackRecord {
    fn clone(&self) -> (r: Self)
        ensures
            r@ == self@,
    {
        TrackRecord {
            key: self.key.clone(),
            fields: self.fields.clone(),
            position: self.position.clone(),
            last_seen: self.last_seen,
            live: self.live,
            handle: self.handle,
        }
    }
}

} // verus!
