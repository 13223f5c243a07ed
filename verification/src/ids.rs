//! Identity keys: the stable external identifier naming one trackable
//! object within its feed. Aircraft are named by the hex transponder
//! address, vessels by the numeric station identifier; the two key spaces
//! are independent and never correlated.

use vstd::prelude::*;

verus! {

/// External identity of a trackable object, scoped to the feed that
/// reported it. Two keys are equal iff their feed and raw identifier match.
pub enum IdentityKey {
    /// Hex transponder address from the polling aircraft feed.
    Aircraft { icao: String },
    /// Numeric station identifier from the streaming vessel feed.
    Vessel { mmsi: i32 },
}

/// Mathematical value of an `IdentityKey`.
pub enum KeyModel {
    Aircraft { icao: Seq<char> },
    Vessel { mmsi: i32 },
}

impl View for IdentityKey {
    type V = KeyModel;

    open spec fn view(&self) -> KeyModel {
        match self {
            IdentityKey::Aircraft { icao } => KeyModel::Aircraft { icao: icao@ },
            IdentityKey::Vessel { mmsi } => KeyModel::Vessel { mmsi: *mmsi },
        }
    }
}

impl IdentityKey {
    /// Two keys name the same object iff feed and raw identifier both match.
    pub fn same_key(&self, other: &IdentityKey) -> (r: bool)
        ensures
            r == (self@ == other@),
    {
        match (self, other) {
            (IdentityKey::Aircraft { icao: a }, IdentityKey::Aircraft { icao: b }) => *a == *b,
            (IdentityKey::Vessel { mmsi: a }, IdentityKey::Vessel { mmsi: b }) => *a == *b,
            _ => false,
        }
    }
}

impl Clone for IdentityKey {
    fn clone(&self) -> (r: Self)
        ensures
            r@ == self@,
    {
        match self {
            IdentityKey::Aircraft { icao } => IdentityKey::Aircraft { icao: icao.clone() },
            IdentityKey::Vessel { mmsi } => IdentityKey::Vessel { mmsi: *mmsi },
        }
    }
}

} // verus!
