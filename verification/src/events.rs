//! Event emitter and normalization: turns reconciliation outcomes into the
//! lifecycle events the downstream recording/visualization sink consumes,
//! deriving spatial coordinates and an ordered property list from the
//! record's content. Absent position fields propagate as absent and are
//! never defaulted, with one feed-specified sentinel: a vessel that reports
//! no altitude is placed at ground level.

use vstd::prelude::*;
use crate::ids::IdentityKey;
use crate::ids::KeyModel;
use crate::record::RecordModel;
use crate::record::TrackRecord;
use crate::report::DescModel;
use crate::report::Descriptor;
use crate::report::PosModel;
use crate::report::Position;

verus! {

/// Kind of lifecycle event handed to the sink.
#[derive(PartialEq, Eq, Structural, Clone, Copy, Debug)]
pub enum EventKind {
    /// A record became visible: first accepted report for an unseen key.
    Spawn,
    /// A visible record's comparable content changed.
    Update,
    /// A record aged out and left the store.
    Destroy,
}

/// Sink-facing spatial coordinates, in the same fixed-point micro-units as
/// `Position`.
#[derive(Debug)]
pub struct Coords {
    pub latitude: Option<i64>,
    pub longitude: Option<i64>,
    pub altitude: Option<i64>,
    pub heading: Option<i64>,
}

/// Mathematical value of `Coords`.
#[verifier::ext_equal]
pub struct CoordsModel {
    pub latitude: Option<i64>,
    pub longitude: Option<i64>,
    pub altitude: Option<i64>,
    pub heading: Option<i64>,
}

impl View for Coords {
    type V = CoordsModel;

    open spec fn view(&self) -> CoordsModel {
        CoordsModel {
            latitude: self.latitude,
            longitude: self.longitude,
            altitude: self.altitude,
            heading: self.heading,
        }
    }
}

/// Tag of one entry in the ordered property list.
#[derive(PartialEq, Eq, Structural, Clone, Copy, Debug)]
pub enum PropertyTag {
    /// Display name of the object.
    Name,
    /// Hex transponder address (aircraft only).
    Icao,
    /// Country inferred from the identifier.
    Country,
    /// Callsign, or ship name for vessels.
    CallSign,
    /// Object category.
    Kind,
}

/// One (tag, value) pair of the property list.
#[derive(Debug)]
pub struct Property {
    pub tag: PropertyTag,
    pub value: String,
}

/// Mathematical value of a `Property`.
#[verifier::ext_equal]
pub struct PropModel {
    pub tag: PropertyTag,
    pub value: Seq<char>,
}

impl View for Property {
    type V = PropModel;

    open spec fn view(&self) -> PropModel {
        PropModel { tag: self.tag, value: self.value@ }
    }
}

/// The coordinates derived for a record: present position fields pass
/// through unchanged; a vessel with no reported altitude is pinned to
/// ground level, the one sentinel the feed semantics specify.
pub open spec fn coords_model(key: KeyModel, pos: PosModel) -> CoordsModel {
    match key {
        KeyModel::Aircraft { icao: _ } => CoordsModel {
            latitude: pos.latitude,
            longitude: pos.longitude,
            altitude: pos.altitude,
            heading: pos.heading,
        },
        KeyModel::Vessel { mmsi: _ } => CoordsModel {
            latitude: pos.latitude,
            longitude: pos.longitude,
            altitude: match pos.altitude {
                Option::Some(a) => Option::Some(a),
                Option::None => Option::Some(0i64),
            },
            heading: pos.heading,
        },
    }
}

/// The ordered property list derived for an aircraft: name and transponder
/// address always (the address doubles as the name), then country and
/// callsign when reported; absent optional fields are omitted, not emitted
/// empty.
pub open spec fn aircraft_props(icao: Seq<char>, fields: DescModel) -> Seq<PropModel> {
    let base = seq![
        PropModel { tag: PropertyTag::Name, value: icao },
        PropModel { tag: PropertyTag::Icao, value: icao },
    ];
    let with_country = match fields.country {
        Option::Some(c) => base.push(PropModel { tag: PropertyTag::Country, value: c }),
        Option::None => base,
    };
    match fields.callsign {
        Option::Some(cs) => with_country.push(
            PropModel { tag: PropertyTag::CallSign, value: cs },
        ),
        Option::None => with_country,
    }
}

/// The ordered property list derived for a vessel: the ship name as the
/// callsign when reported, then the fixed watercraft category.
pub open spec fn vessel_props(fields: DescModel) -> Seq<PropModel> {
    let base = match fields.name {
        Option::Some(n) => seq![PropModel { tag: PropertyTag::CallSign, value: n }],
        Option::None => Seq::<PropModel>::empty(),
    };
    base.push(PropModel { tag: PropertyTag::Kind, value: "Watercraft"@ })
}

/// The property list derived for a record of either feed.
pub open spec fn props_model(key: KeyModel, fields: DescModel) -> Seq<PropModel> {
    match key {
        KeyModel::Aircraft { icao } => aircraft_props(icao, fields),
        KeyModel::Vessel { mmsi: _ } => vessel_props(fields),
    }
}

/// Derives sink-facing coordinates from a record's key and position.
pub fn to_coords(key: &IdentityKey, pos: &Position) -> (c: Coords)
    ensures
        c@ == coords_model(key@, pos@),
{
    match key {
        IdentityKey::Aircraft { icao: _ } => Coords {
            latitude: pos.latitude,
            longitude: pos.longitude,
            altitude: pos.altitude,
            heading: pos.heading,
        },
        IdentityKey::Vessel { mmsi: _ } => Coords {
            latitude: pos.latitude,
            longitude: pos.longitude,
            altitude: match pos.altitude {
                Option::Some(a) => Option::Some(a),
                Option::None => Option::Some(0i64),
            },
            heading: pos.heading,
        },
    }
}

/// Derives the ordered property list from a record's key and descriptive
/// fields.
pub fn to_props(key: &IdentityKey, fields: &Descriptor) -> (props: Vec<Property>)
    ensures
        props@.map_values(|p: Property| p@) == props_model(key@, fields@),
{
    let mut out: Vec<Property> = Vec::new();
    match key {
        IdentityKey::Aircraft { icao } => {
            out.push(Property { tag: PropertyTag::Name, value: icao.clone() });
            out.push(Property { tag: PropertyTag::Icao, value: icao.clone() });
            if let Option::Some(c) = &fields.country {
                out.push(Property { tag: PropertyTag::Country, value: c.clone() });
            }
            if let Option::Some(cs) = &fields.callsign {
                out.push(Property { tag: PropertyTag::CallSign, value: cs.clone() });
            }
            proof {
                assert(out@.map_values(|p: Property| p@) =~= props_model(key@, fields@));
            }
        },
        IdentityKey::Vessel { mmsi: _ } => {
            if let Option::Some(n) = &fields.name {
                out.push(Property { tag: PropertyTag::CallSign, value: n.clone() });
            }
            out.push(Property { tag: PropertyTag::Kind, value: "Watercraft".to_owned() });
            proof {
                assert(out@.map_values(|p: Property| p@) =~= props_model(key@, fields@));
            }
        },
    }
    out
}

/// One normalized lifecycle event. Spawn and Update carry coordinates and
/// properties; Destroy carries only the handle.
pub struct LifecycleEvent {
    pub handle: u64,
    pub kind: EventKind,
    pub coords: Option<Coords>,
    pub props: Option<Vec<Property>>,
}

/// Mathematical value of a `LifecycleEvent`.
#[verifier::ext_equal]
pub struct EventModel {
    pub handle: int,
    pub kind: EventKind,
    pub coords: Option<CoordsModel>,
    pub props: Option<Seq<PropModel>>,
}

impl View for LifecycleEvent {
    type V = EventModel;

    open spec fn view(&self) -> EventModel {
        EventModel {
            handle: self.handle as int,
            kind: self.kind,
            coords: match self.coords {
                Option::Some(c) => Option::Some(c@),
                Option::None => Option::None,
            },
            props: match self.props {
                Option::Some(ps) => Option::Some(ps@.map_values(|p: Property| p@)),
                Option::None => Option::None,
            },
        }
    }
}

/// The spawn event a fresh record produces: full normalized payload.
pub open spec fn spawn_event(r: RecordModel) -> EventModel {
    EventModel {
        handle: r.handle,
        kind: EventKind::Spawn,
        coords: Option::Some(coords_model(r.key, r.position)),
        props: Option::Some(props_model(r.key, r.fields)),
    }
}

/// The update event a changed record produces: refreshed payload, same
/// handle.
pub open spec fn update_event(r: RecordModel) -> EventModel {
    EventModel {
        handle: r.handle,
        kind: EventKind::Update,
        coords: Option::Some(coords_model(r.key, r.position)),
        props: Option::Some(props_model(r.key, r.fields)),
    }
}

/// The destroy event a swept record produces: the handle alone.
pub open spec fn destroy_event(h: int) -> EventModel {
    EventModel { handle: h, kind: EventKind::Destroy, coords: Option::None, props: Option::None }
}

/// Builds the sink-facing event of the given kind for a record's current
/// content.
pub fn emit_for_record(kind: EventKind, rec: &TrackRecord) -> (ev: LifecycleEvent)
    requires
        kind == EventKind::Spawn || kind == EventKind::Update,
    ensures
        kind == EventKind::Spawn ==> ev@ == spawn_event(rec@),
        kind == EventKind::Update ==> ev@ == update_event(rec@),
{
    let ev = LifecycleEvent {
        handle: rec.handle,
        kind,
        coords: Option::Some(to_coords(&rec.key, &rec.position)),
        props: Option::Some(to_props(&rec.key, &rec.fields)),
    };
    proof {
        if kind == EventKind::Spawn {
            assert(ev@ =~= spawn_event(rec@));
        } else {
            assert(ev@ =~= update_event(rec@));
        }
    }
    ev
}

} // verus!
