//! Per-tick batch semantics (at most one event per key, reflecting the net
//! diff against the pre-tick store) and payload normalization (coordinates
//! and property lists).

use tacview_live::batch::process_batch;
use tacview_live::driver::process_report;
use tacview_live::events::{to_coords, to_props, EventKind, PropertyTag};
use tacview_live::ids::IdentityKey;
use tacview_live::report::{Descriptor, Position, Report};
use tacview_live::store::TrackStore;

fn vessel_report(mmsi: i32, name: Option<&str>, lat: Option<i64>, lon: Option<i64>) -> Report {
    Report {
        key: IdentityKey::Vessel { mmsi },
        fields: Descriptor { name: name.map(|n| n.to_string()), country: None, callsign: None },
        position: Position { latitude: lat, longitude: lon, altitude: None, heading: None },
    }
}

fn plane_report(icao: &str, country: Option<&str>, callsign: Option<&str>, lat: Option<i64>) -> Report {
    Report {
        key: IdentityKey::Aircraft { icao: icao.to_string() },
        fields: Descriptor {
            name: None,
            country: country.map(|c| c.to_string()),
            callsign: callsign.map(|c| c.to_string()),
        },
        position: Position { latitude: lat, longitude: None, altitude: None, heading: None },
    }
}

#[test]
fn batch_emits_one_event_per_key() {
    let mut store = TrackStore::new();
    // two reports for the same unseen key in one tick: one spawn, with the
    // cumulative (last) content
    let batch = vec![
        plane_report("aa0001", None, None, Some(1_000_000)),
        plane_report("aa0001", None, None, Some(2_000_000)),
    ];
    let evs = process_batch(&mut store, &batch, 0);
    assert_eq!(evs.len(), 1);
    assert_eq!(evs[0].kind, EventKind::Spawn);
    assert_eq!(evs[0].coords.as_ref().unwrap().latitude, Some(2_000_000));
    assert_eq!(store.len(), 1);
}

#[test]
fn batch_change_and_change_back_emits_nothing() {
    let mut store = TrackStore::new();
    process_report(&mut store, &plane_report("aa0002", None, None, Some(5)), 0);
    // the tick moves the record and moves it back: net diff is empty
    let batch = vec![
        plane_report("aa0002", None, None, Some(6)),
        plane_report("aa0002", None, None, Some(5)),
    ];
    let evs = process_batch(&mut store, &batch, 1);
    assert_eq!(evs.len(), 0);
    // but last_seen still advanced
    let key = IdentityKey::Aircraft { icao: "aa0002".to_string() };
    assert_eq!(store.get(&key).unwrap().last_seen, 1);
}

#[test]
fn batch_events_in_first_occurrence_order() {
    let mut store = TrackStore::new();
    let batch = vec![
        plane_report("k1", None, None, Some(1)),
        plane_report("k2", None, None, Some(2)),
        plane_report("k1", None, None, Some(3)),
        plane_report("k3", None, None, Some(4)),
    ];
    let evs = process_batch(&mut store, &batch, 0);
    assert_eq!(evs.len(), 3);
    assert!(evs.iter().all(|e| e.kind == EventKind::Spawn));
    // events come out in first-occurrence order of the keys, and k1 carries
    // its final content
    assert_eq!(evs[0].coords.as_ref().unwrap().latitude, Some(3));
    assert_eq!(evs[1].coords.as_ref().unwrap().latitude, Some(2));
    assert_eq!(evs[2].coords.as_ref().unwrap().latitude, Some(4));
}

#[test]
fn batch_mixes_spawn_update_and_suppression() {
    let mut store = TrackStore::new();
    process_report(&mut store, &plane_report("old1", None, None, Some(1)), 0);
    process_report(&mut store, &plane_report("old2", None, None, Some(2)), 0);
    let batch = vec![
        plane_report("old1", None, None, Some(1)), // identical: no event
        plane_report("old2", None, None, Some(9)), // changed: update
        plane_report("new1", None, None, Some(3)), // unseen: spawn
    ];
    let evs = process_batch(&mut store, &batch, 1);
    assert_eq!(evs.len(), 2);
    assert_eq!(evs[0].kind, EventKind::Update);
    assert_eq!(evs[0].coords.as_ref().unwrap().latitude, Some(9));
    assert_eq!(evs[1].kind, EventKind::Spawn);
    assert_eq!(evs[1].coords.as_ref().unwrap().latitude, Some(3));
    assert_eq!(store.len(), 3);
}

#[test]
fn batch_skips_invalid_reports() {
    let mut store = TrackStore::new();
    let batch = vec![
        plane_report("", None, None, Some(1)), // missing mandatory identifier
        plane_report("ok0001", None, None, Some(2)),
    ];
    let evs = process_batch(&mut store, &batch, 0);
    assert_eq!(evs.len(), 1);
    assert_eq!(store.len(), 1);
}

#[test]
fn vessel_altitude_defaults_to_ground_level() {
    let key = IdentityKey::Vessel { mmsi: 1 };
    let pos = Position { latitude: Some(3_206_333), longitude: Some(97_426_758), altitude: None, heading: None };
    let coords = to_coords(&key, &pos);
    assert_eq!(coords.latitude, Some(3_206_333));
    assert_eq!(coords.longitude, Some(97_426_758));
    // the vessel feed reports no altitude: ground-level sentinel
    assert_eq!(coords.altitude, Some(0));
    assert_eq!(coords.heading, None);
}

#[test]
fn aircraft_absent_position_fields_stay_absent() {
    let key = IdentityKey::Aircraft { icao: "ab1234".to_string() };
    let pos = Position { latitude: Some(10_000_000), longitude: None, altitude: None, heading: Some(90_000_000) };
    let coords = to_coords(&key, &pos);
    assert_eq!(coords.latitude, Some(10_000_000));
    assert_eq!(coords.longitude, None);
    assert_eq!(coords.altitude, None);
    assert_eq!(coords.heading, Some(90_000_000));
}

#[test]
fn aircraft_property_list_order_and_content() {
    let key = IdentityKey::Aircraft { icao: "ab1234".to_string() };
    let fields = Descriptor {
        name: None,
        country: Some("Japan".to_string()),
        callsign: Some("JAL123".to_string()),
    };
    let props = to_props(&key, &fields);
    assert_eq!(props.len(), 4);
    assert_eq!(props[0].tag, PropertyTag::Name);
    assert_eq!(props[0].value, "ab1234");
    assert_eq!(props[1].tag, PropertyTag::Icao);
    assert_eq!(props[1].value, "ab1234");
    assert_eq!(props[2].tag, PropertyTag::Country);
    assert_eq!(props[2].value, "Japan");
    assert_eq!(props[3].tag, PropertyTag::CallSign);
    assert_eq!(props[3].value, "JAL123");
}

#[test]
fn aircraft_absent_properties_are_omitted() {
    let key = IdentityKey::Aircraft { icao: "cd5678".to_string() };
    let fields = Descriptor { name: None, country: None, callsign: None };
    let props = to_props(&key, &fields);
    assert_eq!(props.len(), 2);
    assert_eq!(props[0].tag, PropertyTag::Name);
    assert_eq!(props[1].tag, PropertyTag::Icao);
}

#[test]
fn vessel_property_list() {
    let key = IdentityKey::Vessel { mmsi: 563_012_345 };
    let fields = Descriptor { name: Some("EVER GIVEN".to_string()), country: None, callsign: None };
    let props = to_props(&key, &fields);
    assert_eq!(props.len(), 2);
    assert_eq!(props[0].tag, PropertyTag::CallSign);
    assert_eq!(props[0].value, "EVER GIVEN");
    assert_eq!(props[1].tag, PropertyTag::Kind);
    assert_eq!(props[1].value, "Watercraft");
}

#[test]
fn vessel_without_name_still_gets_category() {
    let key = IdentityKey::Vessel { mmsi: 2 };
    let fields = Descriptor { name: None, country: None, callsign: None };
    let props = to_props(&key, &fields);
    assert_eq!(props.len(), 1);
    assert_eq!(props[0].tag, PropertyTag::Kind);
    assert_eq!(props[0].value, "Watercraft");
}

#[test]
fn empty_batch_emits_nothing() {
    let mut store = TrackStore::new();
    let evs = process_batch(&mut store, &Vec::new(), 0);
    assert!(evs.is_empty());
    assert_eq!(store.len(), 0);
}
