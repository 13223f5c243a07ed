//! End-to-end behaviour of the reconciliation engine: spawn, change
//! suppression, timeout eviction, handle freshness and liveness toggling.

use tacview_live::driver::{process_report, sweep_expired};
use tacview_live::events::EventKind;
use tacview_live::ids::IdentityKey;
use tacview_live::report::{Descriptor, Position, Report};
use tacview_live::store::{Outcome, TrackStore};

fn aircraft_key(icao: &str) -> IdentityKey {
    IdentityKey::Aircraft { icao: icao.to_string() }
}

fn no_fields() -> Descriptor {
    Descriptor { name: None, country: None, callsign: None }
}

fn no_position() -> Position {
    Position { latitude: None, longitude: None, altitude: None, heading: None }
}

fn aircraft_report(icao: &str, lat_udeg: Option<i64>, lon_udeg: Option<i64>, callsign: Option<&str>) -> Report {
    Report {
        key: aircraft_key(icao),
        fields: Descriptor {
            name: None,
            country: None,
            callsign: callsign.map(|c| c.to_string()),
        },
        position: Position { latitude: lat_udeg, longitude: lon_udeg, altitude: None, heading: None },
    }
}

fn micro(degrees: f64) -> i64 {
    (degrees * 1_000_000.0).round() as i64
}

#[test]
fn scenario_spawn_suppress_update_destroy_respawn() {
    let timeout: u64 = 30;
    let mut store = TrackStore::new();

    // first report for an unseen key spawns with full payload
    let r1 = aircraft_report("AB1234", Some(micro(10.0)), Some(micro(20.0)), Some("JAL123"));
    let ev1 = process_report(&mut store, &r1, 0).expect("first report must spawn");
    assert_eq!(ev1.kind, EventKind::Spawn);
    let h1 = ev1.handle;
    let coords1 = ev1.coords.as_ref().expect("spawn carries coords");
    assert_eq!(coords1.latitude, Some(10_000_000));
    assert_eq!(coords1.longitude, Some(20_000_000));
    let props1 = ev1.props.as_ref().expect("spawn carries props");
    assert!(props1.iter().any(|p| p.value == "JAL123"));

    // an identical re-report emits nothing but advances last_seen
    let r2 = aircraft_report("AB1234", Some(micro(10.0)), Some(micro(20.0)), Some("JAL123"));
    let ev2 = process_report(&mut store, &r2, 5);
    assert!(ev2.is_none());
    let rec = store.get(&aircraft_key("AB1234")).expect("record is live");
    assert_eq!(rec.last_seen, 5);

    // a genuinely changed report updates, on the same handle
    let r3 = aircraft_report("AB1234", Some(micro(10.5)), Some(micro(20.0)), Some("JAL123"));
    let ev3 = process_report(&mut store, &r3, 6).expect("changed report must update");
    assert_eq!(ev3.kind, EventKind::Update);
    assert_eq!(ev3.handle, h1);
    let coords3 = ev3.coords.as_ref().expect("update carries coords");
    assert_eq!(coords3.latitude, Some(10_500_000));
    assert_eq!(coords3.longitude, Some(20_000_000));

    // after the timeout elapses the sweeper destroys the record
    let destroys = sweep_expired(&mut store, 6 + timeout + 1, timeout);
    assert_eq!(destroys.len(), 1);
    assert_eq!(destroys[0].kind, EventKind::Destroy);
    assert_eq!(destroys[0].handle, h1);
    assert!(destroys[0].coords.is_none());
    assert!(destroys[0].props.is_none());
    assert_eq!(store.len(), 0);

    // the key is now eligible for a fresh spawn, with a fresh handle
    let r4 = aircraft_report("AB1234", Some(micro(10.5)), Some(micro(20.0)), Some("JAL123"));
    let ev4 = process_report(&mut store, &r4, 40).expect("re-created key must spawn");
    assert_eq!(ev4.kind, EventKind::Spawn);
    assert_ne!(ev4.handle, h1);
}

#[test]
fn identical_reports_only_first_spawns() {
    let mut store = TrackStore::new();
    let r = aircraft_report("abc9f3", Some(1_000_000), None, None);
    assert!(process_report(&mut store, &r, 0).is_some());
    for t in 1..5u64 {
        let again = aircraft_report("abc9f3", Some(1_000_000), None, None);
        assert!(process_report(&mut store, &again, t).is_none());
        assert_eq!(store.get(&aircraft_key("abc9f3")).unwrap().last_seen, t);
    }
    assert_eq!(store.len(), 1);
}

#[test]
fn one_record_per_key() {
    let mut store = TrackStore::new();
    for t in 0..4u64 {
        let a = aircraft_report("aaa111", Some(t as i64), None, None);
        let b = aircraft_report("bbb222", Some(t as i64), None, None);
        let v = Report {
            key: IdentityKey::Vessel { mmsi: 563_012_345 },
            fields: no_fields(),
            position: no_position(),
        };
        process_report(&mut store, &a, t);
        process_report(&mut store, &b, t);
        process_report(&mut store, &v, t);
    }
    // three distinct keys, twelve reports, three records
    assert_eq!(store.len(), 3);
}

#[test]
fn upsert_outcomes() {
    let mut store = TrackStore::new();
    let r = aircraft_report("c0ffee", Some(2_000_000), None, Some("ANA42"));
    assert_eq!(store.upsert(&r, 0), Outcome::Added);
    let same = aircraft_report("c0ffee", Some(2_000_000), None, Some("ANA42"));
    assert_eq!(store.upsert(&same, 1), Outcome::Unchanged);
    let moved = aircraft_report("c0ffee", Some(2_500_000), None, Some("ANA42"));
    assert_eq!(store.upsert(&moved, 2), Outcome::Changed);
}

#[test]
fn sweep_evicts_stale_keeps_fresh() {
    let timeout: u64 = 10;
    let mut store = TrackStore::new();
    let stale = aircraft_report("stale1", None, None, None);
    let fresh = aircraft_report("fresh1", None, None, None);
    let ev_stale = process_report(&mut store, &stale, 0).unwrap();
    process_report(&mut store, &fresh, 15);
    let destroys = sweep_expired(&mut store, 20, timeout);
    assert_eq!(destroys.len(), 1);
    assert_eq!(destroys[0].handle, ev_stale.handle);
    assert_eq!(store.len(), 1);
    assert!(store.get(&aircraft_key("stale1")).is_none());
    assert!(store.get(&aircraft_key("fresh1")).is_some());
}

#[test]
fn sweep_window_is_strict() {
    let timeout: u64 = 10;
    let mut store = TrackStore::new();
    let r = aircraft_report("edge01", None, None, None);
    process_report(&mut store, &r, 0);
    // age exactly equal to the window is not stale
    assert_eq!(sweep_expired(&mut store, 10, timeout).len(), 0);
    assert_eq!(store.len(), 1);
    // one tick past the window is
    assert_eq!(sweep_expired(&mut store, 11, timeout).len(), 1);
    assert_eq!(store.len(), 0);
}

#[test]
fn refreshed_record_not_swept_same_tick() {
    let timeout: u64 = 10;
    let mut store = TrackStore::new();
    let r = aircraft_report("race01", None, None, None);
    process_report(&mut store, &r, 0);
    // the report arrives in the same tick the sweeper runs: upsert wins
    let again = aircraft_report("race01", None, None, None);
    process_report(&mut store, &again, 100);
    assert_eq!(sweep_expired(&mut store, 100, timeout).len(), 0);
    assert_eq!(store.len(), 1);
}

#[test]
fn recreated_record_gets_fresh_handle() {
    let timeout: u64 = 5;
    let mut store = TrackStore::new();
    let mut handles = Vec::new();
    for round in 0..3u64 {
        let t = round * 100;
        let r = aircraft_report("reborn", None, None, None);
        let ev = process_report(&mut store, &r, t).expect("spawn after eviction");
        handles.push(ev.handle);
        sweep_expired(&mut store, t + timeout + 1, timeout);
    }
    assert_ne!(handles[0], handles[1]);
    assert_ne!(handles[1], handles[2]);
    assert_ne!(handles[0], handles[2]);
}

#[test]
fn liveness_flag_toggles_on_change_only() {
    let mut store = TrackStore::new();
    let key = aircraft_key("beef00");
    let r = aircraft_report("beef00", Some(1), None, None);
    process_report(&mut store, &r, 0);
    let initial = store.get(&key).unwrap().live;
    assert!(initial);

    // identical re-report: flag holds still
    let same = aircraft_report("beef00", Some(1), None, None);
    process_report(&mut store, &same, 1);
    assert_eq!(store.get(&key).unwrap().live, initial);

    // change: flag flips
    let moved = aircraft_report("beef00", Some(2), None, None);
    process_report(&mut store, &moved, 2);
    assert_eq!(store.get(&key).unwrap().live, !initial);

    // change back: flag flips again
    let back = aircraft_report("beef00", Some(1), None, None);
    process_report(&mut store, &back, 3);
    assert_eq!(store.get(&key).unwrap().live, initial);
}

#[test]
fn invalid_report_is_skipped() {
    let mut store = TrackStore::new();
    let bad = aircraft_report("", Some(1), None, None);
    assert!(process_report(&mut store, &bad, 0).is_none());
    assert_eq!(store.len(), 0);
}

#[test]
fn remove_is_idempotent() {
    let mut store = TrackStore::new();
    let r = aircraft_report("gone01", None, None, None);
    process_report(&mut store, &r, 0);
    assert_eq!(store.len(), 1);
    store.remove(&aircraft_key("gone01"));
    assert_eq!(store.len(), 0);
    // removing an absent key is a no-op
    store.remove(&aircraft_key("gone01"));
    assert_eq!(store.len(), 0);
}

#[test]
fn sweep_reports_key_and_handle() {
    let timeout: u64 = 1;
    let mut store = TrackStore::new();
    let r = aircraft_report("ffee00", None, None, None);
    let ev = process_report(&mut store, &r, 0).unwrap();
    let evicted = store.sweep(10, timeout);
    assert_eq!(evicted.len(), 1);
    assert_eq!(evicted[0].handle, ev.handle);
    assert!(matches!(&evicted[0].key, IdentityKey::Aircraft { icao } if icao == "ffee00"));
}

#[test]
fn contains_key_tracks_lifecycle() {
    let mut store = TrackStore::new();
    let key = aircraft_key("aabbcc");
    assert!(!store.contains_key(&key));
    process_report(&mut store, &aircraft_report("aabbcc", None, None, None), 0);
    assert!(store.contains_key(&key));
    store.remove(&key);
    assert!(!store.contains_key(&key));
}

#[test]
fn handle_counter_only_moves_forward() {
    let timeout: u64 = 1;
    let mut store = TrackStore::new();
    assert_eq!(store.next_handle(), 0);
    process_report(&mut store, &aircraft_report("h0", None, None, None), 0);
    assert_eq!(store.next_handle(), 1);
    // identical and changed re-reports allocate nothing
    process_report(&mut store, &aircraft_report("h0", None, None, None), 1);
    process_report(&mut store, &aircraft_report("h0", Some(5), None, None), 2);
    assert_eq!(store.next_handle(), 1);
    // eviction does not reclaim handles
    sweep_expired(&mut store, 10, timeout);
    assert_eq!(store.next_handle(), 1);
    process_report(&mut store, &aircraft_report("h0", None, None, None), 11);
    assert_eq!(store.next_handle(), 2);
}

#[test]
fn keys_are_feed_scoped() {
    let mut store = TrackStore::new();
    // an aircraft and a vessel never share a key, whatever the raw values
    let a = aircraft_report("123456", None, None, None);
    let v = Report {
        key: IdentityKey::Vessel { mmsi: 123_456 },
        fields: no_fields(),
        position: no_position(),
    };
    process_report(&mut store, &a, 0);
    let ev = process_report(&mut store, &v, 0);
    assert!(ev.is_some());
    assert_eq!(ev.unwrap().kind, EventKind::Spawn);
    assert_eq!(store.len(), 2);
}
