//! Incoming reports: the already-decoded payload an adapter hands the
//! engine for one object — descriptive fields and an optional position.
//!
//! Coordinates are carried as fixed-point integers in micro-units so that
//! the engine can compare and forward them exactly: latitude, longitude and
//! heading in microdegrees (degrees times one million), altitude in
//! micrometers. Any subset of the position may be absent when the feed did
//! not report it.

use vstd::prelude::*;
use vstd::string::StrSliceExecFns;
use crate::ids::IdentityKey;
use crate::ids::KeyModel;

verus! {

/// Feed-specific descriptive attributes, opaque to the engine beyond
/// field-wise equality. Absent optional fields were not reported.
pub struct Descriptor {
    /// Display name (ship name for vessels; absent for aircraft).
    pub name: Option<String>,
    /// Country inferred from the identifier (aircraft feed only).
    pub country: Option<String>,
    /// Callsign of the vehicle, when one has been received.
    pub callsign: Option<String>,
}

/// Mathematical value of a `Descriptor`.
pub struct DescModel {
    pub name: Option<Seq<char>>,
    pub country: Option<Seq<char>>,
    pub callsign: Option<Seq<char>>,
}

/// Last-known position; each field may be absent independently.
/// Latitude, longitude and heading are in microdegrees, altitude in
/// micrometers.
pub struct Position {
    pub latitude: Option<i64>,
    pub longitude: Option<i64>,
    pub altitude: Option<i64>,
    pub heading: Option<i64>,
}

/// Mathematical value of a `Position` (the fields are already plain).
pub struct PosModel {
    pub latitude: Option<i64>,
    pub longitude: Option<i64>,
    pub altitude: Option<i64>,
    pub heading: Option<i64>,
}

/// One decoded report delivered by a feed adapter.
pub struct Report {
    pub key: IdentityKey,
    pub fields: Descriptor,
    pub position: Position,
}

/// Mathematical value of a `Report`.
pub struct ReportModel {
    pub key: KeyModel,
    pub fields: DescModel,
    pub position: PosModel,
}

pub open spec fn opt_str_view(o: Option<String>) -> Option<Seq<char>> {
    match o {
        Option::Some(s) => Option::Some(s@),
        Option::None => Option::None,
    }
}

impl View for Descriptor {
    type V = DescModel;

    open spec fn view(&self) -> DescModel {
        DescModel {
            name: opt_str_view(self.name),
            country: opt_str_view(self.country),
            callsign: opt_str_view(self.callsign),
        }
    }
}

impl View for Position {
    type V = PosModel;

    open spec fn view(&self) -> PosModel {
        PosModel {
            latitude: self.latitude,
            longitude: self.longitude,
            altitude: self.altitude,
            heading: self.heading,
        }
    }
}

impl View for Report {
    type V = ReportModel;

    open spec fn view(&self) -> ReportModel {
        ReportModel { key: self.key@, fields: self.fields@, position: self.position@ }
    }
}

fn opt_string_eq(a: &Option<String>, b: &Option<String>) -> (r: bool)
    ensures
        r == (opt_str_view(*a) == opt_str_view(*b)),
{
    match (a, b) {
        (Option::Some(x), Option::Some(y)) => *x == *y,
        (Option::None, Option::None) => true,
        _ => false,
    }
}

fn opt_i64_eq(a: &Option<i64>, b: &Option<i64>) -> (r: bool)
    ensures
        r == (*a == *b),
{
    match (a, b) {
        (Option::Some(x), Option::Some(y)) => *x == *y,
        (Option::None, Option::None) => true,
        _ => false,
    }
}

fn clone_opt_string(o: &Option<String>) -> (r: Option<String>)
    ensures
        opt_str_view(r) == opt_str_view(*o),
{
    match o {
        Option::Some(s) => Option::Some(s.clone()),
        Option::None => Option::None,
    }
}

impl Descriptor {
    /// Field-wise (structural) equality of descriptive attributes.
    pub fn same_fields(&self, other: &Descriptor) -> (r: bool)
        ensures
            r == (self@ == other@),
    {
        opt_string_eq(&self.name, &other.name) && opt_string_eq(&self.country, &other.country)
            && opt_string_eq(&self.callsign, &other.callsign)
    }
}

impl Clone for Descriptor {
    fn clone(&self) -> (r: Self)
        ensures
            r@ == self@,
    {
        Descriptor {
            name: clone_opt_string(&self.name),
            country: clone_opt_string(&self.country),
            callsign: clone_opt_string(&self.callsign),
        }
    }
}

impl Position {
    /// Field-wise (structural) equality of positions.
    pub fn same_position(&self, other: &Position) -> (r: bool)
        ensures
            r == (self@ == other@),
    {
        opt_i64_eq(&self.latitude, &other.latitude)
            && opt_i64_eq(&self.longitude, &other.longitude)
            && opt_i64_eq(&self.altitude, &other.altitude)
            && opt_i64_eq(&self.heading, &other.heading)
    }
}

impl Clone for Position {
    fn clone(&self) -> (r: Self)
        ensures
            r@ == self@,
    {
        Position {
            latitude: self.latitude,
            longitude: self.longitude,
            altitude: self.altitude,
            heading: self.heading,
        }
    }
}

/// A report is valid when its mandatory identifier is present: an aircraft
/// key must carry a non-empty hex address. Invalid reports are skipped by
/// the reconciliation pass and never create a partial record.
pub open spec fn valid_report(r: ReportModel) -> bool {
    match r.key {
        KeyModel::Aircraft { icao } => icao.len() > 0,
        KeyModel::Vessel { mmsi: _ } => true,
    }
}

impl Report {
    /// Runtime check of `valid_report`.
    pub fn is_valid(&self) -> (r: bool)
        ensures
            r == valid_report(self@),
    {
        match &self.key {
            IdentityKey::Aircraft { icao } => icao.as_str().unicode_len() > 0,
            IdentityKey::Vessel { mmsi: _ } => true,
        }
    }
}

} // verus!
