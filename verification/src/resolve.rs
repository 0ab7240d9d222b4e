//! From the start property of an event to the instant it names.
//!
//! A start is written in one of two forms. `YYYYMMDDTHHMMSSZ` gives the
//! fields of a clock set to UTC. `YYYYMMDDTHHMMSS` gives the fields of a
//! clock in the zone that the parameter `TZID` names. The first form is
//! tried first; a value in neither form, or in the second without a known
//! zone, names no instant.

use crate::civil::{utc_fields, CivilDateTime, lemma_seconds_bounds, lemma_utc_fields};
use crate::instant::Instant;
use crate::pattern::{local_form, read_local_form, read_utc_form, utc_form};
use crate::record::{find_zone_name, zone_name, Parameter, ParameterView, Property, PropertyView};
use crate::zone::{is_known_zone, offset_at_local, zone_known, zone_offset, LocalOffset};
use vstd::prelude::*;

verus! {

/// The instant that a value in the form `YYYYMMDDTHHMMSSZ` names.
pub open spec fn utc_instant(value: Option<Seq<char>>) -> Option<Instant> {
    match value {
        Some(text) => match utc_form(text) {
            Some(fields) => if fields.valid() {
                Some(fields.instant())
            } else {
                None
            },
            None => None,
        },
        None => None,
    }
}

/// The zone that the parameters name, where the time zone database knows
/// it.
pub open spec fn known_zone(params: Option<Seq<ParameterView>>) -> Option<Seq<char>> {
    match zone_name(params) {
        Some(name) => if zone_known(name) {
            Some(name)
        } else {
            None
        },
        None => None,
    }
}

/// The fields that clocks running `east` seconds ahead of UTC show at
/// `instant`: those that a clock set to UTC shows that much later.
pub open spec fn local_fields(instant: Instant, east: int) -> CivilDateTime {
    utc_fields(instant.later_by(east))
}

/// The instant at which the clocks of a zone show `fields`, given what the
/// time zone database says of that wall-clock time: none unless the fields
/// are valid and the clocks showed them exactly once.
pub open spec fn instant_at_offset(fields: CivilDateTime, offset: LocalOffset) -> Option<
    Instant,
> {
    match offset {
        LocalOffset::Single(east) => if fields.valid() {
            Some(fields.instant().later_by(-east))
        } else {
            None
        },
        _ => None,
    }
}

/// The instant that a value in the form `YYYYMMDDTHHMMSS` names, read in
/// the zone of the parameter `TZID`.
pub open spec fn zoned_instant(property: PropertyView) -> Option<Instant> {
    match (known_zone(property.params), property.value) {
        (Some(zone), Some(text)) => match local_form(text) {
            Some(fields) => if fields.valid() {
                instant_at_offset(fields, zone_offset(zone, fields.seconds()))
            } else {
                None
            },
            None => None,
        },
        _ => None,
    }
}

/// The instant that a start property names: read as UTC where the value
/// has that form, else in the zone of its parameters.
pub open spec fn start_instant(property: PropertyView) -> Option<Instant> {
    match utc_instant(property.value) {
        Some(instant) => Some(instant),
        None => zoned_instant(property),
    }
}

/// A valid value in the form `YYYYMMDDTHHMMSSZ` names the instant at which
/// a clock set to UTC shows exactly the fields written.
pub proof fn lemma_utc_instant_shows_fields(text: Seq<char>)
    requires
        utc_form(text) is Some,
        utc_form(text).unwrap().valid(),
    ensures
        utc_instant(Some(text)) is Some,
        utc_fields(utc_instant(Some(text)).unwrap()) == utc_form(text).unwrap(),
{
    lemma_utc_fields(utc_form(text).unwrap());
}

/// The instant found for fields read in a zone is one at which clocks as
/// far ahead of UTC as the zone's show exactly those fields.
pub proof fn lemma_instant_at_offset_shows_fields(fields: CivilDateTime, east: i32)
    requires
        fields.valid(),
    ensures
        instant_at_offset(fields, LocalOffset::Single(east)) is Some,
        local_fields(
            instant_at_offset(fields, LocalOffset::Single(east)).unwrap(),
            east as int,
        ) == fields,
{
    lemma_seconds_bounds(fields);
    lemma_utc_fields(fields);
}

/// An instant found for a start read in a zone comes from a known zone, a
/// value in the form `YYYYMMDDTHHMMSS` with valid fields, and a single
/// offset of the zone at those fields; and at that instant, clocks that
/// far ahead of UTC show exactly the fields written.
pub proof fn lemma_zoned_instant_shows_fields(property: PropertyView)
    requires
        zoned_instant(property) is Some,
    ensures
        known_zone(property.params) is Some,
        property.value is Some,
        local_form(property.value.unwrap()) is Some,
        local_form(property.value.unwrap()).unwrap().valid(),
        ({
            let fields = local_form(property.value.unwrap()).unwrap();
            let zone = known_zone(property.params).unwrap();
            &&& zone_offset(zone, fields.seconds()) is Single
            &&& local_fields(
                zoned_instant(property).unwrap(),
                zone_offset(zone, fields.seconds())->Single_0 as int,
            ) == fields
        }),
{
    let fields = local_form(property.value.unwrap()).unwrap();
    let zone = known_zone(property.params).unwrap();
    lemma_instant_at_offset_shows_fields(fields, zone_offset(zone, fields.seconds())->Single_0);
}

/// A value that is not in the UTC form names no instant unless its
/// parameters name a zone that the time zone database knows: it is never
/// read as UTC.
pub proof fn lemma_no_zone_no_instant(property: PropertyView)
    requires
        utc_instant(property.value) is None,
        zone_name(property.params) is None || !zone_known(zone_name(property.params).unwrap()),
    ensures
        start_instant(property) is None,
{
}

/// Reads the value of a start property in the form `YYYYMMDDTHHMMSSZ`.
pub fn try_read_utc_datetime(start_property: &Property) -> (instant: Option<Instant>)
    ensures
        instant == utc_instant(start_property@.value),
        instant is Some ==> utc_fields(instant.unwrap()) == utc_form(
            start_property@.value.unwrap(),
        ).unwrap(),
{
    let text = match &start_property.value {
        Some(text) => text,
        None => {
            return None;
        },
    };
    match read_utc_form(text.as_str()) {
        Some(fields) => {
            proof {
                if fields.valid() {
                    lemma_utc_fields(fields);
                }
            }
            fields.to_instant()
        },
        None => None,
    }
}

/// The zone that the parameter `TZID` names, where the time zone database
/// knows it.
pub fn try_read_timezone<'a>(params: Option<&'a Vec<Parameter>>) -> (zone: Option<&'a str>)
    ensures
        zone.deep_view() == known_zone(params.deep_view()),
{
    match find_zone_name(params) {
        Some(name) => {
            if is_known_zone(name) {
                Some(name)
            } else {
                None
            }
        },
        None => None,
    }
}

/// The instant at which the clocks of a zone show `fields`, given what the
/// time zone database says of that wall-clock time.
pub fn instant_in_zone(fields: &CivilDateTime, offset: LocalOffset) -> (instant: Option<
    Instant,
>)
    ensures
        instant == instant_at_offset(*fields, offset),
{
    match (offset, fields.seconds_from_epoch()) {
        (LocalOffset::Single(east), Some(local)) => Some(
            Instant { secs: local - east as i64, leap: fields.second == 60 },
        ),
        _ => None,
    }
}

/// Reads the value of a start property in the form `YYYYMMDDTHHMMSS`, in
/// the zone of its parameter `TZID`.
pub fn try_read_timezone_datetime(start_property: &Property) -> (instant: Option<Instant>)
    ensures
        instant == zoned_instant(start_property@),
{
    let zone = match try_read_timezone(start_property.params.as_ref()) {
        Some(zone) => zone,
        None => {
            return None;
        },
    };
    let text = match &start_property.value {
        Some(text) => text,
        None => {
            return None;
        },
    };
    let fields = match read_local_form(text.as_str()) {
        Some(fields) => fields,
        None => {
            return None;
        },
    };
    match fields.seconds_from_epoch() {
        Some(local) => instant_in_zone(&fields, offset_at_local(zone, local)),
        None => None,
    }
}

/// The instant that a start property names.
pub fn resolve(start_property: &Property) -> (instant: Option<Instant>)
    ensures
        instant == start_instant(start_property@),
{
    match try_read_utc_datetime(start_property) {
        Some(instant) => Some(instant),
        None => try_read_timezone_datetime(start_property),
    }
}

} // verus!
