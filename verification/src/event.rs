//! Events, and how they are read from the records of a calendar.

use crate::instant::Instant;
use crate::record::{find_property, first_named, Property, RawEvent, RawEventView};
use crate::resolve::{resolve, start_instant};
use vstd::prelude::*;

verus! {

/// An event of a calendar: when it starts, and what it is called.
#[derive(Clone, Debug, PartialEq, Eq)]
pub struct Event {
    /// The start, as an instant of UTC whatever form the calendar wrote
    /// it in.
    pub start: Instant,
    /// The text of the calendar's summary, as it stood there.
    pub summary: String,
}

/// An event as mathematics sees it.
pub struct EventView {
    pub start: Instant,
    pub summary: Seq<char>,
}

impl View for Event {
    type V = EventView;

    open spec fn view(&self) -> EventView {
        EventView { start: self.start, summary: self.summary@ }
    }
}

impl DeepView for Event {
    type V = EventView;

    open spec fn deep_view(&self) -> EventView {
        self@
    }
}

/// The event that a record holds: the instant of its first `DTSTART`,
/// with the text of its first `SUMMARY`. A record without one of the two,
/// with no text in the summary, or with a start that names no instant,
/// holds none.
pub open spec fn event_of(record: RawEventView) -> Option<EventView> {
    match (first_named(record.properties, "DTSTART"@), first_named(record.properties, "SUMMARY"@)) {
        (Some(start), Some(summary)) => match (start_instant(start), summary.value) {
            (Some(instant), Some(text)) => if text.len() > 0 {
                Some(EventView { start: instant, summary: text })
            } else {
                None
            },
            _ => None,
        },
        _ => None,
    }
}

/// The events that the records hold, in the order of the records.
pub open spec fn events_of(records: Seq<RawEventView>) -> Seq<EventView> {
    records.filter_map(|record: RawEventView| event_of(record))
}

/// A record that lacks `DTSTART` or `SUMMARY` holds no event.
pub proof fn lemma_event_needs_start_and_summary(record: RawEventView)
    requires
        first_named(record.properties, "DTSTART"@) is None || first_named(
            record.properties,
            "SUMMARY"@,
        ) is None,
    ensures
        event_of(record) is None,
{
}

/// Each event read from records is the event of one of them, and so of
/// one that has both `DTSTART` and `SUMMARY`; its summary is not empty.
pub proof fn lemma_events_stem_from_records(records: Seq<RawEventView>, at: int)
    requires
        0 <= at < events_of(records).len(),
    ensures
        exists|from: int|
            0 <= from < records.len() && event_of(#[trigger] records[from]) == Some(
                events_of(records)[at],
            ) && first_named(records[from].properties, "DTSTART"@) is Some && first_named(
                records[from].properties,
                "SUMMARY"@,
            ) is Some,
        events_of(records)[at].summary.len() > 0,
{
    let event = events_of(records)[at];
    let reader = |record: RawEventView| event_of(record);
    assert(records.filter_map(reader).contains(event));
    records.lemma_filter_map_contains(reader, event);
    let record = choose|record: RawEventView| #[trigger]
        records.contains(record) && reader(record) == Some(event);
    let from = choose|from: int| 0 <= from < records.len() && records[from] == record;
    assert(event_of(records[from]) == Some(event));
}

/// Records hold at most one event each.
pub proof fn lemma_events_no_more_than_records(records: Seq<RawEventView>)
    ensures
        events_of(records).len() <= records.len(),
    decreases records.len(),
{
    if records.len() > 0 {
        lemma_events_no_more_than_records(records.drop_last());
    }
}

/// Reads the event that a record holds.
pub fn read_event(record: &RawEvent) -> (event: Option<Event>)
    ensures
        event.deep_view() == event_of(record@),
{
    let start: &Property = match find_property(&record.properties, "DTSTART") {
        Some(start) => start,
        None => {
            return None;
        },
    };
    let summary: &Property = match find_property(&record.properties, "SUMMARY") {
        Some(summary) => summary,
        None => {
            return None;
        },
    };
    let text: &String = match &summary.value {
        Some(text) => text,
        None => {
            return None;
        },
    };
    if text.as_str().is_empty() {
        return None;
    }
    match resolve(start) {
        Some(instant) => Some(Event { start: instant, summary: text.clone() }),
        None => None,
    }
}

/// Reads the events that the records hold, in the order of the records.
/// Records that hold none are passed over.
pub fn parse_events(events: Vec<RawEvent>) -> (parsed: Vec<Event>)
    ensures
        parsed.deep_view() == events_of(events.deep_view()),
        parsed.len() <= events.len(),
{
    let ghost records = events.deep_view();
    let mut parsed: Vec<Event> = Vec::new();
    let mut at: usize = 0;
    while at < events.len()
        invariant
            at <= events.len(),
            records == events.deep_view(),
            parsed.deep_view() == events_of(records.take(at as int)),
        decreases events.len() - at,
    {
        proof {
            records.lemma_filter_map_take_succ(|record: RawEventView| event_of(record), at as int);
        }
        let ghost before = parsed.deep_view();
        match read_event(&events[at]) {
            Some(event) => {
                parsed.push(event);
                assert(parsed.deep_view() =~= before + seq![event@]);
            },
            None => {},
        }
        at += 1;
    }
    proof {
        assert(records.take(at as int) =~= records);
        lemma_events_no_more_than_records(records);
    }
    parsed
}

} // verus!
