//! The body of a feed, taken apart into the records of its first
//! calendar.

use crate::record::{Property, RawEvent, RawEventView};
use vstd::prelude::*;

verus! {

/// What the structural parser makes of the body of a feed.
#[derive(Clone, Debug, PartialEq, Eq)]
pub enum ParsedFeed {
    /// The parser found nothing to read: the body holds no line with
    /// text in it, or its first line is only white space, or its first
    /// line is not UTF-8. What follows such a first line is not looked at.
    NoCalendar,
    /// The first line does not begin a calendar, or the first calendar is
    /// broken.
    Malformed,
    /// The events of the first calendar, as they stand in it.
    Calendar(Vec<RawEvent>),
}

/// A parsed feed as mathematics sees it.
pub enum FeedView {
    NoCalendar,
    Malformed,
    Calendar(Seq<RawEventView>),
}

impl View for ParsedFeed {
    type V = FeedView;

    open spec fn view(&self) -> FeedView {
        match self {
            ParsedFeed::NoCalendar => FeedView::NoCalendar,
            ParsedFeed::Malformed => FeedView::Malformed,
            ParsedFeed::Calendar(events) => FeedView::Calendar(events.deep_view()),
        }
    }
}

/// What the structural parser makes of the bytes `feed`, as far as its
/// first calendar.
pub uninterp spec fn first_calendar(feed: Seq<u8>) -> FeedView;

/// Parses the first calendar of a feed.
///
/// Calls `ical::IcalParser::new` on the bytes and takes the first item of
/// the iterator it returns. That is nothing where the parser's line
/// reader gives no first line: the bytes hold no line with text in it, or
/// the first line is only white space, or the first line is not UTF-8,
/// whatever follows it. It is an error where the first line does not
/// begin a calendar or the calendar does not parse. Else it is the
/// calendar, of which the events' properties are kept. The contract says
/// only that the outcome is a function of the bytes.
#[verifier::external_body]
pub(crate) fn parse_first_calendar(feed: &[u8]) -> (parsed: ParsedFeed)
    ensures
        parsed@ == first_calendar(feed@),
{
    match ical::IcalParser::new(feed).next() {
        None => ParsedFeed::NoCalendar,
        Some(Err(_)) => ParsedFeed::Malformed,
        Some(Ok(calendar)) => ParsedFeed::Calendar(
            calendar.events.into_iter().map(|event| RawEvent {
                properties: event.properties.into_iter().map(|property| Property {
                    name: property.name,
                    params: property.params,
                    value: property.value,
                }).collect(),
            }).collect(),
        ),
    }
}

} // verus!
