//! Events of iCalendar feeds, normalised to UTC.
//!
//! The crate turns what was fetched from a calendar feed into a list of
//! events, each an instant of UTC with a summary, sorted by start, and
//! selects from it the events of one day, or of that day and after.
//!
//! Fetching itself is the caller's business, and so is the clock: the
//! functions here take the response and the present instant as arguments.

pub mod civil;
pub mod event;
pub mod feed;
pub mod instant;
pub mod order;
pub mod pattern;
pub mod pipeline;
pub mod record;
pub mod resolve;
pub mod text;
pub mod zone;

pub use crate::civil::CivilDateTime;
pub use crate::event::{parse_events, Event};
pub use crate::feed::ParsedFeed;
pub use crate::instant::Instant;
pub use crate::pipeline::{
    events_from_ical_url, events_from_ical_urls, events_today, future_events, FetchError, Fetched,
};
pub use crate::record::{Parameter, Property, RawEvent};
pub use crate::resolve::{
    resolve, try_read_timezone, try_read_timezone_datetime, try_read_utc_datetime,
};
pub use crate::zone::LocalOffset;
