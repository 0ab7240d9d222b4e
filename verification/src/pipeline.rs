//! From what was fetched to the events asked for.
//!
//! Fetching is left to the caller, who hands over what came back: the
//! status and body of a response, or the news that there was none. What
//! follows is decided here: which responses count, what their bodies hold,
//! in what order the events come, and which of them fall on a day.

use crate::event::{events_of, parse_events, Event, EventView};
use crate::feed::{first_calendar, parse_first_calendar, FeedView, ParsedFeed};
use crate::instant::Instant;
use crate::record::RawEventView;
use crate::order::{is_stable_sort, ordered, sort_by_start, sorted_by_start};
use vstd::prelude::*;

verus! {

/// What came back from fetching a source.
#[derive(Clone, Debug, PartialEq, Eq)]
pub enum Fetched {
    /// No response came: the source could not be reached, or the response
    /// broke off.
    Failed,
    /// A response came, with this HTTP status and this body.
    Response { status: u16, body: Vec<u8> },
}

/// Why a source gave no events.
#[derive(Clone, Copy, Debug, PartialEq, Eq, Structural)]
pub enum FetchError {
    /// No response came.
    Network,
    /// The response had this status, which is not one of success.
    Status(u16),
    /// The structural parser found no calendar in the body: nothing to
    /// read where the first line should be.
    NoCalendar,
    /// The body does not begin a calendar, or its first calendar is
    /// broken.
    Malformed,
}

/// Whether an HTTP status is one of success.
pub open spec fn is_success(status: u16) -> bool {
    200 <= status <= 299
}

/// The events of a parsed feed, sorted by start. A feed in which the
/// parser found no calendar is a failure, as one with a broken calendar
/// is: only a calendar gives events, be it none.
pub open spec fn feed_events(feed: FeedView) -> Result<Seq<EventView>, FetchError> {
    match feed {
        FeedView::NoCalendar => Err(FetchError::NoCalendar),
        FeedView::Malformed => Err(FetchError::Malformed),
        FeedView::Calendar(records) => Ok(sorted_by_start(events_of(records))),
    }
}

/// The records of the first calendar in the body of a response of
/// success.
pub open spec fn fetched_records(fetched: Fetched) -> Option<Seq<RawEventView>> {
    match fetched {
        Fetched::Response { status, body } => if is_success(status) {
            match first_calendar(body@) {
                FeedView::Calendar(records) => Some(records),
                _ => None,
            }
        } else {
            None
        },
        Fetched::Failed => None,
    }
}

/// The events of a source, sorted by start, or why there are none.
pub open spec fn loaded(fetched: Fetched) -> Result<Seq<EventView>, FetchError> {
    match fetched {
        Fetched::Failed => Err(FetchError::Network),
        Fetched::Response { status, body } => if is_success(status) {
            feed_events(first_calendar(body@))
        } else {
            Err(FetchError::Status(status))
        },
    }
}

/// The events of the sources one after the other, or the failure of the
/// first source that has one.
pub open spec fn gathered(fetched: Seq<Fetched>) -> Result<Seq<EventView>, FetchError>
    decreases fetched.len(),
{
    if fetched.len() == 0 {
        Ok(Seq::empty())
    } else {
        match (gathered(fetched.drop_last()), loaded(fetched.last())) {
            (Ok(before), Ok(events)) => Ok(before + events),
            (Ok(_), Err(error)) => Err(error),
            (Err(error), _) => Err(error),
        }
    }
}

/// The events of all the sources, sorted by start, or the failure of the
/// first source that has one.
pub open spec fn loaded_all(fetched: Seq<Fetched>) -> Result<Seq<EventView>, FetchError> {
    match gathered(fetched) {
        Ok(events) => Ok(sorted_by_start(events)),
        Err(error) => Err(error),
    }
}

/// The test that an event starts on the UTC day `day`.
pub open spec fn falls_on(day: int) -> spec_fn(EventView) -> bool {
    |event: EventView| event.start.utc_day() == day
}

/// The test that an event starts on the UTC day `day` or after it.
pub open spec fn falls_from(day: int) -> spec_fn(EventView) -> bool {
    |event: EventView| event.start.utc_day() >= day
}

/// The events that start on the UTC day of `now`.
pub open spec fn today(events: Seq<EventView>, now: Instant) -> Seq<EventView> {
    events.filter(falls_on(now.utc_day()))
}

/// The events that start on the UTC day of `now` or after it.
pub open spec fn future(events: Seq<EventView>, now: Instant) -> Seq<EventView> {
    events.filter(falls_from(now.utc_day()))
}

/// What a list of events, or a failure, is to mathematics.
pub open spec fn outcome(result: Result<Vec<Event>, FetchError>) -> Result<
    Seq<EventView>,
    FetchError,
> {
    match result {
        Ok(events) => Ok(events.deep_view()),
        Err(error) => Err(error),
    }
}

/// The events of a parsed feed, sorted by start. Only a feed with a
/// calendar gives a list.
pub fn events_of_feed(feed: ParsedFeed) -> (events: Result<Vec<Event>, FetchError>)
    ensures
        outcome(events) == feed_events(feed@),
        events is Ok <==> feed@ is Calendar,
        events matches Ok(list) ==> ordered(list.deep_view()),
        feed@ matches FeedView::Calendar(records) ==> (events matches Ok(list) && is_stable_sort(
            list.deep_view(),
            events_of(records),
        )),
{
    match feed {
        ParsedFeed::NoCalendar => Err(FetchError::NoCalendar),
        ParsedFeed::Malformed => Err(FetchError::Malformed),
        ParsedFeed::Calendar(records) => Ok(sort_by_start(parse_events(records))),
    }
}

/// The events of a source, sorted by start: those of the first calendar
/// in the body of a response of success. Anything else is a failure: no
/// response, another status, a body without a calendar or with a broken
/// one.
pub fn events_from_ical_url(fetched: &Fetched) -> (events: Result<Vec<Event>, FetchError>)
    ensures
        outcome(events) == loaded(*fetched),
        events is Ok <==> fetched_records(*fetched) is Some,
        events matches Ok(list) ==> ordered(list.deep_view()),
        fetched_records(*fetched) matches Some(records) ==> (events matches Ok(list)
            && is_stable_sort(list.deep_view(), events_of(records))),
{
    match fetched {
        Fetched::Failed => Err(FetchError::Network),
        Fetched::Response { status, body } => {
            if 200 <= *status && *status <= 299 {
                events_of_feed(parse_first_calendar(body.as_slice()))
            } else {
                Err(FetchError::Status(*status))
            }
        },
    }
}

/// The events of several sources, sorted by start. One source that fails
/// fails the whole.
pub fn events_from_ical_urls(fetched: Vec<Fetched>) -> (events: Result<Vec<Event>, FetchError>)
    ensures
        outcome(events) == loaded_all(fetched@),
        events matches Ok(list) ==> ordered(list.deep_view()),
        gathered(fetched@) matches Ok(all) ==> (events matches Ok(list) && is_stable_sort(
            list.deep_view(),
            all,
        )),
{
    let mut all: Vec<Event> = Vec::new();
    let mut at: usize = 0;
    assert(fetched@.take(0) =~= Seq::<Fetched>::empty());
    assert(all.deep_view() =~= Seq::<EventView>::empty());
    while at < fetched.len()
        invariant
            at <= fetched.len(),
            gathered(fetched@.take(at as int)) == Ok::<Seq<EventView>, FetchError>(
                all.deep_view(),
            ),
        decreases fetched.len() - at,
    {
        let ghost before = all.deep_view();
        proof {
            assert(fetched@.take(at + 1).drop_last() =~= fetched@.take(at as int));
            assert(fetched@.take(at + 1).last() == fetched@[at as int]);
        }
        match events_from_ical_url(&fetched[at]) {
            Ok(mut events) => {
                let ghost added = events.deep_view();
                all.append(&mut events);
                assert(all.deep_view() =~= before + added);
            },
            Err(error) => {
                proof {
                    lemma_failure_stays(fetched@, at + 1);
                }
                return Err(error);
            },
        }
        at += 1;
    }
    assert(fetched@.take(at as int) =~= fetched@);
    Ok(sort_by_start(all))
}

/// Once the sources up to some place have failed, so have all of them,
/// and with the same failure.
pub proof fn lemma_failure_stays(fetched: Seq<Fetched>, upto: int)
    requires
        0 <= upto <= fetched.len(),
        gathered(fetched.take(upto)) is Err,
    ensures
        gathered(fetched) == gathered(fetched.take(upto)),
    decreases fetched.len(),
{
    if upto == fetched.len() {
        assert(fetched.take(upto) =~= fetched);
    } else {
        assert(fetched.drop_last().take(upto) =~= fetched.take(upto));
        lemma_failure_stays(fetched.drop_last(), upto);
    }
}

/// The events that pass `test` are in order where the events are.
pub proof fn lemma_filter_keeps_order(events: Seq<EventView>, test: spec_fn(EventView) -> bool)
    requires
        ordered(events),
    ensures
        ordered(events.filter(test)),
    decreases events.len(),
{
    reveal(Seq::filter);
    if events.len() > 0 {
        let front = events.drop_last();
        assert(ordered(front)) by {
            assert forall|i: int, j: int| 0 <= i <= j < front.len() implies (
            #[trigger] front[i]).start.rank() <= (#[trigger] front[j]).start.rank() by {
                assert(events[i].start.rank() <= events[j].start.rank());
            }
        }
        lemma_filter_keeps_order(front, test);
        let kept = front.filter(test);
        if test(events.last()) {
            let all = kept.push(events.last());
            assert forall|i: int, j: int| 0 <= i <= j < all.len() implies (
            #[trigger] all[i]).start.rank() <= (#[trigger] all[j]).start.rank() by {
                if j == kept.len() && i < kept.len() {
                    assert(kept.contains(kept[i]));
                    front.lemma_filter_contains_rev(test, kept[i]);
                    let from = choose|from: int| 0 <= from < front.len() && front[from] == kept[i];
                    assert(events[from].start.rank() <= events[events.len() - 1].start.rank());
                } else if j < kept.len() {
                    assert(kept[i].start.rank() <= kept[j].start.rank());
                }
            }
        }
    }
}

/// Keeps the events that start on the UTC day `day`, and, where `onward`
/// is set, those that start after it.
fn keep_from_day(events: Vec<Event>, day: i64, onward: bool) -> (kept: Vec<Event>)
    ensures
        kept.deep_view() == events.deep_view().filter(
            if onward {
                falls_from(day as int)
            } else {
                falls_on(day as int)
            },
        ),
{
    let ghost all = events.deep_view();
    let ghost test = if onward {
        falls_from(day as int)
    } else {
        falls_on(day as int)
    };
    let mut kept: Vec<Event> = Vec::new();
    assert(all.take(0) =~= Seq::<EventView>::empty());
    assert(kept.deep_view() =~= all.take(0).filter(test)) by {
        reveal(Seq::filter);
    }
    for event in iter: events.into_iter()
        invariant
            all.len() == iter.seq().len(),
            forall|i: int| 0 <= i < all.len() ==> all[i] == (#[trigger] iter.seq()[i])@,
            test == if onward {
                falls_from(day as int)
            } else {
                falls_on(day as int)
            },
            kept.deep_view() == all.take(iter.index() as int).filter(test),
    {
        let ghost before = kept.deep_view();
        let ghost at = iter.index() as int;
        proof {
            reveal(Seq::filter);
            assert(all.take(at + 1).drop_last() =~= all.take(at));
            assert(all.take(at + 1).last() == event@);
        }
        let event_day: i64 = event.start.day();
        if event_day == day || (onward && event_day > day) {
            kept.push(event);
            assert(kept.deep_view() =~= before.push(event@));
        }
    }
    assert(all.take(all.len() as int) =~= all);
    kept
}

/// The events that start on the UTC day of `now`, in their order.
pub fn select_today(events: Vec<Event>, now: &Instant) -> (kept: Vec<Event>)
    ensures
        kept.deep_view() == today(events.deep_view(), *now),
        ordered(events.deep_view()) ==> ordered(kept.deep_view()),
{
    proof {
        if ordered(events.deep_view()) {
            lemma_filter_keeps_order(events.deep_view(), falls_on(now.utc_day()));
        }
    }
    keep_from_day(events, now.day(), false)
}

/// The events that start on the UTC day of `now` or after it, in their
/// order.
pub fn select_future(events: Vec<Event>, now: &Instant) -> (kept: Vec<Event>)
    ensures
        kept.deep_view() == future(events.deep_view(), *now),
        ordered(events.deep_view()) ==> ordered(kept.deep_view()),
{
    proof {
        if ordered(events.deep_view()) {
            lemma_filter_keeps_order(events.deep_view(), falls_from(now.utc_day()));
        }
    }
    keep_from_day(events, now.day(), true)
}

/// The events of a source that start on the UTC day of `now`, sorted by
/// start.
pub fn events_today(fetched: &Fetched, now: &Instant) -> (events: Result<Vec<Event>, FetchError>)
    ensures
        outcome(events) == match loaded(*fetched) {
            Ok(all) => Ok(today(all, *now)),
            Err(error) => Err(error),
        },
        events matches Ok(list) ==> ordered(list.deep_view()),
{
    match events_from_ical_url(fetched) {
        Ok(all) => Ok(select_today(all, now)),
        Err(error) => Err(error),
    }
}

/// The events of a source that start on the UTC day of `now` or after
/// it, sorted by start.
pub fn future_events(fetched: &Fetched, now: &Instant) -> (events: Result<Vec<Event>, FetchError>)
    ensures
        outcome(events) == match loaded(*fetched) {
            Ok(all) => Ok(future(all, *now)),
            Err(error) => Err(error),
        },
        events matches Ok(list) ==> ordered(list.deep_view()),
{
    match events_from_ical_url(fetched) {
        Ok(all) => Ok(select_future(all, now)),
        Err(error) => Err(error),
    }
}


/// Where every source gives events, so do all together: those of the
/// sources one after the other.
pub proof fn lemma_gathered_succeeds(fetched: Seq<Fetched>)
    requires
        forall|i: int| 0 <= i < fetched.len() ==> loaded(#[trigger] fetched[i]) is Ok,
    ensures
        gathered(fetched) is Ok,
    decreases fetched.len(),
{
    if fetched.len() > 0 {
        let front = fetched.drop_last();
        assert forall|i: int| 0 <= i < front.len() implies loaded(#[trigger] front[i]) is Ok by {
            assert(front[i] == fetched[i]);
        }
        lemma_gathered_succeeds(front);
        assert(loaded(fetched[fetched.len() - 1]) is Ok);
    }
}

/// Where a source fails, all together fail, with the failure of the first
/// source that has one.
pub proof fn lemma_gathered_fails(fetched: Seq<Fetched>, at: int)
    requires
        0 <= at < fetched.len(),
        loaded(fetched[at]) is Err,
        forall|i: int| 0 <= i < at ==> loaded(#[trigger] fetched[i]) is Ok,
    ensures
        gathered(fetched) == Err::<Seq<EventView>, FetchError>(loaded(fetched[at])->Err_0),
        loaded_all(fetched) == Err::<Seq<EventView>, FetchError>(loaded(fetched[at])->Err_0),
{
    let upto = fetched.take(at + 1);
    let front = fetched.take(at);
    assert(upto.drop_last() =~= front);
    assert(upto.last() == fetched[at]);
    assert forall|i: int| 0 <= i < front.len() implies loaded(#[trigger] front[i]) is Ok by {
        assert(front[i] == fetched[i]);
    }
    lemma_gathered_succeeds(front);
    lemma_failure_stays(fetched, at + 1);
}


} // verus!
