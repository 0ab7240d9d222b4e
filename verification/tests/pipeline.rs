use calendar::order::sort_by_start;
use calendar::pipeline::{events_of_feed, select_future, select_today};
use calendar::{
    events_from_ical_url, events_from_ical_urls, events_today, future_events, Event, FetchError,
    Fetched, Instant, ParsedFeed, Property, RawEvent,
};

fn event(secs: i64, summary: &str) -> Event {
    Event {
        start: Instant { secs, leap: false },
        summary: String::from(summary),
    }
}

fn summaries(events: &[Event]) -> Vec<&str> {
    events.iter().map(|event| event.summary.as_str()).collect()
}

fn response(body: &str) -> Fetched {
    Fetched::Response { status: 200, body: body.as_bytes().to_vec() }
}

fn calendar_of(events: &[(&str, &str)]) -> String {
    let mut text = String::from("BEGIN:VCALENDAR\r\nVERSION:2.0\r\nPRODID:-//test//EN\r\n");
    for (start, summary) in events {
        text.push_str("BEGIN:VEVENT\r\nUID:1\r\n");
        text.push_str(start);
        text.push_str("\r\nSUMMARY:");
        text.push_str(summary);
        text.push_str("\r\nEND:VEVENT\r\n");
    }
    text.push_str("END:VCALENDAR\r\n");
    text
}

const JAN_20_LAST: i64 = 1_579_564_799;
const JAN_21_FIRST: i64 = 1_579_564_800;
const JAN_21_NOON: i64 = 1_579_608_000;
const JAN_21_LAST: i64 = 1_579_651_199;
const JAN_22_FIRST: i64 = 1_579_651_200;

#[test]
fn sorting_puts_events_in_order_of_start() {
    let sorted = sort_by_start(vec![event(30, "c"), event(10, "a"), event(20, "b")]);
    assert_eq!(sorted, vec![event(10, "a"), event(20, "b"), event(30, "c")]);
    assert_eq!(sort_by_start(vec![]), vec![]);
    assert_eq!(sort_by_start(vec![event(5, "x")]), vec![event(5, "x")]);
}

#[test]
fn sorting_keeps_ties_as_they_came() {
    let sorted = sort_by_start(vec![
        event(20, "first of 20"),
        event(10, "first of 10"),
        event(20, "second of 20"),
        event(10, "second of 10"),
        event(20, "third of 20"),
        event(-5, "only"),
        event(10, "third of 10"),
    ]);
    assert_eq!(
        summaries(&sorted),
        vec![
            "only",
            "first of 10",
            "second of 10",
            "third of 10",
            "first of 20",
            "second of 20",
            "third of 20",
        ]
    );
}

#[test]
fn sorting_agrees_with_a_stable_sort_by_key() {
    let mut seed: u64 = 42;
    let mut events = Vec::new();
    for index in 0..500 {
        seed = seed.wrapping_mul(6_364_136_223_846_793_005).wrapping_add(1_442_695_040_888_963_407);
        let secs = ((seed >> 33) % 40) as i64 - 20;
        let leap = (seed >> 20) % 7 == 0;
        events.push(Event { start: Instant { secs, leap }, summary: format!("{index}") });
    }
    let mut expected = events.clone();
    expected.sort_by_key(|event| (event.start.secs, event.start.leap));
    assert_eq!(sort_by_start(events), expected);
}

#[test]
fn sorting_puts_a_leap_second_after_its_second() {
    let leap = Event { start: Instant { secs: 59, leap: true }, summary: String::from("leap") };
    let sorted = sort_by_start(vec![event(60, "next"), leap.clone(), event(59, "before")]);
    assert_eq!(summaries(&sorted), vec!["before", "leap", "next"]);
}

#[test]
fn sorting_handles_lists_in_order_and_in_reverse() {
    let ascending: Vec<Event> = (0..1_000).map(|secs| event(secs, "e")).collect();
    let descending: Vec<Event> = (0..1_000).rev().map(|secs| event(secs, "e")).collect();
    assert_eq!(sort_by_start(ascending.clone()), ascending);
    assert_eq!(sort_by_start(descending), ascending);
}

#[test]
fn sorting_is_quick_on_long_lists() {
    let mut seed: u64 = 1;
    let mut events = Vec::new();
    for index in 0..200_000 {
        seed = seed.wrapping_mul(6_364_136_223_846_793_005).wrapping_add(1_442_695_040_888_963_407);
        events.push(event((seed >> 40) as i64, if index % 2 == 0 { "even" } else { "odd" }));
    }
    let mut expected = events.clone();
    expected.sort_by_key(|event| event.start);
    assert_eq!(sort_by_start(events), expected);
}

#[test]
fn single_event_feed_gives_that_event() {
    let feed = calendar_of(&[("DTSTART:20200121T200000Z", "foo")]);
    assert_eq!(events_from_ical_url(&response(&feed)), Ok(vec![event(1_579_636_800, "foo")]));
}

#[test]
fn zoned_event_feed_gives_the_instant_in_utc() {
    let feed = calendar_of(&[("DTSTART;TZID=America/New_York:20200110T150000", "foo")]);
    assert_eq!(events_from_ical_url(&response(&feed)), Ok(vec![event(1_578_686_400, "foo")]));
}

#[test]
fn feed_events_come_sorted() {
    let feed = calendar_of(&[
        ("DTSTART:20200301T000000Z", "march"),
        ("DTSTART;TZID=Europe/Berlin:20200101T010000", "new year in berlin"),
        ("DTSTART:20200101T000000Z", "new year"),
        ("DTSTART;VALUE=DATE:20200201", "all day"),
        ("DTSTART:20200201T000000Z", "february"),
        ("DTSTART:20200101T000000Z", "new year again"),
    ]);
    let events = events_from_ical_url(&response(&feed)).unwrap();
    assert_eq!(
        summaries(&events),
        vec!["new year in berlin", "new year", "new year again", "february", "march"]
    );
    assert_eq!(events[0].start.secs, 1_577_836_800);
    assert_eq!(events[1].start.secs, 1_577_836_800);
    assert_eq!(events[3].start.secs, 1_580_515_200);
}

#[test]
fn feed_with_broken_records_still_gives_the_rest() {
    let feed = "BEGIN:VCALENDAR\r\nBEGIN:VEVENT\r\nSUMMARY:no start\r\nEND:VEVENT\r\n\
                BEGIN:VEVENT\r\nDTSTART:20200121T200000Z\r\nEND:VEVENT\r\n\
                BEGIN:VEVENT\r\nDTSTART:20200121T200000Z\r\nSUMMARY:\r\nEND:VEVENT\r\n\
                BEGIN:VEVENT\r\nDTSTART:20201321T200000Z\r\nSUMMARY:month 13\r\nEND:VEVENT\r\n\
                BEGIN:VEVENT\r\nDTSTART;TZID=No/Such_Zone:20200121T200000\r\nSUMMARY:lost\r\nEND:VEVENT\r\n\
                BEGIN:VEVENT\r\nDTSTART:20200121T200000\r\nSUMMARY:floating\r\nEND:VEVENT\r\n\
                BEGIN:VEVENT\r\nDTSTART:20200121T200000Z\r\nSUMMARY:good\r\nEND:VEVENT\r\n\
                END:VCALENDAR\r\n";
    assert_eq!(events_from_ical_url(&response(feed)), Ok(vec![event(1_579_636_800, "good")]));
}

#[test]
fn feed_with_only_broken_records_gives_no_events() {
    let feed = calendar_of(&[("DTSTART:tomorrow", "foo")]);
    assert_eq!(events_from_ical_url(&response(&feed)), Ok(vec![]));
    let none = calendar_of(&[]);
    assert_eq!(events_from_ical_url(&response(&none)), Ok(vec![]));
}

#[test]
fn feed_uses_only_its_first_calendar() {
    let mut feed = calendar_of(&[("DTSTART:20200121T200000Z", "first")]);
    feed.push_str(&calendar_of(&[("DTSTART:20200122T200000Z", "second")]));
    assert_eq!(events_from_ical_url(&response(&feed)), Ok(vec![event(1_579_636_800, "first")]));
}

#[test]
fn feed_lines_may_be_folded() {
    let feed = "BEGIN:VCALENDAR\r\nBEGIN:VEVENT\r\nDTSTART:20200121T\r\n 200000Z\r\n\
                SUMMARY:a long\r\n  summary\r\nEND:VEVENT\r\nEND:VCALENDAR\r\n";
    assert_eq!(
        events_from_ical_url(&response(feed)),
        Ok(vec![event(1_579_636_800, "a long summary")])
    );
}

#[test]
fn body_without_a_calendar_is_a_failure() {
    assert_eq!(events_from_ical_url(&response("")), Err(FetchError::NoCalendar));
    assert_eq!(events_from_ical_url(&response("\r\n\r\n")), Err(FetchError::NoCalendar));
    assert_eq!(events_of_feed(ParsedFeed::NoCalendar), Err(FetchError::NoCalendar));
    let now = Instant { secs: JAN_21_NOON, leap: false };
    assert_eq!(events_today(&response(""), &now), Err(FetchError::NoCalendar));
    assert_eq!(future_events(&response(""), &now), Err(FetchError::NoCalendar));
    let good = calendar_of(&[("DTSTART:20200121T200000Z", "foo")]);
    assert_eq!(
        events_from_ical_urls(vec![response(&good), response("")]),
        Err(FetchError::NoCalendar)
    );
}

#[test]
fn first_line_of_white_space_hides_the_calendar() {
    let mut feed = String::from("   \r\n");
    feed.push_str(&calendar_of(&[("DTSTART:20200121T200000Z", "foo")]));
    assert_eq!(events_from_ical_url(&response(&feed)), Err(FetchError::NoCalendar));
}

#[test]
fn first_line_that_is_not_utf8_hides_the_calendar() {
    let mut body: Vec<u8> = vec![0xff, 0xfe, b'\r', b'\n'];
    body.extend_from_slice(calendar_of(&[("DTSTART:20200121T200000Z", "foo")]).as_bytes());
    assert_eq!(
        events_from_ical_url(&Fetched::Response { status: 200, body }),
        Err(FetchError::NoCalendar)
    );
}

#[test]
fn blank_lines_before_the_calendar_are_passed_over() {
    let mut feed = String::from("\r\n\r\n");
    feed.push_str(&calendar_of(&[("DTSTART:20200121T200000Z", "foo")]));
    assert_eq!(events_from_ical_url(&response(&feed)), Ok(vec![event(1_579_636_800, "foo")]));
}

#[test]
fn calendar_without_events_is_a_success() {
    assert_eq!(events_from_ical_url(&response(&calendar_of(&[]))), Ok(vec![]));
    assert_eq!(events_of_feed(ParsedFeed::Calendar(vec![])), Ok(vec![]));
}

#[test]
fn body_that_is_no_calendar_is_malformed() {
    assert_eq!(events_from_ical_url(&response("<html></html>")), Err(FetchError::Malformed));
    assert_eq!(
        events_from_ical_url(&response("BEGIN:VEVENT\r\nEND:VEVENT\r\n")),
        Err(FetchError::Malformed)
    );
    assert_eq!(
        events_from_ical_url(&response("BEGIN:VCALENDAR\r\nBEGIN:VEVENT\r\nSUMMARY:cut")),
        Err(FetchError::Malformed)
    );
    assert_eq!(
        events_from_ical_url(&response("BEGIN:VCALENDAR\r\nBEGIN:VNONSENSE\r\nEND:VNONSENSE\r\nEND:VCALENDAR\r\n")),
        Err(FetchError::Malformed)
    );
    assert_eq!(events_of_feed(ParsedFeed::Malformed), Err(FetchError::Malformed));
}

#[test]
fn unreachable_source_is_a_network_failure() {
    assert_eq!(events_from_ical_url(&Fetched::Failed), Err(FetchError::Network));
    let now = Instant { secs: JAN_21_NOON, leap: false };
    assert_eq!(events_today(&Fetched::Failed, &now), Err(FetchError::Network));
    assert_eq!(future_events(&Fetched::Failed, &now), Err(FetchError::Network));
    assert_eq!(events_from_ical_urls(vec![Fetched::Failed]), Err(FetchError::Network));
}

#[test]
fn status_other_than_success_is_a_failure() {
    let feed = calendar_of(&[("DTSTART:20200121T200000Z", "foo")]).into_bytes();
    for status in [0u16, 100, 199, 300, 301, 404, 500, 65535] {
        assert_eq!(
            events_from_ical_url(&Fetched::Response { status, body: feed.clone() }),
            Err(FetchError::Status(status))
        );
    }
    for status in [200u16, 201, 204, 299] {
        assert_eq!(
            events_from_ical_url(&Fetched::Response { status, body: feed.clone() }),
            Ok(vec![event(1_579_636_800, "foo")])
        );
    }
}

#[test]
fn parsed_feed_gives_its_events_sorted() {
    let record = |start: &str, summary: &str| RawEvent {
        properties: vec![
            Property { name: String::from("DTSTART"), params: None, value: Some(String::from(start)) },
            Property { name: String::from("SUMMARY"), params: None, value: Some(String::from(summary)) },
        ],
    };
    let feed = ParsedFeed::Calendar(vec![
        record("19700101T000020Z", "b"),
        record("19700101T000010Z", "a"),
        record("19700101T000020Z", "c"),
    ]);
    assert_eq!(
        events_of_feed(feed),
        Ok(vec![event(10, "a"), event(20, "b"), event(20, "c")])
    );
}

#[test]
fn two_sources_are_merged_and_sorted_whatever_their_order() {
    let early = calendar_of(&[("DTSTART:20200110T200000Z", "early")]);
    let late = calendar_of(&[("DTSTART:20200121T200000Z", "late")]);
    let expected = vec![event(1_578_686_400, "early"), event(1_579_636_800, "late")];
    assert_eq!(
        events_from_ical_urls(vec![response(&early), response(&late)]),
        Ok(expected.clone())
    );
    assert_eq!(events_from_ical_urls(vec![response(&late), response(&early)]), Ok(expected));
}

#[test]
fn sources_with_ties_keep_the_order_of_the_sources() {
    let one = calendar_of(&[
        ("DTSTART:20200121T200000Z", "one late"),
        ("DTSTART:20200110T200000Z", "one early"),
    ]);
    let two = calendar_of(&[
        ("DTSTART:20200110T200000Z", "two early"),
        ("DTSTART:20200121T200000Z", "two late"),
        ("DTSTART:20200101T000000Z", "two first"),
    ]);
    let events = events_from_ical_urls(vec![response(&one), response(&two)]).unwrap();
    assert_eq!(
        summaries(&events),
        vec!["two first", "one early", "two early", "one late", "two late"]
    );
}

#[test]
fn no_sources_give_no_events() {
    assert_eq!(events_from_ical_urls(vec![]), Ok(vec![]));
}

#[test]
fn one_failing_source_fails_all() {
    let good = calendar_of(&[("DTSTART:20200121T200000Z", "foo")]);
    assert_eq!(
        events_from_ical_urls(vec![response(&good), Fetched::Failed]),
        Err(FetchError::Network)
    );
    assert_eq!(
        events_from_ical_urls(vec![Fetched::Failed, response(&good)]),
        Err(FetchError::Network)
    );
    assert_eq!(
        events_from_ical_urls(vec![response(&good), response("nonsense"), response(&good)]),
        Err(FetchError::Malformed)
    );
}

#[test]
fn first_failing_source_gives_the_failure() {
    let good = calendar_of(&[("DTSTART:20200121T200000Z", "foo")]);
    let gone = Fetched::Response { status: 404, body: vec![] };
    assert_eq!(
        events_from_ical_urls(vec![response(&good), gone.clone(), Fetched::Failed]),
        Err(FetchError::Status(404))
    );
    assert_eq!(
        events_from_ical_urls(vec![Fetched::Failed, gone, response("nonsense")]),
        Err(FetchError::Network)
    );
}

#[test]
fn today_is_the_utc_day_of_now() {
    let all = vec![
        event(JAN_20_LAST, "yesterday"),
        event(JAN_21_FIRST, "midnight"),
        event(JAN_21_NOON, "noon"),
        event(JAN_21_LAST, "last second"),
        event(JAN_22_FIRST, "tomorrow"),
    ];
    let now = Instant { secs: JAN_21_NOON, leap: false };
    assert_eq!(
        summaries(&select_today(all.clone(), &now)),
        vec!["midnight", "noon", "last second"]
    );
    let first = Instant { secs: JAN_21_FIRST, leap: false };
    assert_eq!(select_today(all.clone(), &first), select_today(all.clone(), &now));
    let last = Instant { secs: JAN_21_LAST, leap: false };
    assert_eq!(select_today(all.clone(), &last), select_today(all.clone(), &now));
    let later = Instant { secs: JAN_22_FIRST, leap: false };
    assert_eq!(summaries(&select_today(all.clone(), &later)), vec!["tomorrow"]);
    let never = Instant { secs: 0, leap: false };
    assert_eq!(select_today(all, &never), vec![]);
    assert_eq!(select_today(vec![], &now), vec![]);
}

#[test]
fn future_is_the_utc_day_of_now_and_after() {
    let all = vec![
        event(JAN_20_LAST, "yesterday"),
        event(JAN_21_FIRST, "midnight"),
        event(JAN_21_NOON, "noon"),
        event(JAN_21_LAST, "last second"),
        event(JAN_22_FIRST, "tomorrow"),
    ];
    let now = Instant { secs: JAN_21_LAST, leap: false };
    assert_eq!(
        summaries(&select_future(all.clone(), &now)),
        vec!["midnight", "noon", "last second", "tomorrow"]
    );
    let early = Instant { secs: 0, leap: false };
    assert_eq!(select_future(all.clone(), &early), all);
    let late = Instant { secs: JAN_22_FIRST + 86_400, leap: false };
    assert_eq!(select_future(all, &late), vec![]);
}

#[test]
fn days_before_1970_are_told_apart() {
    let all = vec![event(-86_401, "two days before"), event(-86_400, "day before"), event(-1, "eve")];
    let now = Instant { secs: -43_200, leap: false };
    assert_eq!(summaries(&select_today(all.clone(), &now)), vec!["day before", "eve"]);
    assert_eq!(summaries(&select_future(all, &now)), vec!["day before", "eve"]);
}

#[test]
fn a_leap_second_belongs_to_the_day_it_ends() {
    let leap = Event { start: Instant { secs: JAN_21_LAST, leap: true }, summary: String::from("leap") };
    let now = Instant { secs: JAN_21_NOON, leap: false };
    assert_eq!(select_today(vec![leap.clone()], &now), vec![leap.clone()]);
    let next = Instant { secs: JAN_22_FIRST, leap: false };
    assert_eq!(select_today(vec![leap], &next), vec![]);
}

#[test]
fn events_today_selects_from_the_feed() {
    let feed = calendar_of(&[
        ("DTSTART:20200122T000000Z", "tomorrow"),
        ("DTSTART:20200121T235959Z", "tonight"),
        ("DTSTART;TZID=America/New_York:20200120T190000", "midnight in utc"),
        ("DTSTART;TZID=America/New_York:20200120T185959", "yesterday in utc"),
        ("DTSTART;TZID=Asia/Tokyo:20200122T085959", "tomorrow in tokyo"),
    ]);
    let now = Instant { secs: JAN_21_NOON, leap: false };
    let today = events_today(&response(&feed), &now).unwrap();
    assert_eq!(summaries(&today), vec!["midnight in utc", "tonight", "tomorrow in tokyo"]);
    assert_eq!(today[0].start.secs, JAN_21_FIRST);
    assert_eq!(today[1].start.secs, JAN_21_LAST);
    assert_eq!(today[2].start.secs, JAN_21_LAST);
}

#[test]
fn future_events_selects_from_the_feed() {
    let feed = calendar_of(&[
        ("DTSTART:20200122T000000Z", "tomorrow"),
        ("DTSTART:20200121T000000Z", "this morning"),
        ("DTSTART:20200120T235959Z", "yesterday"),
        ("DTSTART:20300101T000000Z", "far"),
    ]);
    let now = Instant { secs: JAN_21_LAST, leap: false };
    let future = future_events(&response(&feed), &now).unwrap();
    assert_eq!(summaries(&future), vec!["this morning", "tomorrow", "far"]);
}

#[test]
fn queries_pass_failures_on() {
    let now = Instant { secs: JAN_21_NOON, leap: false };
    let gone = Fetched::Response { status: 503, body: vec![] };
    assert_eq!(events_today(&gone, &now), Err(FetchError::Status(503)));
    assert_eq!(future_events(&gone, &now), Err(FetchError::Status(503)));
    assert_eq!(events_today(&response("nonsense"), &now), Err(FetchError::Malformed));
    assert_eq!(future_events(&response("nonsense"), &now), Err(FetchError::Malformed));
}
