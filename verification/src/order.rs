//! Events in the order of their starts.
//!
//! Sorting here is stable: events of one start keep the order in which
//! they came. That fixes the outcome: a sequence has exactly one stable
//! sort.

use crate::event::{Event, EventView};
use crate::instant::{lemma_rank_injective, Instant};
use vstd::prelude::*;

verus! {

/// Whether no event of the sequence starts before an earlier one of it.
pub open spec fn ordered(events: Seq<EventView>) -> bool {
    forall|i: int, j: int|
        0 <= i <= j < events.len() ==> (#[trigger] events[i]).start.rank() <= (
        #[trigger] events[j]).start.rank()
}

/// The test that an event starts at `instant`.
pub open spec fn starts_at(instant: Instant) -> spec_fn(EventView) -> bool {
    |event: EventView| event.start == instant
}

/// The events that start at `instant`, in the order in which `events`
/// has them.
pub open spec fn starting_at(events: Seq<EventView>, instant: Instant) -> Seq<EventView> {
    events.filter(starts_at(instant))
}

/// Whether `sorted` is `events` sorted by start with ties left as they
/// were: it is in order, and for each instant it has the events of that
/// start that `events` has, in the same order.
pub open spec fn is_stable_sort(sorted: Seq<EventView>, events: Seq<EventView>) -> bool {
    &&& ordered(sorted)
    &&& forall|instant: Instant| #[trigger]
        starting_at(sorted, instant) == starting_at(events, instant)
}

/// The events sorted by start, ties left as they were.
pub open spec fn sorted_by_start(events: Seq<EventView>) -> Seq<EventView> {
    choose|sorted: Seq<EventView>| is_stable_sort(sorted, events)
}

/// The place in an ordered sequence before which all events start before
/// `rank` and from which on none does.
pub open spec fn split_point(sorted: Seq<EventView>, rank: int) -> int
    decreases sorted.len(),
{
    if sorted.len() == 0 {
        0
    } else if sorted.last().start.rank() < rank {
        sorted.len() as int
    } else {
        split_point(sorted.drop_last(), rank)
    }
}

/// Whether `at` parts `sorted` into the events that start before `rank`
/// and those that do not.
pub open spec fn parts_at(sorted: Seq<EventView>, rank: int, at: int) -> bool {
    &&& 0 <= at <= sorted.len()
    &&& forall|i: int| 0 <= i < at ==> (#[trigger] sorted[i]).start.rank() < rank
    &&& forall|i: int| at <= i < sorted.len() ==> rank <= (#[trigger] sorted[i]).start.rank()
}

/// The events of a start among two sequences joined are those of the
/// first followed by those of the second.
pub proof fn lemma_starting_at_joined(a: Seq<EventView>, b: Seq<EventView>, instant: Instant)
    ensures
        starting_at(a + b, instant) == starting_at(a, instant) + starting_at(b, instant),
{
    Seq::filter_distributes_over_add(a, b, starts_at(instant));
}

/// The events of a start in a sequence of one event.
pub proof fn lemma_starting_at_single(event: EventView, instant: Instant)
    ensures
        starting_at(seq![event], instant) == if event.start == instant {
            seq![event]
        } else {
            Seq::<EventView>::empty()
        },
{
    reveal_with_fuel(Seq::filter, 2);
    assert(seq![event].drop_last() =~= Seq::<EventView>::empty());
    assert(Seq::<EventView>::empty().push(event) =~= seq![event]);
}

/// A sequence in which no event starts at `instant` has no events of
/// that start.
pub proof fn lemma_starting_at_none(events: Seq<EventView>, instant: Instant)
    requires
        forall|i: int| 0 <= i < events.len() ==> (#[trigger] events[i]).start != instant,
    ensures
        starting_at(events, instant) == Seq::<EventView>::empty(),
    decreases events.len(),
{
    reveal(Seq::filter);
    if events.len() > 0 {
        lemma_starting_at_none(events.drop_last(), instant);
    }
    assert(starting_at(events, instant) =~= Seq::<EventView>::empty());
}

/// Each event is among the events of its own start.
pub proof fn lemma_starting_at_has(events: Seq<EventView>, at: int)
    requires
        0 <= at < events.len(),
    ensures
        starting_at(events, events[at].start).contains(events[at]),
{
    events.lemma_filter_contains(starts_at(events[at].start), at);
}

/// The events of a start are events of the sequence, and start then.
pub proof fn lemma_starting_at_within(events: Seq<EventView>, instant: Instant, at: int)
    requires
        0 <= at < starting_at(events, instant).len(),
    ensures
        starting_at(events, instant)[at].start == instant,
        events.contains(starting_at(events, instant)[at]),
{
    let group = starting_at(events, instant);
    events.lemma_filter_pred(starts_at(instant), at);
    assert(group.contains(group[at]));
    events.lemma_filter_contains_rev(starts_at(instant), group[at]);
}

/// The split point of an ordered sequence parts it.
pub proof fn lemma_split_point(sorted: Seq<EventView>, rank: int)
    requires
        ordered(sorted),
    ensures
        parts_at(sorted, rank, split_point(sorted, rank)),
    decreases sorted.len(),
{
    if sorted.len() == 0 {
    } else if sorted.last().start.rank() < rank {
        assert forall|i: int| 0 <= i < sorted.len() implies (#[trigger] sorted[i]).start.rank()
            < rank by {
            assert(sorted[i].start.rank() <= sorted[sorted.len() - 1].start.rank());
        }
    } else {
        let front = sorted.drop_last();
        assert(ordered(front)) by {
            assert forall|i: int, j: int| 0 <= i <= j < front.len() implies (
            #[trigger] front[i]).start.rank() <= (#[trigger] front[j]).start.rank() by {
                assert(sorted[i].start.rank() <= sorted[j].start.rank());
            }
        }
        lemma_split_point(front, rank);
        let at = split_point(front, rank);
        assert forall|i: int| at <= i < sorted.len() implies rank <= (
        #[trigger] sorted[i]).start.rank() by {
            if i < front.len() {
                assert(rank <= front[i].start.rank());
            }
        }
        assert forall|i: int| 0 <= i < at implies (#[trigger] sorted[i]).start.rank() < rank by {
            assert(front[i].start.rank() < rank);
        }
    }
}

/// An event put into a stable sort, before the events that start no
/// earlier than it, gives the stable sort of the sequence with that event
/// put in front.
pub proof fn lemma_insert_keeps_stable_sort(
    sorted: Seq<EventView>,
    events: Seq<EventView>,
    event: EventView,
    at: int,
)
    requires
        is_stable_sort(sorted, events),
        parts_at(sorted, event.start.rank(), at),
    ensures
        is_stable_sort(sorted.insert(at, event), seq![event] + events),
{
    let grown = sorted.insert(at, event);
    let front = sorted.take(at);
    let back = sorted.skip(at);
    assert(sorted =~= front + back);
    assert(grown =~= front + seq![event] + back);
    assert(ordered(grown)) by {
        assert forall|i: int, j: int| 0 <= i <= j < grown.len() implies (
        #[trigger] grown[i]).start.rank() <= (#[trigger] grown[j]).start.rank() by {
            if i < at && j > at {
                assert(sorted[i].start.rank() <= sorted[j - 1].start.rank());
            } else if i < at && j < at {
                assert(sorted[i].start.rank() <= sorted[j].start.rank());
            } else if i > at {
                assert(sorted[i - 1].start.rank() <= sorted[j - 1].start.rank());
            } else if i == at && j > at {
                assert(event.start.rank() <= sorted[j - 1].start.rank());
            } else if i < at && j == at {
                assert(sorted[i].start.rank() < event.start.rank());
            }
        }
    }
    assert forall|instant: Instant| #[trigger]
        starting_at(grown, instant) == starting_at(seq![event] + events, instant) by {
        lemma_starting_at_joined(front, back, instant);
        lemma_starting_at_joined(front + seq![event], back, instant);
        lemma_starting_at_joined(front, seq![event], instant);
        lemma_starting_at_joined(seq![event], events, instant);
        lemma_starting_at_single(event, instant);
        assert(starting_at(sorted, instant) == starting_at(events, instant));
        if event.start == instant {
            assert forall|i: int| 0 <= i < front.len() implies (#[trigger] front[i]).start
                != instant by {
                assert(sorted[i].start.rank() < event.start.rank());
            }
            lemma_starting_at_none(front, instant);
            assert(starting_at(grown, instant) =~= seq![event] + starting_at(events, instant));
        } else {
            assert(starting_at(grown, instant) =~= starting_at(events, instant));
            assert(starting_at(seq![event] + events, instant) =~= starting_at(events, instant));
        }
    }
}

/// What is left of an ordered sequence without its first event is in
/// order, and has the events of each start but for that first event.
proof fn lemma_rest_after_first(events: Seq<EventView>, instant: Instant)
    requires
        events.len() > 0,
    ensures
        ordered(events) ==> ordered(events.drop_first()),
        starting_at(events, instant) == if events[0].start == instant {
            seq![events[0]] + starting_at(events.drop_first(), instant)
        } else {
            starting_at(events.drop_first(), instant)
        },
{
    let rest = events.drop_first();
    assert(events =~= seq![events[0]] + rest);
    lemma_starting_at_joined(seq![events[0]], rest, instant);
    lemma_starting_at_single(events[0], instant);
    if events[0].start != instant {
        assert(Seq::<EventView>::empty() + starting_at(rest, instant) =~= starting_at(
            rest,
            instant,
        ));
    }
    if ordered(events) {
        assert forall|i: int, j: int| 0 <= i <= j < rest.len() implies (
        #[trigger] rest[i]).start.rank() <= (#[trigger] rest[j]).start.rank() by {
            assert(events[i + 1].start.rank() <= events[j + 1].start.rank());
        }
    }
}

/// An ordered sequence with an event of some start begins no later than
/// that start.
proof fn lemma_first_is_earliest(events: Seq<EventView>, instant: Instant)
    requires
        ordered(events),
        starting_at(events, instant).len() > 0,
    ensures
        events.len() > 0,
        events[0].start.rank() <= instant.rank(),
{
    lemma_starting_at_within(events, instant, 0);
    let found = starting_at(events, instant)[0];
    let at = choose|at: int| 0 <= at < events.len() && events[at] == found;
    assert(events[0].start.rank() <= events[at].start.rank());
}

/// Two ordered sequences that have, for each instant, the same events of
/// that start in the same order are one sequence.
pub proof fn lemma_ordered_groups_fix_sequence(a: Seq<EventView>, b: Seq<EventView>)
    requires
        ordered(a),
        ordered(b),
        forall|instant: Instant| #[trigger] starting_at(a, instant) == starting_at(b, instant),
    ensures
        a == b,
    decreases a.len(),
{
    if a.len() == 0 {
        if b.len() > 0 {
            lemma_starting_at_has(b, 0);
            assert(starting_at(a, b[0].start) == starting_at(b, b[0].start));
            lemma_starting_at_none(a, b[0].start);
        }
        assert(a =~= b);
    } else {
        lemma_starting_at_has(a, 0);
        assert(starting_at(a, a[0].start) == starting_at(b, a[0].start));
        lemma_first_is_earliest(b, a[0].start);
        lemma_starting_at_has(b, 0);
        assert(starting_at(a, b[0].start) == starting_at(b, b[0].start));
        lemma_first_is_earliest(a, b[0].start);
        lemma_rank_injective(a[0].start, b[0].start);
        let first = a[0].start;
        lemma_rest_after_first(a, first);
        lemma_rest_after_first(b, first);
        let a_group = seq![a[0]] + starting_at(a.drop_first(), first);
        let b_group = seq![b[0]] + starting_at(b.drop_first(), first);
        assert(a_group == b_group);
        assert(a[0] == b[0]) by {
            assert(a_group[0] == a[0]);
            assert(b_group[0] == b[0]);
        }
        assert forall|instant: Instant| #[trigger]
            starting_at(a.drop_first(), instant) == starting_at(b.drop_first(), instant) by {
            lemma_rest_after_first(a, instant);
            lemma_rest_after_first(b, instant);
            assert(starting_at(a, instant) == starting_at(b, instant));
            if instant == first {
                assert(starting_at(a.drop_first(), first) =~= a_group.drop_first());
                assert(starting_at(b.drop_first(), first) =~= b_group.drop_first());
            }
        }
        lemma_ordered_groups_fix_sequence(a.drop_first(), b.drop_first());
        assert(a =~= seq![a[0]] + a.drop_first());
        assert(b =~= seq![b[0]] + b.drop_first());
    }
}

/// A sequence has at most one stable sort.
pub proof fn lemma_stable_sort_unique(a: Seq<EventView>, b: Seq<EventView>, events: Seq<EventView>)
    requires
        is_stable_sort(a, events),
        is_stable_sort(b, events),
    ensures
        a == b,
{
    assert forall|instant: Instant| #[trigger]
        starting_at(a, instant) == starting_at(b, instant) by {
        assert(starting_at(a, instant) == starting_at(events, instant));
        assert(starting_at(b, instant) == starting_at(events, instant));
    }
    lemma_ordered_groups_fix_sequence(a, b);
}

/// Every sequence has a stable sort, and `sorted_by_start` is it.
pub proof fn lemma_sorted_by_start(events: Seq<EventView>)
    ensures
        is_stable_sort(sorted_by_start(events), events),
    decreases events.len(),
{
    if events.len() == 0 {
        assert(is_stable_sort(events, events));
    } else {
        let rest = events.drop_first();
        lemma_sorted_by_start(rest);
        let sorted = sorted_by_start(rest);
        let at = split_point(sorted, events[0].start.rank());
        lemma_split_point(sorted, events[0].start.rank());
        lemma_insert_keeps_stable_sort(sorted, rest, events[0], at);
        assert(seq![events[0]] + rest =~= events);
        assert(is_stable_sort(sorted.insert(at, events[0]), events));
    }
}

/// A stable sort of a sequence is `sorted_by_start` of it.
pub proof fn lemma_stable_sort_is_sorted_by_start(sorted: Seq<EventView>, events: Seq<EventView>)
    requires
        is_stable_sort(sorted, events),
    ensures
        sorted == sorted_by_start(events),
{
    lemma_stable_sort_unique(sorted, sorted_by_start(events), events);
}

/// Whether `merged` is what a merge has put out so far, latest first taken:
/// it is in order, nothing left in the first `left` events of `a` or the
/// first `right` events of `b` starts after its first event, and for each
/// instant the events of that start left in `a`, then those left in `b`,
/// then those of `merged` are those of `a` followed by those of `b`.
pub open spec fn merging(
    a: Seq<EventView>,
    b: Seq<EventView>,
    left: int,
    right: int,
    merged: Seq<EventView>,
) -> bool {
    &&& 0 <= left <= a.len()
    &&& 0 <= right <= b.len()
    &&& ordered(merged)
    &&& merged.len() > 0 ==> forall|i: int|
        0 <= i < left ==> (#[trigger] a[i]).start.rank() <= merged[0].start.rank()
    &&& merged.len() > 0 ==> forall|i: int|
        0 <= i < right ==> (#[trigger] b[i]).start.rank() <= merged[0].start.rank()
    &&& forall|instant: Instant| #[trigger]
        starting_at(a, instant) + starting_at(b, instant) == starting_at(a.take(left), instant)
            + starting_at(b.take(right), instant) + starting_at(merged, instant)
}

/// An event put in front of an ordered sequence, none of whose events
/// starts before it, leaves the sequence in order.
proof fn lemma_ordered_with_first(event: EventView, events: Seq<EventView>)
    requires
        ordered(events),
        events.len() > 0 ==> event.start.rank() <= events[0].start.rank(),
    ensures
        ordered(seq![event] + events),
{
    let all = seq![event] + events;
    assert forall|i: int, j: int| 0 <= i <= j < all.len() implies (#[trigger] all[i]).start.rank()
        <= (#[trigger] all[j]).start.rank() by {
        if i == 0 && j > 0 {
            assert(events[0].start.rank() <= events[j - 1].start.rank());
        } else if i > 0 {
            assert(events[i - 1].start.rank() <= events[j - 1].start.rank());
        }
    }
}

/// A merge may take the last event left in `a` where it starts after all
/// that is left in `b`.
proof fn lemma_merge_takes_left(
    a: Seq<EventView>,
    b: Seq<EventView>,
    left: int,
    right: int,
    merged: Seq<EventView>,
)
    requires
        ordered(a),
        ordered(b),
        merging(a, b, left, right, merged),
        left > 0,
        right > 0 ==> b[right - 1].start.rank() < a[left - 1].start.rank(),
    ensures
        merging(a, b, left - 1, right, seq![a[left - 1]] + merged),
{
    let taken = a[left - 1];
    let grown = seq![taken] + merged;
    lemma_ordered_with_first(taken, merged);
    assert forall|i: int| 0 <= i < left - 1 implies (#[trigger] a[i]).start.rank()
        <= grown[0].start.rank() by {
        assert(a[i].start.rank() <= a[left - 1].start.rank());
    }
    assert forall|i: int| 0 <= i < right implies (#[trigger] b[i]).start.rank()
        <= grown[0].start.rank() by {
        assert(b[i].start.rank() <= b[right - 1].start.rank());
    }
    assert forall|instant: Instant| #[trigger]
        starting_at(a, instant) + starting_at(b, instant) == starting_at(
            a.take(left - 1),
            instant,
        ) + starting_at(b.take(right), instant) + starting_at(grown, instant) by {
        assert(a.take(left) =~= a.take(left - 1) + seq![taken]);
        lemma_starting_at_joined(a.take(left - 1), seq![taken], instant);
        lemma_starting_at_joined(seq![taken], merged, instant);
        lemma_starting_at_single(taken, instant);
        assert(starting_at(a, instant) + starting_at(b, instant) == starting_at(
            a.take(left),
            instant,
        ) + starting_at(b.take(right), instant) + starting_at(merged, instant));
        if taken.start == instant {
            assert forall|i: int| 0 <= i < b.take(right).len() implies (#[trigger] b.take(
                right,
            )[i]).start != instant by {
                assert(b[i].start.rank() <= b[right - 1].start.rank());
            }
            lemma_starting_at_none(b.take(right), instant);
            assert(starting_at(a.take(left), instant) + starting_at(b.take(right), instant)
                + starting_at(merged, instant) =~= starting_at(a.take(left - 1), instant)
                + starting_at(b.take(right), instant) + starting_at(grown, instant));
        } else {
            assert(starting_at(a.take(left), instant) =~= starting_at(a.take(left - 1), instant));
            assert(starting_at(grown, instant) =~= starting_at(merged, instant));
        }
    }
}

/// A merge may take the last event left in `b` where nothing left in `a`
/// starts after it.
proof fn lemma_merge_takes_right(
    a: Seq<EventView>,
    b: Seq<EventView>,
    left: int,
    right: int,
    merged: Seq<EventView>,
)
    requires
        ordered(a),
        ordered(b),
        merging(a, b, left, right, merged),
        right > 0,
        left > 0 ==> a[left - 1].start.rank() <= b[right - 1].start.rank(),
    ensures
        merging(a, b, left, right - 1, seq![b[right - 1]] + merged),
{
    let taken = b[right - 1];
    let grown = seq![taken] + merged;
    lemma_ordered_with_first(taken, merged);
    assert forall|i: int| 0 <= i < left implies (#[trigger] a[i]).start.rank()
        <= grown[0].start.rank() by {
        assert(a[i].start.rank() <= a[left - 1].start.rank());
    }
    assert forall|i: int| 0 <= i < right - 1 implies (#[trigger] b[i]).start.rank()
        <= grown[0].start.rank() by {
        assert(b[i].start.rank() <= b[right - 1].start.rank());
    }
    assert forall|instant: Instant| #[trigger]
        starting_at(a, instant) + starting_at(b, instant) == starting_at(a.take(left), instant)
            + starting_at(b.take(right - 1), instant) + starting_at(grown, instant) by {
        assert(b.take(right) =~= b.take(right - 1) + seq![taken]);
        lemma_starting_at_joined(b.take(right - 1), seq![taken], instant);
        lemma_starting_at_joined(seq![taken], merged, instant);
        assert(starting_at(a, instant) + starting_at(b, instant) == starting_at(
            a.take(left),
            instant,
        ) + starting_at(b.take(right), instant) + starting_at(merged, instant));
        assert(starting_at(a.take(left), instant) + starting_at(b.take(right), instant)
            + starting_at(merged, instant) =~= starting_at(a.take(left), instant) + starting_at(
            b.take(right - 1),
            instant,
        ) + starting_at(grown, instant));
    }
}

/// A merge that has nothing left has put out the stable sort of the two
/// sequences joined.
proof fn lemma_merge_done(a: Seq<EventView>, b: Seq<EventView>, merged: Seq<EventView>)
    requires
        merging(a, b, 0, 0, merged),
    ensures
        is_stable_sort(merged, a + b),
{
    assert forall|instant: Instant| #[trigger]
        starting_at(merged, instant) == starting_at(a + b, instant) by {
        lemma_starting_at_joined(a, b, instant);
        lemma_starting_at_none(a.take(0), instant);
        lemma_starting_at_none(b.take(0), instant);
        assert(starting_at(a, instant) + starting_at(b, instant) == starting_at(
            a.take(0),
            instant,
        ) + starting_at(b.take(0), instant) + starting_at(merged, instant));
        assert(Seq::<EventView>::empty() + Seq::<EventView>::empty() + starting_at(
            merged,
            instant,
        ) =~= starting_at(merged, instant));
    }
}

/// The stable sorts of two sequences, stably sorted together, are the
/// stable sort of the two sequences joined.
pub proof fn lemma_stable_sort_of_parts(
    sorted: Seq<EventView>,
    first_sorted: Seq<EventView>,
    second_sorted: Seq<EventView>,
    first: Seq<EventView>,
    second: Seq<EventView>,
)
    requires
        is_stable_sort(first_sorted, first),
        is_stable_sort(second_sorted, second),
        is_stable_sort(sorted, first_sorted + second_sorted),
    ensures
        is_stable_sort(sorted, first + second),
{
    assert forall|instant: Instant| #[trigger]
        starting_at(sorted, instant) == starting_at(first + second, instant) by {
        lemma_starting_at_joined(first, second, instant);
        lemma_starting_at_joined(first_sorted, second_sorted, instant);
        assert(starting_at(first_sorted, instant) == starting_at(first, instant));
        assert(starting_at(second_sorted, instant) == starting_at(second, instant));
        assert(starting_at(sorted, instant) == starting_at(first_sorted + second_sorted, instant));
    }
}

/// Merges two lists that are in order into one. Of events of one start,
/// those of `left` come first.
fn merge(left: Vec<Event>, right: Vec<Event>) -> (merged: Vec<Event>)
    requires
        ordered(left.deep_view()),
        ordered(right.deep_view()),
    ensures
        is_stable_sort(merged.deep_view(), left.deep_view() + right.deep_view()),
        merged.len() == left.len() + right.len(),
{
    let ghost a = left.deep_view();
    let ghost b = right.deep_view();
    let mut left = left;
    let mut right = right;
    let mut backward: Vec<Event> = Vec::new();
    proof {
        assert(left.deep_view() =~= a.take(a.len() as int));
        assert(right.deep_view() =~= b.take(b.len() as int));
        assert(backward.deep_view().reverse() =~= Seq::<EventView>::empty());
        assert forall|instant: Instant| #[trigger]
            starting_at(a, instant) + starting_at(b, instant) == starting_at(
                a.take(a.len() as int),
                instant,
            ) + starting_at(b.take(b.len() as int), instant) + starting_at(
                backward.deep_view().reverse(),
                instant,
            ) by {
            assert(a.take(a.len() as int) =~= a);
            assert(b.take(b.len() as int) =~= b);
            lemma_starting_at_none(backward.deep_view().reverse(), instant);
            assert(starting_at(a, instant) + starting_at(b, instant) + Seq::<EventView>::empty()
                =~= starting_at(a, instant) + starting_at(b, instant));
        }
    }
    while left.len() > 0 || right.len() > 0
        invariant
            ordered(a),
            ordered(b),
            left.deep_view() == a.take(left.len() as int),
            right.deep_view() == b.take(right.len() as int),
            merging(a, b, left.len() as int, right.len() as int, backward.deep_view().reverse()),
            backward.len() + left.len() + right.len() == a.len() + b.len(),
        decreases left.len() + right.len(),
    {
        let ghost rest_left = left.len() as int;
        let ghost rest_right = right.len() as int;
        let ghost out = backward.deep_view();
        let from_left = if right.len() == 0 {
            true
        } else if left.len() == 0 {
            false
        } else {
            right[right.len() - 1].start.is_before(&left[left.len() - 1].start)
        };
        if from_left {
            proof {
                assert(left.deep_view()[rest_left - 1] == a[rest_left - 1]);
                if rest_right > 0 {
                    assert(right.deep_view()[rest_right - 1] == b[rest_right - 1]);
                }
                lemma_merge_takes_left(a, b, rest_left, rest_right, out.reverse());
            }
            let event = left.pop().unwrap();
            backward.push(event);
            proof {
                assert(event@ == a[rest_left - 1]);
                assert(backward.deep_view().reverse() =~= seq![event@] + out.reverse());
                assert(left.deep_view() =~= a.take(rest_left - 1));
            }
        } else {
            proof {
                assert(right.deep_view()[rest_right - 1] == b[rest_right - 1]);
                if rest_left > 0 {
                    assert(left.deep_view()[rest_left - 1] == a[rest_left - 1]);
                }
                lemma_merge_takes_right(a, b, rest_left, rest_right, out.reverse());
            }
            let event = right.pop().unwrap();
            backward.push(event);
            proof {
                assert(event@ == b[rest_right - 1]);
                assert(backward.deep_view().reverse() =~= seq![event@] + out.reverse());
                assert(right.deep_view() =~= b.take(rest_right - 1));
            }
        }
    }
    let ghost turned = backward.deep_view().reverse();
    proof {
        lemma_merge_done(a, b, turned);
    }
    let mut merged: Vec<Event> = Vec::new();
    assert(merged.deep_view() + backward.deep_view().reverse() =~= turned);
    while backward.len() > 0
        invariant
            merged.deep_view() + backward.deep_view().reverse() == turned,
            merged.len() + backward.len() == a.len() + b.len(),
        decreases backward.len(),
    {
        let ghost out = backward.deep_view();
        let ghost done = merged.deep_view();
        let event = backward.pop().unwrap();
        merged.push(event);
        proof {
            assert(event@ == out[out.len() - 1]);
            assert(backward.deep_view() =~= out.drop_last());
            assert(out.reverse() =~= seq![event@] + out.drop_last().reverse());
            assert(merged.deep_view() =~= done + seq![event@]);
            assert(merged.deep_view() + backward.deep_view().reverse() =~= done + out.reverse());
        }
    }
    assert(merged.deep_view() =~= turned);
    merged
}

/// Sorts the events by start. Events of one start keep their order.
pub fn sort_by_start(events: Vec<Event>) -> (sorted: Vec<Event>)
    ensures
        sorted.deep_view() == sorted_by_start(events.deep_view()),
        is_stable_sort(sorted.deep_view(), events.deep_view()),
        sorted.len() == events.len(),
    decreases events.len(),
{
    let ghost all = events.deep_view();
    if events.len() <= 1 {
        proof {
            lemma_stable_sort_is_sorted_by_start(all, all);
        }
        return events;
    }
    let mut first = events;
    let second = first.split_off(first.len() / 2);
    let ghost first_part = first.deep_view();
    let ghost second_part = second.deep_view();
    assert(first_part + second_part =~= all);
    let first_sorted = sort_by_start(first);
    let second_sorted = sort_by_start(second);
    let ghost sorted_parts = first_sorted.deep_view() + second_sorted.deep_view();
    let sorted = merge(first_sorted, second_sorted);
    proof {
        lemma_stable_sort_of_parts(
            sorted.deep_view(),
            first_sorted.deep_view(),
            second_sorted.deep_view(),
            first_part,
            second_part,
        );
        lemma_stable_sort_is_sorted_by_start(sorted.deep_view(), all);
    }
    sorted
}

} // verus!
