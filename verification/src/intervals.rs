//! What the events of a range say, interval by interval: each `introduced` starts
//! one, and the last `fixed` and `last_affected` up to the next `introduced` end
//! it.

use crate::advisory::{
    all_bounds, first_fix, first_fix_of, law_what_is_kept_of_an_advisory, nonempty, range_bounds, range_state,
    RangeState, RawAdvisory, RawAffected, RawEvent, RawRange,
};
use crate::hits::{law_every_interval_counts, verdict_of};
use crate::order::Standing;
use crate::vers::{
    law_order_decides_what_a_range_covers, match_of, semver_standing, semver_valid, BoundText, Ecosystem, Match,
};
use vstd::prelude::*;

verus! {

/// How many events introduce the flaw.
pub open spec fn introductions(events: Seq<RawEvent>) -> nat
    decreases events.len(),
{
    if events.len() == 0 {
        0
    } else {
        introductions(events.drop_last()) + if events.last().introduced is Some {
            1nat
        } else {
            0nat
        }
    }
}

/// The interval that an event belongs to: that of the latest `introduced` up to
/// it, or the first one where there is none before it.
pub open spec fn interval_of(events: Seq<RawEvent>, j: int) -> int {
    let n = introductions(events.take(j + 1));
    if n == 0 {
        0
    } else {
        n - 1
    }
}

/// The interval of a state at a place.
spec fn interval_at(state: RangeState, q: int) -> BoundText {
    if q < state.done.len() {
        state.done[q]
    } else {
        state.cur
    }
}

proof fn lemma_state(events: Seq<RawEvent>)
    ensures
        range_state(events).open <==> introductions(events) > 0,
        range_state(events).done.len() == if introductions(events) == 0 {
            0
        } else {
            introductions(events) - 1
        },
    decreases events.len(),
{
    if events.len() > 0 {
        lemma_state(events.drop_last());
    }
}

proof fn lemma_introductions_rise(events: Seq<RawEvent>, i: int, j: int)
    requires
        0 <= i <= j <= events.len(),
    ensures
        introductions(events.take(i)) <= introductions(events.take(j)) <= introductions(events),
        forall|m: int|
            i <= m < j && (#[trigger] events[m]).introduced is Some ==> introductions(events.take(i))
                < introductions(events.take(j)),
        (forall|m: int| i <= m < j ==> (#[trigger] events[m]).introduced is None) ==> introductions(events.take(i))
            == introductions(events.take(j)),
    decreases events.len() + j - i,
{
    if i < j {
        lemma_introductions_rise(events, i, j - 1);
        assert(events.take(j).drop_last() =~= events.take(j - 1));
        assert(events.take(j).last() == events[j - 1]);
    }
    if j < events.len() {
        let fewer = events.drop_last();
        lemma_introductions_rise(fewer, j, j);
        assert(fewer.take(j) =~= events.take(j));
    } else {
        assert(events.take(j) =~= events);
    }
}

/// An event belongs to an interval that is there.
proof fn lemma_interval_is_there(events: Seq<RawEvent>, j: int)
    requires
        0 <= j < events.len(),
    ensures
        0 <= interval_of(events, j) <= range_state(events).done.len(),
        j == events.len() - 1 ==> interval_of(events, j) == range_state(events).done.len(),
        introductions(events) > 0 ==> range_bounds(events) == range_state(events).done.push(
            range_state(events).cur,
        ),
{
    lemma_state(events);
    lemma_introductions_rise(events, j + 1, j + 1);
    if j == events.len() - 1 {
        assert(events.take(j + 1) =~= events);
    }
}

proof fn lemma_start(events: Seq<RawEvent>, i: int)
    requires
        0 <= i < events.len(),
        events[i].introduced is Some,
    ensures
        interval_at(range_state(events), interval_of(events, i)).introduced == nonempty(events[i].introduced->0@),
    decreases events.len(),
{
    let fewer = events.drop_last();
    lemma_interval_is_there(events, i);
    lemma_state(events);
    lemma_state(fewer);
    if i < fewer.len() {
        lemma_start(fewer, i);
        lemma_interval_is_there(fewer, i);
        assert(fewer.take(i + 1) =~= events.take(i + 1));
        lemma_introductions_rise(events, i, i + 1);
        lemma_introductions_rise(events, i + 1, fewer.len() as int);
        assert(events.take(fewer.len() as int) =~= fewer);
    }
}

/// No event after `j` gives its interval another `fixed`.
pub open spec fn is_latest_fixed(events: Seq<RawEvent>, j: int) -> bool {
    forall|k: int|
        j < k < events.len() && interval_of(events, k) == interval_of(events, j) ==> (#[trigger] events[k]).fixed is None
}

proof fn lemma_latest_fixed(events: Seq<RawEvent>, j: int)
    requires
        0 <= j < events.len(),
        events[j].fixed is Some,
        is_latest_fixed(events, j),
    ensures
        interval_at(range_state(events), interval_of(events, j)).fixed == nonempty(events[j].fixed->0@),
    decreases events.len(),
{
    let fewer = events.drop_last();
    lemma_interval_is_there(events, j);
    lemma_state(events);
    lemma_state(fewer);
    if j < fewer.len() {
        let last = events.len() - 1;
        assert forall|k: int| 0 <= k < fewer.len() implies #[trigger] interval_of(fewer, k) == interval_of(events, k) by {
            assert(fewer.take(k + 1) =~= events.take(k + 1));
        }
        assert forall|k: int|
            j < k < fewer.len() && interval_of(fewer, k) == interval_of(fewer, j) implies (
        #[trigger] fewer[k]).fixed is None by {
            assert(interval_of(events, k) == interval_of(events, j));
            assert(events[k].fixed is None);
        }
        lemma_latest_fixed(fewer, j);
        lemma_interval_is_there(fewer, j);
        lemma_interval_is_there(events, last);
        assert(events[last] == events.last());
    }
}

proof fn lemma_no_fixed(events: Seq<RawEvent>, q: int)
    requires
        0 <= q <= range_state(events).done.len(),
        forall|k: int|
            0 <= k < events.len() && interval_of(events, k) == q ==> (#[trigger] events[k]).fixed is None,
    ensures
        interval_at(range_state(events), q).fixed is None,
    decreases events.len(),
{
    if events.len() > 0 {
        let fewer = events.drop_last();
        let last = events.len() - 1;
        lemma_state(events);
        lemma_state(fewer);
        lemma_interval_is_there(events, last);
        assert(events[last] == events.last());
        assert forall|k: int| 0 <= k < fewer.len() implies #[trigger] interval_of(fewer, k) == interval_of(events, k) by {
            assert(fewer.take(k + 1) =~= events.take(k + 1));
        }
        if q <= range_state(fewer).done.len() {
            assert forall|k: int|
                0 <= k < fewer.len() && interval_of(fewer, k) == q implies (#[trigger] fewer[k]).fixed is None by {
                assert(interval_of(events, k) == q);
                assert(events[k].fixed is None);
            }
            lemma_no_fixed(fewer, q);
        }
    }
}

/// No event after `j` gives its interval another `last_affected`.
pub open spec fn is_latest_last_affected(events: Seq<RawEvent>, j: int) -> bool {
    forall|k: int|
        j < k < events.len() && interval_of(events, k) == interval_of(events, j) ==> (
        #[trigger] events[k]).last_affected is None
}

proof fn lemma_latest_last_affected(events: Seq<RawEvent>, j: int)
    requires
        0 <= j < events.len(),
        events[j].last_affected is Some,
        is_latest_last_affected(events, j),
    ensures
        interval_at(range_state(events), interval_of(events, j)).last_affected == nonempty(events[j].last_affected->0@),
    decreases events.len(),
{
    let fewer = events.drop_last();
    lemma_interval_is_there(events, j);
    lemma_state(events);
    lemma_state(fewer);
    if j < fewer.len() {
        let last = events.len() - 1;
        assert forall|k: int| 0 <= k < fewer.len() implies #[trigger] interval_of(fewer, k) == interval_of(events, k) by {
            assert(fewer.take(k + 1) =~= events.take(k + 1));
        }
        assert forall|k: int|
            j < k < fewer.len() && interval_of(fewer, k) == interval_of(fewer, j) implies (
        #[trigger] fewer[k]).last_affected is None by {
            assert(interval_of(events, k) == interval_of(events, j));
            assert(events[k].last_affected is None);
        }
        lemma_latest_last_affected(fewer, j);
        lemma_interval_is_there(fewer, j);
        lemma_interval_is_there(events, last);
        assert(events[last] == events.last());
    }
}

proof fn lemma_no_last_affected(events: Seq<RawEvent>, q: int)
    requires
        0 <= q <= range_state(events).done.len(),
        forall|k: int|
            0 <= k < events.len() && interval_of(events, k) == q ==> (#[trigger] events[k]).last_affected is None,
    ensures
        interval_at(range_state(events), q).last_affected is None,
    decreases events.len(),
{
    if events.len() > 0 {
        let fewer = events.drop_last();
        let last = events.len() - 1;
        lemma_state(events);
        lemma_state(fewer);
        lemma_interval_is_there(events, last);
        assert(events[last] == events.last());
        assert forall|k: int| 0 <= k < fewer.len() implies #[trigger] interval_of(fewer, k) == interval_of(events, k) by {
            assert(fewer.take(k + 1) =~= events.take(k + 1));
        }
        if q <= range_state(fewer).done.len() {
            assert forall|k: int|
                0 <= k < fewer.len() && interval_of(fewer, k) == q implies (
            #[trigger] fewer[k]).last_affected is None by {
                assert(interval_of(events, k) == q);
                assert(events[k].last_affected is None);
            }
            lemma_no_last_affected(fewer, q);
        }
    }
}

/// A range has an interval for each `introduced`. One without any has a single
/// interval without a start, where some last `fixed` or `last_affected` says
/// something, and none otherwise.
pub proof fn law_each_introduction_makes_an_interval(events: Seq<RawEvent>)
    ensures
        introductions(events) > 0 ==> range_bounds(events).len() == introductions(events),
        introductions(events) == 0 ==> range_bounds(events).len() <= 1,
        forall|j: int|
            introductions(events) == 0 && 0 <= j < events.len() && is_latest_fixed(events, j) && (
            #[trigger] events[j]).fixed is Some && events[j].fixed->0@.len() > 0 ==> range_bounds(events).len() == 1
                && range_bounds(events)[0].introduced is None && range_bounds(events)[0].fixed
                    == Some(events[j].fixed->0@),
        forall|j: int|
            introductions(events) == 0 && 0 <= j < events.len() && is_latest_last_affected(events, j) && (
            #[trigger] events[j]).last_affected is Some && events[j].last_affected->0@.len() > 0
                ==> range_bounds(events).len() == 1
                && range_bounds(events)[0].introduced is None && range_bounds(events)[0].last_affected
                    == Some(events[j].last_affected->0@),
        (forall|j: int|
            0 <= j < events.len() ==> (#[trigger] events[j]).introduced is None && events[j].fixed is None
                && events[j].last_affected is None) ==> range_bounds(events).len() == 0,
{
    lemma_state(events);
    lemma_blank_start(events);
    assert forall|j: int|
        introductions(events) == 0 && 0 <= j < events.len() && is_latest_fixed(events, j) && (
        #[trigger] events[j]).fixed is Some && events[j].fixed->0@.len() > 0 implies range_bounds(events).len() == 1
        && range_bounds(events)[0].introduced is None && range_bounds(events)[0].fixed
                    == Some(events[j].fixed->0@) by {
        lemma_latest_fixed(events, j);
        lemma_interval_is_there(events, j);
    }
    assert forall|j: int|
        introductions(events) == 0 && 0 <= j < events.len() && is_latest_last_affected(events, j) && (
        #[trigger] events[j]).last_affected is Some && events[j].last_affected->0@.len() > 0
        implies range_bounds(events).len() == 1
        && range_bounds(events)[0].introduced is None && range_bounds(events)[0].last_affected
                    == Some(events[j].last_affected->0@) by {
        lemma_latest_last_affected(events, j);
        lemma_interval_is_there(events, j);
    }
    if forall|j: int|
        0 <= j < events.len() ==> (#[trigger] events[j]).introduced is None && events[j].fixed is None
            && events[j].last_affected is None {
        lemma_introductions_rise(events, 0, events.len() as int);
        assert(events.take(0) =~= Seq::empty());
        assert(events.take(events.len() as int) =~= events);
        lemma_no_fixed(events, 0);
        lemma_no_last_affected(events, 0);
    }
}

proof fn lemma_blank_start(events: Seq<RawEvent>)
    ensures
        introductions(events) == 0 ==> range_state(events).cur.introduced is None,
    decreases events.len(),
{
    if events.len() > 0 {
        lemma_blank_start(events.drop_last());
    }
}

/// Each `introduced` starts the interval that it belongs to, the last `fixed` and
/// `last_affected` of an interval end it, and an interval that none of its events
/// ends has no end.
pub proof fn law_events_make_their_interval(events: Seq<RawEvent>, j: int)
    requires
        introductions(events) > 0,
        0 <= j < events.len(),
    ensures
        0 <= interval_of(events, j) < range_bounds(events).len(),
        events[j].introduced matches Some(v) ==> range_bounds(events)[interval_of(events, j)].introduced == nonempty(
            v@,
        ),
        events[j].fixed is Some && is_latest_fixed(events, j) ==> range_bounds(events)[interval_of(
            events,
            j,
        )].fixed == nonempty(events[j].fixed->0@),
        events[j].last_affected is Some && is_latest_last_affected(events, j) ==> range_bounds(
            events,
        )[interval_of(events, j)].last_affected == nonempty(events[j].last_affected->0@),
        (forall|k: int|
            0 <= k < events.len() && interval_of(events, k) == interval_of(events, j) ==> (
            #[trigger] events[k]).fixed is None) ==> range_bounds(events)[interval_of(events, j)].fixed is None,
        (forall|k: int|
            0 <= k < events.len() && interval_of(events, k) == interval_of(events, j) ==> (
            #[trigger] events[k]).last_affected is None) ==> range_bounds(events)[interval_of(
            events,
            j,
        )].last_affected is None,
{
    let q = interval_of(events, j);
    lemma_interval_is_there(events, j);
    lemma_state(events);
    if events[j].introduced is Some {
        lemma_start(events, j);
    }
    if events[j].fixed is Some && is_latest_fixed(events, j) {
        lemma_latest_fixed(events, j);
    }
    if events[j].last_affected is Some && is_latest_last_affected(events, j) {
        lemma_latest_last_affected(events, j);
    }
    if forall|k: int|
        0 <= k < events.len() && interval_of(events, k) == q ==> (#[trigger] events[k]).fixed is None {
        lemma_no_fixed(events, q);
    }
    if forall|k: int|
        0 <= k < events.len() && interval_of(events, k) == q ==> (#[trigger] events[k]).last_affected is None {
        lemma_no_last_affected(events, q);
    }
}

/// A `fixed` ends the interval that the latest `introduced` before it has started,
/// whichever place the two have in the range: unless another `fixed` comes before
/// the next `introduced`, the range has an interval from the one to the other.
pub proof fn law_fix_ends_the_latest_interval(events: Seq<RawEvent>, i: int, j: int)
    requires
        0 <= i <= j < events.len(),
        events[i].introduced is Some,
        forall|m: int| i < m <= j ==> (#[trigger] events[m]).introduced is None,
        events[j].fixed is Some,
        events[j].fixed->0@.len() > 0,
        forall|k: int|
            j < k < events.len() && (#[trigger] events[k]).fixed is Some ==> exists|m: int|
                j < m <= k && (#[trigger] events[m]).introduced is Some,
    ensures
        exists|q: int|
            0 <= q < range_bounds(events).len() && (#[trigger] range_bounds(events)[q]).introduced == nonempty(
                events[i].introduced->0@,
            ) && range_bounds(events)[q].fixed == Some(events[j].fixed->0@),
{
    lemma_pair(events, i, j);
    assert(is_latest_fixed(events, j)) by {
        assert forall|k: int|
            j < k < events.len() && interval_of(events, k) == interval_of(events, j) implies (
        #[trigger] events[k]).fixed is None by {
            lemma_same_interval(events, j, k);
        }
    }
    law_events_make_their_interval(events, i);
    law_events_make_their_interval(events, j);
    assert(range_bounds(events)[interval_of(events, j)].fixed == Some(events[j].fixed->0@));
}

/// A `last_affected` ends the interval that the latest `introduced` before it has
/// started, whichever place the two have in the range.
pub proof fn law_last_affected_ends_the_latest_interval(events: Seq<RawEvent>, i: int, j: int)
    requires
        0 <= i <= j < events.len(),
        events[i].introduced is Some,
        forall|m: int| i < m <= j ==> (#[trigger] events[m]).introduced is None,
        events[j].last_affected is Some,
        events[j].last_affected->0@.len() > 0,
        forall|k: int|
            j < k < events.len() && (#[trigger] events[k]).last_affected is Some ==> exists|m: int|
                j < m <= k && (#[trigger] events[m]).introduced is Some,
    ensures
        exists|q: int|
            0 <= q < range_bounds(events).len() && (#[trigger] range_bounds(events)[q]).introduced == nonempty(
                events[i].introduced->0@,
            ) && range_bounds(events)[q].last_affected == Some(events[j].last_affected->0@),
{
    lemma_pair(events, i, j);
    assert(is_latest_last_affected(events, j)) by {
        assert forall|k: int|
            j < k < events.len() && interval_of(events, k) == interval_of(events, j) implies (
        #[trigger] events[k]).last_affected is None by {
            lemma_same_interval(events, j, k);
        }
    }
    law_events_make_their_interval(events, i);
    law_events_make_their_interval(events, j);
    assert(range_bounds(events)[interval_of(events, j)].last_affected == Some(events[j].last_affected->0@));
}

/// An `introduced` and the events up to the next one belong together.
proof fn lemma_pair(events: Seq<RawEvent>, i: int, j: int)
    requires
        0 <= i <= j < events.len(),
        events[i].introduced is Some,
        forall|m: int| i < m <= j ==> (#[trigger] events[m]).introduced is None,
    ensures
        introductions(events) > 0,
        introductions(events.take(j + 1)) > 0,
        interval_of(events, i) == interval_of(events, j),
{
    lemma_introductions_rise(events, i, i + 1);
    lemma_introductions_rise(events, i + 1, j + 1);
}

proof fn lemma_same_interval(events: Seq<RawEvent>, j: int, k: int)
    requires
        0 <= j < k < events.len(),
        introductions(events.take(j + 1)) > 0,
        interval_of(events, k) == interval_of(events, j),
    ensures
        forall|m: int| j < m <= k ==> (#[trigger] events[m]).introduced is None,
{
    lemma_introductions_rise(events, j + 1, k + 1);
}

/// The intervals of an advisory are those of each range, one range after the
/// other: none is lost, and none is added.
pub proof fn law_ranges_add_up(a: Seq<RawRange>, b: Seq<RawRange>, r: RawRange)
    ensures
        all_bounds(a + b) == all_bounds(a) + all_bounds(b),
        all_bounds(seq![r]) == range_bounds(r.events@),
        all_bounds(Seq::empty()) == Seq::<BoundText>::empty(),
    decreases b.len(),
{
    assert(seq![r].drop_last() =~= Seq::empty());
    assert(all_bounds(seq![r].drop_last()) =~= Seq::empty());
    assert(all_bounds(seq![r]) =~= range_bounds(r.events@));
    if b.len() == 0 {
        assert(a + b =~= a);
        assert(all_bounds(a) + all_bounds(b) =~= all_bounds(a));
    } else {
        law_ranges_add_up(a, b.drop_last(), r);
        assert((a + b).drop_last() =~= a + b.drop_last());
        assert(all_bounds(a + b) =~= all_bounds(a) + all_bounds(b));
    }
}

/// The fix that an advisory names is the first one that any of its events gives,
/// range by range; there is none where no event gives one.
pub proof fn law_first_fix_comes_first(ranges: Seq<RawRange>, r: int, i: int)
    requires
        0 <= r < ranges.len(),
        0 <= i < ranges[r].events@.len(),
        gives_fix(ranges[r].events@[i]),
        forall|k: int|
            0 <= k < i ==> !gives_fix(#[trigger] ranges[r].events@[k]),
        forall|q: int, k: int|
            0 <= q < r && 0 <= k < ranges[q].events@.len() ==> !gives_fix(#[trigger] ranges[q].events@[k]),
    ensures
        first_fix_of(ranges) == Some(ranges[r].events@[i].fixed->0@),
    decreases ranges.len(),
{
    let fewer = ranges.drop_last();
    if r < fewer.len() {
        assert forall|q: int, k: int| 0 <= q < r && 0 <= k < fewer[q].events@.len() implies !gives_fix(
            #[trigger] fewer[q].events@[k],
        ) by {
            assert(!gives_fix(ranges[q].events@[k]));
        }
        assert(fewer[r] == ranges[r]);
        law_first_fix_comes_first(fewer, r, i);
    } else {
        assert forall|q: int, k: int| 0 <= q < fewer.len() && 0 <= k < fewer[q].events@.len() implies !gives_fix(
            #[trigger] fewer[q].events@[k],
        ) by {
            assert(!gives_fix(ranges[q].events@[k]));
        }
        law_no_fix_is_no_fix(fewer);
        assert(ranges[r] == ranges.last());
        lemma_first_fix(ranges[r].events@, i);
    }
}

/// An event names a version with the fix.
pub open spec fn gives_fix(ev: RawEvent) -> bool {
    ev.fixed matches Some(f) && f@.len() > 0
}

/// An advisory none of whose events gives a fix names none.
pub proof fn law_no_fix_is_no_fix(ranges: Seq<RawRange>)
    requires
        forall|q: int, k: int|
            0 <= q < ranges.len() && 0 <= k < ranges[q].events@.len() ==> !gives_fix(
                #[trigger] ranges[q].events@[k],
            ),
    ensures
        first_fix_of(ranges) is None,
    decreases ranges.len(),
{
    if ranges.len() > 0 {
        let fewer = ranges.drop_last();
        assert forall|q: int, k: int| 0 <= q < fewer.len() && 0 <= k < fewer[q].events@.len() implies !gives_fix(
            #[trigger] fewer[q].events@[k],
        ) by {
            assert(!gives_fix(ranges[q].events@[k]));
        }
        law_no_fix_is_no_fix(fewer);
        let at = ranges.len() - 1;
        let events = ranges[at].events@;
        assert forall|k: int| 0 <= k < events.len() implies !gives_fix(#[trigger] events[k]) by {
            assert(!gives_fix(ranges[at].events@[k]));
        }
        lemma_no_first_fix(events);
    }
}

proof fn lemma_first_fix(events: Seq<RawEvent>, i: int)
    requires
        0 <= i < events.len(),
        gives_fix(events[i]),
        forall|k: int| 0 <= k < i ==> !gives_fix(#[trigger] events[k]),
    ensures
        first_fix(events) == Some(events[i].fixed->0@),
    decreases events.len(),
{
    let fewer = events.drop_last();
    assert forall|k: int| 0 <= k < i implies !gives_fix(#[trigger] fewer[k]) by {
        assert(!gives_fix(events[k]));
    }
    if i < fewer.len() {
        lemma_first_fix(fewer, i);
    } else {
        lemma_no_first_fix(fewer);
    }
}

proof fn lemma_no_first_fix(events: Seq<RawEvent>)
    requires
        forall|k: int| 0 <= k < events.len() ==> !gives_fix(#[trigger] events[k]),
    ensures
        first_fix(events) is None,
    decreases events.len(),
{
    if events.len() > 0 {
        let fewer = events.drop_last();
        assert forall|k: int| 0 <= k < fewer.len() implies !gives_fix(#[trigger] fewer[k]) by {
            assert(!gives_fix(events[k]));
        }
        lemma_no_first_fix(fewer);
        assert(!gives_fix(events[events.len() - 1]));
    }
}

/// Every interval of every range is one of the advisory's.
proof fn lemma_range_is_kept(ranges: Seq<RawRange>, r: int, q: int)
    requires
        0 <= r < ranges.len(),
        0 <= q < range_bounds(ranges[r].events@).len(),
    ensures
        all_bounds(ranges).contains(range_bounds(ranges[r].events@)[q]),
{
    let one = seq![ranges[r]];
    let before = ranges.take(r);
    let after = ranges.skip(r + 1);
    assert(ranges =~= before + (one + after));
    law_ranges_add_up(before, one + after, ranges[r]);
    law_ranges_add_up(one, after, ranges[r]);
    let at = all_bounds(before).len() + q;
    assert(all_bounds(ranges)[at] == range_bounds(ranges[r].events@)[q]);
}

/// Every release line is covered: a version that is not before some `introduced`
/// of any range and is before the `fixed` that ends its interval is affected,
/// however many other lines the advisory has.
pub proof fn law_every_release_line_is_covered(
    raw: RawAdvisory,
    aff: RawAffected,
    r: int,
    i: int,
    j: int,
    version: Seq<char>,
)
    requires
        0 <= r < aff.ranges@.len(),
        ({
            let events = aff.ranges@[r].events@;
            &&& 0 <= i <= j < events.len()
            &&& events[i].introduced is Some
            &&& events[i].introduced->0@.len() > 0
            &&& forall|m: int| i < m <= j ==> (#[trigger] events[m]).introduced is None
            &&& events[j].fixed is Some
            &&& events[j].fixed->0@.len() > 0
            &&& forall|k: int|
                j < k < events.len() && (#[trigger] events[k]).fixed is Some ==> exists|m: int|
                    j < m <= k && (#[trigger] events[m]).introduced is Some
            &&& semver_valid(version)
            &&& events[i].introduced->0@ == "0"@ || (semver_valid(events[i].introduced->0@) && semver_standing(
                version,
                events[i].introduced->0@,
            ) != Standing::Before)
            &&& semver_valid(events[j].fixed->0@)
            &&& semver_standing(version, events[j].fixed->0@) == Standing::Before
        }),
    ensures
        verdict_of(Ecosystem::Npm, version, raw.about(aff)) == Match::Affected,
{
    let events = aff.ranges@[r].events@;
    law_fix_ends_the_latest_interval(events, i, j);
    let q = choose|q: int|
        0 <= q < range_bounds(events).len() && (#[trigger] range_bounds(events)[q]).introduced == nonempty(
            events[i].introduced->0@,
        ) && range_bounds(events)[q].fixed == Some(events[j].fixed->0@);
    let b = range_bounds(events)[q];
    lemma_range_is_kept(aff.ranges@, r, q);
    law_what_is_kept_of_an_advisory(raw, aff);
    let a = raw.about(aff);
    let k = choose|k: int| 0 <= k < a.bounds.len() && a.bounds[k] == b;
    law_order_decides_what_a_range_covers(version, b);
    law_every_interval_counts(Ecosystem::Npm, version, a);
    assert(match_of(Ecosystem::Npm, version, a.bounds[k]) == Match::Affected);
}

} // verus!
