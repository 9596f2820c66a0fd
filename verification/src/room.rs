//! Measuring an advisory before it is folded into an index.
//!
//! An index refers to its texts, ranges and versions by 32-bit numbers. Each
//! function here takes what room there is and hands back what room is left,
//! or `None` where there is not enough.

use crate::advisory::{
    all_bounds, byte_len, events_text_len, kept_versions, lemma_all_bounds_count, lemma_bounds_count,
    lemma_kept_counts, lemma_total_step, nonempty, opt_byte_len, range_bounds, range_state, ranges_text_len, texts_len,
    total, RawAdvisory, RawAffected, RawEvent, RawRange, MAX_EXPLICIT_VERSIONS,
};
use crate::vers::Ecosystem;
use vstd::prelude::*;

verus! {

/// `left` is what remains of `room` after `cost`, or none where it is too much.
pub open spec fn spent(room: u64, cost: nat, left: Option<u64>) -> bool {
    match left {
        Some(l) => room == l + cost,
        None => cost > room,
    }
}

fn spend(room: u64, cost: usize) -> (left: Option<u64>)
    ensures
        spent(room, cost as nat, left),
{
    if cost as u64 <= room {
        Some(room - cost as u64)
    } else {
        None
    }
}

fn spend_text(room: u64, s: &str) -> (left: Option<u64>)
    ensures
        spent(room, byte_len(s@), left),
{
    spend(room, s.as_bytes().len())
}

fn spend_opt(room: u64, s: &Option<String>) -> (left: Option<u64>)
    ensures
        spent(room, opt_byte_len(*s), left),
{
    match s {
        Some(t) => spend_text(room, t.as_str()),
        None => Some(room),
    }
}

fn spend_event(room: u64, e: &RawEvent) -> (left: Option<u64>)
    ensures
        spent(room, e.text_len(), left),
{
    match spend_opt(room, &e.introduced) {
        None => None,
        Some(room) => match spend_opt(room, &e.fixed) {
            None => None,
            Some(room) => spend_opt(room, &e.last_affected),
        },
    }
}

fn spend_events(room: u64, events: &Vec<RawEvent>) -> (left: Option<u64>)
    ensures
        spent(room, events_text_len(events@), left),
{
    let ghost f = |e: RawEvent| e.text_len();
    let mut rest: u64 = room;
    proof {
        assert(events@.take(0) =~= Seq::empty());
    }
    for i in 0..events.len()
        invariant
            f == |e: RawEvent| e.text_len(),
            room == rest + total(events@.take(i as int), f),
    {
        proof {
            lemma_total_step(events@, f, i as int);
        }
        match spend_event(rest, &events[i]) {
            Some(next) => {
                rest = next;
            },
            None => {
                return None;
            },
        }
    }
    proof {
        assert(events@.take(events@.len() as int) =~= events@);
    }
    Some(rest)
}

fn spend_ranges(room: u64, ranges: &Vec<RawRange>) -> (left: Option<u64>)
    ensures
        spent(room, ranges_text_len(ranges@), left),
{
    let ghost f = |r: RawRange| events_text_len(r.events@);
    let mut rest: u64 = room;
    proof {
        assert(ranges@.take(0) =~= Seq::empty());
    }
    for i in 0..ranges.len()
        invariant
            f == |r: RawRange| events_text_len(r.events@),
            room == rest + total(ranges@.take(i as int), f),
    {
        proof {
            lemma_total_step(ranges@, f, i as int);
        }
        match spend_events(rest, &ranges[i].events) {
            Some(next) => {
                rest = next;
            },
            None => {
                return None;
            },
        }
    }
    proof {
        assert(ranges@.take(ranges@.len() as int) =~= ranges@);
    }
    Some(rest)
}

/// Whether an optional text is there and not empty.
fn says_something(o: &Option<String>) -> (r: bool)
    ensures
        r == (match *o {
            Some(s) => nonempty(s@) is Some,
            None => false,
        }),
{
    match o {
        Some(s) => !s.as_str().is_empty(),
        None => false,
    }
}

/// The number of intervals of a range.
fn count_bounds(events: &Vec<RawEvent>) -> (n: usize)
    ensures
        n == range_bounds(events@).len(),
{
    let mut n: usize = 0;
    let mut open: bool = false;
    let mut fixed: bool = false;
    let mut last: bool = false;
    proof {
        assert(events@.take(0) =~= Seq::empty());
    }
    for i in 0..events.len()
        invariant
            n == range_state(events@.take(i as int)).done.len(),
            open == range_state(events@.take(i as int)).open,
            fixed == range_state(events@.take(i as int)).cur.fixed is Some,
            last == range_state(events@.take(i as int)).cur.last_affected is Some,
    {
        let ev = &events[i];
        proof {
            let now = events@.take(i + 1);
            assert(now.drop_last() =~= events@.take(i as int));
            assert(now.last() == *ev);
            lemma_bounds_count(now, now.len() as int);
            assert(now.take(now.len() as int) =~= now);
        }
        if ev.introduced.is_some() {
            if open {
                n = n + 1;
                fixed = false;
                last = false;
            }
            open = true;
        }
        if ev.fixed.is_some() {
            fixed = says_something(&ev.fixed);
        }
        if ev.last_affected.is_some() {
            last = says_something(&ev.last_affected);
        }
    }
    proof {
        assert(events@.take(events@.len() as int) =~= events@);
        lemma_bounds_count(events@, events@.len() as int);
    }
    if open || fixed || last {
        n + 1
    } else {
        n
    }
}

fn spend_bounds(room: u64, ranges: &Vec<RawRange>) -> (left: Option<u64>)
    ensures
        spent(room, all_bounds(ranges@).len(), left),
{
    let ghost f = |r: RawRange| range_bounds(r.events@).len();
    let mut rest: u64 = room;
    proof {
        assert(ranges@.take(0) =~= Seq::empty());
        lemma_all_bounds_count(ranges@);
    }
    for i in 0..ranges.len()
        invariant
            f == |r: RawRange| range_bounds(r.events@).len(),
            all_bounds(ranges@).len() == total(ranges@, f),
            room == rest + total(ranges@.take(i as int), f),
    {
        proof {
            lemma_total_step(ranges@, f, i as int);
        }
        match spend(rest, count_bounds(&ranges[i].events)) {
            Some(next) => {
                rest = next;
            },
            None => {
                return None;
            },
        }
    }
    proof {
        assert(ranges@.take(ranges@.len() as int) =~= ranges@);
    }
    Some(rest)
}

/// Whether a range or a version of a package remains.
fn keeps_package(aff: &RawAffected) -> (r: bool)
    ensures
        r == aff.is_kept(),
{
    if 0 < aff.versions.len() && aff.versions.len() <= MAX_EXPLICIT_VERSIONS {
        proof {
            assert(kept_versions(aff.versions@).len() == aff.versions@.len());
        }
        return true;
    }
    proof {
        assert(kept_versions(aff.versions@).len() == 0);
    }
    match spend_bounds(0, &aff.ranges) {
        Some(_) => false,
        None => true,
    }
}

/// Whether any package of an advisory is kept.
fn keeps_any(raw: &RawAdvisory, want: Ecosystem) -> (r: bool)
    ensures
        r == (raw.folded(want).len() > 0),
{
    let ghost f = |a: RawAffected| a.kept_entries(want);
    proof {
        lemma_kept_counts(*raw, raw.affected@, want);
        assert(raw.affected@.take(0) =~= Seq::empty());
    }
    for i in 0..raw.affected.len()
        invariant
            f == |a: RawAffected| a.kept_entries(want),
            raw.folded(want).len() == total(raw.affected@, f),
            total(raw.affected@.take(i as int), f) == 0,
    {
        proof {
            lemma_total_step(raw.affected@, f, i as int);
        }
        let aff = &raw.affected[i];
        if crate::index::wanted_name(aff, want).is_some() && keeps_package(aff) {
            return true;
        }
    }
    proof {
        assert(raw.affected@.take(raw.affected@.len() as int) =~= raw.affected@);
    }
    false
}

fn spend_texts(room: u64, texts: &Vec<String>) -> (left: Option<u64>)
    ensures
        spent(room, texts_len(texts@), left),
{
    let ghost f = |s: String| byte_len(s@);
    let mut rest: u64 = room;
    proof {
        assert(texts@.take(0) =~= Seq::empty());
    }
    for i in 0..texts.len()
        invariant
            f == |s: String| byte_len(s@),
            room == rest + total(texts@.take(i as int), f),
    {
        proof {
            lemma_total_step(texts@, f, i as int);
        }
        match spend_text(rest, texts[i].as_str()) {
            Some(next) => {
                rest = next;
            },
            None => {
                return None;
            },
        }
    }
    proof {
        assert(texts@.take(texts@.len() as int) =~= texts@);
    }
    Some(rest)
}

fn spend_package_text(room: u64, aff: &RawAffected, want: Ecosystem) -> (left: Option<u64>)
    ensures
        spent(room, aff.kept_text_len(want), left),
{
    match crate::index::wanted_name(aff, want) {
        None => Some(room),
        Some(name) => match spend_ranges(room, &aff.ranges) {
            None => None,
            Some(room) => {
                let listed: Option<u64> = if aff.versions.len() <= MAX_EXPLICIT_VERSIONS {
                    spend_texts(room, &aff.versions)
                } else {
                    Some(room)
                };
                match listed {
                    None => None,
                    Some(room) => if keeps_package(aff) {
                        spend_text(room, name)
                    } else {
                        Some(room)
                    },
                }
            },
        },
    }
}

fn spend_package_bounds(room: u64, aff: &RawAffected, want: Ecosystem) -> (left: Option<u64>)
    ensures
        spent(room, aff.kept_bounds_len(want), left),
{
    match crate::index::wanted_name(aff, want) {
        None => Some(room),
        Some(_) => spend_bounds(room, &aff.ranges),
    }
}

fn spend_package_versions(room: u64, aff: &RawAffected, want: Ecosystem) -> (left: Option<u64>)
    ensures
        spent(room, aff.kept_versions_len(want), left),
{
    match crate::index::wanted_name(aff, want) {
        None => Some(room),
        Some(_) => if aff.versions.len() <= MAX_EXPLICIT_VERSIONS {
            proof {
                assert(kept_versions(aff.versions@).len() == aff.versions@.len());
            }
            spend(room, aff.versions.len())
        } else {
            Some(room)
        },
    }
}

/// What room for texts is left after an advisory.
pub fn spend_advisory_text(room: u64, raw: &RawAdvisory, want: Ecosystem) -> (left: Option<u64>)
    ensures
        spent(room, raw.kept_text_len(want), left),
{
    let ghost f = |a: RawAffected| a.kept_text_len(want);
    let first: Option<u64> = if keeps_any(raw, want) {
        spend_text(room, raw.id.as_str())
    } else {
        Some(room)
    };
    let mut rest: u64 = match first {
        Some(rest) => rest,
        None => {
            return None;
        },
    };
    let ghost id_len = (room - rest) as nat;
    proof {
        assert(raw.affected@.take(0) =~= Seq::empty());
    }
    for i in 0..raw.affected.len()
        invariant
            f == |a: RawAffected| a.kept_text_len(want),
            raw.kept_text_len(want) == id_len + total(raw.affected@, f),
            room == rest + id_len + total(raw.affected@.take(i as int), f),
    {
        proof {
            lemma_total_step(raw.affected@, f, i as int);
        }
        match spend_package_text(rest, &raw.affected[i], want) {
            Some(next) => {
                rest = next;
            },
            None => {
                return None;
            },
        }
    }
    proof {
        assert(raw.affected@.take(raw.affected@.len() as int) =~= raw.affected@);
    }
    Some(rest)
}

/// What room for ranges is left after an advisory.
pub fn spend_advisory_bounds(room: u64, raw: &RawAdvisory, want: Ecosystem) -> (left: Option<u64>)
    ensures
        spent(room, raw.kept_bounds_len(want), left),
{
    let ghost f = |a: RawAffected| a.kept_bounds_len(want);
    let mut rest: u64 = room;
    proof {
        assert(raw.affected@.take(0) =~= Seq::empty());
    }
    for i in 0..raw.affected.len()
        invariant
            f == |a: RawAffected| a.kept_bounds_len(want),
            room == rest + total(raw.affected@.take(i as int), f),
    {
        proof {
            lemma_total_step(raw.affected@, f, i as int);
        }
        match spend_package_bounds(rest, &raw.affected[i], want) {
            Some(next) => {
                rest = next;
            },
            None => {
                return None;
            },
        }
    }
    proof {
        assert(raw.affected@.take(raw.affected@.len() as int) =~= raw.affected@);
    }
    Some(rest)
}

/// What room for versions is left after an advisory.
pub fn spend_advisory_versions(room: u64, raw: &RawAdvisory, want: Ecosystem) -> (left: Option<u64>)
    ensures
        spent(room, raw.kept_versions_len(want), left),
{
    let ghost f = |a: RawAffected| a.kept_versions_len(want);
    let mut rest: u64 = room;
    proof {
        assert(raw.affected@.take(0) =~= Seq::empty());
    }
    for i in 0..raw.affected.len()
        invariant
            f == |a: RawAffected| a.kept_versions_len(want),
            room == rest + total(raw.affected@.take(i as int), f),
    {
        proof {
            lemma_total_step(raw.affected@, f, i as int);
        }
        match spend_package_versions(rest, &raw.affected[i], want) {
            Some(next) => {
                rest = next;
            },
            None => {
                return None;
            },
        }
    }
    proof {
        assert(raw.affected@.take(raw.affected@.len() as int) =~= raw.affected@);
    }
    Some(rest)
}

/// What room for entries is left after an advisory.
pub fn spend_advisory_entries(room: u64, raw: &RawAdvisory, want: Ecosystem) -> (left: Option<u64>)
    ensures
        spent(room, raw.folded(want).len(), left),
{
    let ghost f = |a: RawAffected| a.kept_entries(want);
    let mut rest: u64 = room;
    proof {
        lemma_kept_counts(*raw, raw.affected@, want);
        assert(raw.affected@.take(0) =~= Seq::empty());
    }
    for i in 0..raw.affected.len()
        invariant
            f == |a: RawAffected| a.kept_entries(want),
            raw.folded(want).len() == total(raw.affected@, f),
            room == rest + total(raw.affected@.take(i as int), f),
    {
        proof {
            lemma_total_step(raw.affected@, f, i as int);
        }
        let aff = &raw.affected[i];
        if crate::index::wanted_name(aff, want).is_some() && keeps_package(aff) {
            if rest == 0 {
                return None;
            }
            rest = rest - 1;
        }
    }
    proof {
        assert(raw.affected@.take(raw.affected@.len() as int) =~= raw.affected@);
    }
    Some(rest)
}

/// What room for dropped lists is left after an advisory.
pub fn spend_advisory_lists(room: u64, raw: &RawAdvisory, want: Ecosystem) -> (left: Option<u64>)
    ensures
        spent(room, raw.lists_dropped(raw.affected@, want), left),
{
    let ghost f = |a: RawAffected| a.dropped_lists(want);
    let mut rest: u64 = room;
    proof {
        lemma_kept_counts(*raw, raw.affected@, want);
        assert(raw.affected@.take(0) =~= Seq::empty());
    }
    for i in 0..raw.affected.len()
        invariant
            f == |a: RawAffected| a.dropped_lists(want),
            raw.lists_dropped(raw.affected@, want) == total(raw.affected@, f),
            room == rest + total(raw.affected@.take(i as int), f),
    {
        proof {
            lemma_total_step(raw.affected@, f, i as int);
        }
        let aff = &raw.affected[i];
        if crate::index::wanted_name(aff, want).is_some() && aff.versions.len() > MAX_EXPLICIT_VERSIONS {
            if rest == 0 {
                return None;
            }
            rest = rest - 1;
        }
    }
    proof {
        assert(raw.affected@.take(raw.affected@.len() as int) =~= raw.affected@);
    }
    Some(rest)
}

} // verus!
