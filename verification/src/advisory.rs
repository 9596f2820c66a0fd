//! What an OSV advisory says, reduced to what decides a verdict.
//!
//! The `Raw…` structs are one advisory of the feed with only the fields that
//! matter; [`Advisory`] is what remains of it for one package.

use crate::order::same_text;
use crate::text::{to_upper, upper_case};
use crate::vers::{ecosystem_of, BoundText, Ecosystem};
use vstd::prelude::*;

verus! {

/// What an advisory reports.
#[derive(Debug, Clone, Copy, PartialEq, Eq, Structural)]
pub enum Kind {
    Malicious,
    Vulnerability,
}

/// How bad it is, the least first.
#[derive(Debug, Clone, Copy, PartialEq, Eq, PartialOrd, Ord, Default, Structural)]
pub enum Severity {
    #[default]
    Unknown,
    Low,
    Moderate,
    High,
    Critical,
}

/// The severity that a word of the feed stands for, in whatever case.
pub open spec fn severity_of(s: Seq<char>) -> Severity {
    let word = upper_case(s);
    if word == "LOW"@ {
        Severity::Low
    } else if word == "MODERATE"@ || word == "MEDIUM"@ {
        Severity::Moderate
    } else if word == "HIGH"@ {
        Severity::High
    } else if word == "CRITICAL"@ {
        Severity::Critical
    } else {
        Severity::Unknown
    }
}

impl Severity {
    /// The place of the severity in the order, from 0 up.
    pub open spec fn rank(self) -> int {
        match self {
            Severity::Unknown => 0,
            Severity::Low => 1,
            Severity::Moderate => 2,
            Severity::High => 3,
            Severity::Critical => 4,
        }
    }

    /// The word for the severity.
    pub open spec fn word(self) -> Seq<char> {
        match self {
            Severity::Unknown => "UNKNOWN"@,
            Severity::Low => "LOW"@,
            Severity::Moderate => "MODERATE"@,
            Severity::High => "HIGH"@,
            Severity::Critical => "CRITICAL"@,
        }
    }

    /// Reads a severity; a word that is none of the known ones is `Unknown`.
    pub fn parse(s: &str) -> (r: Self)
        ensures
            r == severity_of(s@),
    {
        let word = to_upper(s);
        if same_text(word.as_str(), "LOW") {
            Severity::Low
        } else if same_text(word.as_str(), "MODERATE") || same_text(word.as_str(), "MEDIUM") {
            Severity::Moderate
        } else if same_text(word.as_str(), "HIGH") {
            Severity::High
        } else if same_text(word.as_str(), "CRITICAL") {
            Severity::Critical
        } else {
            Severity::Unknown
        }
    }

    /// The word for the severity.
    pub fn as_str(&self) -> (r: &'static str)
        ensures
            r@ == self.word(),
    {
        match self {
            Severity::Unknown => "UNKNOWN",
            Severity::Low => "LOW",
            Severity::Moderate => "MODERATE",
            Severity::High => "HIGH",
            Severity::Critical => "CRITICAL",
        }
    }

    /// The severity at a place in the order; beyond the last place it is
    /// `Unknown`.
    pub fn from_u8(v: u8) -> (r: Self)
        ensures
            v <= 4 ==> r.rank() == v,
            v > 4 ==> r == Severity::Unknown,
    {
        match v {
            1 => Severity::Low,
            2 => Severity::Moderate,
            3 => Severity::High,
            4 => Severity::Critical,
            _ => Severity::Unknown,
        }
    }

    /// The place of the severity in the order.
    pub fn to_u8(self) -> (r: u8)
        ensures
            r == self.rank(),
    {
        match self {
            Severity::Unknown => 0,
            Severity::Low => 1,
            Severity::Moderate => 2,
            Severity::High => 3,
            Severity::Critical => 4,
        }
    }
}

/// Reading the word for a severity gives the severity back.
pub proof fn law_severity_word_reads_back(s: Severity)
    ensures
        severity_of(s.word()) == s,
{
    reveal_strlit("UNKNOWN");
    reveal_strlit("LOW");
    reveal_strlit("MODERATE");
    reveal_strlit("MEDIUM");
    reveal_strlit("HIGH");
    reveal_strlit("CRITICAL");
    assert(upper_case(s.word()) =~= s.word());
    assert("UNKNOWN"@[0] != "LOW"@[0]);
    assert("UNKNOWN"@.len() == 7);
    assert("LOW"@.len() == 3);
    assert("MODERATE"@.len() == 8);
    assert("CRITICAL"@.len() == 8);
    assert("MODERATE"@[0] != "CRITICAL"@[0]);
    assert("HIGH"@.len() == 4);
    assert("MEDIUM"@.len() == 6);
}

/// One advisory of the feed.
#[derive(Debug)]
pub struct RawAdvisory {
    pub id: String,
    pub affected: Vec<RawAffected>,
    pub database_specific: Option<RawDbSpecific>,
}

/// The part of an advisory that each database fills in its own way.
#[derive(Debug)]
pub struct RawDbSpecific {
    pub severity: Option<String>,
}

/// A package that an advisory touches.
#[derive(Debug)]
pub struct RawAffected {
    pub package: Option<RawPackage>,
    pub ranges: Vec<RawRange>,
    pub versions: Vec<String>,
}

/// The name of a package and of the ecosystem that it belongs to.
#[derive(Debug)]
pub struct RawPackage {
    pub name: Option<String>,
    pub ecosystem: Option<String>,
}

/// A range of versions, as the events along it.
#[derive(Debug)]
pub struct RawRange {
    pub events: Vec<RawEvent>,
}

/// One event along a range.
#[derive(Debug)]
pub struct RawEvent {
    pub introduced: Option<String>,
    pub fixed: Option<String>,
    pub last_affected: Option<String>,
}

/// Explicit affected-version lists above this length are dropped in favour of
/// the ranges. Counted, never silent.
pub const MAX_EXPLICIT_VERSIONS: usize = 64;

/// One advisory as it touches one package.
#[verifier::ext_equal]
pub struct Advisory {
    pub id: Seq<char>,
    pub kind: Kind,
    pub severity: Severity,
    pub bounds: Seq<BoundText>,
    pub versions: Seq<Seq<char>>,
    pub fixed_in: Option<Seq<char>>,
}

impl Advisory {
    /// The advisory covers the package as a whole, forever: it lists no
    /// versions, and every range starts at zero and never ends.
    pub open spec fn is_whole(self) -> bool {
        &&& self.versions.len() == 0
        &&& self.bounds.len() > 0
        &&& forall|i: int| 0 <= i < self.bounds.len() ==> (#[trigger] self.bounds[i]).is_whole()
    }

    /// What the advisory reports is told by its id.
    pub open spec fn is_told_by_id(self) -> bool {
        self.kind == Kind::Malicious <==> is_malicious_id(self.id)
    }
}

/// An id names a malicious package.
pub open spec fn is_malicious_id(id: Seq<char>) -> bool {
    "MAL-"@.is_prefix_of(id)
}

/// A text, or none where it is empty.
pub open spec fn nonempty(s: Seq<char>) -> Option<Seq<char>> {
    if s.len() == 0 {
        None
    } else {
        Some(s)
    }
}

/// The intervals of a range as far as its events have been read.
#[verifier::ext_equal]
pub struct RangeState {
    /// The intervals that a later `introduced` has closed.
    pub done: Seq<BoundText>,
    /// The interval that is being read.
    pub cur: BoundText,
    /// Whether the interval that is being read has a start.
    pub open: bool,
}

/// An interval of which nothing is known yet.
pub open spec fn blank_bound() -> BoundText {
    BoundText { introduced: None, fixed: None, last_affected: None }
}

impl RangeState {
    /// A new `introduced` starts a new interval; the other two end the one that
    /// is being read.
    pub open spec fn after(self, ev: RawEvent) -> RangeState {
        let started = match ev.introduced {
            Some(i) => if self.open {
                RangeState {
                    done: self.done.push(self.cur),
                    cur: BoundText { introduced: nonempty(i@), fixed: None, last_affected: None },
                    open: true,
                }
            } else {
                RangeState {
                    done: self.done,
                    cur: BoundText { introduced: nonempty(i@), ..self.cur },
                    open: true,
                }
            },
            None => self,
        };
        RangeState {
            cur: BoundText {
                introduced: started.cur.introduced,
                fixed: match ev.fixed {
                    Some(f) => nonempty(f@),
                    None => started.cur.fixed,
                },
                last_affected: match ev.last_affected {
                    Some(l) => nonempty(l@),
                    None => started.cur.last_affected,
                },
            },
            ..started
        }
    }

    /// The interval that is being read says something.
    pub open spec fn pending(self) -> bool {
        self.open || self.cur.fixed is Some || self.cur.last_affected is Some
    }
}

/// The intervals of a range after its events.
pub open spec fn range_state(events: Seq<RawEvent>) -> RangeState
    decreases events.len(),
{
    if events.len() == 0 {
        RangeState { done: Seq::empty(), cur: blank_bound(), open: false }
    } else {
        range_state(events.drop_last()).after(events.last())
    }
}

/// The intervals of a range.
pub open spec fn range_bounds(events: Seq<RawEvent>) -> Seq<BoundText> {
    let state = range_state(events);
    if state.pending() {
        state.done.push(state.cur)
    } else {
        state.done
    }
}

/// The intervals of all ranges, one range after the other.
pub open spec fn all_bounds(ranges: Seq<RawRange>) -> Seq<BoundText>
    decreases ranges.len(),
{
    if ranges.len() == 0 {
        Seq::empty()
    } else {
        all_bounds(ranges.drop_last()) + range_bounds(ranges.last().events@)
    }
}

/// The first version along the events that fixes the flaw.
pub open spec fn first_fix(events: Seq<RawEvent>) -> Option<Seq<char>>
    decreases events.len(),
{
    if events.len() == 0 {
        None
    } else if first_fix(events.drop_last()) is Some {
        first_fix(events.drop_last())
    } else {
        match events.last().fixed {
            Some(f) => nonempty(f@),
            None => None,
        }
    }
}

/// The first version along all ranges that fixes the flaw.
pub open spec fn first_fix_of(ranges: Seq<RawRange>) -> Option<Seq<char>>
    decreases ranges.len(),
{
    if ranges.len() == 0 {
        None
    } else if first_fix_of(ranges.drop_last()) is Some {
        first_fix_of(ranges.drop_last())
    } else {
        first_fix(ranges.last().events@)
    }
}

/// The versions that are kept of an explicit list.
pub open spec fn kept_versions(versions: Seq<String>) -> Seq<Seq<char>> {
    if versions.len() <= MAX_EXPLICIT_VERSIONS {
        crate::text::views(versions)
    } else {
        Seq::empty()
    }
}

impl RawAffected {
    /// The package is named, and belongs to the ecosystem.
    pub open spec fn wanted(self, want: Ecosystem) -> bool {
        match self.package {
            Some(p) => p.name is Some && ecosystem_of(
                match p.ecosystem {
                    Some(e) => e@,
                    None => ""@,
                },
            ) == want,
            None => false,
        }
    }

    /// The name of the package.
    pub open spec fn name(self) -> Seq<char> {
        self.package->0.name->0@
    }
}

impl RawAdvisory {
    /// An advisory is malicious by its id.
    pub open spec fn kind(self) -> Kind {
        if is_malicious_id(self.id@) {
            Kind::Malicious
        } else {
            Kind::Vulnerability
        }
    }

    /// The severity that the database gives the advisory.
    pub open spec fn severity(self) -> Severity {
        match self.database_specific {
            Some(d) => match d.severity {
                Some(s) => severity_of(s@),
                None => Severity::Unknown,
            },
            None => Severity::Unknown,
        }
    }

    /// What the advisory says of one package.
    pub open spec fn about(self, aff: RawAffected) -> Advisory {
        Advisory {
            id: self.id@,
            kind: self.kind(),
            severity: self.severity(),
            bounds: all_bounds(aff.ranges@),
            versions: kept_versions(aff.versions@),
            fixed_in: first_fix_of(aff.ranges@),
        }
    }

    /// What the advisory says of the wanted packages among `affected`: each
    /// with its name, and only where a range or a version remains.
    pub open spec fn says_of(self, affected: Seq<RawAffected>, want: Ecosystem) -> Seq<(
        Seq<char>,
        Advisory,
    )>
        decreases affected.len(),
    {
        if affected.len() == 0 {
            Seq::empty()
        } else {
            let before = self.says_of(affected.drop_last(), want);
            let aff = affected.last();
            if aff.wanted(want) && (self.about(aff).bounds.len() > 0 || self.about(aff).versions.len() > 0) {
                before.push((aff.name(), self.about(aff)))
            } else {
                before
            }
        }
    }

    /// How many version lists of wanted packages are too long to be kept.
    pub open spec fn lists_dropped(self, affected: Seq<RawAffected>, want: Ecosystem) -> nat
        decreases affected.len(),
    {
        if affected.len() == 0 {
            0
        } else {
            let before = self.lists_dropped(affected.drop_last(), want);
            let aff = affected.last();
            if aff.wanted(want) && aff.versions@.len() > MAX_EXPLICIT_VERSIONS {
                before + 1
            } else {
                before
            }
        }
    }

    /// What the advisory says of the packages of an ecosystem.
    pub open spec fn folded(self, want: Ecosystem) -> Seq<(Seq<char>, Advisory)> {
        self.says_of(self.affected@, want)
    }
}

/// A range has no more intervals than events, and no fewer than its first events
/// have closed.
pub proof fn lemma_bounds_count(events: Seq<RawEvent>, i: int)
    requires
        0 <= i <= events.len(),
    ensures
        range_state(events).done.len() + (if range_state(events).pending() { 1int } else { 0int })
            <= events.len(),
        range_bounds(events).len() <= events.len(),
        range_state(events.take(i)).done.len() <= range_state(events).done.len() <= range_bounds(events).len(),
    decreases events.len(),
{
    if events.len() > 0 {
        let fewer = events.drop_last();
        if i < events.len() {
            lemma_bounds_count(fewer, i);
            assert(fewer.take(i) =~= events.take(i));
        } else {
            lemma_bounds_count(fewer, i - 1);
            assert(events.take(i) =~= events);
        }
    } else {
        assert(events.take(i) =~= events);
    }
}

/// The intervals of all ranges are as many as those of each together.
pub proof fn lemma_all_bounds_count(ranges: Seq<RawRange>)
    ensures
        all_bounds(ranges).len() == ranges_bounds_len(ranges),
    decreases ranges.len(),
{
    if ranges.len() > 0 {
        lemma_all_bounds_count(ranges.drop_last());
    }
}

/// The sum of `f` over a list.
pub open spec fn total<T>(s: Seq<T>, f: spec_fn(T) -> nat) -> nat
    decreases s.len(),
{
    if s.len() == 0 {
        0
    } else {
        total(s.drop_last(), f) + f(s.last())
    }
}

/// The sum over the first items grows with each of them, up to the whole sum.
pub proof fn lemma_total_step<T>(s: Seq<T>, f: spec_fn(T) -> nat, i: int)
    requires
        0 <= i < s.len(),
    ensures
        total(s.take(i + 1), f) == total(s.take(i), f) + f(s[i]),
        total(s.take(i + 1), f) <= total(s, f),
        total(s.take(0), f) == 0,
        total(s.take(s.len() as int), f) == total(s, f),
    decreases s.len() - i,
{
    assert(s.take(i + 1).drop_last() =~= s.take(i));
    assert(s.take(s.len() as int) =~= s);
    if i + 1 < s.len() {
        lemma_total_step(s, f, i + 1);
    }
}

/// The bytes of a text.
pub open spec fn byte_len(s: Seq<char>) -> nat {
    vstd::utf8::encode_utf8(s).len()
}

/// The bytes of an optional text.
pub open spec fn opt_byte_len(o: Option<String>) -> nat {
    match o {
        Some(s) => byte_len(s@),
        None => 0,
    }
}

impl RawEvent {
    /// The bytes of the texts of an event.
    pub open spec fn text_len(self) -> nat {
        opt_byte_len(self.introduced) + opt_byte_len(self.fixed) + opt_byte_len(self.last_affected)
    }
}

/// The bytes of the texts of the events.
pub open spec fn events_text_len(events: Seq<RawEvent>) -> nat {
    total(events, |e: RawEvent| e.text_len())
}

/// The bytes of the texts of the ranges.
pub open spec fn ranges_text_len(ranges: Seq<RawRange>) -> nat {
    total(ranges, |r: RawRange| events_text_len(r.events@))
}

/// The number of intervals of the ranges.
pub open spec fn ranges_bounds_len(ranges: Seq<RawRange>) -> nat {
    total(ranges, |r: RawRange| range_bounds(r.events@).len())
}

/// The bytes of a list of texts.
pub open spec fn texts_len(texts: Seq<String>) -> nat {
    total(texts, |s: String| byte_len(s@))
}

impl RawAffected {
    /// A range or a version of the package remains.
    pub open spec fn is_kept(self) -> bool {
        all_bounds(self.ranges@).len() > 0 || kept_versions(self.versions@).len() > 0
    }

    /// The bytes that an index takes for the package: the texts of its ranges and
    /// kept versions, and its name where the package is kept.
    pub open spec fn kept_text_len(self, want: Ecosystem) -> nat {
        if self.wanted(want) {
            ranges_text_len(self.ranges@) + (if self.versions@.len() <= MAX_EXPLICIT_VERSIONS {
                texts_len(self.versions@)
            } else {
                0
            }) + (if self.is_kept() {
                byte_len(self.name())
            } else {
                0
            })
        } else {
            0
        }
    }

    /// The intervals that an index takes for the package.
    pub open spec fn kept_bounds_len(self, want: Ecosystem) -> nat {
        if self.wanted(want) {
            all_bounds(self.ranges@).len()
        } else {
            0
        }
    }

    /// The versions that an index takes for the package.
    pub open spec fn kept_versions_len(self, want: Ecosystem) -> nat {
        if self.wanted(want) {
            kept_versions(self.versions@).len()
        } else {
            0
        }
    }

    /// The entries that an index takes for the package.
    pub open spec fn kept_entries(self, want: Ecosystem) -> nat {
        if self.wanted(want) && self.is_kept() {
            1
        } else {
            0
        }
    }

    /// The version lists of the package that are too long to be kept.
    pub open spec fn dropped_lists(self, want: Ecosystem) -> nat {
        if self.wanted(want) && self.versions@.len() > MAX_EXPLICIT_VERSIONS {
            1
        } else {
            0
        }
    }
}

impl RawAdvisory {
    /// The ids that an index takes for the advisory: its own, where a package is
    /// kept.
    pub open spec fn kept_ids(self, want: Ecosystem) -> nat {
        if self.folded(want).len() > 0 {
            1
        } else {
            0
        }
    }

    /// The bytes that an index takes for the advisory.
    pub open spec fn kept_text_len(self, want: Ecosystem) -> nat {
        (if self.folded(want).len() > 0 {
            byte_len(self.id@)
        } else {
            0
        }) + total(self.affected@, |a: RawAffected| a.kept_text_len(want))
    }

    /// The intervals that an index takes for the advisory.
    pub open spec fn kept_bounds_len(self, want: Ecosystem) -> nat {
        total(self.affected@, |a: RawAffected| a.kept_bounds_len(want))
    }

    /// The versions that an index takes for the advisory.
    pub open spec fn kept_versions_len(self, want: Ecosystem) -> nat {
        total(self.affected@, |a: RawAffected| a.kept_versions_len(want))
    }
}

/// The packages that an advisory speaks of and the lists that it drops, counted.
pub proof fn lemma_kept_counts(raw: RawAdvisory, affected: Seq<RawAffected>, want: Ecosystem)
    ensures
        raw.says_of(affected, want).len() == total(affected, |a: RawAffected| a.kept_entries(want)),
        raw.lists_dropped(affected, want) == total(affected, |a: RawAffected| a.dropped_lists(want)),
    decreases affected.len(),
{
    if affected.len() > 0 {
        lemma_kept_counts(raw, affected.drop_last(), want);
    }
}

/// What is said of a package comes from a wanted one among `affected`.
pub open spec fn said_of_wanted(
    raw: RawAdvisory,
    affected: Seq<RawAffected>,
    want: Ecosystem,
    said: (Seq<char>, Advisory),
) -> bool {
    exists|k: int|
        0 <= k < affected.len() && (#[trigger] affected[k]).wanted(want) && said == (
            affected[k].name(),
            raw.about(affected[k]),
        )
}

/// An advisory never speaks of a package of another ecosystem, nor of more
/// packages than it lists.
pub proof fn law_other_ecosystems_are_dropped(raw: RawAdvisory, affected: Seq<RawAffected>, want: Ecosystem)
    ensures
        raw.says_of(affected, want).len() <= affected.len(),
        forall|i: int|
            0 <= i < raw.says_of(affected, want).len() ==> said_of_wanted(
                raw,
                affected,
                want,
                #[trigger] raw.says_of(affected, want)[i],
            ),
    decreases affected.len(),
{
    if affected.len() > 0 {
        let fewer = affected.drop_last();
        let before = raw.says_of(fewer, want);
        law_other_ecosystems_are_dropped(raw, fewer, want);
        assert forall|i: int| 0 <= i < raw.says_of(affected, want).len() implies said_of_wanted(
            raw,
            affected,
            want,
            #[trigger] raw.says_of(affected, want)[i],
        ) by {
            if i < before.len() {
                let said = before[i];
                assert(said_of_wanted(raw, fewer, want, said));
                let k = choose|k: int|
                    0 <= k < fewer.len() && (#[trigger] fewer[k]).wanted(want) && said == (
                        fewer[k].name(),
                        raw.about(fewer[k]),
                    );
                assert(affected[k] == fewer[k]);
            } else {
                assert(affected[affected.len() - 1].wanted(want));
            }
        }
    }
}

/// An advisory speaks of every wanted package that it lists with a range or a
/// version that is kept.
pub proof fn law_wanted_packages_are_kept(raw: RawAdvisory, affected: Seq<RawAffected>, want: Ecosystem, k: int)
    requires
        0 <= k < affected.len(),
        affected[k].wanted(want),
        raw.about(affected[k]).bounds.len() > 0 || raw.about(affected[k]).versions.len() > 0,
    ensures
        raw.says_of(affected, want).contains((affected[k].name(), raw.about(affected[k]))),
    decreases affected.len(),
{
    let said = (affected[k].name(), raw.about(affected[k]));
    let all = raw.says_of(affected, want);
    let fewer = affected.drop_last();
    let before = raw.says_of(fewer, want);
    if k == affected.len() - 1 {
        assert(all[before.len() as int] == said);
    } else {
        law_wanted_packages_are_kept(raw, fewer, want, k);
        let i = choose|i: int| 0 <= i < before.len() && before[i] == said;
        assert(all[i] == said);
    }
}

/// An empty text says nothing, and every other one says itself.
pub proof fn law_only_the_empty_text_says_nothing(s: Seq<char>)
    ensures
        nonempty(s) is None <==> s.len() == 0,
        s.len() > 0 ==> nonempty(s) == Some(s),
{
}

/// The severities rise from unknown to critical.
pub proof fn law_severities_rise(a: Severity, b: Severity)
    ensures
        0 <= Severity::Unknown.rank() < Severity::Low.rank() < Severity::Moderate.rank() < Severity::High.rank()
            < Severity::Critical.rank(),
        a.rank() == b.rank() <==> a == b,
{
}

/// A severity is read from its word in whatever case, `MEDIUM` is another word
/// for moderate, and no other word stands for a severity.
pub proof fn law_severity_is_read_in_any_case(s: Seq<char>, t: Seq<char>)
    ensures
        upper_case(s) == upper_case(t) ==> severity_of(s) == severity_of(t),
        severity_of(s) == Severity::Low <==> upper_case(s) == "LOW"@,
        severity_of(s) == Severity::Moderate <==> upper_case(s) == "MODERATE"@ || upper_case(s) == "MEDIUM"@,
        severity_of(s) == Severity::High <==> upper_case(s) == "HIGH"@,
        severity_of(s) == Severity::Critical <==> upper_case(s) == "CRITICAL"@,
{
    reveal_strlit("LOW");
    reveal_strlit("MODERATE");
    reveal_strlit("MEDIUM");
    reveal_strlit("HIGH");
    reveal_strlit("CRITICAL");
    assert("LOW"@.len() == 3 && "MODERATE"@.len() == 8 && "MEDIUM"@.len() == 6 && "HIGH"@.len() == 4);
    assert("CRITICAL"@.len() == 8 && "CRITICAL"@[0] == 'C' && "MODERATE"@[0] == 'M');
}

/// An advisory is a malicious report just where its id begins with `MAL-`,
/// whatever follows and whatever else it says.
pub proof fn law_malicious_by_id(raw: RawAdvisory, aff: RawAffected, rest: Seq<char>)
    ensures
        raw.id@ == "MAL-"@ + rest ==> raw.about(aff).kind == Kind::Malicious,
        raw.about(aff).kind == Kind::Malicious <==> raw.id@.len() >= 4 && raw.id@[0] == 'M' && raw.id@[1] == 'A'
            && raw.id@[2] == 'L' && raw.id@[3] == '-',
{
    reveal_strlit("MAL-");
    assert("MAL-"@.len() == 4);
    let id = raw.id@;
    if id == "MAL-"@ + rest {
        assert("MAL-"@.is_prefix_of(id)) by {
            assert(id.subrange(0, 4) =~= "MAL-"@);
        }
    }
    if id.len() >= 4 && id[0] == 'M' && id[1] == 'A' && id[2] == 'L' && id[3] == '-' {
        assert(id.subrange(0, 4) =~= "MAL-"@);
    }
    if "MAL-"@.is_prefix_of(id) {
        assert(id.subrange(0, 4) =~= "MAL-"@);
        assert(id.subrange(0, 4)[0] == id[0] && id.subrange(0, 4)[1] == id[1]);
        assert(id.subrange(0, 4)[2] == id[2] && id.subrange(0, 4)[3] == id[3]);
    }
}

/// What is kept of an advisory for a package: its id, the severity that its
/// database gives it and none where it gives none, and the package's explicit
/// versions, all of them or, where there are too many, none.
pub proof fn law_what_is_kept_of_an_advisory(raw: RawAdvisory, aff: RawAffected)
    ensures
        ({
            let a = raw.about(aff);
            &&& a.id == raw.id@
            &&& raw.database_specific is None ==> a.severity == Severity::Unknown
            &&& raw.database_specific matches Some(d) ==> (d.severity is None ==> a.severity == Severity::Unknown)
            &&& raw.database_specific matches Some(d) ==> (d.severity matches Some(s) ==> a.severity == severity_of(
                s@,
            ))
            &&& a.versions.len() == aff.versions@.len() || (a.versions.len() == 0 && aff.versions@.len()
                > MAX_EXPLICIT_VERSIONS)
            &&& forall|i: int| 0 <= i < a.versions.len() ==> #[trigger] a.versions[i] == aff.versions@[i]@
            &&& a.bounds == all_bounds(aff.ranges@)
            &&& a.fixed_in == first_fix_of(aff.ranges@)
        }),
{
}

/// A package is wanted just where it has a name and its ecosystem is the one
/// asked for; one without an ecosystem is of none that is known.
pub proof fn law_wanted_by_name_and_ecosystem(aff: RawAffected, want: Ecosystem)
    ensures
        aff.wanted(want) ==> aff.package is Some && aff.package->0.name is Some && aff.name()
            == aff.package->0.name->0@,
        aff.package is Some && aff.package->0.name is Some && aff.package->0.ecosystem is Some ==> (aff.wanted(want)
            <==> ecosystem_of(aff.package->0.ecosystem->0@) == want),
        aff.package is Some && aff.package->0.name is Some && aff.package->0.ecosystem is None ==> (aff.wanted(want)
            <==> want == Ecosystem::Other),
{
    reveal_strlit("");
    reveal_strlit("npm");
    reveal_strlit("PyPI");
    assert(""@.len() == 0 && "npm"@.len() == 3 && "PyPI"@.len() == 4);
}

/// An advisory says of its packages what it says of each, in their order, and
/// drops the lists of each.
pub proof fn law_packages_add_up(raw: RawAdvisory, a: Seq<RawAffected>, b: Seq<RawAffected>, want: Ecosystem)
    ensures
        raw.says_of(a + b, want) == raw.says_of(a, want) + raw.says_of(b, want),
        raw.lists_dropped(a + b, want) == raw.lists_dropped(a, want) + raw.lists_dropped(b, want),
    decreases b.len(),
{
    if b.len() == 0 {
        assert(a + b =~= a);
        assert(raw.says_of(a, want) + raw.says_of(b, want) =~= raw.says_of(a, want));
    } else {
        law_packages_add_up(raw, a, b.drop_last(), want);
        assert((a + b).drop_last() =~= a + b.drop_last());
        assert(raw.says_of(a + b, want) =~= raw.says_of(a, want) + raw.says_of(b, want));
    }
}

/// What an advisory says of one package: it, where the package is wanted and a
/// range or a version remains, and a dropped list where the list is too long.
pub proof fn law_one_package(raw: RawAdvisory, aff: RawAffected, want: Ecosystem)
    ensures
        aff.wanted(want) && (raw.about(aff).bounds.len() > 0 || raw.about(aff).versions.len() > 0) ==> raw.says_of(
            seq![aff],
            want,
        ) == seq![(aff.name(), raw.about(aff))],
        !(aff.wanted(want) && (raw.about(aff).bounds.len() > 0 || raw.about(aff).versions.len() > 0))
            ==> raw.says_of(seq![aff], want).len() == 0,
        raw.lists_dropped(seq![aff], want) == (if aff.wanted(want) && aff.versions@.len()
            > MAX_EXPLICIT_VERSIONS {
            1nat
        } else {
            0nat
        }),
{
    assert(seq![aff].drop_last() =~= Seq::empty());
    assert(raw.says_of(seq![aff].drop_last(), want) =~= Seq::empty());
    assert(raw.lists_dropped(seq![aff].drop_last(), want) == 0);
    if aff.wanted(want) && (raw.about(aff).bounds.len() > 0 || raw.about(aff).versions.len() > 0) {
        assert(raw.says_of(seq![aff], want) =~= seq![(aff.name(), raw.about(aff))]);
    }
}

/// Every package of an advisory that is wanted, and of which a range or a version
/// remains, is folded in, whichever place it has in the list.
pub proof fn law_every_kept_package_is_folded(raw: RawAdvisory, want: Ecosystem, k: int)
    requires
        0 <= k < raw.affected@.len(),
        raw.affected@[k].wanted(want),
        raw.about(raw.affected@[k]).bounds.len() > 0 || raw.about(raw.affected@[k]).versions.len() > 0,
    ensures
        raw.folded(want).contains((raw.affected@[k].name(), raw.about(raw.affected@[k]))),
        raw.folded(want) == raw.says_of(raw.affected@, want),
{
    law_wanted_packages_are_kept(raw, raw.affected@, want, k);
}

} // verus!
