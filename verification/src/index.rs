//! The compact index of a feed.
//!
//! The feed is never materialised: each advisory is folded into a few flat
//! vectors and one text arena, and dropped. [`Index::finish`] then sorts the
//! names and lays the entries out so that those of one name lie side by side.

use crate::advisory::{
    all_bounds, byte_len, events_text_len, first_fix, first_fix_of, kept_versions, lemma_all_bounds_count,
    lemma_bounds_count, lemma_kept_counts, lemma_total_step, range_bounds, range_state, ranges_text_len, texts_len, total,
    Advisory, Kind, RawAdvisory, RawAffected, RawEvent, RawRange, Severity, MAX_EXPLICIT_VERSIONS,
};
use crate::arena::{Arena, Str};
use crate::order::{
    compare_text, key_before, key_standing, keys_rise, lemma_key_same, lemma_rising_is_determined,
    lemma_text_flip, lemma_text_same, lemma_text_transitive, same_text, slot_before, sort_slots,
    sorted_slots, text_before, Keyed, Standing,
};
use crate::room::{
    spend_advisory_bounds, spend_advisory_entries, spend_advisory_lists, spend_advisory_text, spend_advisory_versions,
};
use crate::text::{begins_with, chars_of, ends_with, views};
use crate::vers::{opt_text, Bound, BoundText, Ecosystem};
use vstd::prelude::*;
use vstd::slice::slice_subrange;

verus! {

/// A flattened OSV range. 24 bytes, arena-referencing.
#[derive(Debug, Clone, Copy, Default)]
pub struct BoundRef {
    pub introduced: Str,
    pub fixed: Str,
    pub last_affected: Str,
}

/// One advisory as it touches one package. 32 bytes.
#[derive(Debug, Clone, Copy)]
pub struct Entry {
    /// Index into [`Index::ids`].
    pub id: u32,
    /// Bit 7 = malicious, bits 0..3 = severity.
    packed: u8,
    /// `[bounds_start, bounds_start + bounds_len)` into the bounds.
    bounds_start: u32,
    bounds_len: u32,
    /// `[versions_start, versions_start + versions_len)` into the versions.
    versions_start: u32,
    versions_len: u32,
    /// First `fixed` bound, for the human-readable reason. Empty = none.
    pub fixed_in: Str,
}

impl Entry {
    /// What the entry reports.
    pub closed spec fn is_kind(self) -> Kind {
        if self.packed & 0x80 != 0 {
            Kind::Malicious
        } else {
            Kind::Vulnerability
        }
    }

    /// How bad it is.
    pub closed spec fn has_severity(self) -> Severity {
        unpacked_severity(self.packed)
    }

    /// What the entry reports.
    pub fn kind(&self) -> (r: Kind)
        ensures
            r == self.is_kind(),
    {
        if self.packed & 0x80 != 0 {
            Kind::Malicious
        } else {
            Kind::Vulnerability
        }
    }

    /// How bad it is.
    pub fn severity(&self) -> (r: Severity)
        ensures
            r == self.has_severity(),
    {
        Severity::from_u8(self.packed & 0x0f)
    }
}

spec fn unpacked_severity(packed: u8) -> Severity {
    let v = packed & 0x0f;
    if v == 1 {
        Severity::Low
    } else if v == 2 {
        Severity::Moderate
    } else if v == 3 {
        Severity::High
    } else if v == 4 {
        Severity::Critical
    } else {
        Severity::Unknown
    }
}

/// Packs what an advisory reports and how bad it is into one byte.
fn pack(malicious: bool, severity: Severity) -> (packed: u8)
    ensures
        (packed & 0x80 != 0) == malicious,
        unpacked_severity(packed) == severity,
{
    let level: u8 = severity.to_u8();
    let packed: u8 = (if malicious { 0x80u8 } else { 0u8 }) | level;
    assert(level <= 4 ==> (0x80u8 | level) & 0x80 != 0 && (0x80u8 | level) & 0x0f == level) by (bit_vector);
    assert(level <= 4 ==> (0u8 | level) & 0x80 == 0 && (0u8 | level) & 0x0f == level) by (bit_vector);
    packed
}

/// The advisories that touch one package name.
#[verifier::ext_equal]
pub struct Group {
    pub name: Seq<char>,
    pub advisories: Seq<Advisory>,
}

/// What each advisory of the groups reports is told by its id.
pub open spec fn ids_tell_kinds(groups: Seq<Group>) -> bool {
    forall|g: int, i: int|
        0 <= g < groups.len() && 0 <= i < groups[g].advisories.len()
            ==> (#[trigger] groups[g].advisories[i]).is_told_by_id()
}

/// How much of its room an index has used.
#[verifier::ext_equal]
pub struct Used {
    pub text: nat,
    pub ids: nat,
    pub bounds: nat,
    pub versions: nat,
    pub staged: nat,
}

impl Used {
    /// The room that is used once an advisory is folded in.
    pub open spec fn with(self, raw: RawAdvisory, want: Ecosystem) -> Used {
        Used {
            text: self.text + raw.kept_text_len(want),
            ids: self.ids + raw.kept_ids(want),
            bounds: self.bounds + raw.kept_bounds_len(want),
            versions: self.versions + raw.kept_versions_len(want),
            staged: self.staged + raw.folded(want).len(),
        }
    }
}

/// The compact index. Sorted names and offsets: no per-name allocation.
#[derive(Debug)]
pub struct Index {
    pub arena: Arena,
    pub ids: Vec<Str>,
    /// Unique package names, sorted. Binary search entry point.
    names: Vec<Str>,
    /// `entries[starts[i]..starts[i+1]]` belong to `names[i]`.
    starts: Vec<u32>,
    entries: Vec<Entry>,
    bounds: Vec<BoundRef>,
    versions: Vec<Str>,
    /// Staging area used while streaming, drained by [`Index::finish`].
    staging: Vec<(Str, Entry)>,
    pub advisories: usize,
    pub skipped: usize,
}

impl Default for Index {
    fn default() -> (r: Index)
        ensures
            r.wf(),
            !r.finished(),
            r.staged() == Seq::<(Seq<char>, Advisory)>::empty(),
            r.groups() == Seq::<Group>::empty(),
            r.used() == (Used { text: 0, ids: 0, bounds: 0, versions: 0, staged: 0 }),
            r.advisory_count() == 0,
            r.skipped_count() == 0,
    {
        Index {
            arena: Arena::default(),
            ids: Vec::new(),
            names: Vec::new(),
            starts: Vec::new(),
            entries: Vec::new(),
            bounds: Vec::new(),
            versions: Vec::new(),
            staging: Vec::new(),
            advisories: 0,
            skipped: 0,
        }
    }
}

/// The advisories that `staged` lists under a name, in the order of the list.
pub open spec fn listed_under(staged: Seq<(Seq<char>, Advisory)>, name: Seq<char>) -> Seq<Advisory> {
    staged.filter(|s: (Seq<char>, Advisory)| s.0 == name).map_values(|s: (Seq<char>, Advisory)| s.1)
}

/// The names of what is staged, each once.
pub open spec fn names_in(staged: Seq<(Seq<char>, Advisory)>) -> Set<Seq<char>> {
    staged.map_values(|s: (Seq<char>, Advisory)| s.0).to_set()
}

/// The advisories that `groups` holds under a name.
pub open spec fn grouped_under(groups: Seq<Group>, name: Seq<char>) -> Seq<Advisory> {
    if exists|i: int| 0 <= i < groups.len() && (#[trigger] groups[i]).name == name {
        groups[choose|i: int| 0 <= i < groups.len() && (#[trigger] groups[i]).name == name].advisories
    } else {
        Seq::empty()
    }
}

/// The names of the groups rise strictly.
pub open spec fn names_rise(groups: Seq<Group>) -> bool {
    forall|i: int, j: int|
        0 <= i < j < groups.len() ==> crate::order::text_before(
            (#[trigger] groups[i]).name,
            (#[trigger] groups[j]).name,
        )
}

/// Each advisory with its name, group by group.
pub open spec fn named_of(groups: Seq<Group>) -> Seq<(Seq<char>, Advisory)>
    decreases groups.len(),
{
    if groups.len() == 0 {
        Seq::empty()
    } else {
        let last = groups.last();
        named_of(groups.drop_last()) + Seq::new(
            last.advisories.len(),
            |i: int| (last.name, last.advisories[i]),
        )
    }
}

spec fn prefixed<T>(new: Seq<T>, old: Seq<T>) -> bool {
    &&& old.len() <= new.len()
    &&& forall|i: int| 0 <= i < old.len() ==> #[trigger] new[i] == old[i]
}

impl Index {
    spec fn ids_text(self) -> Seq<Seq<char>> {
        Seq::new(self.ids@.len(), |i: int| self.arena.says(self.ids@[i]))
    }

    spec fn bound_text(self, b: BoundRef) -> BoundText {
        BoundText {
            introduced: self.arena.says_opt(b.introduced),
            fixed: self.arena.says_opt(b.fixed),
            last_affected: self.arena.says_opt(b.last_affected),
        }
    }

    spec fn bounds_text(self) -> Seq<BoundText> {
        Seq::new(self.bounds@.len(), |i: int| self.bound_text(self.bounds@[i]))
    }

    spec fn versions_text(self) -> Seq<Seq<char>> {
        Seq::new(self.versions@.len(), |i: int| self.arena.says(self.versions@[i]))
    }

    spec fn holds_bound(self, b: BoundRef) -> bool {
        &&& self.arena.holds(b.introduced)
        &&& self.arena.holds(b.fixed)
        &&& self.arena.holds(b.last_affected)
    }

    /// The entry belongs to this index.
    pub closed spec fn holds_entry(self, e: Entry) -> bool {
        &&& e.id < self.ids@.len()
        &&& e.bounds_start + e.bounds_len <= self.bounds@.len()
        &&& e.versions_start + e.versions_len <= self.versions@.len()
        &&& self.arena.holds(e.fixed_in)
    }

    /// What an entry says.
    pub closed spec fn says(self, e: Entry) -> Advisory {
        Advisory {
            id: self.ids_text()[e.id as int],
            kind: e.is_kind(),
            severity: e.has_severity(),
            bounds: self.bounds_text().subrange(
                e.bounds_start as int,
                e.bounds_start + e.bounds_len,
            ),
            versions: self.versions_text().subrange(
                e.versions_start as int,
                e.versions_start + e.versions_len,
            ),
            fixed_in: self.arena.says_opt(e.fixed_in),
        }
    }

    /// What a list of entries says.
    pub open spec fn says_all(self, entries: Seq<Entry>) -> Seq<Advisory> {
        Seq::new(entries.len(), |i: int| self.says(entries[i]))
    }

    /// Every entry of the list belongs to this index.
    pub open spec fn holds_all(self, entries: Seq<Entry>) -> bool {
        forall|i: int| 0 <= i < entries.len() ==> self.holds_entry(#[trigger] entries[i])
    }

    /// Every entry that belonged to the index still does, and says what it said.
    pub open spec fn keeps_entries(self, old: Index) -> bool {
        forall|e: Entry| #[trigger] old.holds_entry(e) ==> self.holds_entry(e) && self.says(e) == old.says(e)
    }

    spec fn texts_held(self) -> bool {
        &&& self.arena.size() <= u32::MAX
        &&& self.ids@.len() <= u32::MAX
        &&& self.bounds@.len() <= u32::MAX
        &&& self.versions@.len() <= u32::MAX
        &&& self.staging@.len() <= u32::MAX
        &&& forall|i: int| 0 <= i < self.ids@.len() ==> self.arena.holds(#[trigger] self.ids@[i])
        &&& forall|i: int| 0 <= i < self.bounds@.len() ==> self.holds_bound(#[trigger] self.bounds@[i])
        &&& forall|i: int| 0 <= i < self.versions@.len() ==> self.arena.holds(#[trigger] self.versions@[i])
    }

    spec fn staging_held(self) -> bool {
        forall|i: int|
            0 <= i < self.staging@.len() ==> self.arena.holds((#[trigger] self.staging@[i]).0)
                && self.holds_entry(self.staging@[i].1) && self.says(self.staging@[i].1).is_told_by_id()
    }

    spec fn layout_held(self) -> bool {
        &&& self.entries@.len() <= u32::MAX
        &&& forall|i: int| 0 <= i < self.names@.len() ==> self.arena.holds(#[trigger] self.names@[i])
        &&& self.holds_all(self.entries@)
        &&& forall|i: int|
            0 <= i < self.entries@.len() ==> self.says(#[trigger] self.entries@[i]).is_told_by_id()
        &&& (self.starts@.len() == 0 ==> self.names@.len() == 0 && self.entries@.len() == 0)
        &&& (self.starts@.len() > 0 ==> {
            &&& self.starts@.len() == self.names@.len() + 1
            &&& self.starts@[0] == 0
            &&& self.starts@[self.names@.len() as int] == self.entries@.len()
        })
        &&& forall|i: int, j: int|
            0 <= i < j < self.starts@.len() ==> #[trigger] self.starts@[i] < #[trigger] self.starts@[j]
        &&& forall|i: int, j: int|
            0 <= i < j < self.names@.len() ==> crate::order::text_before(
                self.arena.says(#[trigger] self.names@[i]),
                self.arena.says(#[trigger] self.names@[j]),
            )
    }

    /// The index is in order: every reference is to a text of its arena, every
    /// entry to its own bounds and versions, and the layout, once made, is
    /// sorted by name.
    pub closed spec fn wf(self) -> bool {
        &&& self.texts_held()
        &&& self.staging_held()
        &&& self.layout_held()
    }

    /// The layout has been made.
    pub closed spec fn finished(self) -> bool {
        self.starts@.len() > 0
    }

    /// What has been streamed in and is not laid out yet: each advisory with
    /// its package name.
    pub closed spec fn staged(self) -> Seq<(Seq<char>, Advisory)> {
        Seq::new(
            self.staging@.len(),
            |i: int| (self.arena.says(self.staging@[i].0), self.says(self.staging@[i].1)),
        )
    }

    /// The layout: the advisories of each package name.
    pub closed spec fn groups(self) -> Seq<Group> {
        Seq::new(
            self.names@.len(),
            |i: int|
                Group {
                    name: self.arena.says(self.names@[i]),
                    advisories: self.says_all(
                        self.entries@.subrange(self.starts@[i] as int, self.starts@[i + 1] as int),
                    ),
                },
        )
    }

    /// The arena, with all texts of the index.
    pub closed spec fn store(self) -> Arena {
        self.arena
    }

    /// Where the arena keeps the ids.
    pub closed spec fn id_refs(self) -> Seq<Str> {
        self.ids@
    }

    /// How many advisories have been streamed in.
    pub closed spec fn advisory_count(self) -> nat {
        self.advisories as nat
    }

    /// How many version lists and unreadable advisories have been left out.
    pub closed spec fn skipped_count(self) -> nat {
        self.skipped as nat
    }

    /// How much room is used.
    pub closed spec fn used(self) -> Used {
        Used {
            text: self.arena.size(),
            ids: self.ids@.len(),
            bounds: self.bounds@.len(),
            versions: self.versions@.len(),
            staged: self.staging@.len(),
        }
    }

    /// Texts have been added, and all that was there says what it said.
    spec fn grown(self, old: Index) -> bool {
        &&& forall|q: Str| #[trigger]
            old.arena.holds(q) ==> self.arena.holds(q) && self.arena.says(q) == old.arena.says(q)
        &&& prefixed(self.ids_text(), old.ids_text())
        &&& prefixed(self.bounds_text(), old.bounds_text())
        &&& prefixed(self.versions_text(), old.versions_text())
        &&& self.names@ == old.names@
        &&& self.starts@ == old.starts@
        &&& self.entries@ == old.entries@
        &&& self.staging@ == old.staging@
        &&& self.advisories == old.advisories
        &&& self.skipped == old.skipped
    }

    proof fn lemma_grown_entry(self, old: Index, e: Entry)
        requires
            self.grown(old),
            old.holds_entry(e),
        ensures
            self.holds_entry(e),
            self.says(e) == old.says(e),
    {
        assert(self.ids_text().len() == self.ids@.len());
        assert(self.bounds_text().len() == self.bounds@.len());
        assert(self.versions_text().len() == self.versions@.len());
        assert(old.ids_text().len() == old.ids@.len());
        assert(old.bounds_text().len() == old.bounds@.len());
        assert(old.versions_text().len() == old.versions@.len());
        assert(self.ids_text()[e.id as int] == old.ids_text()[e.id as int]);
        assert(self.says(e).bounds =~= old.says(e).bounds);
        assert(self.says(e).versions =~= old.says(e).versions);
    }

    proof fn lemma_grown(self, old: Index)
        requires
            self.grown(old),
            old.wf(),
        ensures
            self.staging_held(),
            self.layout_held(),
            self.staged() == old.staged(),
            self.groups() == old.groups(),
            self.keeps_entries(old),
    {
        assert forall|e: Entry| #[trigger] old.holds_entry(e) implies self.holds_entry(e) && self.says(e) == old.says(
            e,
        ) by {
            self.lemma_grown_entry(old, e);
        }
        assert forall|i: int| 0 <= i < self.staging@.len() implies self.arena.holds(
            (#[trigger] self.staging@[i]).0,
        ) && self.holds_entry(self.staging@[i].1) && self.says(self.staging@[i].1).is_told_by_id() by {
            assert(old.arena.holds(old.staging@[i].0));
            self.lemma_grown_entry(old, old.staging@[i].1);
        }
        assert(self.staged() =~= old.staged()) by {
            assert forall|i: int| 0 <= i < self.staging@.len() implies self.staged()[i] == old.staged()[i] by {
                assert(old.arena.holds(old.staging@[i].0));
                self.lemma_grown_entry(old, old.staging@[i].1);
            }
        }
        assert forall|i: int| 0 <= i < self.names@.len() implies self.arena.holds(#[trigger] self.names@[i])
            && self.arena.says(self.names@[i]) == old.arena.says(old.names@[i]) by {
            assert(old.arena.holds(old.names@[i]));
        }
        assert forall|i: int| 0 <= i < self.entries@.len() implies self.holds_entry(
            #[trigger] self.entries@[i],
        ) && self.says(self.entries@[i]) == old.says(old.entries@[i]) by {
            assert(old.holds_entry(old.entries@[i]));
            self.lemma_grown_entry(old, old.entries@[i]);
        }
        assert(self.groups() =~= old.groups()) by {
            assert forall|i: int| 0 <= i < self.names@.len() implies self.groups()[i] == old.groups()[i] by {
                let lo = self.starts@[i] as int;
                let hi = self.starts@[i + 1] as int;
                assert(self.starts@[i] < self.starts@[i + 1]);
                assert(i + 1 < self.names@.len() ==> self.starts@[i + 1] < self.starts@[self.names@.len() as int]);
                assert(self.says_all(self.entries@.subrange(lo, hi)) =~= old.says_all(
                    old.entries@.subrange(lo, hi),
                ));
            }
        }
    }

    proof fn lemma_grown_twice(self, mid: Index, old: Index)
        requires
            self.grown(mid),
            mid.grown(old),
        ensures
            self.grown(old),
    {
        assert forall|q: Str| #[trigger] old.arena.holds(q) implies self.arena.holds(q) && self.arena.says(q)
            == old.arena.says(q) by {
            assert(mid.arena.holds(q));
        }
    }

    /// Adds a text to the arena.
    fn push_text(&mut self, s: &str) -> (r: Str)
        requires
            old(self).wf(),
            old(self).arena.size() + vstd::utf8::encode_utf8(s@).len() <= u32::MAX,
        ensures
            final(self).wf(),
            final(self).grown(*old(self)),
            final(self).ids_text() == old(self).ids_text(),
            final(self).bounds_text() == old(self).bounds_text(),
            final(self).versions_text() == old(self).versions_text(),
            final(self).arena.size() == old(self).arena.size() + vstd::utf8::encode_utf8(s@).len(),
            final(self).arena.holds(r),
            final(self).arena.says(r) == s@,
            final(self).arena.says_opt(r) == crate::advisory::nonempty(s@),
    {
        let r = self.arena.push(s);
        proof {
            assert forall|i: int| 0 <= i < self.ids@.len() implies self.arena.holds(#[trigger] self.ids@[i])
                && self.arena.says(self.ids@[i]) == old(self).arena.says(old(self).ids@[i]) by {
                assert(old(self).arena.holds(old(self).ids@[i]));
            }
            assert forall|i: int| 0 <= i < self.bounds@.len() implies self.holds_bound(
                #[trigger] self.bounds@[i],
            ) && self.bound_text(self.bounds@[i]) == old(self).bound_text(old(self).bounds@[i]) by {
                assert(old(self).holds_bound(old(self).bounds@[i]));
            }
            assert forall|i: int| 0 <= i < self.versions@.len() implies self.arena.holds(
                #[trigger] self.versions@[i],
            ) && self.arena.says(self.versions@[i]) == old(self).arena.says(old(self).versions@[i]) by {
                assert(old(self).arena.holds(old(self).versions@[i]));
            }
            assert(self.ids_text() =~= old(self).ids_text());
            assert(self.bounds_text() =~= old(self).bounds_text());
            assert(self.versions_text() =~= old(self).versions_text());
            self.lemma_grown(*old(self));
        }
        r
    }

    fn push_bound(&mut self, b: BoundRef)
        requires
            old(self).wf(),
            old(self).holds_bound(b),
            old(self).bounds@.len() < u32::MAX,
        ensures
            final(self).wf(),
            final(self).grown(*old(self)),
            final(self).arena == old(self).arena,
            final(self).ids_text() == old(self).ids_text(),
            final(self).bounds_text() == old(self).bounds_text().push(old(self).bound_text(b)),
            final(self).versions_text() == old(self).versions_text(),
    {
        self.bounds.push(b);
        proof {
            assert(self.ids_text() =~= old(self).ids_text());
            assert(self.bounds_text() =~= old(self).bounds_text().push(old(self).bound_text(b)));
            assert(self.versions_text() =~= old(self).versions_text());
            self.lemma_grown(*old(self));
        }
    }

    fn push_version(&mut self, s: Str)
        requires
            old(self).wf(),
            old(self).arena.holds(s),
            old(self).versions@.len() < u32::MAX,
        ensures
            final(self).wf(),
            final(self).grown(*old(self)),
            final(self).arena == old(self).arena,
            final(self).ids_text() == old(self).ids_text(),
            final(self).bounds_text() == old(self).bounds_text(),
            final(self).versions_text() == old(self).versions_text().push(old(self).arena.says(s)),
    {
        self.versions.push(s);
        proof {
            assert(self.ids_text() =~= old(self).ids_text());
            assert(self.bounds_text() =~= old(self).bounds_text());
            assert(self.versions_text() =~= old(self).versions_text().push(old(self).arena.says(s)));
            self.lemma_grown(*old(self));
        }
    }

    fn push_id(&mut self, s: Str)
        requires
            old(self).wf(),
            old(self).arena.holds(s),
            old(self).ids@.len() < u32::MAX,
        ensures
            final(self).wf(),
            final(self).grown(*old(self)),
            final(self).arena == old(self).arena,
            final(self).ids_text() == old(self).ids_text().push(old(self).arena.says(s)),
            final(self).bounds_text() == old(self).bounds_text(),
            final(self).versions_text() == old(self).versions_text(),
    {
        self.ids.push(s);
        proof {
            assert(self.ids_text() =~= old(self).ids_text().push(old(self).arena.says(s)));
            assert(self.bounds_text() =~= old(self).bounds_text());
            assert(self.versions_text() =~= old(self).versions_text());
            self.lemma_grown(*old(self));
        }
    }

    /// Adds the intervals of one range, and hands back the first fix so far.
    fn add_range(&mut self, events: &Vec<RawEvent>, fixed_in: Str) -> (first: Str)
        requires
            old(self).wf(),
            old(self).arena.holds(fixed_in),
            old(self).arena.size() + events_text_len(events@) <= u32::MAX,
            old(self).bounds@.len() + range_bounds(events@).len() <= u32::MAX,
        ensures
            final(self).wf(),
            final(self).grown(*old(self)),
            final(self).arena.size() == old(self).arena.size() + events_text_len(events@),
            final(self).ids_text() == old(self).ids_text(),
            final(self).bounds_text() == old(self).bounds_text() + range_bounds(events@),
            final(self).versions_text() == old(self).versions_text(),
            final(self).arena.holds(first),
            final(self).arena.says_opt(first) == (if old(self).arena.says_opt(fixed_in) is Some {
                old(self).arena.says_opt(fixed_in)
            } else {
                first_fix(events@)
            }),
    {
        let mut cur = BoundRef { introduced: Str::empty(), fixed: Str::empty(), last_affected: Str::empty() };
        let mut open: bool = false;
        let mut first = fixed_in;
        let ghost f = |e: RawEvent| e.text_len();
        let ghost start = *self;
        proof {
            self.arena.lemma_nothing(cur.introduced);
            self.arena.lemma_nothing(cur.fixed);
            self.arena.lemma_nothing(cur.last_affected);
            assert(events@.take(0) =~= Seq::empty());
            assert(self.bounds_text() + range_state(events@.take(0)).done =~= self.bounds_text());
        }
        for i in 0..events.len()
            invariant
                start.wf(),
                start.arena.holds(fixed_in),
                f == |e: RawEvent| e.text_len(),
                start.arena.size() + total(events@, f) <= u32::MAX,
                start.bounds@.len() + range_bounds(events@).len() <= u32::MAX,
                self.wf(),
                self.grown(start),
                self.arena.size() == start.arena.size() + total(events@.take(i as int), f),
                self.ids_text() == start.ids_text(),
                self.bounds_text() == start.bounds_text() + range_state(events@.take(i as int)).done,
                self.versions_text() == start.versions_text(),
                self.holds_bound(cur),
                self.bound_text(cur) == range_state(events@.take(i as int)).cur,
                open == range_state(events@.take(i as int)).open,
                self.arena.holds(first),
                self.arena.says_opt(first) == (if start.arena.says_opt(fixed_in) is Some {
                    start.arena.says_opt(fixed_in)
                } else {
                    first_fix(events@.take(i as int))
                }),
        {
            let ev = &events[i];
            let ghost seen = events@.take(i as int);
            let ghost now = events@.take(i + 1);
            proof {
                assert(now.drop_last() =~= seen);
                assert(now.last() == *ev);
                lemma_total_step(events@, f, i as int);
                lemma_bounds_count(events@, i + 1);
                assert(self.bounds_text().len() == self.bounds@.len());
                assert(start.bounds_text().len() == start.bounds@.len());
            }
            let ghost before = *self;
            if let Some(text) = &ev.introduced {
                // A new `introduced` starts a new interval.
                if open {
                    self.push_bound(cur);
                    cur = BoundRef { introduced: Str::empty(), fixed: Str::empty(), last_affected: Str::empty() };
                    proof {
                        self.arena.lemma_nothing(cur.introduced);
                        self.arena.lemma_nothing(cur.fixed);
                        self.arena.lemma_nothing(cur.last_affected);
                        assert(self.bounds_text() =~= start.bounds_text() + range_state(seen).done.push(
                            range_state(seen).cur,
                        ));
                    }
                }
                let ghost mid = *self;
                cur.introduced = self.push_text(text.as_str());
                open = true;
                proof {
                    self.lemma_grown_twice(mid, before);
                }
            }
            let ghost mid1 = *self;
            if let Some(text) = &ev.fixed {
                let s = self.push_text(text.as_str());
                if first.is_empty() {
                    first = s;
                }
                cur.fixed = s;
            }
            let ghost mid2 = *self;
            if let Some(text) = &ev.last_affected {
                cur.last_affected = self.push_text(text.as_str());
            }
            proof {
                mid2.lemma_grown_twice(mid1, before);
                self.lemma_grown_twice(mid2, before);
                self.lemma_grown_twice(before, start);
            }
        }
        proof {
            assert(events@.take(events@.len() as int) =~= events@);
            if events@.len() > 0 {
                lemma_total_step(events@, f, 0);
            }
            lemma_bounds_count(events@, events@.len() as int);
            assert(self.bounds_text().len() == self.bounds@.len());
            assert(start.bounds_text().len() == start.bounds@.len());
        }
        if open || !cur.fixed.is_empty() || !cur.last_affected.is_empty() {
            let ghost before = *self;
            self.push_bound(cur);
            proof {
                self.lemma_grown_twice(before, start);
                assert(self.bounds_text() =~= start.bounds_text() + range_bounds(events@));
            }
        }
        first
    }

    /// Adds the intervals of all ranges, and hands back the first fix.
    fn add_ranges(&mut self, ranges: &Vec<RawRange>) -> (first: Str)
        requires
            old(self).wf(),
            old(self).arena.size() + ranges_text_len(ranges@) <= u32::MAX,
            old(self).bounds@.len() + all_bounds(ranges@).len() <= u32::MAX,
        ensures
            final(self).wf(),
            final(self).grown(*old(self)),
            final(self).arena.size() == old(self).arena.size() + ranges_text_len(ranges@),
            final(self).ids_text() == old(self).ids_text(),
            final(self).bounds_text() == old(self).bounds_text() + all_bounds(ranges@),
            final(self).versions_text() == old(self).versions_text(),
            final(self).arena.holds(first),
            final(self).arena.says_opt(first) == first_fix_of(ranges@),
    {
        let ghost start = *self;
        let ghost f = |r: RawRange| events_text_len(r.events@);
        let ghost g = |r: RawRange| range_bounds(r.events@).len();
        let mut first = Str::empty();
        proof {
            lemma_all_bounds_count(ranges@);
            self.arena.lemma_nothing(first);
            assert(ranges@.take(0) =~= Seq::empty());
            assert(self.bounds_text() + all_bounds(ranges@.take(0)) =~= self.bounds_text());
        }
        for i in 0..ranges.len()
            invariant
                start.wf(),
                f == |r: RawRange| events_text_len(r.events@),
                g == |r: RawRange| range_bounds(r.events@).len(),
                start.arena.size() + total(ranges@, f) <= u32::MAX,
                start.bounds@.len() + total(ranges@, g) <= u32::MAX,
                self.wf(),
                self.grown(start),
                self.arena.size() == start.arena.size() + total(ranges@.take(i as int), f),
                self.ids_text() == start.ids_text(),
                self.bounds_text() == start.bounds_text() + all_bounds(ranges@.take(i as int)),
                self.bounds@.len() == start.bounds@.len() + total(ranges@.take(i as int), g),
                self.versions_text() == start.versions_text(),
                self.arena.holds(first),
                self.arena.says_opt(first) == first_fix_of(ranges@.take(i as int)),
        {
            let ghost before = *self;
            let ghost now = ranges@.take(i + 1);
            proof {
                lemma_total_step(ranges@, f, i as int);
                lemma_total_step(ranges@, g, i as int);
                assert(now.drop_last() =~= ranges@.take(i as int));
                assert(now.last() == ranges@[i as int]);
            }
            first = self.add_range(&ranges[i].events, first);
            proof {
                self.lemma_grown_twice(before, start);
                assert(self.bounds_text() =~= start.bounds_text() + all_bounds(now));
                assert(self.bounds_text().len() == self.bounds@.len());
                assert(before.bounds_text().len() == before.bounds@.len());
            }
        }
        proof {
            assert(ranges@.take(ranges@.len() as int) =~= ranges@);
        }
        first
    }

    /// Adds a list of explicit versions.
    fn add_versions(&mut self, versions: &Vec<String>)
        requires
            old(self).wf(),
            old(self).arena.size() + texts_len(versions@) <= u32::MAX,
            old(self).versions@.len() + versions@.len() <= u32::MAX,
        ensures
            final(self).wf(),
            final(self).grown(*old(self)),
            final(self).arena.size() == old(self).arena.size() + texts_len(versions@),
            final(self).ids_text() == old(self).ids_text(),
            final(self).bounds_text() == old(self).bounds_text(),
            final(self).versions_text() == old(self).versions_text() + views(versions@),
    {
        let ghost start = *self;
        let ghost f = |s: String| byte_len(s@);
        proof {
            assert(versions@.take(0) =~= Seq::empty());
            assert(self.versions_text() + views(versions@).take(0) =~= self.versions_text());
        }
        for i in 0..versions.len()
            invariant
                start.wf(),
                f == |s: String| byte_len(s@),
                start.arena.size() + total(versions@, f) <= u32::MAX,
                start.versions@.len() + versions@.len() <= u32::MAX,
                self.wf(),
                self.grown(start),
                self.arena.size() == start.arena.size() + total(versions@.take(i as int), f),
                self.ids_text() == start.ids_text(),
                self.bounds_text() == start.bounds_text(),
                self.versions_text() == start.versions_text() + views(versions@).take(i as int),
        {
            let ghost before = *self;
            proof {
                lemma_total_step(versions@, f, i as int);
                assert(self.versions_text().len() == self.versions@.len());
                assert(start.versions_text().len() == start.versions@.len());
            }
            let s = self.push_text(versions[i].as_str());
            let ghost mid = *self;
            proof {
                assert(self.versions_text().len() == self.versions@.len());
            }
            self.push_version(s);
            proof {
                self.lemma_grown_twice(mid, before);
                self.lemma_grown_twice(before, start);
                assert(self.versions_text() =~= start.versions_text() + views(versions@).take(i + 1));
            }
        }
        proof {
            assert(versions@.take(versions@.len() as int) =~= versions@);
            assert(views(versions@).take(versions@.len() as int) =~= views(versions@));
        }
    }

    /// The slot of an advisory's id is taken, and holds the id.
    spec fn id_slot_good(self, slot: Option<u32>, id: Seq<char>) -> bool {
        slot matches Some(i) ==> i < self.ids@.len() && self.ids_text()[i as int] == id
    }

    /// Folds what an advisory says of one wanted package into the index.
    fn fold_package(
        &mut self,
        raw: &RawAdvisory,
        aff: &RawAffected,
        name: &str,
        packed: u8,
        slot: Option<u32>,
        Ghost(want): Ghost<Ecosystem>,
    ) -> (next: Option<u32>)
        requires
            old(self).wf(),
            aff.wanted(want),
            name@ == aff.name(),
            (packed & 0x80 != 0) == (raw.kind() == Kind::Malicious),
            unpacked_severity(packed) == raw.severity(),
            old(self).id_slot_good(slot, raw.id@),
            old(self).arena.size() + aff.kept_text_len(want) + (if slot is None && aff.is_kept() {
                byte_len(raw.id@)
            } else {
                0
            }) <= u32::MAX,
            old(self).bounds@.len() + aff.kept_bounds_len(want) <= u32::MAX,
            old(self).versions@.len() + aff.kept_versions_len(want) <= u32::MAX,
            slot is None && aff.is_kept() ==> old(self).ids@.len() < u32::MAX,
            aff.is_kept() ==> old(self).staging@.len() < u32::MAX,
            old(self).skipped + aff.dropped_lists(want) <= usize::MAX,
        ensures
            final(self).wf(),
            final(self).groups() == old(self).groups(),
            final(self).finished() == old(self).finished(),
            final(self).staged() == (if raw.about(*aff).bounds.len() > 0 || raw.about(*aff).versions.len() > 0 {
                old(self).staged().push((name@, raw.about(*aff)))
            } else {
                old(self).staged()
            }),
            final(self).keeps_entries(*old(self)),
            final(self).id_slot_good(next, raw.id@),
            next is Some <==> slot is Some || aff.is_kept(),
            final(self).arena.size() == old(self).arena.size() + aff.kept_text_len(want) + (if slot is None
                && aff.is_kept() {
                byte_len(raw.id@)
            } else {
                0
            }),
            final(self).bounds@.len() == old(self).bounds@.len() + aff.kept_bounds_len(want),
            final(self).versions@.len() == old(self).versions@.len() + aff.kept_versions_len(want),
            final(self).ids@.len() == old(self).ids@.len() + (if slot is None && next is Some {
                1int
            } else {
                0int
            }),
            final(self).staging@.len() == old(self).staging@.len() + aff.kept_entries(want),
            final(self).advisories == old(self).advisories,
            final(self).skipped == old(self).skipped + aff.dropped_lists(want),
    {
        let ghost start = *self;
        let bounds_start: u32 = self.bounds.len() as u32;
        let fixed_in = self.add_ranges(&aff.ranges);
        let bounds_len: u32 = self.bounds.len() as u32 - bounds_start;
        let ghost ranged = *self;

        let versions_start: u32 = self.versions.len() as u32;
        let keep: bool = aff.versions.len() <= MAX_EXPLICIT_VERSIONS;
        proof {
            assert(ranged.versions_text().len() == ranged.versions@.len());
            assert(start.versions_text().len() == start.versions@.len());
            assert(keep ==> kept_versions(aff.versions@).len() == aff.versions@.len());
        }
        if keep {
            self.add_versions(&aff.versions);
        }
        let versions_len: u32 = self.versions.len() as u32 - versions_start;
        let ghost listed = *self;
        proof {
            assert(kept_versions(aff.versions@).len() == (if keep { aff.versions@.len() } else { 0 }));
            if keep {
                listed.lemma_grown_twice(ranged, start);
            }
            assert(listed.versions_text() =~= ranged.versions_text() + kept_versions(aff.versions@));
            assert(listed.bounds_text().len() == listed.bounds@.len());
            assert(listed.versions_text().len() == listed.versions@.len());
            assert(ranged.versions_text().len() == ranged.versions@.len());
            assert(start.bounds_text().len() == start.bounds@.len());
            assert(start.versions_text().len() == start.versions@.len());
            assert(bounds_len == raw.about(*aff).bounds.len());
            assert(versions_len == raw.about(*aff).versions.len());
            assert(start.ids_text().len() == start.ids@.len());
            assert(listed.ids_text().len() == listed.ids@.len());
        }
        if bounds_len == 0 && versions_len == 0 {
            proof {
                self.lemma_grown(start);
            }
            if !keep {
                self.count_skipped();
            }
            return slot;
        }
        let id: u32 = match slot {
            Some(i) => i,
            None => {
                let s = self.push_text(raw.id.as_str());
                let ghost texted = *self;
                self.push_id(s);
                proof {
                    self.lemma_grown_twice(texted, listed);
                    self.lemma_grown_twice(listed, start);
                    assert(self.ids_text().len() == self.ids@.len());
                    assert(texted.ids_text().len() == texted.ids@.len());
                }
                (self.ids.len() - 1) as u32
            },
        };
        let ghost known = *self;
        let name_ref = self.push_text(name);
        let entry = Entry { id, packed, bounds_start, bounds_len, versions_start, versions_len, fixed_in };
        proof {
            self.lemma_grown_twice(known, start);
            self.lemma_grown(start);
            assert(listed.arena.holds(fixed_in));
            assert(known.arena.holds(fixed_in));
            assert(self.arena.holds(fixed_in));
            assert(self.ids_text().len() == self.ids@.len());
            assert(self.bounds_text().len() == self.bounds@.len());
            assert(self.versions_text().len() == self.versions@.len());
            assert(self.holds_entry(entry));
            assert(self.says(entry).bounds =~= all_bounds(aff.ranges@));
            assert(self.says(entry).versions =~= kept_versions(aff.versions@));
            assert(self.says(entry).fixed_in == first_fix_of(aff.ranges@));
            assert(self.says(entry) == raw.about(*aff));
        }
        self.stage(name_ref, entry);
        if !keep {
            self.count_skipped();
        }
        Some(id)
    }

    /// Counts a version list that is not kept.
    fn count_skipped(&mut self)
        requires
            old(self).wf(),
            old(self).skipped < usize::MAX,
        ensures
            final(self).wf(),
            final(self).groups() == old(self).groups(),
            final(self).finished() == old(self).finished(),
            final(self).staged() == old(self).staged(),
            final(self).ids_text() == old(self).ids_text(),
            final(self).keeps_entries(*old(self)),
            final(self).used() == old(self).used(),
            final(self).advisories == old(self).advisories,
            final(self).skipped == old(self).skipped + 1,
    {
        let ghost start = *self;
        self.skipped = self.skipped + 1;
        proof {
            assert(self.same_but_counts(start));
            self.lemma_same_but_counts(start);
        }
    }

    /// Counts an advisory.
    fn count_advisory(&mut self)
        requires
            old(self).wf(),
            old(self).advisories < usize::MAX,
        ensures
            final(self).wf(),
            final(self).groups() == old(self).groups(),
            final(self).finished() == old(self).finished(),
            final(self).staged() == old(self).staged(),
            final(self).keeps_entries(*old(self)),
            final(self).used() == old(self).used(),
            final(self).advisories == old(self).advisories + 1,
            final(self).skipped == old(self).skipped,
    {
        let ghost start = *self;
        self.advisories = self.advisories + 1;
        proof {
            assert(self.same_but_counts(start));
            self.lemma_same_but_counts(start);
        }
    }

    spec fn same_but_counts(self, old: Index) -> bool {
        &&& self.arena == old.arena
        &&& self.ids@ == old.ids@
        &&& self.names@ == old.names@
        &&& self.starts@ == old.starts@
        &&& self.entries@ == old.entries@
        &&& self.bounds@ == old.bounds@
        &&& self.versions@ == old.versions@
    }

    proof fn lemma_same_but_counts(self, old: Index)
        requires
            self.same_but_counts(old),
            old.wf(),
        ensures
            self.layout_held(),
            self.groups() == old.groups(),
            forall|e: Entry| #[trigger] old.holds_entry(e) ==> self.holds_entry(e) && self.says(e) == old.says(e),
            self.staging@ == old.staging@ ==> self.staged() == old.staged(),
            self.ids_text() == old.ids_text(),
    {
        assert(self.ids_text() =~= old.ids_text());
        assert(self.bounds_text() =~= old.bounds_text());
        assert(self.versions_text() =~= old.versions_text());
        assert forall|e: Entry| #[trigger] old.holds_entry(e) implies self.holds_entry(e) && self.says(e)
            == old.says(e) by {}
        assert(self.groups() =~= old.groups()) by {
            assert forall|i: int| 0 <= i < self.names@.len() implies self.groups()[i] == old.groups()[i] by {
                let lo = self.starts@[i] as int;
                let hi = self.starts@[i + 1] as int;
                assert(self.starts@[i] < self.starts@[i + 1]);
                assert(i + 1 < self.names@.len() ==> self.starts@[i + 1] < self.starts@[self.names@.len() as int]);
                assert(self.says_all(self.entries@.subrange(lo, hi)) =~= old.says_all(
                    old.entries@.subrange(lo, hi),
                ));
            }
        }
        if self.staging@ == old.staging@ {
            assert(self.staged() =~= old.staged());
        }
    }

    /// Puts an entry into the staging area.
    fn stage(&mut self, name: Str, entry: Entry)
        requires
            old(self).wf(),
            old(self).arena.holds(name),
            old(self).holds_entry(entry),
            old(self).says(entry).is_told_by_id(),
            old(self).staging@.len() < u32::MAX,
        ensures
            final(self).wf(),
            final(self).groups() == old(self).groups(),
            final(self).finished() == old(self).finished(),
            final(self).staged() == old(self).staged().push((old(self).arena.says(name), old(self).says(entry))),
            final(self).ids_text() == old(self).ids_text(),
            final(self).keeps_entries(*old(self)),
            final(self).arena == old(self).arena,
            final(self).ids@ == old(self).ids@,
            final(self).bounds@ == old(self).bounds@,
            final(self).versions@ == old(self).versions@,
            final(self).staging@.len() == old(self).staging@.len() + 1,
            final(self).advisories == old(self).advisories,
            final(self).skipped == old(self).skipped,
    {
        let ghost start = *self;
        self.staging.push((name, entry));
        proof {
            assert(self.same_but_counts(start));
            self.lemma_same_but_counts(start);
            assert forall|i: int| 0 <= i < self.staging@.len() implies self.arena.holds(
                (#[trigger] self.staging@[i]).0,
            ) && self.holds_entry(self.staging@[i].1) && self.says(self.staging@[i].1).is_told_by_id() by {
                if i < start.staging@.len() {
                    assert(start.arena.holds(start.staging@[i].0) && start.holds_entry(start.staging@[i].1));
                }
            }
            assert(self.staged() =~= start.staged().push((start.arena.says(name), start.says(entry)))) by {
                assert forall|i: int| 0 <= i < start.staging@.len() implies self.staged()[i] == start.staged()[i] by {
                    assert(start.arena.holds(start.staging@[i].0) && start.holds_entry(start.staging@[i].1));
                }
            }
        }
    }

    /// The index has room for what it takes from an advisory: its references are of
    /// 32 bits, and so are its offsets.
    pub open spec fn room_for(self, raw: RawAdvisory, want: Ecosystem) -> bool {
        &&& self.used().text + raw.kept_text_len(want) <= u32::MAX
        &&& self.used().bounds + raw.kept_bounds_len(want) <= u32::MAX
        &&& self.used().versions + raw.kept_versions_len(want) <= u32::MAX
        &&& self.used().ids + raw.kept_ids(want) <= u32::MAX
        &&& self.used().staged + raw.folded(want).len() <= u32::MAX
        &&& self.advisory_count() < usize::MAX
        &&& self.skipped_count() + raw.lists_dropped(raw.affected@, want) <= usize::MAX
    }

    /// Whether the index has room for what it takes from an advisory.
    pub fn has_room(&self, raw: &RawAdvisory, want: Ecosystem) -> (r: bool)
        requires
            self.wf(),
        ensures
            r == self.room_for(*raw, want),
    {
        let limit: u64 = u32::MAX as u64;
        let text: u64 = limit - self.arena.bytes() as u64;
        let bounds: u64 = limit - self.bounds.len() as u64;
        let versions: u64 = limit - self.versions.len() as u64;
        let staged: u64 = limit - self.staging.len() as u64;
        let lists: u64 = (usize::MAX - self.skipped) as u64;
        let one_more: bool = self.ids.len() < u32::MAX as usize;
        spend_advisory_text(text, raw, want).is_some() && spend_advisory_bounds(bounds, raw, want).is_some()
            && spend_advisory_versions(versions, raw, want).is_some() && spend_advisory_entries(
            staged,
            raw,
            want,
        ).is_some() && spend_advisory_lists(lists, raw, want).is_some() && self.advisories < usize::MAX && (one_more
            || spend_advisory_entries(0, raw, want).is_some())
    }
}

/// The name of a package that belongs to the ecosystem.
pub(crate) fn wanted_name(aff: &RawAffected, want: Ecosystem) -> (name: Option<&str>)
    ensures
        name is Some <==> aff.wanted(want),
        name matches Some(n) ==> n@ == aff.name(),
{
    match &aff.package {
        Some(pkg) => match &pkg.name {
            Some(n) => {
                let ecosystem: Ecosystem = match &pkg.ecosystem {
                    Some(e) => Ecosystem::parse(e.as_str()),
                    None => Ecosystem::parse(""),
                };
                if ecosystem == want {
                    Some(n.as_str())
                } else {
                    None
                }
            },
            None => None,
        },
        None => None,
    }
}

/// Folds one advisory into the index, keeping only the packages of `want`.
/// Call [`Index::finish`] when all advisories are in.
pub fn fold(raw: RawAdvisory, want: Ecosystem, index: &mut Index)
    requires
        old(index).wf(),
        old(index).room_for(raw, want),
    ensures
        final(index).wf(),
        final(index).staged() == old(index).staged() + raw.folded(want),
        final(index).groups() == old(index).groups(),
        final(index).finished() == old(index).finished(),
        final(index).keeps_entries(*old(index)),
        final(index).advisory_count() == old(index).advisory_count() + 1,
        final(index).skipped_count() == old(index).skipped_count() + raw.lists_dropped(raw.affected@, want),
        final(index).used() == old(index).used().with(raw, want),
{
    let id_chars = chars_of(raw.id.as_str());
    let malicious: bool = begins_with(id_chars.as_slice(), "MAL-");
    let severity: Severity = match &raw.database_specific {
        Some(d) => match &d.severity {
            Some(s) => Severity::parse(s.as_str()),
            None => Severity::Unknown,
        },
        None => Severity::Unknown,
    };
    let packed: u8 = pack(malicious, severity);

    let mut slot: Option<u32> = None;
    let ghost start = *index;
    index.count_advisory();

    let ghost f = |a: RawAffected| a.kept_text_len(want);
    let ghost g = |a: RawAffected| a.kept_bounds_len(want);
    let ghost h = |a: RawAffected| a.kept_versions_len(want);
    let ghost k = |a: RawAffected| a.kept_entries(want);
    let ghost l = |a: RawAffected| a.dropped_lists(want);
    proof {
        lemma_kept_counts(raw, raw.affected@, want);
        assert(raw.affected@.take(0) =~= Seq::empty());
        assert(start.staged() + raw.says_of(raw.affected@.take(0), want) =~= start.staged());
    }
    for i in 0..raw.affected.len()
        invariant
            (packed & 0x80 != 0) == (raw.kind() == Kind::Malicious),
            unpacked_severity(packed) == raw.severity(),
            start.wf(),
            start.room_for(raw, want),
            f == |a: RawAffected| a.kept_text_len(want),
            g == |a: RawAffected| a.kept_bounds_len(want),
            h == |a: RawAffected| a.kept_versions_len(want),
            k == |a: RawAffected| a.kept_entries(want),
            l == |a: RawAffected| a.dropped_lists(want),
            raw.folded(want).len() == total(raw.affected@, k),
            raw.lists_dropped(raw.affected@, want) == total(raw.affected@, l),
            index.wf(),
            index.staged() == start.staged() + raw.says_of(raw.affected@.take(i as int), want),
            index.groups() == start.groups(),
            index.finished() == start.finished(),
            index.keeps_entries(start),
            index.id_slot_good(slot, raw.id@),
            index.advisories == start.advisories + 1,
            index.skipped == start.skipped + total(raw.affected@.take(i as int), l),
            slot is Some <==> total(raw.affected@.take(i as int), k) > 0,
            index.arena.size() == start.arena.size() + (if slot is Some { byte_len(raw.id@) } else { 0 }) + total(
                raw.affected@.take(i as int),
                f,
            ),
            index.bounds@.len() == start.bounds@.len() + total(raw.affected@.take(i as int), g),
            index.versions@.len() == start.versions@.len() + total(raw.affected@.take(i as int), h),
            index.ids@.len() == start.ids@.len() + (if slot is Some { 1int } else { 0int }),
            index.staging@.len() == start.staging@.len() + total(raw.affected@.take(i as int), k),
    {
        let aff = &raw.affected[i];
        let ghost now = raw.affected@.take(i + 1);
        proof {
            assert(now.drop_last() =~= raw.affected@.take(i as int));
            assert(now.last() == *aff);
            lemma_total_step(raw.affected@, f, i as int);
            lemma_total_step(raw.affected@, g, i as int);
            lemma_total_step(raw.affected@, h, i as int);
            lemma_total_step(raw.affected@, k, i as int);
            lemma_total_step(raw.affected@, l, i as int);
        }
        if let Some(name) = wanted_name(aff, want) {
            slot = index.fold_package(&raw, aff, name, packed, slot, Ghost(want));
        }
        proof {
            assert(index.staged() =~= start.staged() + raw.says_of(now, want));
        }
    }
    proof {
        assert(raw.affected@.take(raw.affected@.len() as int) =~= raw.affected@);
    }
}

/// A list of places, rising, that is exactly the places of a name, picks what
/// is listed under the name.
proof fn lemma_listed_by_places(staged: Seq<(Seq<char>, Advisory)>, name: Seq<char>, places: Seq<int>)
    requires
        forall|i: int| 0 <= i < places.len() ==> 0 <= #[trigger] places[i] < staged.len(),
        forall|i: int| 0 <= i < places.len() ==> staged[#[trigger] places[i]].0 == name,
        forall|i: int, j: int| 0 <= i < j < places.len() ==> #[trigger] places[i] < #[trigger] places[j],
        forall|k: int| 0 <= k < staged.len() && (#[trigger] staged[k]).0 == name ==> places.contains(k),
    ensures
        listed_under(staged, name) == Seq::new(places.len(), |i: int| staged[places[i]].1),
    decreases staged.len(),
{
    let pred = |s: (Seq<char>, Advisory)| s.0 == name;
    let pick = |s: (Seq<char>, Advisory)| s.1;
    reveal(Seq::filter);
    if staged.len() == 0 {
        if places.len() > 0 {
            assert(0 <= places[0] < staged.len());
        }
        assert(listed_under(staged, name) =~= Seq::new(places.len(), |i: int| staged[places[i]].1));
    } else {
        let rest = staged.drop_last();
        let last = staged.len() - 1;
        if staged.last().0 == name {
            assert(staged[last].0 == name);
            assert(places.contains(last));
            let at = choose|i: int| 0 <= i < places.len() && places[i] == last;
            if at < places.len() - 1 {
                assert(places[at] < places[places.len() - 1]);
            }
            let fewer = places.drop_last();
            assert forall|i: int| 0 <= i < fewer.len() implies 0 <= #[trigger] fewer[i] < rest.len() by {
                assert(places[i] < places[at]);
            }
            assert forall|i: int| 0 <= i < fewer.len() implies rest[#[trigger] fewer[i]].0 == name by {
                assert(staged[places[i]].0 == name);
            }
            assert forall|k: int| 0 <= k < rest.len() && (#[trigger] rest[k]).0 == name implies fewer.contains(
                k,
            ) by {
                assert(staged[k].0 == name);
                assert(places.contains(k));
                let i = choose|i: int| 0 <= i < places.len() && places[i] == k;
                assert(i != places.len() - 1);
                assert(fewer[i] == k);
            }
            lemma_listed_by_places(rest, name, fewer);
            assert(listed_under(staged, name) =~= listed_under(rest, name).push(staged.last().1));
            assert(listed_under(staged, name) =~= Seq::new(places.len(), |i: int| staged[places[i]].1));
        } else {
            assert forall|i: int| 0 <= i < places.len() implies 0 <= #[trigger] places[i] < rest.len() by {
                assert(staged[places[i]].0 == name);
            }
            assert forall|i: int| 0 <= i < places.len() implies rest[#[trigger] places[i]].0 == name by {
                assert(staged[places[i]].0 == name);
            }
            assert forall|k: int| 0 <= k < rest.len() && (#[trigger] rest[k]).0 == name implies places.contains(
                k,
            ) by {
                assert(staged[k].0 == name);
            }
            lemma_listed_by_places(rest, name, places);
            assert(listed_under(staged, name) =~= listed_under(rest, name));
            assert(listed_under(staged, name) =~= Seq::new(places.len(), |i: int| staged[places[i]].1));
        }
    }
}

/// What is listed under a name is what the list holds with that name.
pub proof fn lemma_listed_contains(staged: Seq<(Seq<char>, Advisory)>, name: Seq<char>, a: Advisory)
    ensures
        listed_under(staged, name).contains(a) <==> staged.contains((name, a)),
    decreases staged.len(),
{
    reveal(Seq::filter);
    let listed = listed_under(staged, name);
    if staged.len() == 0 {
        assert(listed =~= Seq::empty());
    } else {
        let rest = staged.drop_last();
        let last = staged.last();
        lemma_listed_contains(rest, name, a);
        let fewer = listed_under(rest, name);
        if last.0 == name {
            assert(listed =~= fewer.push(last.1));
            assert(listed[fewer.len() as int] == last.1);
            if fewer.contains(a) {
                let i = choose|i: int| 0 <= i < fewer.len() && fewer[i] == a;
                assert(listed[i] == a);
            }
            if listed.contains(a) {
                let i = choose|i: int| 0 <= i < listed.len() && listed[i] == a;
                if i < fewer.len() {
                    assert(fewer[i] == a);
                } else {
                    assert(staged[staged.len() - 1] == (name, a));
                }
            }
        } else {
            assert(listed =~= fewer);
        }
        if rest.contains((name, a)) {
            let i = choose|i: int| 0 <= i < rest.len() && rest[i] == (name, a);
            assert(staged[i] == (name, a));
        }
        if staged.contains((name, a)) {
            let i = choose|i: int| 0 <= i < staged.len() && staged[i] == (name, a);
            if i < rest.len() {
                assert(rest[i] == (name, a));
            }
        }
    }
}

/// What is listed under a name, one advisory later.
pub proof fn lemma_listed_push(staged: Seq<(Seq<char>, Advisory)>, name: Seq<char>)
    requires
        staged.len() > 0,
    ensures
        listed_under(staged, name) == (if staged.last().0 == name {
            listed_under(staged.drop_last(), name).push(staged.last().1)
        } else {
            listed_under(staged.drop_last(), name)
        }),
{
    reveal(Seq::filter);
    assert(listed_under(staged, name) =~= (if staged.last().0 == name {
        listed_under(staged.drop_last(), name).push(staged.last().1)
    } else {
        listed_under(staged.drop_last(), name)
    }));
}

/// Every place lies between two starts.
proof fn lemma_place_has_start(starts: Seq<u32>, j: int) -> (g: int)
    requires
        starts.len() > 1,
        starts[0] <= j < starts[starts.len() - 1],
    ensures
        0 <= g < starts.len() - 1,
        starts[g] <= j < starts[g + 1],
    decreases starts.len(),
{
    if starts.len() == 2 {
        0
    } else if j >= starts[starts.len() - 2] {
        starts.len() - 2
    } else {
        lemma_place_has_start(starts.drop_last(), j)
    }
}

/// A name that comes before all later ones is where the groups hold it.
proof fn lemma_grouped_at(groups: Seq<Group>, i: int)
    requires
        names_rise(groups),
        0 <= i < groups.len(),
    ensures
        grouped_under(groups, groups[i].name) == groups[i].advisories,
{
    let name = groups[i].name;
    assert(groups[i].name == name);
    let k = choose|k: int| 0 <= k < groups.len() && (#[trigger] groups[k]).name == name;
    lemma_text_same(name, name);
    if k < i {
        assert(text_before(groups[k].name, groups[i].name));
    } else if i < k {
        assert(text_before(groups[i].name, groups[k].name));
    }
}

impl Index {
    /// Sort the staging area and lay the entries out by name. Call once, after
    /// all feeds are streamed in.
    pub fn finish(&mut self)
        requires
            old(self).wf(),
            !old(self).finished(),
        ensures
            final(self).wf(),
            final(self).finished(),
            final(self).staged() == Seq::<(Seq<char>, Advisory)>::empty(),
            names_rise(final(self).groups()),
            forall|i: int|
                0 <= i < final(self).groups().len() ==> (#[trigger] final(self).groups()[i]).advisories.len() > 0,
            forall|name: Seq<char>| #[trigger]
                grouped_under(final(self).groups(), name) == listed_under(old(self).staged(), name),
            named_of(final(self).groups()).len() == old(self).staged().len(),
            final(self).groups().len() == names_in(old(self).staged()).len(),
            final(self).store() == old(self).store(),
            final(self).id_refs() == old(self).id_refs(),
            final(self).keeps_entries(*old(self)),
            old(self).keeps_entries(*final(self)),
            final(self).advisory_count() == old(self).advisory_count(),
            final(self).skipped_count() == old(self).skipped_count(),
            final(self).used() == (Used { staged: 0, ..old(self).used() }),
    {
        let ghost start = *self;
        let mut staging: Vec<(Str, Entry)> = Vec::new();
        std::mem::swap(&mut staging, &mut self.staging);
        let mut keys: Vec<&str> = Vec::new();
        for i in 0..staging.len()
            invariant
                self.arena == start.arena,
                staging@ == start.staging@,
                start.wf(),
                keys@.len() == i,
                forall|j: int| 0 <= j < i ==> (#[trigger] keys@[j])@ == start.arena.says(staging@[j].0),
        {
            proof {
                assert(start.arena.holds(start.staging@[i as int].0));
            }
            keys.push(self.arena.get(staging[i].0));
        }
        let slots = sort_slots(keys.as_slice());
        for k in 0..slots.len()
            invariant
                start.wf(),
                !start.finished(),
                staging@ == start.staging@,
                keys@.len() == staging@.len(),
                forall|j: int|
                    0 <= j < keys@.len() ==> (#[trigger] keys@[j])@ == start.arena.says(staging@[j].0),
                sorted_slots(keys@, slots@, 0, keys@.len() as int),
                self.arena == start.arena,
                self.ids@ == start.ids@,
                self.bounds@ == start.bounds@,
                self.versions@ == start.versions@,
                self.staging@.len() == 0,
                self.advisories == start.advisories,
                self.skipped == start.skipped,
                self.laid_out(staging@, slots@, k as int),
        {
            let slot: usize = slots[k];
            let name = staging[slot].0;
            let ghost before = *self;
            proof {
                assert(start.arena.holds(start.staging@[slot as int].0));
            }
            let is_new: bool = if self.names.len() == 0 {
                true
            } else {
                let prev = self.names[self.names.len() - 1];
                !same_text(self.arena.get(prev), self.arena.get(name))
            };
            if is_new {
                proof {
                    self.lemma_next_name(staging@, keys@, slots@, k as int);
                }
                self.names.push(name);
                self.starts.push(self.entries.len() as u32);
            }
            self.entries.push(staging[slot].1);
            proof {
                self.lemma_laid_out_step(before, staging@, slots@, k as int, is_new);
            }
        }
        let ghost before = *self;
        self.starts.push(self.entries.len() as u32);
        proof {
            self.lemma_layout(before, start, staging@, keys@, slots@);
            self.lemma_same_texts(start);
            self.lemma_named_count(self.names@.len() as int);
            assert(self.groups().take(self.names@.len() as int) =~= self.groups());
            lemma_names_are_counted(start.staged(), self.groups());
        }
    }

    /// The first `k` slots of the staging area are laid out: their entries one
    /// after the other, and each new name with the place of its first entry.
    spec fn laid_out(self, staging: Seq<(Str, Entry)>, slots: Seq<usize>, k: int) -> bool {
        &&& self.entries@.len() == k
        &&& forall|j: int| 0 <= j < k ==> #[trigger] self.entries@[j] == staging[slots[j] as int].1
        &&& self.starts@.len() == self.names@.len()
        &&& (k == 0 <==> self.names@.len() == 0)
        &&& (k > 0 ==> self.starts@[0] == 0)
        &&& forall|g: int| 0 <= g < self.starts@.len() ==> #[trigger] self.starts@[g] < k
        &&& forall|g: int, h: int|
            0 <= g < h < self.starts@.len() ==> #[trigger] self.starts@[g] < #[trigger] self.starts@[h]
        &&& forall|g: int| 0 <= g < self.names@.len() ==> self.arena.holds(#[trigger] self.names@[g])
        &&& forall|g: int, h: int|
            0 <= g < h < self.names@.len() ==> text_before(
                self.arena.says(#[trigger] self.names@[g]),
                self.arena.says(#[trigger] self.names@[h]),
            )
        &&& forall|g: int, j: int|
            0 <= g < self.names@.len() && self.starts@[g] <= j < (if g + 1 < self.starts@.len() {
                self.starts@[g + 1] as int
            } else {
                k
            }) ==> self.arena.says(staging[(#[trigger] slots[j]) as int].0) == self.arena.says(
                #[trigger] self.names@[g],
            )
    }

    /// A name that differs from the last one comes after all names so far.
    proof fn lemma_next_name(self, staging: Seq<(Str, Entry)>, keys: Seq<&str>, slots: Seq<usize>, k: int)
        requires
            self.laid_out(staging, slots, k),
            0 <= k < slots.len(),
            keys.len() == staging.len(),
            forall|j: int| 0 <= j < keys.len() ==> (#[trigger] keys[j])@ == self.arena.says(staging[j].0),
            sorted_slots(keys, slots, 0, keys.len() as int),
            self.names@.len() > 0 ==> self.arena.says(self.names@.last()) != self.arena.says(
                staging[slots[k] as int].0,
            ),
        ensures
            forall|g: int|
                0 <= g < self.names@.len() ==> text_before(
                    self.arena.says(#[trigger] self.names@[g]),
                    self.arena.says(staging[slots[k] as int].0),
                ),
    {
        if k > 0 {
            let last = self.names@.len() - 1;
            let a = self.arena.says(self.names@[last]);
            let b = self.arena.says(staging[slots[k] as int].0);
            assert(self.starts@[last] <= k - 1);
            assert(self.arena.says(staging[slots[k - 1] as int].0) == a);
            assert(slot_before(keys, slots[k - 1] as int, slots[k] as int));
            assert(keys[slots[k - 1] as int].key() =~= seq![a]);
            assert(keys[slots[k] as int].key() =~= seq![b]);
            if keys[slots[k - 1] as int].key() == keys[slots[k] as int].key() {
                assert(seq![a][0] == seq![b][0]);
            }
            reveal_with_fuel(key_standing, 2);
            assert(text_before(a, b));
            assert forall|g: int| 0 <= g < self.names@.len() implies text_before(
                self.arena.says(#[trigger] self.names@[g]),
                b,
            ) by {
                if g < last {
                    lemma_text_transitive(self.arena.says(self.names@[g]), a, b);
                }
            }
        }
    }

    proof fn lemma_laid_out_step(
        self,
        before: Index,
        staging: Seq<(Str, Entry)>,
        slots: Seq<usize>,
        k: int,
        is_new: bool,
    )
        requires
            before.laid_out(staging, slots, k),
            0 <= k < slots.len(),
            k < u32::MAX,
            self.arena == before.arena,
            self.arena.holds(staging[slots[k] as int].0),
            self.entries@ == before.entries@.push(staging[slots[k] as int].1),
            is_new ==> self.names@ == before.names@.push(staging[slots[k] as int].0) && self.starts@
                == before.starts@.push(k as u32),
            !is_new ==> self.names@ == before.names@ && self.starts@ == before.starts@,
            before.names@.len() == 0 ==> is_new,
            is_new ==> forall|g: int|
                0 <= g < before.names@.len() ==> text_before(
                    self.arena.says(#[trigger] before.names@[g]),
                    self.arena.says(staging[slots[k] as int].0),
                ),
            !is_new ==> self.arena.says(before.names@.last()) == self.arena.says(staging[slots[k] as int].0),
        ensures
            self.laid_out(staging, slots, k + 1),
    {
        assert forall|g: int, j: int|
            0 <= g < self.names@.len() && self.starts@[g] <= j < (if g + 1 < self.starts@.len() {
                self.starts@[g + 1] as int
            } else {
                k + 1
            }) implies self.arena.says(staging[(#[trigger] slots[j]) as int].0) == self.arena.says(
            #[trigger] self.names@[g],
        ) by {
            if g < before.names@.len() {
                assert(self.names@[g] == before.names@[g]);
                assert(self.starts@[g] == before.starts@[g]);
                if g + 1 < before.names@.len() {
                    assert(self.starts@[g + 1] == before.starts@[g + 1]);
                }
                if j < k {
                    assert(before.arena.says(staging[slots[j] as int].0) == before.arena.says(before.names@[g]));
                }
            }
        }
        assert forall|g: int, h: int| 0 <= g < h < self.names@.len() implies text_before(
            self.arena.says(#[trigger] self.names@[g]),
            self.arena.says(#[trigger] self.names@[h]),
        ) by {
            assert(self.names@[g] == before.names@[g]);
        }
        assert forall|g: int| 0 <= g < self.names@.len() implies self.arena.holds(#[trigger] self.names@[g]) by {
            if g < before.names@.len() {
                assert(self.names@[g] == before.names@[g]);
            }
        }
    }

    spec fn same_texts(self, old: Index) -> bool {
        &&& self.arena == old.arena
        &&& self.ids@ == old.ids@
        &&& self.bounds@ == old.bounds@
        &&& self.versions@ == old.versions@
    }

    proof fn lemma_same_texts(self, old: Index)
        requires
            self.same_texts(old),
        ensures
            forall|e: Entry| #[trigger] self.holds_entry(e) == old.holds_entry(e),
            forall|e: Entry| #[trigger] self.says(e) == old.says(e),
    {
        assert(self.ids_text() =~= old.ids_text());
        assert(self.bounds_text() =~= old.bounds_text());
        assert(self.versions_text() =~= old.versions_text());
    }

    /// Once the last start is in place, the layout holds what was staged.
    proof fn lemma_layout(
        self,
        before: Index,
        start: Index,
        staging: Seq<(Str, Entry)>,
        keys: Seq<&str>,
        slots: Seq<usize>,
    )
        requires
            start.wf(),
            staging == start.staging@,
            keys.len() == staging.len(),
            forall|j: int| 0 <= j < keys.len() ==> (#[trigger] keys[j])@ == start.arena.says(staging[j].0),
            sorted_slots(keys, slots, 0, keys.len() as int),
            before.laid_out(staging, slots, slots.len() as int),
            before.same_texts(start),
            self.same_texts(start),
            self.staging@.len() == 0,
            self.names@ == before.names@,
            self.entries@ == before.entries@,
            self.starts@ == before.starts@.push(slots.len() as u32),
        ensures
            self.wf(),
            self.staged() == Seq::<(Seq<char>, Advisory)>::empty(),
            names_rise(self.groups()),
            forall|i: int|
                0 <= i < self.groups().len() ==> (#[trigger] self.groups()[i]).advisories.len() > 0,
            forall|name: Seq<char>| #[trigger]
                grouped_under(self.groups(), name) == listed_under(start.staged(), name),
    {
        let n = self.names@.len() as int;
        self.lemma_same_texts(start);
        assert(self.staged() =~= Seq::<(Seq<char>, Advisory)>::empty());
        assert forall|i: int| 0 <= i < self.entries@.len() implies self.holds_entry(#[trigger] self.entries@[i])
            && self.says(self.entries@[i]).is_told_by_id() by {
            assert(start.holds_entry(staging[slots[i] as int].1));
        }
        assert forall|g: int, j: int|
            0 <= g < n && self.starts@[g] <= j < self.starts@[g + 1] implies self.arena.says(
            staging[(#[trigger] slots[j]) as int].0,
        ) == self.arena.says(#[trigger] self.names@[g]) by {
            assert(self.starts@[g] == before.starts@[g]);
            if g + 1 < n {
                assert(self.starts@[g + 1] == before.starts@[g + 1]);
            }
        }
        assert(self.layout_held());
        assert(names_rise(self.groups()));
        assert forall|i: int| 0 <= i < n implies (#[trigger] self.groups()[i]).advisories.len() > 0 by {
            assert(self.starts@[i] < self.starts@[i + 1]);
        }
        assert forall|name: Seq<char>| #[trigger] grouped_under(self.groups(), name) == listed_under(
            start.staged(),
            name,
        ) by {
            self.lemma_group_is_listed(start, staging, keys, slots, name);
        }
    }

    proof fn lemma_group_is_listed(
        self,
        start: Index,
        staging: Seq<(Str, Entry)>,
        keys: Seq<&str>,
        slots: Seq<usize>,
        name: Seq<char>,
    )
        requires
            self.wf(),
            self.finished(),
            staging == start.staging@,
            keys.len() == staging.len(),
            forall|j: int| 0 <= j < keys.len() ==> (#[trigger] keys[j])@ == start.arena.says(staging[j].0),
            sorted_slots(keys, slots, 0, keys.len() as int),
            self.same_texts(start),
            self.entries@.len() == slots.len(),
            forall|j: int| 0 <= j < slots.len() ==> #[trigger] self.entries@[j] == staging[slots[j] as int].1,
            forall|g: int, j: int|
                0 <= g < self.names@.len() && self.starts@[g] <= j < self.starts@[g + 1] ==> self.arena.says(
                    staging[(#[trigger] slots[j]) as int].0,
                ) == self.arena.says(#[trigger] self.names@[g]),
            names_rise(self.groups()),
        ensures
            grouped_under(self.groups(), name) == listed_under(start.staged(), name),
    {
        let staged = start.staged();
        let groups = self.groups();
        let n = self.names@.len() as int;
        self.lemma_same_texts(start);
        // Where a staged advisory is laid out, and under which name.
        assert forall|k: int| 0 <= k < staged.len() implies exists|g: int, j: int|
            0 <= g < n && self.starts@[g] <= j < self.starts@[g + 1] && (#[trigger] groups[g]).name
                == (#[trigger] staged[k]).0 && #[trigger] slots[j] == k by {
            assert(slots.contains(k as usize));
            let j = choose|j: int| 0 <= j < slots.len() && slots[j] == k as usize;
            if n == 0 {
                assert(self.starts@[0] == self.entries@.len());
            }
            let g = lemma_place_has_start(self.starts@, j);
            assert(self.arena.says(staging[slots[j] as int].0) == self.arena.says(self.names@[g]));
            assert(groups[g].name == staged[k].0);
        }
        if exists|i: int| 0 <= i < groups.len() && (#[trigger] groups[i]).name == name {
            let g = choose|i: int| 0 <= i < groups.len() && (#[trigger] groups[i]).name == name;
            let lo = self.starts@[g] as int;
            let hi = self.starts@[g + 1] as int;
            assert(self.starts@[g] < self.starts@[g + 1]);
            assert(g + 1 < n ==> self.starts@[g + 1] < self.starts@[n]);
            let places = Seq::new((hi - lo) as nat, |i: int| slots[lo + i] as int);
            assert forall|i: int| 0 <= i < places.len() implies 0 <= #[trigger] places[i] < staged.len()
                && staged[places[i]].0 == name by {
                assert(self.arena.says(staging[slots[lo + i] as int].0) == self.arena.says(self.names@[g]));
            }
            assert forall|i: int, j: int| 0 <= i < j < places.len() implies #[trigger] places[i]
                < #[trigger] places[j] by {
                let a = slots[lo + i] as int;
                let b = slots[lo + j] as int;
                assert(slot_before(keys, a, b));
                assert(self.arena.says(staging[slots[lo + i] as int].0) == self.arena.says(self.names@[g]));
                assert(self.arena.says(staging[slots[lo + j] as int].0) == self.arena.says(self.names@[g]));
                assert(keys[a].key() =~= keys[b].key());
                lemma_key_same(keys[a].key(), keys[b].key());
            }
            assert forall|k: int| 0 <= k < staged.len() && (#[trigger] staged[k]).0 == name implies places.contains(
                k,
            ) by {
                let (h, j) = choose|h: int, j: int|
                    0 <= h < n && self.starts@[h] <= j < self.starts@[h + 1] && (
                    #[trigger] groups[h]).name == staged[k].0 && #[trigger] slots[j] == k;
                lemma_text_same(name, name);
                if h < g {
                    assert(text_before(groups[h].name, groups[g].name));
                } else if g < h {
                    assert(text_before(groups[g].name, groups[h].name));
                }
                assert(places[j - lo] == k);
            }
            lemma_listed_by_places(staged, name, places);
            assert(groups[g].advisories =~= Seq::new(places.len(), |i: int| staged[places[i]].1)) by {
                assert forall|i: int| 0 <= i < places.len() implies groups[g].advisories[i]
                    == staged[places[i]].1 by {
                    assert(self.entries@[lo + i] == staging[slots[lo + i] as int].1);
                }
            }
        } else {
            let places = Seq::<int>::empty();
            assert forall|k: int| 0 <= k < staged.len() && (#[trigger] staged[k]).0 == name implies places.contains(
                k,
            ) by {
                let (h, j) = choose|h: int, j: int|
                    0 <= h < n && self.starts@[h] <= j < self.starts@[h + 1] && (
                    #[trigger] groups[h]).name == staged[k].0 && #[trigger] slots[j] == k;
                assert(groups[h].name == name);
            }
            lemma_listed_by_places(staged, name, places);
            assert(listed_under(staged, name) =~= Seq::empty());
        }
    }
}

/// A layout has one group for each name of what was staged.
proof fn lemma_names_are_counted(staged: Seq<(Seq<char>, Advisory)>, groups: Seq<Group>)
    requires
        names_rise(groups),
        forall|i: int| 0 <= i < groups.len() ==> (#[trigger] groups[i]).advisories.len() > 0,
        forall|name: Seq<char>| #[trigger] grouped_under(groups, name) == listed_under(staged, name),
    ensures
        groups.len() == names_in(staged).len(),
{
    let names = Seq::new(groups.len(), |i: int| groups[i].name);
    let from = staged.map_values(|s: (Seq<char>, Advisory)| s.0);
    assert forall|i: int, j: int| 0 <= i < names.len() && 0 <= j < names.len() && i != j implies names[i]
        != names[j] by {
        lemma_text_same(groups[i].name, groups[j].name);
        if i < j {
            assert(text_before(groups[i].name, groups[j].name));
        } else {
            assert(text_before(groups[j].name, groups[i].name));
            lemma_text_same(groups[j].name, groups[i].name);
        }
    }
    names.unique_seq_to_set();
    assert forall|name: Seq<char>| names.to_set().contains(name) <==> names_in(staged).contains(name) by {
        assert(grouped_under(groups, name) == listed_under(staged, name));
        if names.contains(name) {
            let i = choose|i: int| 0 <= i < names.len() && names[i] == name;
            assert(groups[i].name == name);
            let g = choose|g: int| 0 <= g < groups.len() && (#[trigger] groups[g]).name == name;
            let a = groups[g].advisories[0];
            assert(listed_under(staged, name).contains(a));
            lemma_listed_contains(staged, name, a);
            let k = choose|k: int| 0 <= k < staged.len() && staged[k] == (name, a);
            assert(from[k] == name);
        }
        if from.contains(name) {
            let k = choose|k: int| 0 <= k < from.len() && from[k] == name;
            let a = staged[k].1;
            assert(staged[k] == (name, a));
            lemma_listed_contains(staged, name, a);
            assert(grouped_under(groups, name).len() > 0);
            let g = choose|g: int| 0 <= g < groups.len() && (#[trigger] groups[g]).name == name;
            assert(names[g] == name);
        }
    }
    assert(names.to_set() =~= names_in(staged));
}

/// Whether an archive entry of this name holds an advisory.
pub fn is_advisory_file(name: &str) -> (r: bool)
    ensures
        r == ".json"@.is_suffix_of(name@),
{
    let chars = chars_of(name);
    ends_with(chars.as_slice(), ".json")
}

/// Takes what was read from one archive entry: an advisory is folded in, and
/// one that could not be read is counted, never silent.
pub fn take_entry(read: Option<RawAdvisory>, want: Ecosystem, index: &mut Index)
    requires
        old(index).wf(),
        read matches Some(raw) ==> old(index).room_for(raw, want),
        read is None ==> old(index).skipped_count() < usize::MAX,
    ensures
        final(index).wf(),
        final(index).groups() == old(index).groups(),
        final(index).finished() == old(index).finished(),
        final(index).keeps_entries(*old(index)),
        read matches Some(raw) ==> {
            &&& final(index).staged() == old(index).staged() + raw.folded(want)
            &&& final(index).advisory_count() == old(index).advisory_count() + 1
            &&& final(index).skipped_count() == old(index).skipped_count() + raw.lists_dropped(raw.affected@, want)
            &&& final(index).used() == old(index).used().with(raw, want)
        },
        read is None ==> {
            &&& final(index).staged() == old(index).staged()
            &&& final(index).advisory_count() == old(index).advisory_count()
            &&& final(index).skipped_count() == old(index).skipped_count() + 1
            &&& final(index).used() == old(index).used()
        },
{
    match read {
        Some(raw) => fold(raw, want, index),
        None => index.count_skipped(),
    }
}

/// A number of things of one size.
fn weigh(count: usize, size: usize) -> (r: u128)
    requires
        count <= u32::MAX + 1,
    ensures
        r == count * size,
        r <= 0x1_0000_0000 * 0xffff_ffff_ffff_ffff,
{
    assert(count * size <= 0x1_0000_0000 * 0xffff_ffff_ffff_ffff) by (nonlinear_arith)
        requires
            count <= u32::MAX + 1,
            size <= 0xffff_ffff_ffff_ffff,
    ;
    count as u128 * size as u128
}

proof fn lemma_rising_start(starts: Seq<u32>, i: int)
    requires
        forall|g: int, h: int| 0 <= g < h < starts.len() ==> #[trigger] starts[g] < #[trigger] starts[h],
        0 <= i < starts.len(),
    ensures
        i <= starts[i],
    decreases i,
{
    if i > 0 {
        lemma_rising_start(starts, i - 1);
        assert(starts[i - 1] < starts[i]);
    }
}

/// What a list of borrowed texts says.
pub open spec fn str_views(list: Seq<&str>) -> Seq<Seq<char>> {
    Seq::new(list.len(), |i: int| list[i]@)
}

/// What a list of ranges says.
pub open spec fn bound_views(list: Seq<Bound<'_>>) -> Seq<BoundText> {
    Seq::new(list.len(), |i: int| list[i]@)
}

impl Index {
    /// What a list of named entries says.
    pub open spec fn named(self, list: Seq<(&str, &Entry)>) -> Seq<(Seq<char>, Advisory)> {
        Seq::new(list.len(), |i: int| (list[i].0@, self.says(*list[i].1)))
    }

    /// The bytes that the retained structures take.
    pub closed spec fn retained_bytes(self) -> nat {
        self.arena.size() + self.ids@.len() * vstd::layout::size_of::<Str>() + self.names@.len()
            * vstd::layout::size_of::<Str>() + self.starts@.len() * 4 + self.entries@.len()
            * vstd::layout::size_of::<Entry>() + self.bounds@.len() * vstd::layout::size_of::<BoundRef>()
            + self.versions@.len() * vstd::layout::size_of::<Str>()
    }

    /// The number of package names.
    pub fn names(&self) -> (n: usize)
        ensures
            n == self.groups().len(),
    {
        self.names.len()
    }

    /// The number of entries in the layout.
    pub fn entry_count(&self) -> (n: usize)
        requires
            self.wf(),
        ensures
            n == named_of(self.groups()).len(),
    {
        proof {
            self.lemma_named_count(self.names@.len() as int);
            assert(self.groups().take(self.names@.len() as int) =~= self.groups());
        }
        self.entries.len()
    }

    /// Resident bytes of the retained structures: reported, not guessed.
    pub fn footprint(&self) -> (n: usize)
        requires
            self.wf(),
        ensures
            n == if self.retained_bytes() <= usize::MAX {
                self.retained_bytes()
            } else {
                usize::MAX as nat
            },
    {
        proof {
            if self.starts@.len() > 0 {
                lemma_rising_start(self.starts@, self.starts@.len() - 1);
            }
        }
        let total: u128 = self.arena.bytes() as u128 + weigh(self.ids.len(), std::mem::size_of::<Str>()) + weigh(
            self.names.len(),
            std::mem::size_of::<Str>(),
        ) + weigh(self.starts.len(), 4) + weigh(self.entries.len(), std::mem::size_of::<Entry>()) + weigh(
            self.bounds.len(),
            std::mem::size_of::<BoundRef>(),
        ) + weigh(self.versions.len(), std::mem::size_of::<Str>());
        if total <= usize::MAX as u128 {
            total as usize
        } else {
            usize::MAX
        }
    }

    /// Advisories touching `name`, or an empty slice.
    pub fn lookup(&self, name: &str) -> (found: &[Entry])
        requires
            self.wf(),
        ensures
            self.says_all(found@) == grouped_under(self.groups(), name@),
            self.holds_all(found@),
    {
        let ghost groups = self.groups();
        proof {
            assert(names_rise(groups));
        }
        let mut lo: usize = 0;
        let mut hi: usize = self.names.len();
        while lo < hi
            invariant
                self.wf(),
                groups == self.groups(),
                names_rise(groups),
                lo <= hi <= self.names@.len(),
                forall|i: int| 0 <= i < lo ==> text_before((#[trigger] groups[i]).name, name@),
                forall|i: int| hi <= i < groups.len() ==> text_before(name@, (#[trigger] groups[i]).name),
            decreases hi - lo,
        {
            let mid: usize = lo + (hi - lo) / 2;
            let here = self.arena.get(self.names[mid]);
            proof {
                assert(groups[mid as int].name == here@);
            }
            match compare_text(here, name) {
                Standing::Before => {
                    proof {
                        assert forall|i: int| 0 <= i < mid implies text_before((#[trigger] groups[i]).name, name@) by {
                            lemma_text_transitive(groups[i].name, groups[mid as int].name, name@);
                        }
                    }
                    lo = mid + 1;
                },
                Standing::After => {
                    proof {
                        lemma_text_flip(here@, name@);
                        assert forall|i: int| mid <= i < groups.len() implies text_before(
                            name@,
                            (#[trigger] groups[i]).name,
                        ) by {
                            if i > mid {
                                lemma_text_transitive(name@, groups[mid as int].name, groups[i].name);
                            }
                        }
                    }
                    hi = mid;
                },
                Standing::Same => {
                    proof {
                        lemma_text_same(here@, name@);
                        lemma_grouped_at(groups, mid as int);
                        self.lemma_starts(mid as int);
                    }
                    let found = slice_subrange(
                        self.entries.as_slice(),
                        self.starts[mid] as usize,
                        self.starts[mid + 1] as usize,
                    );
                    return found;
                },
            }
        }
        proof {
            assert forall|i: int| 0 <= i < groups.len() implies (#[trigger] groups[i]).name != name@ by {
                lemma_text_same(name@, name@);
            }
        }
        slice_subrange(self.entries.as_slice(), 0, 0)
    }

    /// Every (name, entry) pair, in sorted name order. Used by proactive mode.
    pub fn iter_named(&self) -> (list: Vec<(&str, &Entry)>)
        requires
            self.wf(),
        ensures
            self.named(list@) == named_of(self.groups()),
            forall|i: int| 0 <= i < list@.len() ==> self.holds_entry(*(#[trigger] list@[i]).1),
    {
        let mut list: Vec<(&str, &Entry)> = Vec::new();
        let ghost groups = self.groups();
        for g in 0..self.names.len()
            invariant
                self.wf(),
                groups == self.groups(),
                self.named(list@) == named_of(groups.take(g as int)),
                forall|i: int| 0 <= i < list@.len() ==> self.holds_entry(*(#[trigger] list@[i]).1),
        {
            proof {
                self.lemma_starts(g as int);
            }
            let name = self.arena.get(self.names[g]);
            let lo: usize = self.starts[g] as usize;
            let hi: usize = self.starts[g + 1] as usize;
            let ghost before = list@;
            for k in lo..hi
                invariant
                    self.wf(),
                    groups == self.groups(),
                    0 <= g < self.names@.len(),
                    name@ == groups[g as int].name,
                    lo == self.starts@[g as int],
                    hi == self.starts@[g + 1],
                    lo <= hi <= self.entries@.len(),
                    self.named(list@) == self.named(before) + Seq::new(
                        (k - lo) as nat,
                        |i: int| (groups[g as int].name, groups[g as int].advisories[i]),
                    ),
                    forall|i: int| 0 <= i < list@.len() ==> self.holds_entry(*(#[trigger] list@[i]).1),
            {
                let ghost prior = list@;
                list.push((name, &self.entries[k]));
                proof {
                    assert(self.holds_entry(self.entries@[k as int]));
                    assert(groups[g as int].advisories[k - lo] == self.says(self.entries@[k as int]));
                    assert(self.named(list@) =~= self.named(prior).push(
                        (groups[g as int].name, groups[g as int].advisories[k - lo]),
                    ));
                    assert(self.named(list@) =~= self.named(before) + Seq::new(
                        (k + 1 - lo) as nat,
                        |i: int| (groups[g as int].name, groups[g as int].advisories[i]),
                    ));
                }
            }
            proof {
                assert(groups.take(g + 1).drop_last() =~= groups.take(g as int));
                assert(groups.take(g + 1).last() == groups[g as int]);
                assert(self.named(list@) =~= named_of(groups.take(g + 1)));
            }
        }
        proof {
            assert(groups.take(self.names@.len() as int) =~= groups);
        }
        list
    }

    /// The ranges of an entry.
    pub fn bounds_of(&self, e: &Entry) -> (list: Vec<Bound<'_>>)
        requires
            self.wf(),
            self.holds_entry(*e),
        ensures
            bound_views(list@) == self.says(*e).bounds,
    {
        let lo: usize = e.bounds_start as usize;
        let hi: usize = lo + e.bounds_len as usize;
        let mut list: Vec<Bound<'_>> = Vec::new();
        for k in lo..hi
            invariant
                self.wf(),
                lo <= hi <= self.bounds@.len(),
                bound_views(list@) == self.bounds_text().subrange(lo as int, k as int),
        {
            let b = self.bounds[k];
            proof {
                assert(self.holds_bound(self.bounds@[k as int]));
            }
            let bound = Bound {
                introduced: self.arena.opt(b.introduced),
                fixed: self.arena.opt(b.fixed),
                last_affected: self.arena.opt(b.last_affected),
            };
            let ghost prior = list@;
            list.push(bound);
            proof {
                assert(bound@ == self.bounds_text()[k as int]);
                assert(bound_views(list@) =~= bound_views(prior).push(bound@));
                assert(bound_views(list@) =~= self.bounds_text().subrange(lo as int, k + 1));
            }
        }
        list
    }

    /// The explicit versions of an entry.
    pub fn versions_of(&self, e: &Entry) -> (list: Vec<&str>)
        requires
            self.wf(),
            self.holds_entry(*e),
        ensures
            str_views(list@) == self.says(*e).versions,
    {
        let lo: usize = e.versions_start as usize;
        let hi: usize = lo + e.versions_len as usize;
        let mut list: Vec<&str> = Vec::new();
        for k in lo..hi
            invariant
                self.wf(),
                lo <= hi <= self.versions@.len(),
                str_views(list@) == self.versions_text().subrange(lo as int, k as int),
        {
            proof {
                assert(self.arena.holds(self.versions@[k as int]));
            }
            let version = self.arena.get(self.versions[k]);
            let ghost prior = list@;
            list.push(version);
            proof {
                assert(version@ == self.versions_text()[k as int]);
                assert(str_views(list@) =~= str_views(prior).push(version@));
                assert(str_views(list@) =~= self.versions_text().subrange(lo as int, k + 1));
            }
        }
        list
    }

    /// True when every bound says "the whole package, forever".
    pub fn is_whole_package(&self, e: &Entry) -> (r: bool)
        requires
            self.wf(),
            self.holds_entry(*e),
        ensures
            r == self.says(*e).is_whole(),
    {
        if e.versions_len != 0 || e.bounds_len == 0 {
            return false;
        }
        let bounds = self.bounds_of(e);
        let ghost said = self.says(*e).bounds;
        proof {
            assert(bound_views(bounds@).len() == said.len());
        }
        for k in 0..bounds.len()
            invariant
                bound_views(bounds@) == said,
                said == self.says(*e).bounds,
                forall|i: int| 0 <= i < k ==> (#[trigger] said[i]).is_whole(),
        {
            proof {
                assert(bound_views(bounds@)[k as int] == bounds@[k as int]@);
            }
            if !bounds[k].is_whole_package() {
                assert(!said[k as int].is_whole());
                return false;
            }
        }
        true
    }

    /// The id of the advisory that an entry comes from.
    pub fn id_str(&self, e: &Entry) -> (id: &str)
        requires
            self.wf(),
            self.holds_entry(*e),
        ensures
            id@ == self.says(*e).id,
    {
        proof {
            assert(self.arena.holds(self.ids@[e.id as int]));
        }
        self.arena.get(self.ids[e.id as usize])
    }

    /// The first fix that an entry names, for the human-readable reason.
    pub fn fixed_in(&self, e: &Entry) -> (fix: Option<&str>)
        requires
            self.wf(),
            self.holds_entry(*e),
        ensures
            opt_text(fix) == self.says(*e).fixed_in,
    {
        self.arena.opt(e.fixed_in)
    }

    /// The names of an index rise, and what each of its advisories reports is told
    /// by its id.
    pub proof fn law_layout_is_in_order(self)
        requires
            self.wf(),
        ensures
            names_rise(self.groups()),
            ids_tell_kinds(self.groups()),
    {
        assert forall|g: int, i: int|
            0 <= g < self.groups().len() && 0 <= i < self.groups()[g].advisories.len() implies (
        #[trigger] self.groups()[g].advisories[i]).is_told_by_id() by {
            self.lemma_starts(g);
            let at = self.starts@[g] + i;
            assert(self.says(self.entries@[at]).is_told_by_id());
        }
    }

    /// An index has room for an advisory just as long as its references and counters
    /// fit once it is folded in.
    pub proof fn law_there_is_room_while_references_fit(self, raw: RawAdvisory, want: Ecosystem)
        ensures
            self.room_for(raw, want) <==> {
                let then = self.used().with(raw, want);
                &&& then.text <= u32::MAX
                &&& then.ids <= u32::MAX
                &&& then.bounds <= u32::MAX
                &&& then.versions <= u32::MAX
                &&& then.staged <= u32::MAX
                &&& self.advisory_count() + 1 <= usize::MAX
                &&& self.skipped_count() + raw.lists_dropped(raw.affected@, want) <= usize::MAX
            },
    {
    }

    /// The footprint counts all that is kept: every byte of text, every id, name and
    /// listed version, every interval and entry, and where each name begins.
    pub proof fn law_footprint_counts_all(self)
        requires
            self.wf(),
        ensures
            self.retained_bytes() == self.used().text + self.used().ids * vstd::layout::size_of::<Str>()
                + self.groups().len() * vstd::layout::size_of::<Str>() + (if self.finished() {
                self.groups().len() + 1
            } else {
                0
            }) * 4 + named_of(self.groups()).len() * vstd::layout::size_of::<Entry>() + self.used().bounds
                * vstd::layout::size_of::<BoundRef>() + self.used().versions * vstd::layout::size_of::<Str>(),
    {
        self.lemma_named_count(self.names@.len() as int);
        assert(self.groups().take(self.names@.len() as int) =~= self.groups());
    }

    /// What an entry says of kind and severity is what its own methods give.
    pub proof fn lemma_says(self, e: Entry)
        ensures
            self.says(e).kind == e.is_kind(),
            self.says(e).severity == e.has_severity(),
    {
    }

    proof fn lemma_starts(self, g: int)
        requires
            self.wf(),
            0 <= g < self.names@.len(),
        ensures
            self.starts@.len() == self.names@.len() + 1,
            self.starts@[g] <= self.starts@[g + 1] <= self.entries@.len(),
            self.arena.holds(self.names@[g]),
            self.groups()[g].advisories.len() == self.starts@[g + 1] - self.starts@[g],
    {
        let last = self.names@.len() as int;
        assert(self.starts@.len() > 0);
        assert(self.starts@[g] < self.starts@[g + 1]);
        if g + 1 < last {
            assert(self.starts@[g + 1] < self.starts@[last]);
        }
    }

    proof fn lemma_named_count(self, g: int)
        requires
            self.wf(),
            0 <= g <= self.names@.len(),
        ensures
            self.starts@.len() > 0 ==> named_of(self.groups().take(g)).len() == self.starts@[g],
            self.starts@.len() == 0 ==> named_of(self.groups().take(g)).len() == 0,
        decreases g,
    {
        let some = self.groups().take(g);
        if g > 0 {
            self.lemma_named_count(g - 1);
            self.lemma_starts(g - 1);
            assert(some.drop_last() =~= self.groups().take(g - 1));
            assert(some.last() == self.groups()[g - 1]);
        }
    }
}

proof fn lemma_listed_concat(a: Seq<(Seq<char>, Advisory)>, b: Seq<(Seq<char>, Advisory)>, name: Seq<char>)
    ensures
        listed_under(a + b, name) == listed_under(a, name) + listed_under(b, name),
{
    let pred = |s: (Seq<char>, Advisory)| s.0 == name;
    Seq::filter_distributes_over_add(a, b, pred);
    assert(listed_under(a + b, name) =~= listed_under(a, name) + listed_under(b, name));
}

proof fn lemma_listed_of_group(group: Group, name: Seq<char>)
    ensures
        listed_under(Seq::new(group.advisories.len(), |i: int| (group.name, group.advisories[i])), name) == (
        if group.name == name {
            group.advisories
        } else {
            Seq::empty()
        }),
{
    let list = Seq::new(group.advisories.len(), |i: int| (group.name, group.advisories[i]));
    let places = if group.name == name {
        Seq::new(list.len(), |i: int| i)
    } else {
        Seq::empty()
    };
    assert forall|k: int| 0 <= k < list.len() && (#[trigger] list[k]).0 == name implies places.contains(k) by {
        assert(places[k] == k);
    }
    lemma_listed_by_places(list, name, places);
    assert(Seq::new(places.len(), |i: int| list[places[i]].1) =~= (if group.name == name {
        group.advisories
    } else {
        Seq::empty()
    }));
}

/// The two ways to read a layout agree: what [`Index::lookup`] finds under a
/// name is what [`Index::iter_named`] lists under it, in the same order.
pub proof fn law_lookup_agrees_with_iteration(groups: Seq<Group>, name: Seq<char>)
    requires
        names_rise(groups),
    ensures
        listed_under(named_of(groups), name) == grouped_under(groups, name),
    decreases groups.len(),
{
    if groups.len() == 0 {
        lemma_listed_by_places(named_of(groups), name, Seq::empty());
        assert(listed_under(named_of(groups), name) =~= Seq::empty());
    } else {
        let init = groups.drop_last();
        let last = groups.last();
        assert(names_rise(init)) by {
            assert forall|i: int, j: int| 0 <= i < j < init.len() implies text_before(
                (#[trigger] init[i]).name,
                (#[trigger] init[j]).name,
            ) by {
                assert(text_before(groups[i].name, groups[j].name));
            }
        }
        law_lookup_agrees_with_iteration(init, name);
        lemma_listed_concat(
            named_of(init),
            Seq::new(last.advisories.len(), |i: int| (last.name, last.advisories[i])),
            name,
        );
        lemma_listed_of_group(last, name);
        if last.name == name {
            lemma_grouped_at(groups, groups.len() - 1);
            assert forall|i: int| 0 <= i < init.len() implies (#[trigger] init[i]).name != name by {
                assert(text_before(groups[i].name, groups[groups.len() - 1].name));
                lemma_text_same(name, name);
            }
            assert(grouped_under(init, name) =~= Seq::empty());
            assert(listed_under(named_of(groups), name) =~= last.advisories);
        } else if exists|i: int| 0 <= i < init.len() && (#[trigger] init[i]).name == name {
            let i = choose|i: int| 0 <= i < init.len() && (#[trigger] init[i]).name == name;
            assert(groups[i].name == name);
            lemma_grouped_at(init, i);
            lemma_grouped_at(groups, i);
            assert(listed_under(named_of(groups), name) =~= grouped_under(groups, name));
        } else {
            assert forall|i: int| 0 <= i < groups.len() implies (#[trigger] groups[i]).name != name by {
                if i < init.len() {
                    assert(init[i].name != name);
                }
            }
            assert(listed_under(named_of(groups), name) =~= grouped_under(groups, name));
        }
    }
}

/// What was streamed in is what [`Index::lookup`] finds, and nothing else is: the
/// layout holds an advisory under a name just where it was staged with that name.
pub proof fn law_lookup_finds_what_was_staged(
    staged: Seq<(Seq<char>, Advisory)>,
    groups: Seq<Group>,
    name: Seq<char>,
    a: Advisory,
)
    requires
        forall|n: Seq<char>| #[trigger] grouped_under(groups, n) == listed_under(staged, n),
    ensures
        grouped_under(groups, name).contains(a) <==> staged.contains((name, a)),
{
    lemma_listed_contains(staged, name, a);
}

spec fn group_keys(groups: Seq<Group>) -> Seq<Seq<Seq<char>>> {
    Seq::new(groups.len(), |i: int| seq![groups[i].name])
}

proof fn lemma_group_keys_rise(groups: Seq<Group>)
    requires
        names_rise(groups),
    ensures
        keys_rise(group_keys(groups)),
{
    let keys = group_keys(groups);
    assert forall|i: int, j: int| 0 <= i < j < keys.len() implies key_before(
        #[trigger] keys[i],
        #[trigger] keys[j],
    ) by {
        assert(text_before(groups[i].name, groups[j].name));
        reveal_with_fuel(key_standing, 2);
    }
}

proof fn lemma_group_has_name(groups: Seq<Group>, name: Seq<char>)
    requires
        names_rise(groups),
        forall|i: int| 0 <= i < groups.len() ==> (#[trigger] groups[i]).advisories.len() > 0,
    ensures
        group_keys(groups).contains(seq![name]) <==> grouped_under(groups, name).len() > 0,
{
    let keys = group_keys(groups);
    if keys.contains(seq![name]) {
        let i = choose|i: int| 0 <= i < keys.len() && keys[i] == seq![name];
        assert(keys[i][0] == name);
        assert(groups[i].name == name);
        lemma_grouped_at(groups, i);
    }
    if grouped_under(groups, name).len() > 0 {
        let i = choose|i: int| 0 <= i < groups.len() && (#[trigger] groups[i]).name == name;
        assert(keys[i] == seq![name]);
    }
}

/// The layout is determined by what was streamed in: two layouts that list the
/// same advisories under every name are the same, name by name.
pub proof fn law_layout_is_determined(a: Seq<Group>, b: Seq<Group>)
    requires
        names_rise(a),
        names_rise(b),
        forall|i: int| 0 <= i < a.len() ==> (#[trigger] a[i]).advisories.len() > 0,
        forall|i: int| 0 <= i < b.len() ==> (#[trigger] b[i]).advisories.len() > 0,
        forall|name: Seq<char>| #[trigger] grouped_under(a, name) == grouped_under(b, name),
    ensures
        a == b,
{
    let x = group_keys(a);
    let y = group_keys(b);
    lemma_group_keys_rise(a);
    lemma_group_keys_rise(b);
    assert forall|k: Seq<Seq<char>>| x.contains(k) <==> y.contains(k) by {
        let name = k[0];
        lemma_group_has_name(a, name);
        lemma_group_has_name(b, name);
        assert(grouped_under(a, name) == grouped_under(b, name));
        if x.contains(k) || y.contains(k) {
            assert(k =~= seq![name]);
        }
    }
    lemma_rising_is_determined(x, y);
    assert(x.len() == a.len() && y.len() == b.len());
    assert forall|i: int| 0 <= i < a.len() implies a[i] == b[i] by {
        assert(x[i] == y[i]);
        assert(x[i][0] == a[i].name);
        assert(y[i][0] == b[i].name);
        lemma_grouped_at(a, i);
        lemma_grouped_at(b, i);
        assert(grouped_under(a, a[i].name) == grouped_under(b, a[i].name));
    }
    assert(a =~= b);
}

/// What is listed under a name is listed piece by piece, in the order in which it
/// was staged: an advisory is listed under its own name and under no other.
pub proof fn law_listing_keeps_the_order(
    a: Seq<(Seq<char>, Advisory)>,
    b: Seq<(Seq<char>, Advisory)>,
    one: (Seq<char>, Advisory),
    name: Seq<char>,
)
    ensures
        listed_under(a + b, name) == listed_under(a, name) + listed_under(b, name),
        one.0 == name ==> listed_under(seq![one], name) == seq![one.1],
        one.0 != name ==> listed_under(seq![one], name).len() == 0,
        listed_under(Seq::empty(), name).len() == 0,
    decreases b.len(),
{
    let none = Seq::<(Seq<char>, Advisory)>::empty();
    lemma_listed_by_places(none, name, Seq::empty());
    assert(listed_under(none, name).len() == 0);
    lemma_listed_push(seq![one], name);
    assert(seq![one].drop_last() =~= none);
    if one.0 == name {
        assert(listed_under(seq![one], name) =~= seq![one.1]);
    }
    if b.len() == 0 {
        assert(a + b =~= a);
        assert(b =~= none);
        assert(listed_under(a, name) + listed_under(b, name) =~= listed_under(a, name));
    } else {
        law_listing_keeps_the_order(a, b.drop_last(), one, name);
        assert((a + b).drop_last() =~= a + b.drop_last());
        lemma_listed_push(a + b, name);
        lemma_listed_push(b, name);
        assert(listed_under(a + b, name) =~= listed_under(a, name) + listed_under(b, name));
    }
}

/// A group is found by its name, and nothing is found under a name that no group
/// has.
pub proof fn law_groups_are_found_by_name(groups: Seq<Group>, i: int, name: Seq<char>)
    requires
        names_rise(groups),
        0 <= i < groups.len(),
    ensures
        grouped_under(groups, groups[i].name) == groups[i].advisories,
        (forall|k: int| 0 <= k < groups.len() ==> (#[trigger] groups[k]).name != name) ==> grouped_under(
            groups,
            name,
        ).len() == 0,
{
    let k = choose|k: int| 0 <= k < groups.len() && (#[trigger] groups[k]).name == groups[i].name;
    lemma_text_same(groups[i].name, groups[i].name);
    if k < i {
        assert(text_before(groups[k].name, groups[i].name));
    } else if i < k {
        assert(text_before(groups[i].name, groups[k].name));
    }
}

/// A feed is gone through group by group, and each group's advisories in their
/// order, each with the group's name.
pub proof fn law_iteration_goes_group_by_group(a: Seq<Group>, b: Seq<Group>, group: Group)
    ensures
        named_of(a + b) == named_of(a) + named_of(b),
        named_of(seq![group]).len() == group.advisories.len(),
        forall|i: int|
            0 <= i < group.advisories.len() ==> #[trigger] named_of(seq![group])[i] == (
                group.name,
                group.advisories[i],
            ),
        named_of(Seq::empty()).len() == 0,
    decreases b.len(),
{
    assert(seq![group].drop_last() =~= Seq::empty());
    assert(named_of(seq![group].drop_last()) =~= Seq::empty());
    if b.len() == 0 {
        assert(a + b =~= a);
        assert(named_of(a) + named_of(b) =~= named_of(a));
    } else {
        law_iteration_goes_group_by_group(a, b.drop_last(), group);
        assert((a + b).drop_last() =~= a + b.drop_last());
        assert(named_of(a + b) =~= named_of(a) + named_of(b));
    }
}

} // verus!
