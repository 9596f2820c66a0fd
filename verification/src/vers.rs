//! Version-range matching.
//!
//! All ecosystem version semantics live here, without I/O and without
//! ownership: [`Bound`] borrows, so the caller can keep every version text in
//! one arena.
//!
//! The load-bearing type is [`Match`]: the matcher never guesses. Where it
//! cannot decide it says [`Match::Unknown`], and the caller reports a visible
//! hole instead of a silent "not affected".

use crate::order::{same_text, Standing};
use vstd::prelude::*;

verus! {

/// Ecosystem as named by OSV, mapped to the registry name NORA uses.
#[derive(Debug, Clone, Copy, PartialEq, Eq, Structural)]
pub enum Ecosystem {
    Npm,
    PyPI,
    Other,
}

/// The ecosystem that an OSV ecosystem name stands for.
pub open spec fn ecosystem_of(s: Seq<char>) -> Ecosystem {
    if s == "npm"@ {
        Ecosystem::Npm
    } else if s == "PyPI"@ {
        Ecosystem::PyPI
    } else {
        Ecosystem::Other
    }
}

impl Ecosystem {
    /// The registry identifier of the ecosystem.
    pub open spec fn registry_name(self) -> Seq<char> {
        match self {
            Ecosystem::Npm => "npm"@,
            Ecosystem::PyPI => "pypi"@,
            Ecosystem::Other => "*"@,
        }
    }

    /// Parse an OSV ecosystem string (`"npm"`, `"PyPI"`, `"Go"`, ...).
    pub fn parse(s: &str) -> (r: Self)
        ensures
            r == ecosystem_of(s@),
    {
        if same_text(s, "npm") {
            Ecosystem::Npm
        } else if same_text(s, "PyPI") {
            Ecosystem::PyPI
        } else {
            Ecosystem::Other
        }
    }

    /// The registry identifier NORA's curation layer matches on.
    pub fn registry(&self) -> (r: &'static str)
        ensures
            r@ == self.registry_name(),
    {
        match self {
            Ecosystem::Npm => "npm",
            Ecosystem::PyPI => "pypi",
            Ecosystem::Other => "*",
        }
    }
}

/// One OSV range flattened to the bounds that decide the verdict.
/// Borrowed on purpose, see the module note.
#[derive(Debug, Clone, Copy, Default, PartialEq, Eq)]
pub struct Bound<'a> {
    pub introduced: Option<&'a str>,
    pub fixed: Option<&'a str>,
    pub last_affected: Option<&'a str>,
}

/// What a [`Bound`] says.
#[verifier::ext_equal]
pub struct BoundText {
    pub introduced: Option<Seq<char>>,
    pub fixed: Option<Seq<char>>,
    pub last_affected: Option<Seq<char>>,
}

/// What an optional borrowed text says.
pub open spec fn opt_text(o: Option<&str>) -> Option<Seq<char>> {
    match o {
        Some(s) => Some(s@),
        None => None,
    }
}

impl BoundText {
    /// The range starts at zero and never ends.
    pub open spec fn is_whole(self) -> bool {
        self.introduced == Some("0"@) && self.fixed is None && self.last_affected is None
    }
}

impl<'a> View for Bound<'a> {
    type V = BoundText;

    open spec fn view(&self) -> BoundText {
        BoundText {
            introduced: opt_text(self.introduced),
            fixed: opt_text(self.fixed),
            last_affected: opt_text(self.last_affected),
        }
    }
}

impl Bound<'_> {
    /// A range that starts at zero and never ends: the whole package is affected.
    /// Most of the npm malicious-package feed looks like this, and it is the
    /// difference between one `version: "*"` rule and one rule per version.
    pub fn is_whole_package(&self) -> (r: bool)
        ensures
            r == self@.is_whole(),
    {
        let from_zero: bool = match self.introduced {
            Some(i) => same_text(i, "0"),
            None => false,
        };
        from_zero && self.fixed.is_none() && self.last_affected.is_none()
    }
}

/// Result of a match attempt.
#[derive(Debug, Clone, Copy, PartialEq, Eq, Structural)]
pub enum Match {
    /// The version falls inside the advisory's range.
    Affected,
    /// The version is provably outside the range.
    NotAffected,
    /// The matcher cannot decide (unsupported ecosystem or unparsable version).
    /// Never treat this as "safe": it is a reportable hole.
    Unknown,
}

/// Whether `semver::Version::parse` takes the text for a version.
pub uninterp spec fn semver_valid(text: Seq<char>) -> bool;

/// Where the version written `a` stands with regard to the one written `b`, by
/// `semver::Version`'s order.
pub uninterp spec fn semver_standing(a: Seq<char>, b: Seq<char>) -> Standing;

/// Asks `semver::Version::parse` whether a text is a version. The answer
/// depends on the text alone; which texts are versions is left to the crate.
#[verifier::external_body]
fn is_version(text: &str) -> (r: bool)
    ensures
        r == semver_valid(text@),
{
    semver::Version::parse(text).is_ok()
}

/// A version is not after another one by `semver::Version`'s order.
pub open spec fn no_later(a: Seq<char>, b: Seq<char>) -> bool {
    semver_standing(a, b) != Standing::After
}

/// A version lies between two others, or is one of them.
pub open spec fn is_between(version: Seq<char>, low: Seq<char>, high: Seq<char>) -> bool {
    no_later(low, version) && no_later(version, high)
}

/// Compares two versions with `semver::Version`'s `Ord::cmp`, each read with
/// `semver::Version::parse`. The outcome depends on the two texts alone. The order
/// is total: a version stands where it stands itself, looking from the other side
/// swaps before and after, and it is transitive, so that no version up to `a` is
/// later than what `a` is not later than, and none from `a` on is earlier than
/// what `a` is not earlier than. How two different versions compare is left to
/// the crate.
#[verifier::external_body]
fn compare_versions(a: &str, b: &str) -> (r: Standing)
    requires
        semver_valid(a@),
        semver_valid(b@),
    ensures
        r == semver_standing(a@, b@),
        a@ == b@ ==> r == Standing::Same,
        r == Standing::Before <==> semver_standing(b@, a@) == Standing::After,
        r == Standing::After <==> semver_standing(b@, a@) == Standing::Before,
        r == Standing::Before ==> forall|c: Seq<char>|
            semver_valid(c) && no_later(c, a@) ==> #[trigger] semver_standing(c, b@) == Standing::Before,
        r == Standing::After ==> forall|c: Seq<char>|
            semver_valid(c) && no_later(a@, c) ==> #[trigger] semver_standing(c, b@) == Standing::After,
        r == Standing::Same ==> forall|c: Seq<char>|
            semver_valid(c) && no_later(a@, c) ==> #[trigger] semver_standing(c, b@) != Standing::Before,
{
    match semver::Version::parse(a).unwrap().cmp(&semver::Version::parse(b).unwrap()) {
        std::cmp::Ordering::Less => Standing::Before,
        std::cmp::Ordering::Equal => Standing::Same,
        std::cmp::Ordering::Greater => Standing::After,
    }
}

/// How a version compares with one end of a range.
#[derive(Debug, Clone, Copy, PartialEq, Eq, Structural)]
pub enum Reading {
    /// The range has no such end.
    Absent,
    /// The end cannot be read as a version.
    Unreadable,
    /// The version stands here with regard to the end.
    Stands(Standing),
}

/// The verdict that the three ends of a range give: the start is included, a
/// fixed version is excluded, a last affected version is included, and an end
/// that cannot be read decides nothing.
pub open spec fn range_decides(introduced: Reading, fixed: Reading, last_affected: Reading) -> Match {
    if introduced == Reading::Unreadable {
        Match::Unknown
    } else if introduced == Reading::Stands(Standing::Before) {
        Match::NotAffected
    } else if fixed != Reading::Absent {
        match fixed {
            Reading::Stands(Standing::Before) => Match::Affected,
            Reading::Stands(_) => Match::NotAffected,
            _ => Match::Unknown,
        }
    } else {
        match last_affected {
            Reading::Absent => Match::Affected,
            Reading::Unreadable => Match::Unknown,
            Reading::Stands(Standing::After) => Match::NotAffected,
            Reading::Stands(_) => Match::Affected,
        }
    }
}

/// How `version` compares with an end of a range.
pub open spec fn reading_of(version: Seq<char>, end: Option<Seq<char>>) -> Reading {
    match end {
        None => Reading::Absent,
        Some(text) => if semver_valid(text) {
            Reading::Stands(semver_standing(version, text))
        } else {
            Reading::Unreadable
        },
    }
}

/// The start of a range; OSV writes "from the beginning of time" as `0`.
pub open spec fn start_of(b: BoundText) -> Option<Seq<char>> {
    if b.introduced == Some("0"@) {
        None
    } else {
        b.introduced
    }
}

/// Whether `version` is covered by `b` under `eco` semantics.
pub open spec fn match_of(eco: Ecosystem, version: Seq<char>, b: BoundText) -> Match {
    if eco != Ecosystem::Npm || !semver_valid(version) {
        Match::Unknown
    } else {
        range_decides(
            reading_of(version, start_of(b)),
            reading_of(version, b.fixed),
            reading_of(version, b.last_affected),
        )
    }
}

/// The verdict that the three ends of a range give.
pub fn range_verdict(introduced: Reading, fixed: Reading, last_affected: Reading) -> (r: Match)
    ensures
        r == range_decides(introduced, fixed, last_affected),
{
    match introduced {
        Reading::Unreadable => {
            return Match::Unknown;
        },
        Reading::Stands(Standing::Before) => {
            return Match::NotAffected;
        },
        _ => {},
    }
    match fixed {
        Reading::Stands(Standing::Before) => {
            return Match::Affected;
        },
        Reading::Stands(_) => {
            return Match::NotAffected;
        },
        Reading::Unreadable => {
            return Match::Unknown;
        },
        Reading::Absent => {},
    }
    match last_affected {
        // Introduced, never fixed.
        Reading::Absent => Match::Affected,
        Reading::Unreadable => Match::Unknown,
        Reading::Stands(Standing::After) => Match::NotAffected,
        Reading::Stands(_) => Match::Affected,
    }
}

fn read_end(version: &str, end: Option<&str>) -> (r: Reading)
    requires
        semver_valid(version@),
    ensures
        r == reading_of(version@, opt_text(end)),
        opt_text(end) == Some(version@) ==> r == Reading::Stands(Standing::Same),
        // No version up to this one is later than an end that this one is before,
        // and none from this one on is earlier than one that it has reached.
        r == Reading::Stands(Standing::Before) ==> forall|v: Seq<char>|
            semver_valid(v) && no_later(v, version@) ==> #[trigger] reading_of(v, opt_text(end)) == r,
        r == Reading::Stands(Standing::After) ==> forall|v: Seq<char>|
            semver_valid(v) && no_later(version@, v) ==> #[trigger] reading_of(v, opt_text(end)) == r,
        r == Reading::Stands(Standing::Same) ==> forall|v: Seq<char>|
            semver_valid(v) && no_later(version@, v) ==> #[trigger] reading_of(v, opt_text(end)) != Reading::Stands(
                Standing::Before,
            ),
{
    match end {
        None => Reading::Absent,
        Some(text) => if is_version(text) {
            Reading::Stands(compare_versions(version, text))
        } else {
            Reading::Unreadable
        },
    }
}

/// Decide whether `version` is covered by `bound` under `eco` semantics.
pub fn matches(eco: Ecosystem, version: &str, bound: &Bound<'_>) -> (r: Match)
    ensures
        r == match_of(eco, version@, bound@),
        // The fixed version itself is not affected, the last affected one is.
        eco == Ecosystem::Npm && semver_valid(version@) && start_of(bound@) is None && bound@.fixed
            == Some(version@) ==> r == Match::NotAffected,
        eco == Ecosystem::Npm && semver_valid(version@) && start_of(bound@) is None && bound@.fixed is None
            && bound@.last_affected == Some(version@) ==> r == Match::Affected,
        // The version that introduced the flaw is affected, where nothing ends the range.
        eco == Ecosystem::Npm && semver_valid(version@) && bound@.introduced == Some(version@)
            && bound@.fixed is None && bound@.last_affected is None ==> r == Match::Affected,
        // The affected versions of one range form an interval: what lies between two
        // of them is one of them.
        semver_valid(version@) ==> forall|low: Seq<char>, high: Seq<char>|
            is_between(version@, low, high) && #[trigger] match_of(eco, low, bound@) == Match::Affected
                && #[trigger] match_of(eco, high, bound@) == Match::Affected ==> r == Match::Affected,
{
    match eco {
        Ecosystem::Npm => npm_match(version, bound),
        // Other ecosystems order their versions otherwise: an honest Unknown.
        Ecosystem::PyPI => Match::Unknown,
        Ecosystem::Other => Match::Unknown,
    }
}

fn npm_match(version: &str, b: &Bound<'_>) -> (r: Match)
    ensures
        r == match_of(Ecosystem::Npm, version@, b@),
        semver_valid(version@) && start_of(b@) is None && b@.fixed == Some(version@) ==> r
            == Match::NotAffected,
        semver_valid(version@) && start_of(b@) is None && b@.fixed is None && b@.last_affected == Some(
            version@,
        ) ==> r == Match::Affected,
        semver_valid(version@) && b@.introduced == Some(version@) && b@.fixed is None && b@.last_affected is None
            ==> r == Match::Affected,
        semver_valid(version@) ==> forall|low: Seq<char>, high: Seq<char>|
            is_between(version@, low, high) && #[trigger] match_of(Ecosystem::Npm, low, b@) == Match::Affected
                && #[trigger] match_of(Ecosystem::Npm, high, b@) == Match::Affected ==> r == Match::Affected,
{
    if !is_version(version) {
        return Match::Unknown;
    }
    // OSV uses the literal "0" to mean "from the beginning of time".
    let start: Option<&str> = match b.introduced {
        Some(i) => if same_text(i, "0") {
            None
        } else {
            Some(i)
        },
        None => None,
    };
    range_verdict(
        read_end(version, start),
        read_end(version, b.fixed),
        read_end(version, b.last_affected),
    )
}

/// Only an npm version that can be read is ever declared safe, and only against
/// a range whose start can be read: whatever the matcher cannot decide is
/// `Unknown`.
pub proof fn law_unreadable_is_never_safe(eco: Ecosystem, version: Seq<char>, b: BoundText)
    ensures
        eco != Ecosystem::Npm ==> match_of(eco, version, b) == Match::Unknown,
        !semver_valid(version) ==> match_of(eco, version, b) == Match::Unknown,
        start_of(b) matches Some(i) && !semver_valid(i) ==> match_of(eco, version, b) == Match::Unknown,
{
}

/// A range that covers the whole package covers every version that can be read.
pub proof fn law_whole_package_covers_every_version(version: Seq<char>, b: BoundText)
    requires
        b.is_whole(),
        semver_valid(version),
    ensures
        match_of(Ecosystem::Npm, version, b) == Match::Affected,
{
}

/// The order of versions decides, against all three ends of a range. A version
/// that can be read is affected just where it is not before the start (or there
/// is none, or it is `0`), is before the version with the fix, and, where no fix
/// is known, is not after the last affected one. It is declared safe just where
/// it is provably on the other side of one of these ends.
pub proof fn law_order_decides_what_a_range_covers(version: Seq<char>, b: BoundText)
    requires
        semver_valid(version),
    ensures
        match_of(Ecosystem::Npm, version, b) == Match::Affected <==> {
            &&& b.introduced matches Some(i) ==> i == "0"@ || (semver_valid(i) && semver_standing(version, i)
                != Standing::Before)
            &&& b.fixed matches Some(f) ==> semver_valid(f) && semver_standing(version, f) == Standing::Before
            &&& b.fixed is None ==> (b.last_affected matches Some(l) ==> semver_valid(l) && semver_standing(version, l)
                != Standing::After)
        },
        match_of(Ecosystem::Npm, version, b) == Match::NotAffected <==> {
            ||| b.introduced matches Some(i) && i != "0"@ && semver_valid(i) && semver_standing(version, i)
                == Standing::Before
            ||| {
                &&& b.introduced matches Some(i) ==> i == "0"@ || semver_valid(i)
                &&& b.fixed matches Some(f) && semver_valid(f) && semver_standing(version, f) != Standing::Before
            }
            ||| {
                &&& b.introduced matches Some(i) ==> i == "0"@ || semver_valid(i)
                &&& b.fixed is None
                &&& b.last_affected matches Some(l) && semver_valid(l) && semver_standing(version, l)
                    == Standing::After
            }
        },
{
}

/// A range is for the whole package just where it starts at `0` and has no end.
pub proof fn law_whole_range_has_no_end(b: BoundText)
    ensures
        b.is_whole() <==> b == (BoundText { introduced: Some("0"@), fixed: None, last_affected: None }),
{
}

/// Ecosystems are told by their exact names, and each has a registry of its own.
pub proof fn law_ecosystems_are_told_apart(s: Seq<char>, a: Ecosystem, b: Ecosystem)
    ensures
        ecosystem_of(s) == Ecosystem::Npm <==> s == "npm"@,
        ecosystem_of(s) == Ecosystem::PyPI <==> s == "PyPI"@,
        a.registry_name() == b.registry_name() <==> a == b,
        ecosystem_of(s) == Ecosystem::Npm ==> ecosystem_of(s).registry_name() == s,
{
    reveal_strlit("npm");
    reveal_strlit("PyPI");
    reveal_strlit("pypi");
    reveal_strlit("*");
    assert("npm"@.len() == 3 && "PyPI"@.len() == 4 && "pypi"@.len() == 4 && "*"@.len() == 1);
}

} // verus!
