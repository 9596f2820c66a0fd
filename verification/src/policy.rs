//! Policy: the only human-authored input. Lives in git, reviewed in a PR.
//!
//! Every exception carries `reason` and `expires`. An expired exception fails
//! the build: silent renewal is how security policy dies.

use crate::advisory::Severity;
use crate::order::{compare_text, same_text, text_before, Standing};
use crate::text::{
    decimal, decimal_text, join_texts, joined, law_ends_come_off, lower_case, past_prefix, to_lower, views,
};
use vstd::prelude::*;

verus! {

#[derive(Debug)]
pub struct Policy {
    pub version: u32,
    pub defaults: Defaults,
    pub exceptions: Vec<Exception>,
}

#[derive(Debug)]
pub struct Defaults {
    /// `critical` | `high` | `moderate` | `low` | `off`
    pub severity_threshold: String,
    /// `block` | `audit`: applies to MAL-* reports, which carry no severity.
    pub malicious: String,
}

impl Default for Defaults {
    fn default() -> (r: Self)
        ensures
            r.severity_threshold@ == "high"@,
            r.malicious@ == "block"@,
    {
        Defaults { severity_threshold: default_threshold(), malicious: default_malicious() }
    }
}

/// The threshold of a policy that names none.
pub fn default_threshold() -> (r: String)
    ensures
        r@ == "high"@,
{
    "high".to_string()
}

/// The malicious switch of a policy that names none.
pub fn default_malicious() -> (r: String)
    ensures
        r@ == "block"@,
{
    "block".to_string()
}

#[derive(Debug)]
pub struct Exception {
    pub registry: String,
    pub name: String,
    /// Exact version or `*`.
    pub version: String,
    pub reason: String,
    /// ISO date `YYYY-MM-DD`. Required: there are no permanent exceptions.
    pub expires: String,
}

impl Clone for Exception {
    fn clone(&self) -> (r: Self)
        ensures
            r.registry@ == self.registry@,
            r.name@ == self.name@,
            r.version@ == self.version@,
            r.reason@ == self.reason@,
            r.expires@ == self.expires@,
    {
        Exception {
            registry: self.registry.clone(),
            name: self.name.clone(),
            version: self.version.clone(),
            reason: self.reason.clone(),
            expires: self.expires.clone(),
        }
    }
}

#[derive(Debug)]
pub enum PolicyError {
    Parse(String),
    UnsupportedVersion(u32),
    Expired(Vec<String>),
    BadThreshold(String),
}

/// A severity threshold, as a policy writes it. `Some(None)` means that severity
/// gating is off; `None` that the word is not known.
pub open spec fn threshold_of(word: Seq<char>) -> Option<Option<Severity>> {
    let w = lower_case(word);
    if w == "off"@ {
        Some(None)
    } else if w == "low"@ {
        Some(Some(Severity::Low))
    } else if w == "moderate"@ || w == "medium"@ {
        Some(Some(Severity::Moderate))
    } else if w == "high"@ {
        Some(Some(Severity::High))
    } else if w == "critical"@ {
        Some(Some(Severity::Critical))
    } else {
        None
    }
}

impl Exception {
    /// The exception lets a version pass.
    pub open spec fn covers(self, registry: Seq<char>, name: Seq<char>, version: Seq<char>) -> bool {
        &&& self.registry@ == registry
        &&& self.name@ == name
        &&& self.version@ == "*"@ || self.version@ == version
    }

    /// The exception is past its date.
    pub open spec fn is_expired(self, today: Seq<char>) -> bool {
        text_before(self.expires@, today)
    }

    /// How an expired exception is reported.
    pub open spec fn notice(self) -> Seq<char> {
        self.registry@ + "/"@ + self.name@ + "@"@ + self.version@ + " (expired "@ + self.expires@ + ")"@
    }

    fn expiry_notice(&self) -> (out: String)
        ensures
            out@ == self.notice(),
    {
        let mut out = self.registry.clone();
        out.append("/");
        out.append(self.name.as_str());
        out.append("@");
        out.append(self.version.as_str());
        out.append(" (expired ");
        out.append(self.expires.as_str());
        out.append(")");
        out
    }

    fn lets_pass(&self, registry: &str, name: &str, version: &str) -> (r: bool)
        ensures
            r == self.covers(registry@, name@, version@),
    {
        same_text(self.registry.as_str(), registry) && same_text(self.name.as_str(), name) && (same_text(
            self.version.as_str(),
            "*",
        ) || same_text(self.version.as_str(), version))
    }
}

/// The notices of the exceptions that are past their date, in the order of the
/// policy.
pub open spec fn expired_notices(exceptions: Seq<Exception>, today: Seq<char>) -> Seq<Seq<char>>
    decreases exceptions.len(),
{
    if exceptions.len() == 0 {
        Seq::empty()
    } else {
        let before = expired_notices(exceptions.drop_last(), today);
        if exceptions.last().is_expired(today) {
            before.push(exceptions.last().notice())
        } else {
            before
        }
    }
}

impl PolicyError {
    /// What is shown for the error.
    pub open spec fn says(self) -> Seq<char> {
        match self {
            PolicyError::Parse(e) => "policy parse error: "@ + e@,
            PolicyError::UnsupportedVersion(v) => "unsupported policy version "@ + decimal(v as nat)
                + " (expected 1)"@,
            PolicyError::Expired(list) => "expired exceptions (renew or drop them): "@ + joined(
                views(list@),
                ", "@,
            ),
            PolicyError::BadThreshold(s) => "unknown severity_threshold '"@ + s@ + "'"@,
        }
    }

    /// What is shown for the error.
    pub fn message(&self) -> (out: String)
        ensures
            out@ == self.says(),
    {
        match self {
            PolicyError::Parse(e) => {
                let mut out = "policy parse error: ".to_string();
                out.append(e.as_str());
                out
            },
            PolicyError::UnsupportedVersion(v) => {
                let mut out = "unsupported policy version ".to_string();
                out.append(decimal_text(*v as u64).as_str());
                out.append(" (expected 1)");
                out
            },
            PolicyError::Expired(list) => {
                let mut out = "expired exceptions (renew or drop them): ".to_string();
                out.append(join_texts(list.as_slice(), ", ").as_str());
                out
            },
            PolicyError::BadThreshold(s) => {
                let mut out = "unknown severity_threshold '".to_string();
                out.append(s.as_str());
                out.append("'");
                out
            },
        }
    }
}

impl Policy {
    /// The threshold that the policy sets, where its word is known.
    pub open spec fn set_threshold(self) -> Option<Option<Severity>> {
        threshold_of(self.defaults.severity_threshold@)
    }

    /// MAL-* reports are blocked.
    pub open spec fn stops_malicious(self) -> bool {
        lower_case(self.defaults.malicious@) == "block"@
    }

    /// Some exception lets a version pass.
    pub open spec fn lets_pass(self, registry: Seq<char>, name: Seq<char>, version: Seq<char>) -> bool {
        exists|i: int|
            0 <= i < self.exceptions@.len() && (#[trigger] self.exceptions@[i]).covers(registry, name, version)
    }

    /// Accepts what was read from a policy file, or says why it cannot be used.
    /// `read` holds the policy, or the reason why the text is none.
    pub fn load(read: Result<Policy, String>) -> (r: Result<Self, PolicyError>)
        ensures
            match read {
                Err(reason) => r == Err::<Policy, PolicyError>(PolicyError::Parse(reason)),
                Ok(p) => if p.version != 1 {
                    r == Err::<Policy, PolicyError>(PolicyError::UnsupportedVersion(p.version))
                } else if p.set_threshold() is Some {
                    r == Ok::<Policy, PolicyError>(p)
                } else {
                    r matches Err(PolicyError::BadThreshold(w)) && w@ == lower_case(
                        p.defaults.severity_threshold@,
                    )
                },
            },
    {
        let p = match read {
            Ok(p) => p,
            Err(reason) => {
                return Err(PolicyError::Parse(reason));
            },
        };
        if p.version != 1 {
            return Err(PolicyError::UnsupportedVersion(p.version));
        }
        match p.threshold() {
            Ok(_) => Ok(p),
            Err(e) => Err(e),
        }
    }

    /// `None` means "severity gating is off"; malicious reports still apply.
    pub fn threshold(&self) -> (r: Result<Option<Severity>, PolicyError>)
        ensures
            match self.set_threshold() {
                Some(t) => r == Ok::<Option<Severity>, PolicyError>(t),
                None => r matches Err(PolicyError::BadThreshold(w)) && w@ == lower_case(
                    self.defaults.severity_threshold@,
                ),
            },
    {
        let word = to_lower(self.defaults.severity_threshold.as_str());
        let w = word.as_str();
        if same_text(w, "off") {
            Ok(None)
        } else if same_text(w, "low") {
            Ok(Some(Severity::Low))
        } else if same_text(w, "moderate") || same_text(w, "medium") {
            Ok(Some(Severity::Moderate))
        } else if same_text(w, "high") {
            Ok(Some(Severity::High))
        } else if same_text(w, "critical") {
            Ok(Some(Severity::Critical))
        } else {
            Err(PolicyError::BadThreshold(word))
        }
    }

    /// Whether MAL-* reports are blocked.
    pub fn blocks_malicious(&self) -> (r: bool)
        ensures
            r == self.stops_malicious(),
    {
        same_text(to_lower(self.defaults.malicious.as_str()).as_str(), "block")
    }

    /// Fails if any exception is past its date on `today` (ISO `YYYY-MM-DD`).
    pub fn check_expiry(&self, today: &str) -> (r: Result<(), PolicyError>)
        ensures
            r is Ok <==> forall|i: int|
                0 <= i < self.exceptions@.len() ==> !(#[trigger] self.exceptions@[i]).is_expired(today@),
            r matches Err(e) ==> e matches PolicyError::Expired(list) && views(list@) == expired_notices(
                self.exceptions@,
                today@,
            ),
    {
        let mut expired: Vec<String> = Vec::new();
        proof {
            assert(self.exceptions@.take(0) =~= Seq::empty());
            assert(views(expired@) =~= expired_notices(self.exceptions@.take(0), today@));
        }
        for i in 0..self.exceptions.len()
            invariant
                views(expired@) == expired_notices(self.exceptions@.take(i as int), today@),
                expired@.len() == 0 <==> forall|j: int|
                    0 <= j < i ==> !(#[trigger] self.exceptions@[j]).is_expired(today@),
        {
            let e = &self.exceptions[i];
            let ghost before = expired@;
            proof {
                assert(self.exceptions@.take(i + 1).drop_last() =~= self.exceptions@.take(i as int));
            }
            match compare_text(e.expires.as_str(), today) {
                Standing::Before => {
                    let notice = e.expiry_notice();
                    expired.push(notice);
                    proof {
                        assert(views(expired@) =~= views(before).push(notice@));
                        assert(self.exceptions@[i as int].is_expired(today@));
                    }
                },
                _ => {},
            }
        }
        proof {
            assert(self.exceptions@.take(self.exceptions@.len() as int) =~= self.exceptions@);
        }
        if expired.len() == 0 {
            Ok(())
        } else {
            Err(PolicyError::Expired(expired))
        }
    }

    /// Whether some exception lets a version pass.
    pub fn excepted(&self, registry: &str, name: &str, version: &str) -> (r: bool)
        ensures
            r == self.lets_pass(registry@, name@, version@),
    {
        for i in 0..self.exceptions.len()
            invariant
                forall|j: int|
                    0 <= j < i ==> !(#[trigger] self.exceptions@[j]).covers(registry@, name@, version@),
        {
            if self.exceptions[i].lets_pass(registry, name, version) {
                return true;
            }
        }
        false
    }
}

/// An exception for the whole package lets every version of it pass.
pub proof fn law_whole_exception_covers_every_version(
    policy: Policy,
    registry: Seq<char>,
    name: Seq<char>,
    version: Seq<char>,
)
    requires
        policy.lets_pass(registry, name, "*"@),
    ensures
        policy.lets_pass(registry, name, version),
{
    let i = choose|i: int|
        0 <= i < policy.exceptions@.len() && (#[trigger] policy.exceptions@[i]).covers(registry, name, "*"@);
    assert(policy.exceptions@[i].covers(registry, name, version));
}

/// Once an exception has expired it stays expired: on a later day it is still
/// past its date.
pub proof fn law_expiry_is_final(exception: Exception, today: Seq<char>, later: Seq<char>)
    requires
        exception.is_expired(today),
        text_before(today, later),
    ensures
        exception.is_expired(later),
{
    crate::order::lemma_text_transitive(exception.expires@, today, later);
}

/// An exception that names a day lets versions pass through that day and no
/// longer.
pub proof fn law_exception_holds_through_its_day(
    exception: Exception,
    y1: int,
    m1: int,
    d1: int,
    y2: int,
    m2: int,
    d2: int,
)
    requires
        crate::date::is_date(y1, m1, d1),
        crate::date::is_date(y2, m2, d2),
        0 <= y1 <= 9999,
        0 <= y2 <= 9999,
        exception.expires@ == crate::date::date_text(y1, m1, d1),
    ensures
        exception.is_expired(crate::date::date_text(y2, m2, d2)) <==> crate::date::day_number(y1, m1, d1)
            < crate::date::day_number(y2, m2, d2),
{
    crate::date::law_dates_order_as_texts(y1, m1, d1, y2, m2, d2);
}

/// A threshold is one of six words, in whatever case; no other word is taken for
/// one.
pub proof fn law_thresholds_are_known_words(word: Seq<char>, other: Seq<char>)
    ensures
        threshold_of(word) is Some <==> {
            let w = lower_case(word);
            w == "off"@ || w == "low"@ || w == "moderate"@ || w == "medium"@ || w == "high"@ || w == "critical"@
        },
        threshold_of(word) == Some(None::<Severity>) <==> lower_case(word) == "off"@,
        lower_case(word) == lower_case(other) ==> threshold_of(word) == threshold_of(other),
        forall|policy: Policy|
            policy.defaults.severity_threshold@ == word ==> #[trigger] policy.set_threshold() == threshold_of(word),
{
    reveal_strlit("off");
    reveal_strlit("low");
    assert("off"@[0] != "low"@[0]);
}

/// The word of a severity, written in the feed, is the word of the threshold that
/// it just meets.
pub proof fn law_threshold_words_are_severity_words(s: Severity)
    ensures
        s != Severity::Unknown ==> threshold_of(s.word()) == Some(Some(s)),
        threshold_of(Severity::Unknown.word()) is None,
{
    reveal_strlit("UNKNOWN");
    reveal_strlit("LOW");
    reveal_strlit("MODERATE");
    reveal_strlit("HIGH");
    reveal_strlit("CRITICAL");
    reveal_strlit("off");
    reveal_strlit("low");
    reveal_strlit("moderate");
    reveal_strlit("medium");
    reveal_strlit("high");
    reveal_strlit("critical");
    assert(lower_case("LOW"@) =~= "low"@);
    assert(lower_case("MODERATE"@) =~= "moderate"@);
    assert(lower_case("HIGH"@) =~= "high"@);
    assert(lower_case("CRITICAL"@) =~= "critical"@);
    assert("off"@[0] == 'o' && "low"@[0] == 'l' && "moderate"@[0] == 'm' && "critical"@[0] == 'c');
    assert("off"@.len() == 3 && "low"@.len() == 3 && "moderate"@.len() == 8 && "medium"@.len() == 6);
    assert("high"@.len() == 4 && "critical"@.len() == 8 && lower_case("UNKNOWN"@).len() == 7);
}

/// A policy lets a version pass just where one of its exceptions is for that
/// registry and that package, and for that version or for all of them.
pub proof fn law_exceptions_let_pass_what_they_name(
    policy: Policy,
    registry: Seq<char>,
    name: Seq<char>,
    version: Seq<char>,
)
    ensures
        forall|i: int|
            0 <= i < policy.exceptions@.len() && (#[trigger] policy.exceptions@[i]).registry@ == registry
                && policy.exceptions@[i].name@ == name && (policy.exceptions@[i].version@ == version
                || policy.exceptions@[i].version@ == "*"@) ==> policy.lets_pass(registry, name, version),
        policy.lets_pass(registry, name, version) ==> exists|i: int|
            0 <= i < policy.exceptions@.len() && (#[trigger] policy.exceptions@[i]).registry@ == registry
                && policy.exceptions@[i].name@ == name && (policy.exceptions@[i].version@ == version
                || policy.exceptions@[i].version@ == "*"@),
{
    assert forall|i: int|
        0 <= i < policy.exceptions@.len() && (#[trigger] policy.exceptions@[i]).registry@ == registry
            && policy.exceptions@[i].name@ == name && (policy.exceptions@[i].version@ == version
            || policy.exceptions@[i].version@ == "*"@) implies policy.lets_pass(registry, name, version) by {
        assert(policy.exceptions@[i].covers(registry, name, version));
    }
    if policy.lets_pass(registry, name, version) {
        let i = choose|i: int|
            0 <= i < policy.exceptions@.len() && (#[trigger] policy.exceptions@[i]).covers(registry, name, version);
        assert(policy.exceptions@[i].registry@ == registry);
    }
}

/// An exception is past its date just where its date comes before today's, as
/// texts.
pub proof fn law_expiry_goes_by_the_date(exception: Exception, today: Seq<char>)
    ensures
        exception.is_expired(today) <==> text_before(exception.expires@, today),
        !exception.is_expired(exception.expires@),
{
    crate::order::lemma_text_same(exception.expires@, exception.expires@);
}

/// Every expired exception is reported, in the order of the policy, and no other
/// one is.
pub proof fn law_expired_exceptions_are_reported(a: Seq<Exception>, b: Seq<Exception>, e: Exception, today: Seq<char>)
    ensures
        expired_notices(a + b, today) == expired_notices(a, today) + expired_notices(b, today),
        text_before(e.expires@, today) ==> expired_notices(seq![e], today) == seq![e.notice()],
        !text_before(e.expires@, today) ==> expired_notices(seq![e], today).len() == 0,
        expired_notices(Seq::empty(), today).len() == 0,
    decreases b.len(),
{
    assert(seq![e].drop_last() =~= Seq::empty());
    assert(expired_notices(seq![e].drop_last(), today) =~= Seq::empty());
    if text_before(e.expires@, today) {
        assert(expired_notices(seq![e], today) =~= seq![e.notice()]);
    }
    if b.len() == 0 {
        assert(a + b =~= a);
        assert(expired_notices(a, today) + expired_notices(b, today) =~= expired_notices(a, today));
    } else {
        law_expired_exceptions_are_reported(a, b.drop_last(), e, today);
        assert((a + b).drop_last() =~= a + b.drop_last());
        assert(expired_notices(a + b, today) =~= expired_notices(a, today) + expired_notices(b, today));
    }
}

/// What is shown of an error names what is wrong: the reason, the version, each
/// expired exception with its date, or the word.
pub proof fn law_messages_name_what_is_wrong(error: PolicyError, exception: Exception)
    ensures
        error matches PolicyError::Parse(e) ==> e@.is_suffix_of(error.says()),
        error matches PolicyError::UnsupportedVersion(v) ==> past_prefix(
            error.says(),
            "unsupported policy version "@ + decimal(v as nat) + " "@,
        ) is Some,
        error matches PolicyError::Expired(list) ==> joined(views(list@), ", "@).is_suffix_of(error.says()),
        error matches PolicyError::BadThreshold(w) ==> (w@ + "'"@).is_suffix_of(error.says()),
        past_prefix(exception.notice(), exception.registry@ + "/"@ + exception.name@ + "@"@ + exception.version@)
            is Some,
        (exception.expires@ + ")"@).is_suffix_of(exception.notice()),
{
    let says = error.says();
    match error {
        PolicyError::Parse(e) => {
            lemma_ends_with("policy parse error: "@, e@);
        },
        PolicyError::UnsupportedVersion(v) => {
            reveal_strlit(" ");
            reveal_strlit(" (expected 1)");
            let tail = " (expected 1)"@;
            assert(tail =~= " "@ + tail.skip(1));
            let head = "unsupported policy version "@ + decimal(v as nat) + " "@;
            assert(says =~= head + tail.skip(1));
            law_ends_come_off(tail.skip(1), head, says);
        },
        PolicyError::Expired(list) => {
            lemma_ends_with("expired exceptions (renew or drop them): "@, joined(views(list@), ", "@));
        },
        PolicyError::BadThreshold(w) => {
            assert(says =~= "unknown severity_threshold '"@ + (w@ + "'"@));
            lemma_ends_with("unknown severity_threshold '"@, w@ + "'"@);
        },
    }
    let who = exception.registry@ + "/"@ + exception.name@ + "@"@ + exception.version@;
    let when = exception.expires@ + ")"@;
    assert(exception.notice() =~= who + (" (expired "@ + when));
    law_ends_come_off(" (expired "@ + when, who, exception.notice());
    assert(exception.notice() =~= (who + " (expired "@) + when);
    lemma_ends_with(who + " (expired "@, when);
}

proof fn lemma_ends_with(head: Seq<char>, tail: Seq<char>)
    ensures
        tail.is_suffix_of(head + tail),
{
    assert((head + tail).subrange(head.len() as int, (head + tail).len() as int) =~= tail);
}

} // verus!
