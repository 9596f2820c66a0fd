//! The blocklist: a plain NORA blocklist, a superset that NORA reads as it is.
//!
//! Identical inputs produce byte-identical output. No timestamps live in the
//! body, and its canonical form is key-sorted JSON.

use crate::advisory::Severity;
use crate::digest::{digest_text, text_digest};
use crate::hits::HitText;
use crate::json::{
    copy_value, field_map, field_of, json_parse, json_render, list_value, number_value, read_json, record_value,
    render_value, text_in, text_value, value_tree, value_trees, JsonError, JsonTree, MAX_NESTING,
};
use crate::order::{in_order, same_text};
use crate::text::{
    decimal, join_texts, joined, law_ends_come_off, law_split_at_a_character, past_prefix, said, split_at_last, views,
};
use crate::vers::opt_text;
use vstd::prelude::*;
use vstd::utf8::encode_utf8;

verus! {

/// A NORA blocklist rule. The first four fields are NORA's schema; `x-dozor` is
/// ours and NORA ignores it.
#[derive(Debug)]
pub struct Rule {
    pub registry: String,
    pub name: String,
    pub version: String,
    pub reason: String,
    /// Written as `x-dozor`.
    pub meta: RuleMeta,
}

#[derive(Debug)]
pub struct RuleMeta {
    pub osv: Vec<String>,
    pub severity: String,
    pub kind: String,
    pub purl: String,
    /// Left out of the file where there is none.
    pub fixed_in: Option<String>,
}

/// Digests of all that went into a blocklist, and of the blocklist itself.
#[derive(Debug)]
pub struct Derivation {
    pub dozor: String,
    pub matcher: String,
    pub policy: String,
    pub inventory: String,
    pub mode: String,
    /// The feed snapshots by ecosystem, sorted.
    pub snapshots: Vec<(String, String)>,
    pub output: String,
}

/// The versions that could not be decided.
#[derive(Debug)]
pub struct Unmatched {
    pub count: usize,
    pub sample: Vec<String>,
}

impl Default for Unmatched {
    fn default() -> (r: Self)
        ensures
            r.count == 0,
            r.sample@.len() == 0,
    {
        Unmatched { count: 0, sample: Vec::new() }
    }
}

/// The blocklist file.
#[derive(Debug)]
pub struct Output {
    pub version: u32,
    pub rules: Vec<Rule>,
    /// Written as `x-dozor-derivation`.
    pub derivation: Derivation,
    /// Written as `x-dozor-unmatched`.
    pub unmatched: Unmatched,
}

/// What a rule says.
#[verifier::ext_equal]
pub struct RuleText {
    pub registry: Seq<char>,
    pub name: Seq<char>,
    pub version: Seq<char>,
    pub reason: Seq<char>,
    pub meta: MetaText,
}

/// What the `x-dozor` part of a rule says.
#[verifier::ext_equal]
pub struct MetaText {
    pub osv: Seq<Seq<char>>,
    pub severity: Seq<char>,
    pub kind: Seq<char>,
    pub purl: Seq<char>,
    pub fixed_in: Option<Seq<char>>,
}

impl View for RuleMeta {
    type V = MetaText;

    open spec fn view(&self) -> MetaText {
        MetaText {
            osv: views(self.osv@),
            severity: self.severity@,
            kind: self.kind@,
            purl: self.purl@,
            fixed_in: said(self.fixed_in),
        }
    }
}

impl View for Rule {
    type V = RuleText;

    open spec fn view(&self) -> RuleText {
        RuleText {
            registry: self.registry@,
            name: self.name@,
            version: self.version@,
            reason: self.reason@,
            meta: self.meta@,
        }
    }
}

/// What a list of rules says.
pub open spec fn rule_texts(rules: Seq<Rule>) -> Seq<RuleText> {
    Seq::new(rules.len(), |i: int| rules[i]@)
}

/// The package URL of a rule.
pub open spec fn purl_text(registry: Seq<char>, name: Seq<char>, version: Seq<char>) -> Seq<char> {
    "pkg:"@ + registry + "/"@ + name + "@"@ + version
}

/// The first of a list of texts, or an empty one.
pub open spec fn first_text(list: Seq<Seq<char>>) -> Seq<char> {
    if list.len() > 0 {
        list[0]
    } else {
        Seq::empty()
    }
}

/// What a fix is announced with.
pub open spec fn fix_text(fixed_in: Option<Seq<char>>) -> Seq<char> {
    match fixed_in {
        Some(f) => " · fix: "@ + f,
        None => " · no fixed version published"@,
    }
}

/// The text a developer sees in NORA's 403 body: what, how bad, where to read
/// more, and what to upgrade to.
pub open spec fn reason_text(
    ids: Seq<Seq<char>>,
    severity: Severity,
    malicious: bool,
    fixed_in: Option<Seq<char>>,
) -> Seq<char> {
    if malicious {
        "MALICIOUS package ("@ + joined(ids, ", "@) + ") — blocked by dozor · https://osv.dev/vulnerability/"@
            + first_text(ids)
    } else {
        severity.word() + " severity vulnerability ("@ + joined(ids, ", "@) + ")"@ + fix_text(fixed_in)
            + " · https://osv.dev/vulnerability/"@ + first_text(ids)
    }
}

/// The rule that a hit makes.
pub open spec fn rule_text(key: Seq<Seq<char>>, hit: HitText) -> RuleText {
    RuleText {
        registry: key[0],
        name: key[1],
        version: key[2],
        reason: reason_text(in_order(hit.ids), hit.severity, hit.malicious, hit.fixed_in),
        meta: MetaText {
            osv: in_order(hit.ids),
            severity: hit.severity.word(),
            kind: if hit.malicious {
                "malicious"@
            } else {
                "vulnerability"@
            },
            purl: purl_text(key[0], key[1], key[2]),
            fixed_in: hit.fixed_in,
        },
    }
}

fn first_of(list: &[String]) -> (s: &str)
    ensures
        s@ == first_text(views(list@)),
{
    if list.len() > 0 {
        list[0].as_str()
    } else {
        proof {
            reveal_strlit("");
            assert(""@ =~= Seq::<char>::empty());
        }
        ""
    }
}

/// Writes the text a developer sees in NORA's 403 body.
pub fn reason_line(ids: &[String], severity: Severity, malicious: bool, fixed_in: &Option<String>) -> (out: String)
    ensures
        out@ == reason_text(views(ids@), severity, malicious, said(*fixed_in)),
{
    let list = join_texts(ids, ", ");
    if malicious {
        let mut out = "MALICIOUS package (".to_string();
        out.append(list.as_str());
        out.append(") — blocked by dozor · https://osv.dev/vulnerability/");
        out.append(first_of(ids));
        out
    } else {
        let mut out = severity.as_str().to_string();
        out.append(" severity vulnerability (");
        out.append(list.as_str());
        out.append(")");
        let ghost head = out@;
        match fixed_in {
            Some(f) => {
                out.append(" · fix: ");
                out.append(f.as_str());
            },
            None => {
                out.append(" · no fixed version published");
            },
        }
        proof {
            assert(out@ =~= head + fix_text(said(*fixed_in)));
        }
        out.append(" · https://osv.dev/vulnerability/");
        out.append(first_of(ids));
        out
    }
}

/// Writes the package URL of a rule.
pub fn purl_of(registry: &str, name: &str, version: &str) -> (out: String)
    ensures
        out@ == purl_text(registry@, name@, version@),
{
    let mut out = "pkg:".to_string();
    out.append(registry);
    out.append("/");
    out.append(name);
    out.append("@");
    out.append(version);
    out
}

/// The JSON of a text.
pub open spec fn text_trees(list: Seq<Seq<char>>) -> Seq<JsonTree> {
    Seq::new(list.len(), |i: int| JsonTree::Text(list[i]))
}

/// The JSON of the `x-dozor` part of a rule.
pub open spec fn meta_tree(m: MetaText) -> JsonTree {
    let fields = Map::empty().insert("osv"@, JsonTree::List(text_trees(m.osv))).insert(
        "severity"@,
        JsonTree::Text(m.severity),
    ).insert("kind"@, JsonTree::Text(m.kind)).insert("purl"@, JsonTree::Text(m.purl));
    match m.fixed_in {
        Some(f) => JsonTree::Record(fields.insert("fixed_in"@, JsonTree::Text(f))),
        None => JsonTree::Record(fields),
    }
}

/// The JSON of a rule.
pub open spec fn rule_tree(r: RuleText) -> JsonTree {
    JsonTree::Record(
        Map::empty().insert("registry"@, JsonTree::Text(r.registry)).insert("name"@, JsonTree::Text(r.name)).insert(
            "version"@,
            JsonTree::Text(r.version),
        ).insert("reason"@, JsonTree::Text(r.reason)).insert("x-dozor"@, meta_tree(r.meta)),
    )
}

/// The JSON of a list of rules.
pub open spec fn rules_tree(rules: Seq<RuleText>) -> JsonTree {
    JsonTree::List(Seq::new(rules.len(), |i: int| rule_tree(rules[i])))
}

/// A blocklist body: its version and its rules.
pub open spec fn body_of(version: JsonTree, rules: JsonTree) -> JsonTree {
    JsonTree::Record(Map::empty().insert("version"@, version).insert("rules"@, rules))
}

/// The JSON of the NORA-visible body.
pub open spec fn body_tree(rules: Seq<RuleText>) -> JsonTree {
    body_of(JsonTree::Number(decimal(1)), rules_tree(rules))
}

/// The body that a parsed blocklist file holds.
pub open spec fn parsed_body(file: JsonTree) -> Option<JsonTree> {
    match (file.field("version"@), file.field("rules"@)) {
        (Some(version), Some(rules)) => Some(body_of(version, rules)),
        _ => None,
    }
}

/// The digest of a JSON value in its canonical form.
pub open spec fn tree_digest(tree: JsonTree) -> Seq<char> {
    digest_text(encode_utf8(json_render(tree)))
}

fn text_list(list: &Vec<String>) -> (v: serde_json::Value)
    ensures
        value_tree(v) == JsonTree::List(text_trees(views(list@))),
{
    let mut items: Vec<serde_json::Value> = Vec::new();
    for i in 0..list.len()
        invariant
            items@.len() == i,
            forall|j: int| 0 <= j < i ==> value_tree(#[trigger] items@[j]) == JsonTree::Text(list@[j]@),
    {
        items.push(text_value(list[i].clone()));
    }
    proof {
        assert(value_trees(items@) =~= text_trees(views(list@)));
    }
    list_value(items)
}

fn meta_value(m: &RuleMeta) -> (v: serde_json::Value)
    ensures
        value_tree(v) == meta_tree(m@),
{
    proof {
        reveal_strlit("osv");
        reveal_strlit("severity");
        reveal_strlit("kind");
        reveal_strlit("purl");
        reveal_strlit("fixed_in");
        reveal_with_fuel(field_map, 6);
        assert("osv"@[0] != "severity"@[0]);
        assert("osv"@[0] != "kind"@[0]);
        assert("osv"@[0] != "purl"@[0]);
        assert("osv"@[0] != "fixed_in"@[0]);
        assert("severity"@[0] != "kind"@[0]);
        assert("severity"@[0] != "purl"@[0]);
        assert("severity"@[0] != "fixed_in"@[0]);
        assert("kind"@[0] != "purl"@[0]);
        assert("kind"@[0] != "fixed_in"@[0]);
        assert("purl"@[0] != "fixed_in"@[0]);
    }
    let mut fields: Vec<(String, serde_json::Value)> = Vec::new();
    fields.push(("osv".to_string(), text_list(&m.osv)));
    fields.push(("severity".to_string(), text_value(m.severity.clone())));
    fields.push(("kind".to_string(), text_value(m.kind.clone())));
    fields.push(("purl".to_string(), text_value(m.purl.clone())));
    let ghost f = fields@;
    proof {
        assert(f.drop_last().drop_last().drop_last().drop_last() =~= Seq::empty());
    }
    match &m.fixed_in {
        Some(fix) => {
            fields.push(("fixed_in".to_string(), text_value(fix.clone())));
            proof {
                assert(fields@.drop_last() =~= f);
            }
        },
        None => {},
    }
    record_value(fields)
}

fn rule_value(r: &Rule) -> (v: serde_json::Value)
    ensures
        value_tree(v) == rule_tree(r@),
{
    proof {
        reveal_strlit("registry");
        reveal_strlit("name");
        reveal_strlit("version");
        reveal_strlit("reason");
        reveal_strlit("x-dozor");
        reveal_with_fuel(field_map, 6);
        assert("registry"@[2] != "reason"@[2]);
        assert("registry"@[0] != "name"@[0]);
        assert("registry"@[0] != "version"@[0]);
        assert("registry"@[0] != "x-dozor"@[0]);
        assert("name"@[0] != "version"@[0]);
        assert("name"@[0] != "reason"@[0]);
        assert("name"@[0] != "x-dozor"@[0]);
        assert("version"@[0] != "reason"@[0]);
        assert("version"@[0] != "x-dozor"@[0]);
        assert("reason"@[0] != "x-dozor"@[0]);
    }
    let mut fields: Vec<(String, serde_json::Value)> = Vec::new();
    fields.push(("registry".to_string(), text_value(r.registry.clone())));
    fields.push(("name".to_string(), text_value(r.name.clone())));
    fields.push(("version".to_string(), text_value(r.version.clone())));
    fields.push(("reason".to_string(), text_value(r.reason.clone())));
    fields.push(("x-dozor".to_string(), meta_value(&r.meta)));
    proof {
        assert(fields@.drop_last().drop_last().drop_last().drop_last().drop_last() =~= Seq::empty());
    }
    record_value(fields)
}

/// Makes a body of its two parts.
fn body_value(version: serde_json::Value, rules: serde_json::Value) -> (v: serde_json::Value)
    ensures
        value_tree(v) == body_of(value_tree(version), value_tree(rules)),
{
    proof {
        reveal_strlit("version");
        reveal_strlit("rules");
        reveal_with_fuel(field_map, 3);
        assert("version"@[0] != "rules"@[0]);
    }
    let mut fields: Vec<(String, serde_json::Value)> = Vec::new();
    fields.push(("version".to_string(), version));
    fields.push(("rules".to_string(), rules));
    proof {
        assert(fields@.drop_last().drop_last() =~= Seq::empty());
    }
    record_value(fields)
}

proof fn lemma_body_is_plain(rules: Seq<RuleText>)
    ensures
        body_tree(rules).within(MAX_NESTING as nat),
        body_tree(rules).counts_only(MAX_NESTING as nat),
{
    reveal_with_fuel(JsonTree::within, 2);
    reveal_with_fuel(JsonTree::counts_only, 2);
    assert forall|i: int| 0 <= i < rules.len() implies rule_tree(#[trigger] rules[i]).within(125)
        && rule_tree(rules[i]).counts_only(125) by {
        let m = rules[i].meta;
        assert(JsonTree::List(text_trees(m.osv)).within(123));
        assert(JsonTree::List(text_trees(m.osv)).counts_only(123));
        assert(meta_tree(m).within(124));
        assert(meta_tree(m).counts_only(124));
    }
    assert(rules_tree(rules).within(126));
    assert(rules_tree(rules).counts_only(126));
    assert(decimal(1u64 as nat) == decimal(1));
}

/// Canonical serialisation of the NORA-visible body, and its digest. No
/// timestamps live in here: that is what makes two runs byte-identical and keeps
/// the daily PR empty when nothing changed.
pub fn canonical_body(rules: &[Rule]) -> (r: (String, String))
    ensures
        r.0@ == json_render(body_tree(rule_texts(rules@))),
        r.1@ == tree_digest(body_tree(rule_texts(rules@))),
        json_parse(r.0@) == Some(body_tree(rule_texts(rules@))),
{
    let mut items: Vec<serde_json::Value> = Vec::new();
    for i in 0..rules.len()
        invariant
            items@.len() == i,
            forall|j: int| 0 <= j < i ==> value_tree(#[trigger] items@[j]) == rule_tree(rules@[j]@),
    {
        items.push(rule_value(&rules[i]));
    }
    proof {
        assert(JsonTree::List(value_trees(items@)) == rules_tree(rule_texts(rules@))) by {
            assert(value_trees(items@) =~= rules_tree(rule_texts(rules@))->List_0);
        }
        lemma_body_is_plain(rule_texts(rules@));
    }
    // The map of a JSON value is sorted by key. That is what lets a check derive
    // the same bytes from a parsed file, whatever order it was written in.
    let body = render_value(&body_value(number_value(1), list_value(items)));
    let digest = text_digest(body.as_str());
    (body, digest)
}

/// Re-derive the canonical body digest from an already-parsed blocklist file:
/// from the JSON itself, whatever order it was written in.
pub fn digest_of_parsed(file: &serde_json::Value) -> (r: Option<String>)
    requires
        value_tree(*file).within(MAX_NESTING as nat),
    ensures
        said(r) == body_digest(value_tree(*file)),
{
    let version = match field_of(file, "version") {
        Some(v) => v,
        None => {
            return None;
        },
    };
    let rules = match field_of(file, "rules") {
        Some(v) => v,
        None => {
            return None;
        },
    };
    proof {
        let fields = value_tree(*file)->Record_0;
        assert(fields.dom().contains("version"@));
        assert(fields.dom().contains("rules"@));
        let n = (MAX_NESTING - 1) as nat;
        assert(fields["version"@].within(n));
        assert(fields["rules"@].within(n));
        crate::json::lemma_within_deeper(value_tree(*version), n, MAX_NESTING as nat);
        crate::json::lemma_within_deeper(value_tree(*rules), n, MAX_NESTING as nat);
    }
    let body = body_value(copy_value(version), copy_value(rules));
    Some(text_digest(render_value(&body).as_str()))
}

/// What a check of a blocklist file finds.
#[derive(Debug)]
pub enum Check {
    /// The file holds no digest of its own.
    NoStoredDigest,
    /// The file has no version or no rules.
    MalformedBody,
    /// The body is the one that the digest was derived from.
    Matches(String),
    /// The body has changed since the digest was derived.
    Drift { stored: String, recomputed: String },
}

/// The digest that a blocklist file holds of itself.
pub open spec fn stored_digest(file: JsonTree) -> Option<Seq<char>> {
    match file.field("x-dozor-derivation"@) {
        Some(derivation) => match derivation.field("output"@) {
            Some(output) => output.text(),
            None => None,
        },
        None => None,
    }
}

/// What a check finds, from the digest that the file holds and the one that its
/// body has.
pub open spec fn is_verdict(check: Check, stored: Option<Seq<char>>, recomputed: Option<Seq<char>>) -> bool {
    match (stored, recomputed) {
        (None, _) => check is NoStoredDigest,
        (Some(_), None) => check is MalformedBody,
        (Some(s), Some(r)) => if s == r {
            check matches Check::Matches(d) && d@ == s
        } else {
            check matches Check::Drift { stored: x, recomputed: y } && x@ == s && y@ == r
        },
    }
}

/// The digest that the body of a blocklist file has.
pub open spec fn body_digest(file: JsonTree) -> Option<Seq<char>> {
    match parsed_body(file) {
        Some(body) => Some(tree_digest(body)),
        None => None,
    }
}

/// What a check of a blocklist file must find.
pub open spec fn is_check_of(check: Check, file: JsonTree) -> bool {
    is_verdict(check, stored_digest(file), body_digest(file))
}

/// Holds the digest that a file holds against the one that its body has.
pub fn compare_digests(stored: Option<&str>, recomputed: Option<String>) -> (r: Check)
    ensures
        is_verdict(r, opt_text(stored), said(recomputed)),
{
    match stored {
        Some(s) => match recomputed {
            Some(d) => if same_text(s, d.as_str()) {
                Check::Matches(d)
            } else {
                Check::Drift { stored: s.to_string(), recomputed: d }
            },
            None => Check::MalformedBody,
        },
        None => Check::NoStoredDigest,
    }
}

fn stored_in<'a>(file: &'a serde_json::Value) -> (r: Option<&'a str>)
    ensures
        opt_text(r) == stored_digest(value_tree(*file)),
{
    match field_of(file, "x-dozor-derivation") {
        Some(derivation) => match field_of(derivation, "output") {
            Some(output) => text_in(output),
            None => None,
        },
        None => None,
    }
}

/// Holds a parsed blocklist file against the digest that it carries.
pub fn check_parsed(file: &serde_json::Value) -> (r: Check)
    requires
        value_tree(*file).within(MAX_NESTING as nat),
    ensures
        is_check_of(r, value_tree(*file)),
{
    compare_digests(stored_in(file), digest_of_parsed(file))
}

/// Holds the text of a blocklist file against the digest that it carries.
pub fn check_text(text: &str) -> (r: Result<Check, JsonError>)
    ensures
        r is Ok <==> json_parse(text@) is Some,
        r matches Ok(check) ==> is_check_of(check, json_parse(text@)->0),
{
    match read_json(text) {
        Ok(file) => Ok(check_parsed(&file)),
        Err(e) => Err(e),
    }
}

/// The body that a blocklist file holds is read back from its canonical form.
pub proof fn law_canonical_body_reads_back(rules: Seq<RuleText>)
    ensures
        parsed_body(body_tree(rules)) == Some(body_tree(rules)),
{
    reveal_strlit("version");
    reveal_strlit("rules");
    assert("version"@[0] != "rules"@[0]);
    let tree = body_tree(rules);
    assert(tree.field("version"@) == Some(JsonTree::Number(decimal(1))));
    assert(tree.field("rules"@) == Some(rules_tree(rules)));
}

/// A file that carries the rules of a build and the digest that the build derived
/// passes its check, and the check of a file that carries another digest finds
/// drift.
pub proof fn law_check_accepts_what_was_derived(file: JsonTree, rules: Seq<RuleText>, check: Check)
    requires
        file.field("version"@) == Some(JsonTree::Number(decimal(1))),
        file.field("rules"@) == Some(rules_tree(rules)),
        stored_digest(file) is Some,
        is_check_of(check, file),
    ensures
        check is Matches <==> stored_digest(file) == Some(tree_digest(body_tree(rules))),
        check is Drift <==> stored_digest(file) != Some(tree_digest(body_tree(rules))),
{
}

/// A package URL is `pkg:`, the registry, a slash, the name, an at sign and the
/// version: what comes after the last at sign is the version again, and what
/// comes before it names registry and package.
pub proof fn law_purl_reads_back(registry: Seq<char>, name: Seq<char>, version: Seq<char>)
    ensures
        past_prefix(purl_text(registry, name, version), "pkg:"@ + registry + "/"@) == Some(name + "@"@ + version),
        !version.contains('@') ==> split_at_last(purl_text(registry, name, version), "@"@) == Some(
            ("pkg:"@ + registry + "/"@ + name, version),
        ),
{
    let head = "pkg:"@ + registry + "/"@;
    let text = purl_text(registry, name, version);
    assert(text =~= head + (name + "@"@ + version));
    law_ends_come_off(name + "@"@ + version, head, text);
    reveal_strlit("@");
    if !version.contains('@') {
        law_split_at_a_character(head + name, "@"@, version);
        assert(text =~= (head + name) + "@"@ + version);
    }
}

/// What a developer is told: a malicious package is called one; of anything else
/// the severity comes first, and then the fix or that there is none. Either way
/// the ids stand in brackets after it, and the link to the first one at the end.
pub proof fn law_reason_says_what_and_how_bad(
    ids: Seq<Seq<char>>,
    severity: Severity,
    malicious: bool,
    fixed_in: Option<Seq<char>>,
)
    requires
        ids.len() > 0,
    ensures
        ({
            let reason = reason_text(ids, severity, malicious, fixed_in);
            let list = "("@ + joined(ids, ", "@) + ")"@;
            &&& malicious ==> past_prefix(reason, "MALICIOUS package "@ + list) is Some
            &&& !malicious ==> past_prefix(reason, severity.word() + " severity vulnerability "@ + list) is Some
            &&& !malicious && fixed_in is Some ==> past_prefix(
                reason,
                severity.word() + " severity vulnerability "@ + list + " · fix: "@ + fixed_in->0 + " · "@,
            ) is Some
            &&& !malicious && fixed_in is None ==> past_prefix(
                reason,
                severity.word() + " severity vulnerability "@ + list + " · no fixed version published · "@,
            ) is Some
            &&& ("https://osv.dev/vulnerability/"@ + ids[0]).is_suffix_of(reason)
        }),
{
    let list = "("@ + joined(ids, ", "@) + ")"@;
    let reason = reason_text(ids, severity, malicious, fixed_in);
    let link = "https://osv.dev/vulnerability/"@ + ids[0];
    lemma_reason_parts();
    if malicious {
        let head = "MALICIOUS package "@ + list;
        lemma_malicious_reason(ids, severity, fixed_in);
        lemma_said_in_full(reason, head, " — blocked by dozor · "@, link);
    } else {
        let head = severity.word() + " severity vulnerability "@ + list;
        lemma_plain_reason(ids, severity, fixed_in);
        match fixed_in {
            Some(f) => {
                lemma_said_in_full(reason, head, " · fix: "@ + f + " · "@, link);
                assert(head + (" · fix: "@ + f + " · "@) =~= head + " · fix: "@ + f + " · "@);
            },
            None => {
                lemma_said_in_full(reason, head, " · no fixed version published · "@, link);
            },
        }
    }
}

/// A text of three parts begins with the first, and with the first two, and ends
/// with the last.
proof fn lemma_said_in_full(text: Seq<char>, head: Seq<char>, middle: Seq<char>, tail: Seq<char>)
    requires
        text == head + middle + tail,
    ensures
        past_prefix(text, head) is Some,
        past_prefix(text, head + middle) is Some,
        tail.is_suffix_of(text),
{
    law_ends_come_off(tail, head + middle, text);
    assert(text =~= head + (middle + tail));
    law_ends_come_off(middle + tail, head, text);
    lemma_ends(head + middle, tail);
}

proof fn lemma_malicious_reason(ids: Seq<Seq<char>>, severity: Severity, fixed_in: Option<Seq<char>>)
    requires
        ids.len() > 0,
    ensures
        reason_text(ids, severity, true, fixed_in) == "MALICIOUS package "@ + ("("@ + joined(ids, ", "@) + ")"@)
            + " — blocked by dozor · "@ + ("https://osv.dev/vulnerability/"@ + ids[0]),
{
    lemma_reason_parts();
    assert(reason_text(ids, severity, true, fixed_in) =~= "MALICIOUS package "@ + ("("@ + joined(ids, ", "@) + ")"@)
        + " — blocked by dozor · "@ + ("https://osv.dev/vulnerability/"@ + ids[0]));
}

proof fn lemma_plain_reason(ids: Seq<Seq<char>>, severity: Severity, fixed_in: Option<Seq<char>>)
    requires
        ids.len() > 0,
    ensures
        fixed_in matches Some(f) ==> reason_text(ids, severity, false, fixed_in) == severity.word()
            + " severity vulnerability "@ + ("("@ + joined(ids, ", "@) + ")"@) + (" · fix: "@ + f + " · "@) + (
        "https://osv.dev/vulnerability/"@ + ids[0]),
        fixed_in is None ==> reason_text(ids, severity, false, fixed_in) == severity.word()
            + " severity vulnerability "@ + ("("@ + joined(ids, ", "@) + ")"@) + " · no fixed version published · "@ + (
        "https://osv.dev/vulnerability/"@ + ids[0]),
{
    lemma_reason_parts();
    let list = joined(ids, ", "@);
    let link = "https://osv.dev/vulnerability/"@ + ids[0];
    let word = severity.word();
    let start = word + " severity vulnerability "@ + ("("@ + list + ")"@);
    let fix = fix_text(fixed_in);
    assert(word + " severity vulnerability ("@ + list + ")"@ =~= start);
    let reason = reason_text(ids, severity, false, fixed_in);
    assert(reason == start + fix + " · https://osv.dev/vulnerability/"@ + ids[0]);
    assert(reason =~= start + (fix + " · "@) + link);
}

proof fn lemma_ends(head: Seq<char>, tail: Seq<char>)
    ensures
        tail.is_suffix_of(head + tail),
{
    assert((head + tail).subrange(head.len() as int, (head + tail).len() as int) =~= tail);
}

/// The fixed pieces of a reason, taken apart.
proof fn lemma_reason_parts()
    ensures
        "MALICIOUS package ("@ == "MALICIOUS package "@ + "("@,
        " severity vulnerability ("@ == " severity vulnerability "@ + "("@,
        ") — blocked by dozor · https://osv.dev/vulnerability/"@ == ")"@ + " — blocked by dozor · "@
            + "https://osv.dev/vulnerability/"@,
        " · https://osv.dev/vulnerability/"@ == " · "@ + "https://osv.dev/vulnerability/"@,
        " · no fixed version published · "@ == " · no fixed version published"@ + " · "@,
{
    reveal_strlit("MALICIOUS package (");
    reveal_strlit("MALICIOUS package ");
    reveal_strlit("(");
    reveal_strlit(")");
    reveal_strlit(" severity vulnerability (");
    reveal_strlit(" severity vulnerability ");
    assert("MALICIOUS package ("@ =~= "MALICIOUS package "@ + "("@);
    assert(" severity vulnerability ("@ =~= " severity vulnerability "@ + "("@);
    lemma_link_parts();
}

proof fn lemma_link_parts()
    ensures
        ") — blocked by dozor · https://osv.dev/vulnerability/"@ == ")"@ + " — blocked by dozor · "@
            + "https://osv.dev/vulnerability/"@,
        " · https://osv.dev/vulnerability/"@ == " · "@ + "https://osv.dev/vulnerability/"@,
        " · no fixed version published · "@ == " · no fixed version published"@ + " · "@,
{
    reveal_strlit(")");
    reveal_strlit(") — blocked by dozor · https://osv.dev/vulnerability/");
    reveal_strlit(" — blocked by dozor · ");
    reveal_strlit("https://osv.dev/vulnerability/");
    reveal_strlit(" · https://osv.dev/vulnerability/");
    reveal_strlit(" · ");
    reveal_strlit(" · no fixed version published");
    reveal_strlit(" · no fixed version published · ");
    assert(") — blocked by dozor · https://osv.dev/vulnerability/"@ =~= ")"@ + " — blocked by dozor · "@
        + "https://osv.dev/vulnerability/"@);
    assert(" · https://osv.dev/vulnerability/"@ =~= " · "@ + "https://osv.dev/vulnerability/"@);
    assert(" · no fixed version published · "@ =~= " · no fixed version published"@ + " · "@);
}

/// The JSON of a rule shows all that the rule says, each part under its own name:
/// the four fields of NORA's schema, and under `x-dozor` the ids, the severity,
/// the kind, the package URL and, where there is one, the fix.
pub proof fn law_rule_is_written_field_by_field(r: RuleText)
    ensures
        ({
            let t = rule_tree(r);
            let m = meta_tree(r.meta);
            &&& t.field("registry"@) == Some(JsonTree::Text(r.registry))
            &&& t.field("name"@) == Some(JsonTree::Text(r.name))
            &&& t.field("version"@) == Some(JsonTree::Text(r.version))
            &&& t.field("reason"@) == Some(JsonTree::Text(r.reason))
            &&& t.field("x-dozor"@) == Some(m)
            &&& m.field("osv"@) == Some(JsonTree::List(text_trees(r.meta.osv)))
            &&& m.field("severity"@) == Some(JsonTree::Text(r.meta.severity))
            &&& m.field("kind"@) == Some(JsonTree::Text(r.meta.kind))
            &&& m.field("purl"@) == Some(JsonTree::Text(r.meta.purl))
            &&& m.field("fixed_in"@) == (match r.meta.fixed_in {
                Some(f) => Some(JsonTree::Text(f)),
                None => None,
            })
            &&& text_trees(r.meta.osv).len() == r.meta.osv.len()
            &&& forall|i: int|
                0 <= i < r.meta.osv.len() ==> #[trigger] text_trees(r.meta.osv)[i] == JsonTree::Text(r.meta.osv[i])
        }),
{
    lemma_rule_names();
    lemma_meta_names();
}

proof fn lemma_rule_names()
    ensures
        "registry"@ != "name"@ && "registry"@ != "version"@ && "registry"@ != "reason"@ && "registry"@ != "x-dozor"@,
        "name"@ != "version"@ && "name"@ != "reason"@ && "name"@ != "x-dozor"@,
        "version"@ != "reason"@ && "version"@ != "x-dozor"@ && "reason"@ != "x-dozor"@,
{
    reveal_strlit("registry");
    reveal_strlit("name");
    reveal_strlit("version");
    reveal_strlit("reason");
    reveal_strlit("x-dozor");
    assert("registry"@[2] != "reason"@[2]);
    assert("registry"@[0] == 'r' && "name"@[0] == 'n' && "version"@[0] == 'v' && "reason"@[0] == 'r');
    assert("x-dozor"@[0] == 'x');
}

proof fn lemma_meta_names()
    ensures
        "osv"@ != "severity"@ && "osv"@ != "kind"@ && "osv"@ != "purl"@ && "osv"@ != "fixed_in"@,
        "severity"@ != "kind"@ && "severity"@ != "purl"@ && "severity"@ != "fixed_in"@,
        "kind"@ != "purl"@ && "kind"@ != "fixed_in"@ && "purl"@ != "fixed_in"@,
{
    reveal_strlit("osv");
    reveal_strlit("severity");
    reveal_strlit("kind");
    reveal_strlit("purl");
    reveal_strlit("fixed_in");
    assert("osv"@[0] == 'o' && "severity"@[0] == 's' && "kind"@[0] == 'k' && "purl"@[0] == 'p');
    assert("fixed_in"@[0] == 'f');
}

/// Nothing that a rule says can change without changing the body: two bodies are
/// alike only where their rules are, one by one.
pub proof fn law_body_shows_every_rule(a: Seq<RuleText>, b: Seq<RuleText>)
    requires
        body_tree(a) == body_tree(b),
    ensures
        a == b,
{
    law_canonical_body_reads_back(a);
    law_canonical_body_reads_back(b);
    reveal_strlit("version");
    reveal_strlit("rules");
    assert("version"@[0] != "rules"@[0]);
    assert(body_tree(a).field("rules"@) == Some(rules_tree(a)));
    assert(body_tree(b).field("rules"@) == Some(rules_tree(b)));
    let x = rules_tree(a)->List_0;
    let y = rules_tree(b)->List_0;
    assert(x.len() == a.len() && y.len() == b.len());
    assert forall|i: int| 0 <= i < a.len() implies a[i] == b[i] by {
        assert(x[i] == rule_tree(a[i]) && y[i] == rule_tree(b[i]));
        law_rule_is_written_field_by_field(a[i]);
        law_rule_is_written_field_by_field(b[i]);
        let (p, q) = (a[i].meta.osv, b[i].meta.osv);
        assert(text_trees(p) == text_trees(q));
        assert forall|k: int| 0 <= k < p.len() implies p[k] == q[k] by {
            assert(text_trees(p)[k] == JsonTree::Text(p[k]));
            assert(text_trees(q)[k] == JsonTree::Text(q[k]));
        }
        assert(p =~= q);
    }
    assert(a =~= b);
}

/// The body of a file is its version and its rules, whatever else it holds; a file
/// that lacks one of them has none.
pub proof fn law_body_is_version_and_rules(file: JsonTree, other: JsonTree)
    ensures
        parsed_body(file) is Some <==> file.field("version"@) is Some && file.field("rules"@) is Some,
        parsed_body(file) matches Some(body) ==> body.field("version"@) == file.field("version"@)
            && body.field("rules"@) == file.field("rules"@),
        parsed_body(file) is Some && parsed_body(other) is Some ==> (parsed_body(file) == parsed_body(other)
            <==> file.field("version"@) == other.field("version"@) && file.field("rules"@) == other.field("rules"@)),
{
    reveal_strlit("version");
    reveal_strlit("rules");
    assert("version"@[0] != "rules"@[0]);
    if parsed_body(file) is Some {
        let body = parsed_body(file)->0;
        assert(body.field("version"@) == file.field("version"@));
        assert(body.field("rules"@) == file.field("rules"@));
        if parsed_body(other) is Some {
            let rest = parsed_body(other)->0;
            assert(rest.field("version"@) == other.field("version"@));
            assert(rest.field("rules"@) == other.field("rules"@));
        }
    }
}

/// A check believes the file's own digest only where the body still has it: it
/// matches where the two are the same, finds drift where they differ and names
/// both, and says so where one of them cannot be had.
pub proof fn law_check_compares_the_two_digests(check: Check, file: JsonTree, derivation: JsonTree, stored: Seq<char>)
    requires
        is_check_of(check, file),
        file.field("x-dozor-derivation"@) == Some(derivation),
        derivation.field("output"@) == Some(JsonTree::Text(stored)),
    ensures
        parsed_body(file) is None <==> check is MalformedBody,
        parsed_body(file) matches Some(body) ==> {
            let bytes = encode_utf8(json_render(body));
            &&& check is Matches <==> stored == digest_text(bytes)
            &&& check is Drift <==> stored != digest_text(bytes)
            &&& check matches Check::Matches(d) ==> d@ == stored
            &&& check matches Check::Drift { stored: s, recomputed: r } ==> s@ == stored && r@ == digest_text(bytes)
        },
{
}

/// A file without a derivation, or whose derivation holds no text as its output,
/// carries no digest.
pub proof fn law_no_digest_is_no_match(check: Check, file: JsonTree)
    requires
        is_check_of(check, file),
    ensures
        file.field("x-dozor-derivation"@) is None ==> check is NoStoredDigest,
        file.field("x-dozor-derivation"@) matches Some(d) ==> (d.field("output"@) is None ==> check
            is NoStoredDigest),
        file.field("x-dozor-derivation"@) matches Some(d) ==> (d.field("output"@) matches Some(o) ==> (o.text() is None
            <==> check is NoStoredDigest)),
{
}

/// The digest of a body is that of the bytes of its canonical text.
pub proof fn law_digest_is_of_the_canonical_text(a: JsonTree, b: JsonTree)
    ensures
        tree_digest(a) == digest_text(encode_utf8(json_render(a))),
        json_render(a) == json_render(b) ==> tree_digest(a) == tree_digest(b),
{
}

/// A body is of the one version there is, and lists the rules one by one in their
/// order.
pub proof fn law_body_lists_the_rules(rules: Seq<RuleText>, i: int)
    ensures
        body_tree(rules).field("version"@) == Some(JsonTree::Number(seq!['1'])),
        body_tree(rules).field("rules"@) matches Some(JsonTree::List(list)) && list.len() == rules.len() && (0 <= i
            < rules.len() ==> list[i] == rule_tree(rules[i])),
{
    law_canonical_body_reads_back(rules);
    reveal_strlit("version");
    reveal_strlit("rules");
    assert("version"@[0] != "rules"@[0]);
    assert(decimal(1) =~= seq!['1']);
}

} // verus!
