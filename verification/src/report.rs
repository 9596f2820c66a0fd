//! What is printed: what the feed says about one package version, how much of it
//! is wholly malicious, and the peak memory of the process.

use crate::advisory::{Advisory, Kind};
use crate::hits::{is_wholly_malicious, verdict_of};
use crate::index::{grouped_under, named_of, Entry, Index};
use crate::text::{
    begins_with, chars_of, decimal, decimal_text, joined, law_decimal_is_positional, law_ends_come_off, past_prefix,
    push_run, rsplit_once, run_of, split_at_last, views,
};
use crate::vers::{Ecosystem, Match};
use vstd::prelude::*;

verus! {

/// The name of a kind.
pub open spec fn kind_word(kind: Kind) -> Seq<char> {
    match kind {
        Kind::Malicious => "Malicious"@,
        Kind::Vulnerability => "Vulnerability"@,
    }
}

/// The name of a verdict.
pub open spec fn match_word(m: Match) -> Seq<char> {
    match m {
        Match::Affected => "Affected"@,
        Match::NotAffected => "NotAffected"@,
        Match::Unknown => "Unknown"@,
    }
}

/// What an advisory says about a version, in one word.
pub open spec fn verdict_word(eco: Ecosystem, version: Seq<char>, a: Advisory) -> Seq<char> {
    if a.is_whole() {
        "WholePackage"@
    } else {
        match_word(verdict_of(eco, version, a))
    }
}

/// A text filled with blanks to at least `width` characters.
pub open spec fn padded(s: Seq<char>, width: int) -> Seq<char> {
    s + run_of(' ', width - s.len())
}

/// What is printed of one advisory.
pub open spec fn advisory_line(eco: Ecosystem, version: Seq<char>, a: Advisory) -> Seq<char> {
    "  "@ + padded(a.id, 24) + " "@ + padded(a.severity.word(), 9) + " "@ + padded(kind_word(a.kind), 14) + " "@
        + padded(verdict_word(eco, version, a), 13) + " fix="@ + match a.fixed_in {
        Some(f) => f,
        None => "-"@,
    }
}

/// The first line of an explanation.
pub open spec fn heading(name: Seq<char>, version: Seq<char>, n: nat) -> Seq<char> {
    if n == 0 {
        name + ": no advisories in this snapshot"@
    } else {
        name + "@"@ + version + " — "@ + decimal(n) + " advisories touch this package"@
    }
}

/// What is printed about one package version.
pub open spec fn explanation(
    eco: Ecosystem,
    name: Seq<char>,
    version: Seq<char>,
    advisories: Seq<Advisory>,
) -> Seq<Seq<char>> {
    seq![heading(name, version, advisories.len())] + Seq::new(
        advisories.len(),
        |i: int| advisory_line(eco, version, advisories[i]),
    )
}

/// Reads `name@version`. A scoped name has an `@` of its own, so the last one
/// counts.
pub fn split_package(package: &str) -> (r: Option<(String, String)>)
    ensures
        r matches Some(p) ==> split_at_last(package@, "@"@) == Some((p.0@, p.1@)),
        r is None ==> split_at_last(package@, "@"@) is None,
{
    rsplit_once(package, "@")
}

fn push_padded(out: &mut String, s: &str, width: usize)
    ensures
        final(out)@ == old(out)@ + padded(s@, width as int),
{
    let ghost start = out@;
    out.append(s);
    let len: usize = s.unicode_len();
    if len < width {
        push_run(out, ' ', width - len);
    }
    proof {
        assert(out@ =~= start + padded(s@, width as int));
    }
}

fn line_of(idx: &Index, eco: Ecosystem, version: &str, e: &Entry) -> (out: String)
    requires
        idx.wf(),
        idx.holds_entry(*e),
    ensures
        out@ == advisory_line(eco, version@, idx.says(*e)),
{
    proof {
        idx.lemma_says(*e);
    }
    let kind = match e.kind() {
        Kind::Malicious => "Malicious",
        Kind::Vulnerability => "Vulnerability",
    };
    let verdict = if idx.is_whole_package(e) {
        "WholePackage"
    } else {
        match crate::builder::version_verdict(idx, eco, version, e) {
            Match::Affected => "Affected",
            Match::NotAffected => "NotAffected",
            Match::Unknown => "Unknown",
        }
    };
    let fix = match idx.fixed_in(e) {
        Some(f) => f,
        None => "-",
    };
    let mut out = "  ".to_string();
    push_padded(&mut out, idx.id_str(e), 24);
    out.append(" ");
    push_padded(&mut out, e.severity().as_str(), 9);
    out.append(" ");
    push_padded(&mut out, kind, 14);
    out.append(" ");
    push_padded(&mut out, verdict, 13);
    out.append(" fix=");
    out.append(fix);
    out
}

/// What the feed says about one package version, line by line. A version that
/// cannot be decided is shown as unknown, never as safe.
pub fn explain(idx: &Index, eco: Ecosystem, name: &str, version: &str) -> (lines: Vec<String>)
    requires
        idx.wf(),
    ensures
        views(lines@) == explanation(eco, name@, version@, grouped_under(idx.groups(), name@)),
{
    let found = idx.lookup(name);
    let ghost advisories = grouped_under(idx.groups(), name@);
    proof {
        assert(idx.says_all(found@).len() == found@.len());
    }
    let mut first = name.to_string();
    if found.len() == 0 {
        first.append(": no advisories in this snapshot");
    } else {
        first.append("@");
        first.append(version);
        first.append(" — ");
        first.append(decimal_text(found.len() as u64).as_str());
        first.append(" advisories touch this package");
    }
    let mut lines: Vec<String> = Vec::new();
    lines.push(first);
    for i in 0..found.len()
        invariant
            idx.wf(),
            idx.says_all(found@) == advisories,
            idx.holds_all(found@),
            found@.len() == advisories.len(),
            first@ == heading(name@, version@, advisories.len()),
            lines@.len() == i + 1,
            lines@[0] == first,
            forall|j: int|
                0 <= j < i ==> (#[trigger] lines@[j + 1])@ == advisory_line(eco, version@, advisories[j]),
    {
        let e = &found[i];
        proof {
            assert(idx.holds_entry(found@[i as int]));
            assert(idx.says_all(found@)[i as int] == idx.says(*e));
        }
        lines.push(line_of(idx, eco, version, e));
    }
    proof {
        let said = explanation(eco, name@, version@, advisories);
        assert forall|k: int| 0 <= k < said.len() implies views(lines@)[k] == said[k] by {
            if k > 0 {
                assert(lines@[(k - 1) + 1]@ == advisory_line(eco, version@, advisories[k - 1]));
            }
        }
        assert(views(lines@) =~= said);
    }
    lines
}

/// How many advisories of a list report a wholly malicious package.
pub open spec fn wholly_malicious_in(named: Seq<(Seq<char>, Advisory)>) -> nat
    decreases named.len(),
{
    if named.len() == 0 {
        0
    } else {
        wholly_malicious_in(named.drop_last()) + if is_wholly_malicious(named.last().1) {
            1nat
        } else {
            0nat
        }
    }
}

/// How many entries of the index report a wholly malicious package.
pub fn count_wholly_malicious(idx: &Index) -> (n: usize)
    requires
        idx.wf(),
    ensures
        n == wholly_malicious_in(named_of(idx.groups())),
{
    let list = idx.iter_named();
    let ghost named = named_of(idx.groups());
    let mut n: usize = 0;
    proof {
        assert(idx.named(list@).len() == list@.len());
        assert(named.take(0) =~= Seq::empty());
    }
    for i in 0..list.len()
        invariant
            idx.wf(),
            idx.named(list@) == named,
            list@.len() == named.len(),
            forall|j: int| 0 <= j < list@.len() ==> idx.holds_entry(*(#[trigger] list@[j]).1),
            n == wholly_malicious_in(named.take(i as int)),
            n <= i,
    {
        let (_, e) = list[i];
        proof {
            assert(idx.named(list@)[i as int] == (list@[i as int].0@, idx.says(*e)));
            assert(named.take(i + 1).drop_last() =~= named.take(i as int));
            assert(named.take(i + 1).last() == named[i as int]);
            idx.lemma_says(*e);
        }
        let malicious: bool = match e.kind() {
            Kind::Malicious => true,
            Kind::Vulnerability => false,
        };
        if malicious && idx.is_whole_package(e) {
            n = n + 1;
        }
    }
    proof {
        assert(named.take(list@.len() as int) =~= named);
    }
    n
}

/// A character of the Unicode property `White_Space`.
pub open spec fn is_blank(c: char) -> bool {
    ||| '\t' <= c <= '\r'
    ||| c == ' '
    ||| c == '\u{85}'
    ||| c == '\u{a0}'
    ||| c == '\u{1680}'
    ||| '\u{2000}' <= c <= '\u{200a}'
    ||| c == '\u{2028}'
    ||| c == '\u{2029}'
    ||| c == '\u{202f}'
    ||| c == '\u{205f}'
    ||| c == '\u{3000}'
}

fn blank(c: char) -> (r: bool)
    ensures
        r == is_blank(c),
{
    ('\t' <= c && c <= '\r') || c == ' ' || c == '\u{85}' || c == '\u{a0}' || c == '\u{1680}' || ('\u{2000}' <= c && c
        <= '\u{200a}') || c == '\u{2028}' || c == '\u{2029}' || c == '\u{202f}' || c == '\u{205f}' || c == '\u{3000}'
}

/// The pieces of a text between newlines.
pub open spec fn lines_of(text: Seq<char>) -> Seq<Seq<char>>
    decreases text.len(),
{
    if text.len() == 0 {
        seq![Seq::empty()]
    } else {
        let before = lines_of(text.drop_last());
        if text.last() == '\n' {
            before.push(Seq::empty())
        } else {
            before.drop_last().push(before.last().push(text.last()))
        }
    }
}

/// The words of a line that are complete, and the one at its end.
pub open spec fn words_so_far(line: Seq<char>) -> (Seq<Seq<char>>, Seq<char>)
    decreases line.len(),
{
    if line.len() == 0 {
        (Seq::empty(), Seq::empty())
    } else {
        let (done, word) = words_so_far(line.drop_last());
        if !is_blank(line.last()) {
            (done, word.push(line.last()))
        } else if word.len() > 0 {
            (done.push(word), Seq::empty())
        } else {
            (done, word)
        }
    }
}

/// The words of a line: its longest pieces without a blank.
pub open spec fn words_of(line: Seq<char>) -> Seq<Seq<char>> {
    let (done, word) = words_so_far(line);
    if word.len() > 0 {
        done.push(word)
    } else {
        done
    }
}

/// The value of decimal digits, or none where something else is among them.
pub open spec fn digits_value(word: Seq<char>) -> Option<nat>
    decreases word.len(),
{
    if word.len() == 0 {
        Some(0)
    } else {
        match digits_value(word.drop_last()) {
            Some(v) => if '0' <= word.last() <= '9' {
                Some(v * 10 + (word.last() as nat - '0' as nat) as nat)
            } else {
                None
            },
            None => None,
        }
    }
}

/// A word read as a `u64`: digits, after a plus sign or not.
pub open spec fn number_in(word: Seq<char>) -> Option<u64> {
    let digits = if word.len() > 0 && word[0] == '+' {
        word.skip(1)
    } else {
        word
    };
    match digits_value(digits) {
        Some(v) => if digits.len() > 0 && v <= u64::MAX {
            Some(v as u64)
        } else {
            None
        },
        None => None,
    }
}

/// The first line that begins with a prefix.
pub open spec fn first_line(lines: Seq<Seq<char>>, prefix: Seq<char>) -> Option<Seq<char>>
    decreases lines.len(),
{
    if lines.len() == 0 {
        None
    } else if first_line(lines.drop_last(), prefix) is Some {
        first_line(lines.drop_last(), prefix)
    } else if prefix.is_prefix_of(lines.last()) {
        Some(lines.last())
    } else {
        None
    }
}

/// The peak resident set size, in kilobytes, that a process status reports.
pub open spec fn peak_rss_in(status: Seq<char>) -> Option<u64> {
    match first_line(lines_of(status), "VmHWM:"@) {
        Some(line) => if words_of(line).len() > 1 {
            number_in(words_of(line)[1])
        } else {
            None
        },
        None => None,
    }
}

/// What a list of character lists says.
pub open spec fn char_views(list: Seq<Vec<char>>) -> Seq<Seq<char>> {
    Seq::new(list.len(), |i: int| list[i]@)
}

fn split_lines(text: &[char]) -> (lines: Vec<Vec<char>>)
    ensures
        char_views(lines@) == lines_of(text@),
{
    let mut done: Vec<Vec<char>> = Vec::new();
    let mut line: Vec<char> = Vec::new();
    proof {
        assert(text@.take(0) =~= Seq::empty());
        assert(char_views(done@).push(line@) =~= lines_of(text@.take(0)));
    }
    for i in 0..text.len()
        invariant
            char_views(done@).push(line@) == lines_of(text@.take(i as int)),
    {
        let c: char = text[i];
        let ghost before = lines_of(text@.take(i as int));
        proof {
            assert(text@.take(i + 1).drop_last() =~= text@.take(i as int));
            assert(before.last() == line@);
            assert(before.drop_last() =~= char_views(done@));
        }
        if c == '\n' {
            let mut next: Vec<char> = Vec::new();
            std::mem::swap(&mut next, &mut line);
            let ghost prior = done@;
            done.push(next);
            proof {
                assert(char_views(done@) =~= char_views(prior).push(next@));
                assert(char_views(done@).push(line@) =~= lines_of(text@.take(i + 1)));
            }
        } else {
            line.push(c);
        }
    }
    let ghost prior = done@;
    done.push(line);
    proof {
        assert(char_views(done@) =~= char_views(prior).push(line@));
        assert(text@.take(text@.len() as int) =~= text@);
    }
    done
}

fn split_words(line: &[char]) -> (words: Vec<Vec<char>>)
    ensures
        char_views(words@) == words_of(line@),
{
    let mut done: Vec<Vec<char>> = Vec::new();
    let mut word: Vec<char> = Vec::new();
    proof {
        assert(line@.take(0) =~= Seq::empty());
        assert(char_views(done@) =~= Seq::empty());
        assert(word@ =~= Seq::empty());
    }
    for i in 0..line.len()
        invariant
            words_so_far(line@.take(i as int)) == (char_views(done@), word@),
    {
        let c: char = line[i];
        proof {
            assert(line@.take(i + 1).drop_last() =~= line@.take(i as int));
        }
        if !blank(c) {
            word.push(c);
        } else if word.len() > 0 {
            let mut next: Vec<char> = Vec::new();
            std::mem::swap(&mut next, &mut word);
            let ghost prior = done@;
            done.push(next);
            proof {
                assert(char_views(done@) =~= char_views(prior).push(next@));
                assert(word@ =~= Seq::empty());
            }
        }
    }
    proof {
        assert(line@.take(line@.len() as int) =~= line@);
    }
    if word.len() > 0 {
        let ghost prior = done@;
        done.push(word);
        proof {
            assert(char_views(done@) =~= char_views(prior).push(word@));
        }
    }
    done
}

/// The value of some digits is at most that of more of them.
proof fn lemma_digits_rise(word: Seq<char>, n: int)
    requires
        0 <= n <= word.len(),
        digits_value(word) is Some,
    ensures
        digits_value(word.take(n)) is Some,
        digits_value(word.take(n))->0 <= digits_value(word)->0,
    decreases word.len(),
{
    if n < word.len() {
        lemma_digits_rise(word.drop_last(), n);
        assert(word.drop_last().take(n) =~= word.take(n));
    } else {
        assert(word.take(n) =~= word);
    }
}

fn read_digits(digits: &[char]) -> (r: Option<u64>)
    ensures
        r == match digits_value(digits@) {
            Some(v) => if v <= u64::MAX {
                Some(v as u64)
            } else {
                None
            },
            None => None,
        },
{
    let mut value: u64 = 0;
    proof {
        assert(digits@.take(0) =~= Seq::empty());
    }
    for i in 0..digits.len()
        invariant
            digits_value(digits@.take(i as int)) == Some(value as nat),
    {
        let c: char = digits[i];
        let ghost now = digits@.take(i + 1);
        proof {
            assert(now.drop_last() =~= digits@.take(i as int));
            if digits_value(digits@) is Some {
                lemma_digits_rise(digits@, i + 1);
            }
        }
        if !('0' <= c && c <= '9') {
            return None;
        }
        let digit: u64 = c as u64 - 48;
        if value > (u64::MAX - digit) / 10 {
            return None;
        }
        value = value * 10 + digit;
    }
    proof {
        assert(digits@.take(digits@.len() as int) =~= digits@);
    }
    Some(value)
}

fn read_number(word: &[char]) -> (r: Option<u64>)
    ensures
        r == number_in(word@),
{
    let signed: bool = word.len() > 0 && word[0] == '+';
    let from: usize = if signed {
        1
    } else {
        0
    };
    if word.len() == from {
        return None;
    }
    let digits = vstd::slice::slice_subrange(word, from, word.len());
    proof {
        assert(digits@ =~= if signed {
            word@.skip(1)
        } else {
            word@
        });
    }
    read_digits(digits)
}

/// Peak resident set size of a process, from the status that the kernel reports.
/// Makes the memory budget a testable number, not a claim.
pub fn peak_rss_kb(status: &str) -> (r: Option<u64>)
    ensures
        r == peak_rss_in(status@),
{
    let chars = chars_of(status);
    let lines = split_lines(chars.as_slice());
    let ghost said = lines_of(status@);
    proof {
        assert(said.take(0) =~= Seq::empty());
        assert(char_views(lines@).len() == lines@.len());
    }
    for i in 0..lines.len()
        invariant
            char_views(lines@) == said,
            said == lines_of(status@),
            lines@.len() == said.len(),
            first_line(said.take(i as int), "VmHWM:"@) is None,
    {
        proof {
            assert(said.take(i + 1).drop_last() =~= said.take(i as int));
            assert(char_views(lines@)[i as int] == lines@[i as int]@);
            assert(said.take(i + 1).last() == lines@[i as int]@);
        }
        if begins_with(lines[i].as_slice(), "VmHWM:") {
            proof {
                lemma_first_line_stays(said, "VmHWM:"@, i + 1);
            }
            let words = split_words(lines[i].as_slice());
            proof {
                assert(char_views(words@).len() == words@.len());
            }
            if words.len() > 1 {
                proof {
                    assert(char_views(words@)[1] == words@[1]@);
                }
                return read_number(words[1].as_slice());
            }
            return None;
        }
    }
    proof {
        assert(said.take(lines@.len() as int) =~= said);
    }
    None
}

proof fn lemma_first_line_stays(lines: Seq<Seq<char>>, prefix: Seq<char>, n: int)
    requires
        0 <= n <= lines.len(),
        first_line(lines.take(n), prefix) is Some,
    ensures
        first_line(lines, prefix) == first_line(lines.take(n), prefix),
    decreases lines.len(),
{
    if n < lines.len() {
        assert(lines.drop_last().take(n) =~= lines.take(n));
        lemma_first_line_stays(lines.drop_last(), prefix, n);
    } else {
        assert(lines.take(n) =~= lines);
    }
}

/// A version that cannot be decided is never shown as safe.
pub proof fn law_unknown_is_never_shown_as_safe(eco: Ecosystem, version: Seq<char>, a: Advisory)
    requires
        verdict_word(eco, version, a) == match_word(Match::NotAffected),
    ensures
        verdict_of(eco, version, a) == Match::NotAffected,
        !a.is_whole(),
{
    reveal_strlit("Affected");
    reveal_strlit("NotAffected");
    reveal_strlit("Unknown");
    reveal_strlit("WholePackage");
    assert("NotAffected"@.len() != "Affected"@.len());
    assert("NotAffected"@.len() != "Unknown"@.len());
    assert("NotAffected"@.len() != "WholePackage"@.len());
}

/// A version is shown by the word of its verdict, or as covered with the whole
/// package; the four words are never mixed up.
pub proof fn law_shown_word_is_the_verdict(eco: Ecosystem, version: Seq<char>, a: Advisory)
    ensures
        verdict_word(eco, version, a) == "WholePackage"@ <==> a.is_whole(),
        verdict_word(eco, version, a) == "Affected"@ <==> !a.is_whole() && verdict_of(eco, version, a)
            == Match::Affected,
        verdict_word(eco, version, a) == "NotAffected"@ <==> !a.is_whole() && verdict_of(eco, version, a)
            == Match::NotAffected,
        verdict_word(eco, version, a) == "Unknown"@ <==> !a.is_whole() && verdict_of(eco, version, a)
            == Match::Unknown,
{
    lemma_shown_words();
}

proof fn lemma_shown_words()
    ensures
        "Affected"@.len() == 8 && "NotAffected"@.len() == 11 && "Unknown"@.len() == 7 && "WholePackage"@.len() == 12,
        "Malicious"@.len() == 9 && "Vulnerability"@.len() == 13,
        "UNKNOWN"@.len() == 7 && "LOW"@.len() == 3 && "MODERATE"@.len() == 8 && "HIGH"@.len() == 4
            && "CRITICAL"@.len() == 8,
{
    reveal_strlit("Affected");
    reveal_strlit("NotAffected");
    reveal_strlit("Unknown");
    reveal_strlit("WholePackage");
    reveal_strlit("Malicious");
    reveal_strlit("Vulnerability");
    reveal_strlit("UNKNOWN");
    reveal_strlit("LOW");
    reveal_strlit("MODERATE");
    reveal_strlit("HIGH");
    reveal_strlit("CRITICAL");
}

/// A padded text begins with the text, is at least as long as asked for and no
/// longer than needed, and has nothing but blanks after it.
pub proof fn law_padding_adds_blanks_only(s: Seq<char>, width: int)
    ensures
        padded(s, width).len() == (if s.len() < width {
            width
        } else {
            s.len() as int
        }),
        padded(s, width).take(s.len() as int) == s,
        forall|i: int| s.len() <= i < padded(s, width).len() ==> #[trigger] padded(s, width)[i] == ' ',
{
    assert(padded(s, width).take(s.len() as int) =~= s);
}

/// A line shows a word from a place on.
pub open spec fn shows_at(line: Seq<char>, at: int, word: Seq<char>) -> bool {
    line.subrange(at, at + word.len()) == word
}

/// What is printed of an advisory stands in columns: its id, its severity, its
/// kind and the verdict, each at its own place, and the fix at the end, or a
/// hyphen where there is none.
pub proof fn law_advisory_line_has_columns(eco: Ecosystem, version: Seq<char>, a: Advisory)
    requires
        a.id.len() <= 24,
    ensures
        ({
            let line = advisory_line(eco, version, a);
            let severity = a.severity.word();
            let kind = kind_word(a.kind);
            let verdict = verdict_word(eco, version, a);
            &&& line.len() >= 70
            &&& shows_at(line, 2, a.id)
            &&& shows_at(line, 27, severity)
            &&& shows_at(line, 37, kind)
            &&& shows_at(line, 52, verdict)
            &&& a.kind == Kind::Malicious ==> kind == "Malicious"@
            &&& a.kind == Kind::Vulnerability ==> kind == "Vulnerability"@
            &&& a.fixed_in matches Some(f) ==> line.skip(65) == " fix="@ + f
            &&& a.fixed_in is None ==> line.skip(65) == " fix="@ + "-"@
        }),
{
    lemma_shown_words();
    reveal_strlit("  ");
    reveal_strlit(" ");
    reveal_strlit(" fix=");
    let line = advisory_line(eco, version, a);
    let (p, q, r, s) = (
        padded(a.id, 24),
        padded(a.severity.word(), 9),
        padded(kind_word(a.kind), 14),
        padded(verdict_word(eco, version, a), 13),
    );
    let fix = match a.fixed_in {
        Some(f) => f,
        None => "-"@,
    };
    assert(p.len() == 24 && q.len() == 9 && r.len() == 14 && s.len() == 13);
    let head = "  "@ + p + " "@ + q + " "@ + r + " "@ + s;
    assert(line == head + " fix="@ + fix);
    assert(line =~= head + (" fix="@ + fix));
    lemma_columns(line, p, q, r, s, " fix="@ + fix);
    assert(line.subrange(2int, 2int + a.id.len()) =~= p.take(a.id.len() as int));
    law_padding_adds_blanks_only(a.id, 24);
    assert(line.subrange(27int, 27int + a.severity.word().len()) =~= q.take(a.severity.word().len() as int));
    law_padding_adds_blanks_only(a.severity.word(), 9);
    assert(line.subrange(37int, 37int + kind_word(a.kind).len()) =~= r.take(kind_word(a.kind).len() as int));
    law_padding_adds_blanks_only(kind_word(a.kind), 14);
    let verdict = verdict_word(eco, version, a);
    assert(line.subrange(52int, 52int + verdict.len()) =~= s.take(verdict.len() as int));
    law_padding_adds_blanks_only(verdict, 13);
}

proof fn lemma_columns(
    line: Seq<char>,
    p: Seq<char>,
    q: Seq<char>,
    r: Seq<char>,
    s: Seq<char>,
    tail: Seq<char>,
)
    requires
        p.len() == 24,
        q.len() == 9,
        r.len() == 14,
        s.len() == 13,
        "  "@.len() == 2,
        " "@.len() == 1,
        line.len() == 65 + tail.len(),
        line == "  "@ + p + " "@ + q + " "@ + r + " "@ + s + tail,
    ensures
        forall|i: int| 0 <= i < 24 ==> line[2 + i] == #[trigger] p[i],
        forall|i: int| 0 <= i < 9 ==> line[27 + i] == #[trigger] q[i],
        forall|i: int| 0 <= i < 14 ==> line[37 + i] == #[trigger] r[i],
        forall|i: int| 0 <= i < 13 ==> line[52 + i] == #[trigger] s[i],
        line.skip(65) == tail,
{
    assert(line.skip(65) =~= tail);
}

/// An explanation has a first line and then one for each advisory, in the order of
/// the feed. The first one names the package and says how many there are.
pub proof fn law_explanation_has_a_line_each(
    eco: Ecosystem,
    name: Seq<char>,
    version: Seq<char>,
    advisories: Seq<Advisory>,
)
    ensures
        ({
            let lines = explanation(eco, name, version, advisories);
            &&& lines.len() == advisories.len() + 1
            &&& forall|i: int|
                0 <= i < advisories.len() ==> #[trigger] lines[i + 1] == advisory_line(eco, version, advisories[i])
            &&& advisories.len() == 0 ==> lines[0] == name + ": no advisories in this snapshot"@
            &&& advisories.len() > 0 ==> past_prefix(
                lines[0],
                name + "@"@ + version + " — "@ + decimal(advisories.len()) + " "@,
            ) is Some
        }),
{
    if advisories.len() > 0 {
        reveal_strlit(" ");
        reveal_strlit(" advisories touch this package");
        let tail = " advisories touch this package"@;
        assert(tail =~= " "@ + tail.skip(1));
        let head = name + "@"@ + version + " — "@ + decimal(advisories.len());
        let first = heading(name, version, advisories.len());
        assert(first == head + tail);
        assert(first =~= (head + " "@) + tail.skip(1));
        law_ends_come_off(tail.skip(1), head + " "@, first);
    }
}

/// Wholly malicious packages are counted advisory by advisory.
pub proof fn law_wholly_malicious_are_counted(
    a: Seq<(Seq<char>, Advisory)>,
    b: Seq<(Seq<char>, Advisory)>,
    one: (Seq<char>, Advisory),
)
    ensures
        wholly_malicious_in(a + b) == wholly_malicious_in(a) + wholly_malicious_in(b),
        wholly_malicious_in(seq![one]) == (if is_wholly_malicious(one.1) {
            1nat
        } else {
            0nat
        }),
        wholly_malicious_in(Seq::empty()) == 0,
    decreases b.len(),
{
    assert(seq![one].drop_last() =~= Seq::empty());
    assert(wholly_malicious_in(seq![one].drop_last()) == 0);
    if b.len() == 0 {
        assert(a + b =~= a);
    } else {
        law_wholly_malicious_are_counted(a, b.drop_last(), one);
        assert((a + b).drop_last() =~= a + b.drop_last());
    }
}

proof fn lemma_some_line(text: Seq<char>)
    ensures
        lines_of(text).len() > 0,
    decreases text.len(),
{
    if text.len() > 0 {
        lemma_some_line(text.drop_last());
    }
}

proof fn lemma_lines_part(a: Seq<char>, b: Seq<char>)
    ensures
        lines_of(a + "\n"@ + b) == lines_of(a) + lines_of(b),
    decreases b.len(),
{
    reveal_strlit("\n");
    let text = a + "\n"@ + b;
    if b.len() == 0 {
        assert(text =~= a.push('\n'));
        assert(a.push('\n').drop_last() =~= a);
        assert(lines_of(text) =~= lines_of(a) + lines_of(b));
    } else {
        let c = b.drop_last();
        lemma_lines_part(a, c);
        lemma_some_line(c);
        assert(text.drop_last() =~= a + "\n"@ + c);
        assert(text.last() == b.last());
        let before = lines_of(a) + lines_of(c);
        assert(before.last() == lines_of(c).last());
        assert(before.drop_last() =~= lines_of(a) + lines_of(c).drop_last());
        assert(lines_of(text) =~= lines_of(a) + lines_of(b));
    }
}

proof fn lemma_one_line(line: Seq<char>)
    requires
        !line.contains('\n'),
    ensures
        lines_of(line) == seq![line],
    decreases line.len(),
{
    if line.len() == 0 {
        assert(line =~= Seq::empty());
    } else {
        let c = line.drop_last();
        assert(line[line.len() - 1] == line.last());
        assert(!c.contains('\n')) by {
            if c.contains('\n') {
                let i = choose|i: int| 0 <= i < c.len() && c[i] == '\n';
                assert(line[i] == '\n');
            }
        }
        lemma_one_line(c);
        assert(c.push(line.last()) =~= line);
        assert(lines_of(line) =~= seq![line]);
    }
}

/// Lines with newlines between them are the lines of that text.
pub proof fn law_newlines_part_lines(lines: Seq<Seq<char>>)
    requires
        lines.len() > 0,
        forall|i: int| 0 <= i < lines.len() ==> !(#[trigger] lines[i]).contains('\n'),
    ensures
        lines_of(joined(lines, "\n"@)) == lines,
    decreases lines.len(),
{
    let last = lines.last();
    assert(lines[lines.len() - 1] == last);
    lemma_one_line(last);
    if lines.len() == 1 {
        assert(lines =~= seq![last]);
    } else {
        let fewer = lines.drop_last();
        assert forall|i: int| 0 <= i < fewer.len() implies !(#[trigger] fewer[i]).contains('\n') by {
            assert(fewer[i] == lines[i]);
        }
        law_newlines_part_lines(fewer);
        lemma_lines_part(joined(fewer, "\n"@), last);
        assert(fewer + seq![last] =~= lines);
    }
}

proof fn lemma_words_part(a: Seq<char>, c: char, b: Seq<char>)
    requires
        is_blank(c),
    ensures
        words_so_far(a.push(c) + b) == (words_of(a) + words_so_far(b).0, words_so_far(b).1),
    decreases b.len(),
{
    let line = a.push(c) + b;
    if b.len() == 0 {
        assert(line =~= a.push(c));
        assert(a.push(c).drop_last() =~= a);
        let (done, word) = words_so_far(a);
        assert(words_of(a) + Seq::<Seq<char>>::empty() =~= words_of(a));
        if word.len() == 0 {
            assert(word =~= Seq::empty());
        }
    } else {
        let d = b.drop_last();
        lemma_words_part(a, c, d);
        assert(line.drop_last() =~= a.push(c) + d);
        assert(line.last() == b.last());
        let (done, word) = words_so_far(d);
        assert((words_of(a) + done).push(word) =~= words_of(a) + done.push(word));
    }
}

/// A blank parts words: what stands before it and after it are words of their own,
/// and a text without a blank is one word.
pub proof fn law_blanks_part_words(a: Seq<char>, c: char, b: Seq<char>, word: Seq<char>)
    requires
        is_blank(c),
    ensures
        words_of(a.push(c) + b) == words_of(a) + words_of(b),
        word.len() > 0 && (forall|i: int| 0 <= i < word.len() ==> !is_blank(#[trigger] word[i])) ==> words_of(word)
            == seq![word],
        words_of(Seq::empty()).len() == 0,
{
    lemma_words_part(a, c, b);
    let (done, last) = words_so_far(b);
    assert((words_of(a) + done).push(last) =~= words_of(a) + done.push(last));
    if word.len() > 0 && (forall|i: int| 0 <= i < word.len() ==> !is_blank(#[trigger] word[i])) {
        lemma_one_word(word);
        assert(words_of(word) =~= seq![word]);
    }
}

proof fn lemma_one_word(word: Seq<char>)
    requires
        forall|i: int| 0 <= i < word.len() ==> !is_blank(#[trigger] word[i]),
    ensures
        words_so_far(word) == (Seq::<Seq<char>>::empty(), word),
    decreases word.len(),
{
    if word.len() == 0 {
        assert(word =~= Seq::empty());
    } else {
        let fewer = word.drop_last();
        assert forall|i: int| 0 <= i < fewer.len() implies !is_blank(#[trigger] fewer[i]) by {
            assert(fewer[i] == word[i]);
        }
        lemma_one_word(fewer);
        assert(!is_blank(word[word.len() - 1]));
        assert(fewer.push(word.last()) =~= word);
    }
}

/// A number in decimal is read back as itself.
pub proof fn law_numbers_read_back(n: u64)
    ensures
        number_in(decimal(n as nat)) == Some(n),
        number_in(seq!['+'] + decimal(n as nat)) == Some(n),
        number_in(Seq::empty()) is None,
{
    let text = decimal(n as nat);
    law_decimal_is_positional(n as nat);
    lemma_digits_read_back(n as nat);
    assert(0 <= crate::text::digit_value(text[0]) <= 9);
    assert((seq!['+'] + text).skip(1) =~= text);
}

proof fn lemma_digits_read_back(n: nat)
    ensures
        digits_value(decimal(n)) == Some(n),
    decreases n,
{
    law_decimal_is_positional(n);
    let text = decimal(n);
    let last = text.len() - 1;
    assert(0 <= crate::text::digit_value(text[last]) <= 9);
    assert(text[last] == text.last());
    if n >= 10 {
        lemma_digits_read_back(n / 10);
    } else {
        assert(text.drop_last() =~= Seq::empty());
        assert(digits_value(text.drop_last()) == Some(0nat));
    }
}

proof fn lemma_gap(gap: Seq<char>, rest: Seq<char>)
    requires
        forall|i: int| 0 <= i < gap.len() ==> is_blank(#[trigger] gap[i]),
    ensures
        words_of(gap + rest) == words_of(rest),
    decreases gap.len(),
{
    if gap.len() == 0 {
        assert(gap + rest =~= rest);
    } else {
        let next = gap.skip(1);
        assert forall|i: int| 0 <= i < next.len() implies is_blank(#[trigger] next[i]) by {
            assert(is_blank(gap[i + 1]));
        }
        lemma_gap(next, rest);
        let none = Seq::<char>::empty();
        assert(gap + rest =~= none.push(gap[0]) + (next + rest));
        law_blanks_part_words(none, gap[0], next + rest, none);
        assert(words_of(none) + words_of(rest) =~= words_of(rest));
    }
}

/// The peak memory is the number after the label: a status whose first line with
/// the label `VmHWM:` goes on with blanks, a number and a unit reports just that
/// number, whatever the other lines say.
pub proof fn law_peak_is_the_number_after_its_label(
    lines: Seq<Seq<char>>,
    i: int,
    gap: Seq<char>,
    n: u64,
    unit: Seq<char>,
)
    requires
        0 <= i < lines.len(),
        forall|k: int| 0 <= k < lines.len() ==> !(#[trigger] lines[k]).contains('\n'),
        forall|k: int| 0 <= k < i ==> !"VmHWM:"@.is_prefix_of(#[trigger] lines[k]),
        gap.len() > 0,
        forall|k: int| 0 <= k < gap.len() ==> is_blank(#[trigger] gap[k]),
        lines[i] == "VmHWM:"@ + gap + decimal(n as nat) + " "@ + unit,
    ensures
        peak_rss_in(joined(lines, "\n"@)) == Some(n),
{
    let label = "VmHWM:"@;
    let number = decimal(n as nat);
    let line = lines[i];
    reveal_strlit("VmHWM:");
    reveal_strlit(" ");
    law_newlines_part_lines(lines);
    assert(line.subrange(0, label.len() as int) =~= label);
    lemma_first_such(lines, label, i);
    law_decimal_is_positional(n as nat);
    law_numbers_read_back(n);
    assert forall|k: int| 0 <= k < number.len() implies !is_blank(#[trigger] number[k]) by {
        assert(0 <= crate::text::digit_value(number[k]) <= 9);
    }
    assert forall|k: int| 0 <= k < label.len() implies !is_blank(#[trigger] label[k]) by {}
    let tail = number.push(' ') + unit;
    law_blanks_part_words(number, ' ', unit, number);
    let next = gap.skip(1);
    assert forall|k: int| 0 <= k < next.len() implies is_blank(#[trigger] next[k]) by {
        assert(is_blank(gap[k + 1]));
    }
    lemma_gap(next, tail);
    assert(is_blank(gap[0]));
    law_blanks_part_words(label, gap[0], next + tail, label);
    assert(line =~= label.push(gap[0]) + (next + tail));
    assert(words_of(line) =~= seq![label] + (seq![number] + words_of(unit)));
    assert(words_of(line)[1] == number);
}

/// A status without the label reports nothing.
pub proof fn law_no_label_no_peak(lines: Seq<Seq<char>>)
    requires
        lines.len() > 0,
        forall|k: int| 0 <= k < lines.len() ==> !(#[trigger] lines[k]).contains('\n'),
        forall|k: int| 0 <= k < lines.len() ==> !"VmHWM:"@.is_prefix_of(#[trigger] lines[k]),
    ensures
        peak_rss_in(joined(lines, "\n"@)) is None,
{
    law_newlines_part_lines(lines);
    lemma_none_such(lines, "VmHWM:"@);
}

proof fn lemma_first_such(lines: Seq<Seq<char>>, prefix: Seq<char>, i: int)
    requires
        0 <= i < lines.len(),
        prefix.is_prefix_of(lines[i]),
        forall|k: int| 0 <= k < i ==> !prefix.is_prefix_of(#[trigger] lines[k]),
    ensures
        first_line(lines, prefix) == Some(lines[i]),
    decreases lines.len(),
{
    let fewer = lines.drop_last();
    assert forall|k: int| 0 <= k < i implies !prefix.is_prefix_of(#[trigger] fewer[k]) by {
        assert(fewer[k] == lines[k]);
    }
    if i < fewer.len() {
        lemma_first_such(fewer, prefix, i);
    } else {
        lemma_none_such(fewer, prefix);
    }
}

proof fn lemma_none_such(lines: Seq<Seq<char>>, prefix: Seq<char>)
    requires
        forall|k: int| 0 <= k < lines.len() ==> !prefix.is_prefix_of(#[trigger] lines[k]),
    ensures
        first_line(lines, prefix) is None,
    decreases lines.len(),
{
    if lines.len() > 0 {
        let fewer = lines.drop_last();
        assert forall|k: int| 0 <= k < fewer.len() implies !prefix.is_prefix_of(#[trigger] fewer[k]) by {
            assert(fewer[k] == lines[k]);
        }
        lemma_none_such(fewer, prefix);
        assert(!prefix.is_prefix_of(lines[lines.len() - 1]));
    }
}

/// Blanks, tabs and the ends of lines part words; letters, digits and signs do
/// not.
pub proof fn law_what_parts_words(c: char)
    ensures
        c == ' ' || c == '\t' || c == '\n' || c == '\r' ==> is_blank(c),
        '!' <= c <= '~' ==> !is_blank(c),
{
}

} // verus!
