//! Building and taking apart texts.

use vstd::prelude::*;
use vstd::slice::slice_subrange;

verus! {

/// `String::push` of the standard library appends the character to the text
/// and changes nothing else.
pub assume_specification[ String::push ](s: &mut String, c: char)
    ensures
        final(s)@ == old(s)@.push(c),
;

/// The ASCII lower case of a character; every other character is itself.
pub open spec fn ascii_lower(c: char) -> char {
    if 'A' <= c <= 'Z' {
        (c as u32 + 32) as char
    } else {
        c
    }
}

/// The ASCII upper case of a character; every other character is itself.
pub open spec fn ascii_upper(c: char) -> char {
    if 'a' <= c <= 'z' {
        (c as u32 - 32) as char
    } else {
        c
    }
}

/// A text with its ASCII letters in lower case.
pub open spec fn lower_case(s: Seq<char>) -> Seq<char> {
    Seq::new(s.len(), |i: int| ascii_lower(s[i]))
}

/// A text with its ASCII letters in upper case.
pub open spec fn upper_case(s: Seq<char>) -> Seq<char> {
    Seq::new(s.len(), |i: int| ascii_upper(s[i]))
}

fn lower_char(c: char) -> (r: char)
    ensures
        r == ascii_lower(c),
{
    if 'A' <= c && c <= 'Z' {
        ((c as u8) + 32) as char
    } else {
        c
    }
}

fn upper_char(c: char) -> (r: char)
    ensures
        r == ascii_upper(c),
{
    if 'a' <= c && c <= 'z' {
        ((c as u8) - 32) as char
    } else {
        c
    }
}

/// The characters of a text.
pub fn chars_of(s: &str) -> (out: Vec<char>)
    ensures
        out@ == s@,
{
    let mut out: Vec<char> = Vec::new();
    for c in it: s.chars()
        invariant
            out@ == it.seq().take(it.index() as int),
            it.seq() == s@,
    {
        out.push(c);
    }
    out
}

/// The text made of the characters `lo..hi`.
pub fn text_of(chars: &[char], lo: usize, hi: usize) -> (out: String)
    requires
        lo <= hi <= chars@.len(),
    ensures
        out@ == chars@.subrange(lo as int, hi as int),
{
    let mut out = String::new();
    let mut i: usize = lo;
    while i < hi
        invariant
            lo <= i <= hi <= chars@.len(),
            out@ == chars@.subrange(lo as int, i as int),
        decreases hi - i,
    {
        out.push(chars[i]);
        i = i + 1;
    }
    out
}

/// A copy of the text with its ASCII letters in lower case.
pub fn to_lower(s: &str) -> (out: String)
    ensures
        out@ == lower_case(s@),
{
    let chars = chars_of(s);
    let mut out = String::new();
    for i in 0..chars.len()
        invariant
            out@ == lower_case(chars@).take(i as int),
    {
        out.push(lower_char(chars[i]));
    }
    out
}

/// A copy of the text with its ASCII letters in upper case.
pub fn to_upper(s: &str) -> (out: String)
    ensures
        out@ == upper_case(s@),
{
    let chars = chars_of(s);
    let mut out = String::new();
    for i in 0..chars.len()
        invariant
            out@ == upper_case(chars@).take(i as int),
    {
        out.push(upper_char(chars[i]));
    }
    out
}

/// The character of a decimal digit.
pub open spec fn digit(d: int) -> char {
    (d + 48) as char
}

/// A number in decimal, without leading zeros.
pub open spec fn decimal(n: nat) -> Seq<char>
    decreases n,
{
    if n < 10 {
        seq![digit(n as int)]
    } else {
        decimal(n / 10).push(digit((n % 10) as int))
    }
}

fn digit_char(d: u8) -> (c: char)
    requires
        d < 10,
    ensures
        c == digit(d as int),
{
    (48 + d) as char
}

/// A number in decimal, without leading zeros.
pub fn decimal_text(n: u64) -> (out: String)
    ensures
        out@ == decimal(n as nat),
    decreases n,
{
    if n < 10 {
        let mut out = String::new();
        out.push(digit_char(n as u8));
        out
    } else {
        let mut out = decimal_text(n / 10);
        out.push(digit_char((n % 10) as u8));
        out
    }
}

/// `n` times the same character.
pub open spec fn run_of(c: char, n: int) -> Seq<char> {
    Seq::new(if n > 0 { n as nat } else { 0 }, |i: int| c)
}

/// A number in decimal, its sign first where it is negative, filled with zeros
/// to at least `width` characters.
pub open spec fn zero_filled(n: int, width: int) -> Seq<char> {
    if n < 0 {
        seq!['-'] + run_of('0', width - 1 - decimal((-n) as nat).len()) + decimal((-n) as nat)
    } else {
        run_of('0', width - decimal(n as nat).len()) + decimal(n as nat)
    }
}

/// Appends `n` times the same character.
pub fn push_run(out: &mut String, c: char, n: usize)
    ensures
        final(out)@ == old(out)@ + run_of(c, n as int),
{
    let mut i: usize = 0;
    while i < n
        invariant
            i <= n,
            out@ == old(out)@ + run_of(c, i as int),
        decreases n - i,
    {
        out.push(c);
        i = i + 1;
    }
}

/// Appends a number filled with zeros to at least `width` characters.
pub fn push_zero_filled(out: &mut String, n: i64, width: usize)
    requires
        n > i64::MIN,
        width >= 1,
    ensures
        final(out)@ == old(out)@ + zero_filled(n as int, width as int),
{
    let negative: bool = n < 0;
    let size: u64 = if negative {
        (-n) as u64
    } else {
        n as u64
    };
    let digits = decimal_text(size);
    let len: usize = digits.as_str().unicode_len();
    let ghost start = out@;
    let room: usize = if negative {
        width - 1
    } else {
        width
    };
    if negative {
        out.push('-');
    }
    if len < room {
        push_run(out, '0', room - len);
    }
    out.append(digits.as_str());
    proof {
        assert(out@ =~= start + zero_filled(n as int, width as int));
    }
}

/// The texts of a list, one after the other with `sep` between them.
pub open spec fn joined(list: Seq<Seq<char>>, sep: Seq<char>) -> Seq<char>
    decreases list.len(),
{
    if list.len() == 0 {
        seq![]
    } else if list.len() == 1 {
        list[0]
    } else {
        joined(list.drop_last(), sep) + sep + list.last()
    }
}

/// What a list of texts says.
pub open spec fn views(list: Seq<String>) -> Seq<Seq<char>> {
    Seq::new(list.len(), |i: int| list[i]@)
}

/// Joins the texts of a list with `sep` between them.
pub fn join_texts(list: &[String], sep: &str) -> (out: String)
    ensures
        out@ == joined(views(list@), sep@),
{
    let mut out = String::new();
    for i in 0..list.len()
        invariant
            out@ == joined(views(list@).take(i as int), sep@),
    {
        proof {
            let next = views(list@).take(i + 1);
            assert(next.drop_last() =~= views(list@).take(i as int));
            assert(next.last() == list@[i as int]@);
        }
        if i > 0 {
            out.append(sep);
        }
        out.append(list[i].as_str());
        proof {
            assert(views(list@).take(i + 1).len() == i + 1);
        }
    }
    proof {
        assert(views(list@).take(list@.len() as int) =~= views(list@));
    }
    out
}

/// Tests whether the characters begin with `prefix`.
pub fn begins_with(chars: &[char], prefix: &str) -> (r: bool)
    ensures
        r == prefix@.is_prefix_of(chars@),
{
    let head = chars_of(prefix);
    if head.len() > chars.len() {
        return false;
    }
    for i in 0..head.len()
        invariant
            head@ == prefix@,
            head@.len() <= chars@.len(),
            forall|k: int| 0 <= k < i ==> head@[k] == chars@[k],
    {
        if head[i] != chars[i] {
            proof {
                assert(chars@.subrange(0, head@.len() as int)[i as int] != head@[i as int]);
            }
            return false;
        }
    }
    proof {
        assert(chars@.subrange(0, head@.len() as int) =~= head@);
    }
    true
}

/// Tests whether the characters end with `suffix`.
pub fn ends_with(chars: &[char], suffix: &str) -> (r: bool)
    ensures
        r == suffix@.is_suffix_of(chars@),
{
    let tail = chars_of(suffix);
    if tail.len() > chars.len() {
        return false;
    }
    let len: usize = chars.len();
    let from: usize = len - tail.len();
    for i in 0..tail.len()
        invariant
            tail@ == suffix@,
            tail@.len() <= chars@.len(),
            len == chars@.len(),
            from == len - tail@.len(),
            forall|k: int| 0 <= k < i ==> tail@[k] == chars@[from + k],
    {
        if tail[i] != chars[from + i] {
            proof {
                assert(chars@.subrange(from as int, chars@.len() as int)[i as int] != tail@[i as int]);
            }
            return false;
        }
    }
    proof {
        assert(chars@.subrange(from as int, chars@.len() as int) =~= tail@);
    }
    true
}

/// What is left of a text without a prefix, where it has it.
pub open spec fn past_prefix(s: Seq<char>, prefix: Seq<char>) -> Option<Seq<char>> {
    if prefix.is_prefix_of(s) {
        Some(s.skip(prefix.len() as int))
    } else {
        None
    }
}

/// What is left of a text without a suffix, where it has it.
pub open spec fn before_suffix(s: Seq<char>, suffix: Seq<char>) -> Option<Seq<char>> {
    if suffix.is_suffix_of(s) {
        Some(s.take(s.len() - suffix.len()))
    } else {
        None
    }
}

/// What an optional text says.
pub open spec fn said(o: Option<String>) -> Option<Seq<char>> {
    match o {
        Some(s) => Some(s@),
        None => None,
    }
}

/// The text without a prefix, where it has it.
pub fn strip_prefix(s: &str, prefix: &str) -> (r: Option<String>)
    ensures
        said(r) == past_prefix(s@, prefix@),
{
    let chars = chars_of(s);
    if begins_with(chars.as_slice(), prefix) {
        let rest = text_of(chars.as_slice(), chars_of(prefix).len(), chars.len());
        assert(rest@ =~= s@.skip(prefix@.len() as int));
        Some(rest)
    } else {
        None
    }
}

/// The text without a suffix, where it has it.
pub fn strip_suffix(s: &str, suffix: &str) -> (r: Option<String>)
    ensures
        said(r) == before_suffix(s@, suffix@),
{
    let chars = chars_of(s);
    if ends_with(chars.as_slice(), suffix) {
        let rest = text_of(chars.as_slice(), 0, chars.len() - chars_of(suffix).len());
        assert(rest@ =~= s@.take(s@.len() - suffix@.len()));
        Some(rest)
    } else {
        None
    }
}

/// `sep` stands at a place of the text.
pub open spec fn occurs_at(s: Seq<char>, sep: Seq<char>, at: int) -> bool {
    0 <= at && at + sep.len() <= s.len() && s.subrange(at, at + sep.len()) == sep
}

/// The last place of the text where `sep` stands.
pub open spec fn is_last_at(s: Seq<char>, sep: Seq<char>, at: int) -> bool {
    occurs_at(s, sep, at) && forall|j: int| #[trigger] occurs_at(s, sep, j) ==> j <= at
}

/// What stands before and after the last `sep` of a text, where there is one.
pub open spec fn split_at_last(s: Seq<char>, sep: Seq<char>) -> Option<(Seq<char>, Seq<char>)> {
    if exists|at: int| is_last_at(s, sep, at) {
        let at = choose|at: int| is_last_at(s, sep, at);
        Some((s.take(at), s.skip(at + sep.len())))
    } else {
        None
    }
}

/// Splits a text at the last `sep`.
pub fn rsplit_once(s: &str, sep: &str) -> (r: Option<(String, String)>)
    ensures
        r matches Some(p) ==> split_at_last(s@, sep@) == Some((p.0@, p.1@)),
        r is None ==> split_at_last(s@, sep@) is None,
{
    let chars = chars_of(s);
    let width: usize = chars_of(sep).len();
    let len: usize = chars.len();
    if width > len {
        return None;
    }
    let mut at: usize = len - width;
    loop
        invariant
            chars@ == s@,
            len == s@.len(),
            width == sep@.len(),
            at + width <= len,
            forall|j: int| #[trigger] occurs_at(s@, sep@, j) ==> j <= at,
        decreases at,
    {
        if begins_with(slice_subrange(chars.as_slice(), at, len), sep) {
            proof {
                let tail = s@.subrange(at as int, len as int);
                assert(tail.subrange(0, width as int) =~= s@.subrange(at as int, at + width));
                assert(is_last_at(s@, sep@, at as int));
                let found = choose|i: int| is_last_at(s@, sep@, i);
                assert(occurs_at(s@, sep@, found) && occurs_at(s@, sep@, at as int));
                assert(found == at);
            }
            let before = text_of(chars.as_slice(), 0, at);
            let after = text_of(chars.as_slice(), at + width, len);
            assert(before@ =~= s@.take(at as int));
            assert(after@ =~= s@.skip(at + width));
            return Some((before, after));
        }
        proof {
            let tail = s@.subrange(at as int, len as int);
            assert(tail.subrange(0, width as int) =~= s@.subrange(at as int, at + width));
            assert(!occurs_at(s@, sep@, at as int));
        }
        if at == 0 {
            return None;
        }
        at = at - 1;
    }
}

/// Changing the case changes letters only: capital letters move by 32 to small
/// ones, small ones back, and every other character stays.
pub proof fn law_case_changes_letters_only(s: Seq<char>, i: int)
    requires
        0 <= i < s.len(),
    ensures
        lower_case(s).len() == s.len(),
        upper_case(s).len() == s.len(),
        'A' <= s[i] <= 'Z' ==> lower_case(s)[i] as int == s[i] as int + 32,
        !('A' <= s[i] <= 'Z') ==> lower_case(s)[i] == s[i],
        'a' <= s[i] <= 'z' ==> upper_case(s)[i] as int == s[i] as int - 32,
        !('a' <= s[i] <= 'z') ==> upper_case(s)[i] == s[i],
{
}

/// `sep` occurs in a text at a place.
pub open spec fn stands_in(s: Seq<char>, sep: Seq<char>, at: int) -> bool {
    exists|before: Seq<char>, after: Seq<char>| s == #[trigger] (before + sep + after) && before.len() == at
}

proof fn lemma_stands_in(s: Seq<char>, sep: Seq<char>, at: int)
    ensures
        stands_in(s, sep, at) <==> occurs_at(s, sep, at),
{
    if stands_in(s, sep, at) {
        let (before, after) = choose|before: Seq<char>, after: Seq<char>|
            s == #[trigger] (before + sep + after) && before.len() == at;
        assert(s.subrange(at, at + sep.len()) =~= sep);
    }
    if occurs_at(s, sep, at) {
        let before = s.take(at);
        let after = s.skip(at + sep.len());
        assert(s =~= before + s.subrange(at, at + sep.len()) + after);
        assert(s == before + sep + after);
    }
}

proof fn lemma_last_place(s: Seq<char>, sep: Seq<char>, at: int)
    requires
        occurs_at(s, sep, at),
    ensures
        exists|last: int| is_last_at(s, sep, last),
    decreases s.len() - at,
{
    if exists|j: int| #[trigger] occurs_at(s, sep, j) && j > at {
        let j = choose|j: int| #[trigger] occurs_at(s, sep, j) && j > at;
        lemma_last_place(s, sep, j);
    } else {
        assert(is_last_at(s, sep, at));
    }
}

/// Splitting takes a text apart at the last place where `sep` stands: the two
/// parts with `sep` between them are the text again, `sep` stands nowhere
/// further on, and a text is left whole only where `sep` stands nowhere in it.
pub proof fn law_split_is_at_the_last_place(s: Seq<char>, sep: Seq<char>)
    ensures
        split_at_last(s, sep) matches Some(p) ==> s == p.0 + sep + p.1 && forall|at: int| #[trigger]
            stands_in(s, sep, at) ==> at <= p.0.len(),
        split_at_last(s, sep) is None ==> forall|at: int| !#[trigger] stands_in(s, sep, at),
{
    assert forall|at: int| #[trigger] stands_in(s, sep, at) <==> occurs_at(s, sep, at) by {
        lemma_stands_in(s, sep, at);
    }
    match split_at_last(s, sep) {
        Some(p) => {
            let at = choose|at: int| is_last_at(s, sep, at);
            assert(s =~= s.take(at) + s.subrange(at, at + sep.len()) + s.skip(at + sep.len()));
        },
        None => {
            assert forall|at: int| !#[trigger] stands_in(s, sep, at) by {
                if occurs_at(s, sep, at) {
                    lemma_last_place(s, sep, at);
                }
            }
        },
    }
}

/// Two parts with `sep` between them are what splitting gives back, where `sep`
/// stands nowhere after its place between them.
pub proof fn law_split_takes_apart_what_was_joined(a: Seq<char>, sep: Seq<char>, b: Seq<char>)
    requires
        forall|at: int| #[trigger] stands_in(a + sep + b, sep, at) ==> at <= a.len(),
    ensures
        split_at_last(a + sep + b, sep) == Some((a, b)),
{
    let s = a + sep + b;
    assert(stands_in(s, sep, a.len() as int));
    law_split_is_at_the_last_place(s, sep);
    let p = split_at_last(s, sep)->0;
    assert(stands_in(s, sep, p.0.len() as int));
    assert(p.0.len() == a.len());
    assert(p.0 =~= s.take(a.len() as int));
    assert(a =~= s.take(a.len() as int));
    assert(p.1 =~= s.skip((a.len() + sep.len()) as int));
    assert(b =~= s.skip((a.len() + sep.len()) as int));
}

/// The same for a separator of one character, which the second part must not
/// hold.
pub proof fn law_split_at_a_character(a: Seq<char>, sep: Seq<char>, b: Seq<char>)
    requires
        sep.len() == 1,
        !b.contains(sep[0]),
    ensures
        split_at_last(a + sep + b, sep) == Some((a, b)),
        split_at_last(b, sep) is None,
{
    let s = a + sep + b;
    assert forall|at: int| #[trigger] stands_in(s, sep, at) implies at <= a.len() by {
        lemma_stands_in(s, sep, at);
        if at > a.len() {
            assert(s.subrange(at, at + 1)[0] == s[at]);
            assert(b[at - a.len() - 1] == sep[0]);
        }
    }
    law_split_takes_apart_what_was_joined(a, sep, b);
    law_split_is_at_the_last_place(b, sep);
    if split_at_last(b, sep) is Some {
        let p = split_at_last(b, sep)->0;
        assert(b[p.0.len() as int] == sep[0]);
    }
}

/// A prefix or a suffix is taken off just where the text has it, and what is left
/// is the rest.
pub proof fn law_ends_come_off(rest: Seq<char>, end: Seq<char>, s: Seq<char>)
    ensures
        past_prefix(end + rest, end) == Some(rest),
        before_suffix(rest + end, end) == Some(rest),
        past_prefix(s, end) matches Some(r) ==> s == end + r,
        before_suffix(s, end) matches Some(r) ==> s == r + end,
{
    assert((end + rest).subrange(0, end.len() as int) =~= end);
    assert((end + rest).skip(end.len() as int) =~= rest);
    assert((rest + end).subrange(rest.len() as int, (rest + end).len() as int) =~= end);
    assert((rest + end).take(rest.len() as int) =~= rest);
    if end.is_prefix_of(s) {
        assert(s =~= end + s.skip(end.len() as int));
    }
    if end.is_suffix_of(s) {
        assert(s =~= s.take(s.len() - end.len()) + end);
    }
}

/// Joining puts the separator between each two texts, and nowhere else.
pub proof fn law_joining_adds_separators_only(list: Seq<Seq<char>>, sep: Seq<char>, next: Seq<char>)
    ensures
        joined(seq![next], sep) == next,
        list.len() > 0 ==> joined(list.push(next), sep) == joined(list, sep) + sep + next,
        joined(Seq::empty(), sep) == Seq::<char>::empty(),
{
    assert(list.push(next).drop_last() =~= list);
}

/// The value of a decimal digit.
pub open spec fn digit_value(c: char) -> int {
    c as int - '0' as int
}

/// A number is written with the ten digits, its last digit is its remainder by
/// ten, what stands before it is the tenth part, and it has no leading zero.
pub proof fn law_decimal_is_positional(n: nat)
    ensures
        decimal(n).len() > 0,
        forall|i: int| 0 <= i < decimal(n).len() ==> 0 <= digit_value(#[trigger] decimal(n)[i]) <= 9,
        digit_value(decimal(n).last()) == n % 10,
        n >= 10 ==> decimal(n).drop_last() == decimal(n / 10),
        n < 10 ==> decimal(n).len() == 1,
        n > 0 ==> digit_value(decimal(n)[0]) > 0,
    decreases n,
{
    if n >= 10 {
        law_decimal_is_positional(n / 10);
        assert(decimal(n).drop_last() =~= decimal(n / 10));
        assert forall|i: int| 0 <= i < decimal(n).len() implies 0 <= digit_value(#[trigger] decimal(n)[i]) <= 9 by {
            if i < decimal(n).len() - 1 {
                assert(decimal(n)[i] == decimal(n / 10)[i]);
            }
        }
    }
}

/// A number is filled up with zeros from the left, after its sign, and never cut.
pub proof fn law_zeros_fill_from_the_left(n: int, width: int)
    requires
        width >= 1,
    ensures
        n >= 0 ==> decimal(n as nat).is_suffix_of(zero_filled(n, width)),
        n >= 0 ==> zero_filled(n, width).len() == (if decimal(n as nat).len() < width {
            width
        } else {
            decimal(n as nat).len() as int
        }),
        n >= 0 ==> forall|i: int|
            0 <= i < zero_filled(n, width).len() - decimal(n as nat).len() ==> #[trigger] zero_filled(n, width)[i]
                == '0',
        n < 0 ==> zero_filled(n, width) == seq!['-'] + zero_filled(-n, width - 1),
{
    if n >= 0 {
        let text = zero_filled(n, width);
        let digits = decimal(n as nat);
        assert(text.subrange(text.len() - digits.len(), text.len() as int) =~= digits);
    } else {
        assert(zero_filled(n, width) =~= seq!['-'] + zero_filled(-n, width - 1));
    }
}

} // verus!
