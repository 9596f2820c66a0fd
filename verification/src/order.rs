//! The order of texts, and a stable sort built on it.
//!
//! Texts are ordered by their characters, a proper prefix first: the order in
//! which the blocklist, the inventory and the package names are written.

use vstd::prelude::*;

verus! {

/// Where one thing stands with regard to another.
#[derive(Debug, Clone, Copy, PartialEq, Eq, Structural)]
pub enum Standing {
    Before,
    Same,
    After,
}

/// Where `a` stands with regard to `b`, character by character.
pub open spec fn text_standing(a: Seq<char>, b: Seq<char>) -> Standing
    decreases a.len(),
{
    if a.len() == 0 && b.len() == 0 {
        Standing::Same
    } else if a.len() == 0 {
        Standing::Before
    } else if b.len() == 0 {
        Standing::After
    } else if a[0] < b[0] {
        Standing::Before
    } else if b[0] < a[0] {
        Standing::After
    } else {
        text_standing(a.drop_first(), b.drop_first())
    }
}

/// `a` comes strictly before `b`.
pub open spec fn text_before(a: Seq<char>, b: Seq<char>) -> bool {
    text_standing(a, b) == Standing::Before
}

/// Where the list of texts `a` stands with regard to `b`, text by text.
pub open spec fn key_standing(a: Seq<Seq<char>>, b: Seq<Seq<char>>) -> Standing
    decreases a.len(),
{
    if a.len() == 0 && b.len() == 0 {
        Standing::Same
    } else if a.len() == 0 {
        Standing::Before
    } else if b.len() == 0 {
        Standing::After
    } else if text_standing(a[0], b[0]) != Standing::Same {
        text_standing(a[0], b[0])
    } else {
        key_standing(a.drop_first(), b.drop_first())
    }
}

/// The key `a` comes strictly before the key `b`.
pub open spec fn key_before(a: Seq<Seq<char>>, b: Seq<Seq<char>>) -> bool {
    key_standing(a, b) == Standing::Before
}

/// Two texts stand in the same place only if they are equal.
pub proof fn lemma_text_same(a: Seq<char>, b: Seq<char>)
    ensures
        text_standing(a, b) == Standing::Same <==> a == b,
    decreases a.len(),
{
    if a.len() > 0 && b.len() > 0 {
        lemma_text_same(a.drop_first(), b.drop_first());
        if a[0] == b[0] && a.drop_first() == b.drop_first() {
            assert(a =~= seq![a[0]] + a.drop_first());
            assert(b =~= seq![b[0]] + b.drop_first());
        }
    } else if a.len() == 0 && b.len() == 0 {
        assert(a =~= b);
    }
}

/// Looking from the other side swaps before and after.
pub proof fn lemma_text_flip(a: Seq<char>, b: Seq<char>)
    ensures
        text_standing(a, b) == Standing::Before <==> text_standing(b, a) == Standing::After,
        text_standing(a, b) == Standing::Same <==> text_standing(b, a) == Standing::Same,
    decreases a.len(),
{
    if a.len() > 0 && b.len() > 0 {
        lemma_text_flip(a.drop_first(), b.drop_first());
    }
}

/// The order of texts is transitive.
pub proof fn lemma_text_transitive(a: Seq<char>, b: Seq<char>, c: Seq<char>)
    requires
        text_before(a, b),
        text_before(b, c),
    ensures
        text_before(a, c),
    decreases a.len(),
{
    if a.len() > 0 && b.len() > 0 && c.len() > 0 && a[0] == b[0] && b[0] == c[0] {
        lemma_text_transitive(a.drop_first(), b.drop_first(), c.drop_first());
    }
}

/// Two keys stand in the same place only if they are equal.
pub proof fn lemma_key_same(a: Seq<Seq<char>>, b: Seq<Seq<char>>)
    ensures
        key_standing(a, b) == Standing::Same <==> a == b,
    decreases a.len(),
{
    if a.len() > 0 && b.len() > 0 {
        lemma_text_same(a[0], b[0]);
        lemma_key_same(a.drop_first(), b.drop_first());
        if a[0] == b[0] && a.drop_first() == b.drop_first() {
            assert(a =~= seq![a[0]] + a.drop_first());
            assert(b =~= seq![b[0]] + b.drop_first());
        }
    } else if a.len() == 0 && b.len() == 0 {
        assert(a =~= b);
    }
}

/// Looking from the other side swaps before and after.
pub proof fn lemma_key_flip(a: Seq<Seq<char>>, b: Seq<Seq<char>>)
    ensures
        key_standing(a, b) == Standing::Before <==> key_standing(b, a) == Standing::After,
        key_standing(a, b) == Standing::Same <==> key_standing(b, a) == Standing::Same,
    decreases a.len(),
{
    if a.len() > 0 && b.len() > 0 {
        lemma_text_flip(a[0], b[0]);
        lemma_key_flip(a.drop_first(), b.drop_first());
    }
}

/// The order of keys is transitive.
pub proof fn lemma_key_transitive(a: Seq<Seq<char>>, b: Seq<Seq<char>>, c: Seq<Seq<char>>)
    requires
        key_before(a, b),
        key_before(b, c),
    ensures
        key_before(a, c),
    decreases a.len(),
{
    if a.len() > 0 && b.len() > 0 && c.len() > 0 {
        lemma_text_same(a[0], b[0]);
        lemma_text_same(b[0], c[0]);
        if a[0] == b[0] && b[0] == c[0] {
            lemma_key_transitive(a.drop_first(), b.drop_first(), c.drop_first());
        } else if a[0] != b[0] && b[0] != c[0] {
            lemma_text_transitive(a[0], b[0], c[0]);
        }
    }
}

/// Compares two texts, character by character.
pub fn compare_text(a: &str, b: &str) -> (r: Standing)
    ensures
        r == text_standing(a@, b@),
{
    let mut left = a.chars();
    let mut right = b.chars();
    loop
        invariant
            vstd::std_specs::iter::IteratorSpec::obeys_prophetic_iter_laws(&left),
            vstd::std_specs::iter::IteratorSpec::obeys_prophetic_iter_laws(&right),
            vstd::std_specs::iter::IteratorSpec::decrease(&left) is Some,
            text_standing(
                vstd::std_specs::iter::IteratorSpec::remaining(&left),
                vstd::std_specs::iter::IteratorSpec::remaining(&right),
            ) == text_standing(a@, b@),
        decreases vstd::std_specs::iter::IteratorSpec::decrease(&left)->0,
    {
        match (left.next(), right.next()) {
            (None, None) => {
                return Standing::Same;
            },
            (None, Some(_)) => {
                return Standing::Before;
            },
            (Some(_), None) => {
                return Standing::After;
            },
            (Some(x), Some(y)) => {
                if x < y {
                    return Standing::Before;
                }
                if y < x {
                    return Standing::After;
                }
            },
        }
    }
}

/// Tests two texts for equality.
pub fn same_text(a: &str, b: &str) -> (r: bool)
    ensures
        r == (a@ == b@),
{
    proof {
        lemma_text_same(a@, b@);
    }
    match compare_text(a, b) {
        Standing::Same => true,
        _ => false,
    }
}

/// Something that is sorted by a list of texts.
pub trait Keyed: Sized {
    /// The texts that decide the order, the weightiest first.
    spec fn key(&self) -> Seq<Seq<char>>;

    /// Compares two things by their keys.
    fn compare_keys(&self, other: &Self) -> (r: Standing)
        ensures
            r == key_standing(self.key(), other.key()),
    ;
}

impl Keyed for String {
    open spec fn key(&self) -> Seq<Seq<char>> {
        seq![self@]
    }

    fn compare_keys(&self, other: &Self) -> (r: Standing) {
        proof {
            reveal_with_fuel(key_standing, 2);
        }
        compare_text(self.as_str(), other.as_str())
    }
}

impl<'a> Keyed for &'a str {
    open spec fn key(&self) -> Seq<Seq<char>> {
        seq![self@]
    }

    fn compare_keys(&self, other: &Self) -> (r: Standing) {
        proof {
            reveal_with_fuel(key_standing, 2);
        }
        compare_text(*self, *other)
    }
}

impl Keyed for (String, String) {
    open spec fn key(&self) -> Seq<Seq<char>> {
        seq![self.0@, self.1@]
    }

    fn compare_keys(&self, other: &Self) -> (r: Standing) {
        proof {
            reveal_with_fuel(key_standing, 3);
            let a = self.key();
            let b = other.key();
            assert(a.drop_first() =~= seq![self.1@]);
            assert(b.drop_first() =~= seq![other.1@]);
        }
        match compare_text(self.0.as_str(), other.0.as_str()) {
            Standing::Same => compare_text(self.1.as_str(), other.1.as_str()),
            other_place => other_place,
        }
    }
}

/// Slot `i` of `items` is sorted before slot `j`: by the key, and by the place
/// where the keys are equal.
pub open spec fn slot_before<T: Keyed>(items: Seq<T>, i: int, j: int) -> bool {
    key_before(items[i].key(), items[j].key()) || (items[i].key() == items[j].key() && i < j)
}

/// `slots` lists the slots `lo..hi` of `items`, each once, in sorted order.
pub open spec fn sorted_slots<T: Keyed>(items: Seq<T>, slots: Seq<usize>, lo: int, hi: int) -> bool {
    &&& slots.len() == hi - lo
    &&& forall|i: int| 0 <= i < slots.len() ==> lo <= #[trigger] slots[i] < hi
    &&& forall|i: int, j: int|
        0 <= i < j < slots.len() ==> slot_before(items, #[trigger] slots[i] as int, #[trigger] slots[j] as int)
    &&& forall|k: usize| lo <= k < hi ==> #[trigger] slots.contains(k)
}

proof fn lemma_slot_transitive<T: Keyed>(items: Seq<T>, i: int, j: int, k: int)
    requires
        slot_before(items, i, j),
        slot_before(items, j, k),
    ensures
        slot_before(items, i, k),
{
    if key_before(items[i].key(), items[j].key()) && key_before(items[j].key(), items[k].key()) {
        lemma_key_transitive(items[i].key(), items[j].key(), items[k].key());
    }
}

/// Merges two sorted runs of neighbouring slots.
fn merge_slots<T: Keyed>(
    items: &[T],
    a: &Vec<usize>,
    b: &Vec<usize>,
    lo: usize,
    mid: usize,
    hi: usize,
) -> (out: Vec<usize>)
    requires
        lo <= mid <= hi <= items@.len(),
        sorted_slots(items@, a@, lo as int, mid as int),
        sorted_slots(items@, b@, mid as int, hi as int),
    ensures
        sorted_slots(items@, out@, lo as int, hi as int),
{
    let mut out: Vec<usize> = Vec::with_capacity(hi - lo);
    let mut i: usize = 0;
    let mut j: usize = 0;
    while i < a.len() || j < b.len()
        invariant
            lo <= mid <= hi <= items@.len(),
            sorted_slots(items@, a@, lo as int, mid as int),
            sorted_slots(items@, b@, mid as int, hi as int),
            i <= a@.len(),
            j <= b@.len(),
            out@.len() == i + j,
            forall|x: int| 0 <= x < out@.len() ==> lo <= #[trigger] out@[x] < hi,
            forall|x: int, y: int|
                0 <= x < y < out@.len() ==> slot_before(
                    items@,
                    #[trigger] out@[x] as int,
                    #[trigger] out@[y] as int,
                ),
            forall|x: int, y: int|
                0 <= x < out@.len() && i <= y < a@.len() ==> slot_before(
                    items@,
                    #[trigger] out@[x] as int,
                    #[trigger] a@[y] as int,
                ),
            forall|x: int, y: int|
                0 <= x < out@.len() && j <= y < b@.len() ==> slot_before(
                    items@,
                    #[trigger] out@[x] as int,
                    #[trigger] b@[y] as int,
                ),
            forall|x: int| 0 <= x < i ==> out@.contains(#[trigger] a@[x]),
            forall|x: int| 0 <= x < j ==> out@.contains(#[trigger] b@[x]),
        decreases a@.len() - i + b@.len() - j,
    {
        let take_left: bool = if i == a.len() {
            false
        } else if j == b.len() {
            true
        } else {
            match items[a[i]].compare_keys(&items[b[j]]) {
                Standing::After => false,
                _ => true,
            }
        };
        let ghost before = out@;
        if take_left {
            proof {
                if j < b@.len() {
                    let x = a@[i as int] as int;
                    let y = b@[j as int] as int;
                    lemma_key_same(items@[x].key(), items@[y].key());
                    assert(slot_before(items@, x, y));
                    assert forall|k: int| j <= k < b@.len() implies slot_before(
                        items@,
                        x,
                        #[trigger] b@[k] as int,
                    ) by {
                        if k > j {
                            lemma_slot_transitive(items@, x, y, b@[k] as int);
                        }
                    }
                }
            }
            out.push(a[i]);
            i = i + 1;
        } else {
            proof {
                if i < a@.len() {
                    let x = b@[j as int] as int;
                    let y = a@[i as int] as int;
                    lemma_key_flip(items@[x].key(), items@[y].key());
                    assert(slot_before(items@, x, y));
                    assert forall|k: int| i <= k < a@.len() implies slot_before(
                        items@,
                        x,
                        #[trigger] a@[k] as int,
                    ) by {
                        if k > i {
                            lemma_slot_transitive(items@, x, y, a@[k] as int);
                        }
                    }
                }
            }
            out.push(b[j]);
            j = j + 1;
        }
        proof {
            assert(out@.drop_last() =~= before);
            assert(out@.last() == out@[out@.len() - 1]);
            assert forall|v: usize| before.contains(v) implies out@.contains(v) by {
                let k = choose|k: int| 0 <= k < before.len() && before[k] == v;
                assert(out@[k] == v);
            }
        }
    }
    proof {
        assert forall|k: usize| lo <= k < hi implies #[trigger] out@.contains(k) by {
            if k < mid {
                assert(a@.contains(k));
                let x = choose|x: int| 0 <= x < a@.len() && a@[x] == k;
                assert(out@.contains(a@[x]));
            } else {
                assert(b@.contains(k));
                let x = choose|x: int| 0 <= x < b@.len() && b@[x] == k;
                assert(out@.contains(b@[x]));
            }
        }
    }
    out
}

/// The slots `lo..hi` of `items` in sorted order.
fn sort_run<T: Keyed>(items: &[T], lo: usize, hi: usize) -> (out: Vec<usize>)
    requires
        lo <= hi <= items@.len(),
    ensures
        sorted_slots(items@, out@, lo as int, hi as int),
    decreases hi - lo,
{
    if hi - lo == 0 {
        Vec::new()
    } else if hi - lo == 1 {
        let mut out: Vec<usize> = Vec::new();
        out.push(lo);
        proof {
            assert(out@[0] == lo);
            assert forall|k: usize| lo <= k < hi implies #[trigger] out@.contains(k) by {
                assert(out@[0] == k);
            }
        }
        out
    } else {
        let mid: usize = lo + (hi - lo) / 2;
        let a = sort_run(items, lo, mid);
        let b = sort_run(items, mid, hi);
        merge_slots(items, &a, &b, lo, mid, hi)
    }
}

/// The slots of `items` in sorted order; things with equal keys keep the order
/// in which they stand.
pub fn sort_slots<T: Keyed>(items: &[T]) -> (out: Vec<usize>)
    ensures
        sorted_slots(items@, out@, 0, items@.len() as int),
{
    sort_run(items, 0, items.len())
}

/// The keys of a list of things.
pub open spec fn keys_of<T: Keyed>(items: Seq<T>) -> Seq<Seq<Seq<char>>> {
    Seq::new(items.len(), |i: int| items[i].key())
}

/// The keys rise strictly: they are sorted, and none comes twice.
pub open spec fn keys_rise(keys: Seq<Seq<Seq<char>>>) -> bool {
    forall|i: int, j: int| 0 <= i < j < keys.len() ==> key_before(#[trigger] keys[i], #[trigger] keys[j])
}

/// A strictly rising list is determined by what it holds.
pub proof fn lemma_rising_is_determined(a: Seq<Seq<Seq<char>>>, b: Seq<Seq<Seq<char>>>)
    requires
        keys_rise(a),
        keys_rise(b),
        forall|k: Seq<Seq<char>>| a.contains(k) <==> b.contains(k),
    ensures
        a == b,
    decreases a.len(),
{
    if a.len() == 0 {
        if b.len() > 0 {
            assert(b.contains(b[0]));
            assert(a.contains(b[0]));
        }
        assert(a =~= b);
    } else if b.len() == 0 {
        assert(a.contains(a[0]));
        assert(b.contains(a[0]));
    } else {
        let x = a.last();
        let y = b.last();
        assert(a.contains(x));
        assert(b.contains(y));
        let i = choose|i: int| 0 <= i < a.len() && a[i] == y;
        let j = choose|j: int| 0 <= j < b.len() && b[j] == x;
        lemma_key_same(x, x);
        lemma_key_flip(x, y);
        if i < a.len() - 1 {
            assert(key_before(a[i], a[a.len() - 1]));
        }
        if j < b.len() - 1 {
            assert(key_before(b[j], b[b.len() - 1]));
        }
        assert(x == y);
        let c = a.drop_last();
        let d = b.drop_last();
        assert forall|k: Seq<Seq<char>>| c.contains(k) <==> d.contains(k) by {
            if c.contains(k) {
                let m = choose|m: int| 0 <= m < c.len() && c[m] == k;
                assert(a[m] == k);
                assert(key_before(a[m], a[a.len() - 1]));
                assert(b.contains(k));
                let n = choose|n: int| 0 <= n < b.len() && b[n] == k;
                assert(n != b.len() - 1);
                assert(d[n] == k);
            }
            if d.contains(k) {
                let m = choose|m: int| 0 <= m < d.len() && d[m] == k;
                assert(b[m] == k);
                assert(key_before(b[m], b[b.len() - 1]));
                assert(a.contains(k));
                let n = choose|n: int| 0 <= n < a.len() && a[n] == k;
                assert(n != a.len() - 1);
                assert(c[n] == k);
            }
        }
        lemma_rising_is_determined(c, d);
        assert(a =~= c.push(x));
        assert(b =~= d.push(y));
    }
}

/// Where a key stands in a rising list: what comes before it, and whether it is
/// there.
pub open spec fn stands_at(keys: Seq<Seq<Seq<char>>>, key: Seq<Seq<char>>, at: int, found: bool) -> bool {
    &&& 0 <= at <= keys.len()
    &&& forall|i: int| 0 <= i < at ==> key_before(#[trigger] keys[i], key)
    &&& if found {
        at < keys.len() && keys[at] == key
    } else {
        forall|i: int| at <= i < keys.len() ==> key_before(key, #[trigger] keys[i])
    }
}

/// Whether a rising list holds a key is what a search finds.
pub proof fn lemma_stands_at(keys: Seq<Seq<Seq<char>>>, key: Seq<Seq<char>>, at: int, found: bool)
    requires
        keys_rise(keys),
        stands_at(keys, key, at, found),
    ensures
        found <==> keys.contains(key),
{
    if keys.contains(key) && !found {
        let i = choose|i: int| 0 <= i < keys.len() && keys[i] == key;
        lemma_key_same(key, key);
    }
}

/// Where something stands in a rising list.
pub fn place_of<T: Keyed>(items: &[T], probe: &T) -> (r: (usize, bool))
    requires
        keys_rise(keys_of(items@)),
    ensures
        stands_at(keys_of(items@), probe.key(), r.0 as int, r.1),
{
    let ghost keys = keys_of(items@);
    let mut lo: usize = 0;
    let mut hi: usize = items.len();
    while lo < hi
        invariant
            keys == keys_of(items@),
            keys_rise(keys),
            lo <= hi <= items@.len(),
            forall|i: int| 0 <= i < lo ==> key_before(#[trigger] keys[i], probe.key()),
            forall|i: int| hi <= i < keys.len() ==> key_before(probe.key(), #[trigger] keys[i]),
        decreases hi - lo,
    {
        let mid: usize = lo + (hi - lo) / 2;
        let ghost here = keys[mid as int];
        match items[mid].compare_keys(probe) {
            Standing::Before => {
                proof {
                    assert forall|i: int| 0 <= i <= mid implies key_before(#[trigger] keys[i], probe.key()) by {
                        if i < mid {
                            lemma_key_transitive(keys[i], here, probe.key());
                        }
                    }
                }
                lo = mid + 1;
            },
            Standing::After => {
                proof {
                    lemma_key_flip(here, probe.key());
                    lemma_key_flip(probe.key(), here);
                    assert forall|i: int| mid <= i < keys.len() implies key_before(
                        probe.key(),
                        #[trigger] keys[i],
                    ) by {
                        if i > mid {
                            lemma_key_transitive(probe.key(), here, keys[i]);
                        }
                    }
                }
                hi = mid;
            },
            Standing::Same => {
                proof {
                    lemma_key_same(here, probe.key());
                }
                return (mid, true);
            },
        }
    }
    (lo, false)
}

/// A key put where a search found it missing keeps the list rising.
pub proof fn lemma_insert_rises(keys: Seq<Seq<Seq<char>>>, key: Seq<Seq<char>>, at: int)
    requires
        keys_rise(keys),
        stands_at(keys, key, at, false),
    ensures
        keys_rise(keys.insert(at, key)),
        forall|k: Seq<Seq<char>>| #[trigger] keys.insert(at, key).contains(k) <==> keys.contains(k) || k == key,
{
    let more = keys.insert(at, key);
    assert forall|i: int, j: int| 0 <= i < j < more.len() implies key_before(
        #[trigger] more[i],
        #[trigger] more[j],
    ) by {
        if i < at && j > at {
            assert(key_before(keys[i], keys[j - 1]));
        } else if j < at {
            assert(key_before(keys[i], keys[j]));
        } else if i > at {
            assert(key_before(keys[i - 1], keys[j - 1]));
        }
    }
    assert forall|k: Seq<Seq<char>>| #[trigger] more.contains(k) <==> keys.contains(k) || k == key by {
        if keys.contains(k) {
            let i = choose|i: int| 0 <= i < keys.len() && keys[i] == k;
            assert(more[if i < at { i } else { i + 1 }] == k);
        }
        assert(more[at] == key);
        if more.contains(k) {
            let i = choose|i: int| 0 <= i < more.len() && more[i] == k;
            if i < at {
                assert(keys[i] == k);
            } else if i > at {
                assert(keys[i - 1] == k);
            }
        }
    }
}

/// Puts something into a rising list, unless its key is there.
pub fn put_in_order<T: Keyed>(items: &mut Vec<T>, item: T)
    requires
        keys_rise(keys_of(old(items)@)),
    ensures
        keys_rise(keys_of(final(items)@)),
        forall|k: Seq<Seq<char>>| #[trigger]
            keys_of(final(items)@).contains(k) <==> keys_of(old(items)@).contains(k) || k == item.key(),
        keys_of(old(items)@).contains(item.key()) ==> final(items)@ == old(items)@,
        !keys_of(old(items)@).contains(item.key()) ==> exists|at: int|
            0 <= at <= old(items)@.len() && final(items)@ == #[trigger] old(items)@.insert(at, item),
{
    let ghost before = items@;
    let (at, found) = place_of(items.as_slice(), &item);
    proof {
        lemma_stands_at(keys_of(before), item.key(), at as int, found);
    }
    if !found {
        items.insert(at, item);
        proof {
            lemma_insert_rises(keys_of(before), item.key(), at as int);
            assert(keys_of(items@) =~= keys_of(before).insert(at as int, item.key()));
        }
    }
}

/// The texts rise strictly: they are sorted, and none comes twice.
pub open spec fn texts_rise(list: Seq<Seq<char>>) -> bool {
    forall|i: int, j: int| 0 <= i < j < list.len() ==> text_before(#[trigger] list[i], #[trigger] list[j])
}

/// Each text of a list as a key.
pub open spec fn single_keys(list: Seq<Seq<char>>) -> Seq<Seq<Seq<char>>> {
    Seq::new(list.len(), |i: int| seq![list[i]])
}

/// Texts are in the order of the keys that they make.
pub proof fn lemma_single_keys(list: Seq<Seq<char>>)
    ensures
        texts_rise(list) <==> keys_rise(single_keys(list)),
        forall|t: Seq<char>| #[trigger] list.contains(t) <==> single_keys(list).contains(seq![t]),
{
    let keys = single_keys(list);
    reveal_with_fuel(key_standing, 2);
    assert forall|i: int, j: int| 0 <= i < j < list.len() implies (text_before(
        #[trigger] list[i],
        #[trigger] list[j],
    ) <==> key_before(keys[i], keys[j])) by {
        assert(keys[i] == seq![list[i]]);
        assert(keys[j] == seq![list[j]]);
    }
    if texts_rise(list) {
        assert forall|i: int, j: int| 0 <= i < j < keys.len() implies key_before(
            #[trigger] keys[i],
            #[trigger] keys[j],
        ) by {
            assert(text_before(list[i], list[j]));
        }
    }
    if keys_rise(keys) {
        assert forall|i: int, j: int| 0 <= i < j < list.len() implies text_before(
            #[trigger] list[i],
            #[trigger] list[j],
        ) by {
            assert(key_before(keys[i], keys[j]));
        }
    }
    assert forall|t: Seq<char>| #[trigger] list.contains(t) <==> keys.contains(seq![t]) by {
        if list.contains(t) {
            let i = choose|i: int| 0 <= i < list.len() && list[i] == t;
            assert(keys[i] == seq![t]);
        }
        if keys.contains(seq![t]) {
            let i = choose|i: int| 0 <= i < keys.len() && keys[i] == seq![t];
            assert(keys[i][0] == seq![t][0]);
            assert(list[i] == t);
        }
    }
}

/// The texts of a set, sorted.
pub open spec fn in_order(set: Set<Seq<char>>) -> Seq<Seq<char>> {
    choose|list: Seq<Seq<char>>|
        texts_rise(list) && forall|t: Seq<char>| #[trigger] list.contains(t) <==> set.contains(t)
}

/// A rising list is its set, sorted.
pub proof fn lemma_in_order(list: Seq<Seq<char>>, set: Set<Seq<char>>)
    requires
        texts_rise(list),
        forall|t: Seq<char>| #[trigger] list.contains(t) <==> set.contains(t),
    ensures
        in_order(set) == list,
{
    let other = in_order(set);
    lemma_single_keys(list);
    lemma_single_keys(other);
    let a = single_keys(list);
    let b = single_keys(other);
    assert forall|k: Seq<Seq<char>>| a.contains(k) <==> b.contains(k) by {
        if a.contains(k) || b.contains(k) {
            assert(k =~= seq![k[0]]);
        }
        assert(list.contains(k[0]) <==> other.contains(k[0]));
        assert(list.contains(k[0]) <==> a.contains(seq![k[0]]));
        assert(other.contains(k[0]) <==> b.contains(seq![k[0]]));
    }
    lemma_rising_is_determined(a, b);
    assert(a.len() == list.len() && b.len() == other.len());
    assert forall|i: int| 0 <= i < list.len() implies list[i] == other[i] by {
        assert(a[i][0] == b[i][0]);
    }
    assert(list =~= other);
}

/// The first character in which two texts differ decides their order; where they
/// differ in none, the shorter one comes first.
pub proof fn law_first_difference_decides(a: Seq<char>, b: Seq<char>)
    ensures
        text_before(a, b) <==> exists|k: int| #[trigger] differ_first_at(a, b, k),
    decreases a.len(),
{
    if a.len() > 0 && b.len() > 0 {
        let x = a.drop_first();
        let y = b.drop_first();
        law_first_difference_decides(x, y);
        if a[0] == b[0] {
            if text_before(x, y) {
                let k = choose|k: int| #[trigger] differ_first_at(x, y, k);
                assert forall|i: int| 0 <= i < k + 1 implies #[trigger] a[i] == b[i] by {
                    if i > 0 {
                        assert(x[i - 1] == y[i - 1]);
                    }
                }
                assert(x.len() > k ==> x[k] == a[k + 1]);
                assert(y.len() > k ==> y[k] == b[k + 1]);
                assert(differ_first_at(a, b, k + 1));
            }
            if exists|k: int| #[trigger] differ_first_at(a, b, k) {
                let k = choose|k: int| #[trigger] differ_first_at(a, b, k);
                assert(k > 0);
                assert forall|i: int| 0 <= i < k - 1 implies #[trigger] x[i] == y[i] by {
                    assert(a[i + 1] == b[i + 1]);
                }
                assert(differ_first_at(x, y, k - 1));
            }
        } else {
            if a[0] < b[0] {
                assert(differ_first_at(a, b, 0));
            }
            if exists|k: int| #[trigger] differ_first_at(a, b, k) {
                let k = choose|k: int| #[trigger] differ_first_at(a, b, k);
                if k > 0 {
                    assert(a[0] == b[0]);
                }
            }
        }
    } else if a.len() == 0 && b.len() > 0 {
        assert(differ_first_at(a, b, 0));
    }
}

/// The two texts are alike up to a place, where the first one ends or has the
/// smaller character.
pub open spec fn differ_first_at(a: Seq<char>, b: Seq<char>, k: int) -> bool {
    &&& 0 <= k <= a.len()
    &&& k < b.len()
    &&& forall|i: int| 0 <= i < k ==> #[trigger] a[i] == b[i]
    &&& k == a.len() || a[k] < b[k]
}

/// The first text in which two keys differ decides their order; a key that is the
/// start of another one comes first.
pub proof fn law_first_different_text_decides(a: Seq<Seq<char>>, b: Seq<Seq<char>>)
    ensures
        key_before(a, b) <==> exists|k: int| #[trigger] keys_differ_first_at(a, b, k),
    decreases a.len(),
{
    if a.len() > 0 && b.len() > 0 {
        let x = a.drop_first();
        let y = b.drop_first();
        law_first_different_text_decides(x, y);
        lemma_text_same(a[0], b[0]);
        if a[0] == b[0] {
            if key_before(x, y) {
                let k = choose|k: int| #[trigger] keys_differ_first_at(x, y, k);
                assert forall|i: int| 0 <= i < k + 1 implies #[trigger] a[i] == b[i] by {
                    if i > 0 {
                        assert(x[i - 1] == y[i - 1]);
                    }
                }
                assert(x.len() > k ==> x[k] == a[k + 1]);
                assert(y.len() > k ==> y[k] == b[k + 1]);
                assert(keys_differ_first_at(a, b, k + 1));
            }
            if exists|k: int| #[trigger] keys_differ_first_at(a, b, k) {
                let k = choose|k: int| #[trigger] keys_differ_first_at(a, b, k);
                assert(k > 0);
                assert forall|i: int| 0 <= i < k - 1 implies #[trigger] x[i] == y[i] by {
                    assert(a[i + 1] == b[i + 1]);
                }
                assert(keys_differ_first_at(x, y, k - 1));
            }
        } else {
            if text_before(a[0], b[0]) {
                assert(keys_differ_first_at(a, b, 0));
            }
            if exists|k: int| #[trigger] keys_differ_first_at(a, b, k) {
                let k = choose|k: int| #[trigger] keys_differ_first_at(a, b, k);
                if k > 0 {
                    assert(a[0] == b[0]);
                }
            }
        }
    } else if a.len() == 0 && b.len() > 0 {
        assert(keys_differ_first_at(a, b, 0));
    }
}

/// The two keys are alike up to a place, where the first one ends or has the text
/// that comes before.
pub open spec fn keys_differ_first_at(a: Seq<Seq<char>>, b: Seq<Seq<char>>, k: int) -> bool {
    &&& 0 <= k <= a.len()
    &&& k < b.len()
    &&& forall|i: int| 0 <= i < k ==> #[trigger] a[i] == b[i]
    &&& k == a.len() || text_before(a[k], b[k])
}

} // verus!
