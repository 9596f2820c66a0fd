//! One append-only buffer for every text of the feed.
//!
//! The texts are small, but a million of them are a million allocations: the
//! arena keeps them in one buffer and hands out eight-byte references.

use vstd::prelude::*;
use vstd::utf8::{decode_utf8, encode_utf8, is_char_boundary, valid_utf8};

verus! {

/// A slice of the arena. 8 bytes, `Copy`, no allocation.
#[derive(Debug, Clone, Copy, PartialEq, Eq, Default, Structural)]
pub struct Str {
    off: u32,
    len: u32,
}

impl Str {
    /// The reference refers to no text.
    pub closed spec fn is_nothing(self) -> bool {
        self.len == 0
    }

    /// The reference to the empty text.
    pub fn empty() -> (r: Str)
        ensures
            r.is_nothing(),
    {
        Str { off: 0, len: 0 }
    }

    /// Whether the reference is to the empty text.
    pub fn is_empty(&self) -> (r: bool)
        ensures
            r == self.is_nothing(),
    {
        self.len == 0
    }
}

/// One append-only string buffer for every name, id and version in the feed.
#[derive(Debug)]
pub struct Arena {
    buf: String,
}

impl Default for Arena {
    fn default() -> (r: Arena)
        ensures
            r.size() == 0,
    {
        let buf = String::new();
        proof {
            assert(encode_utf8(buf@) =~= Seq::<u8>::empty());
        }
        Arena { buf }
    }
}

proof fn lemma_encode_concat(a: Seq<char>, b: Seq<char>)
    ensures
        encode_utf8(a + b) == encode_utf8(a) + encode_utf8(b),
    decreases a.len(),
{
    if a.len() == 0 {
        assert(a + b =~= b);
        assert(encode_utf8(a) + encode_utf8(b) =~= encode_utf8(b));
    } else {
        lemma_encode_concat(a.drop_first(), b);
        assert((a + b).drop_first() =~= a.drop_first() + b);
        assert(encode_utf8(a + b) =~= encode_utf8(a) + encode_utf8(b));
    }
}

/// Only the empty text has no bytes.
pub proof fn lemma_encode_empty(a: Seq<char>)
    ensures
        encode_utf8(a).len() == 0 <==> a.len() == 0,
{
    if a.len() > 0 {
        vstd::utf8::encode_utf8_first_scalar(a);
    }
}

/// A boundary between characters stays one when more text follows.
proof fn lemma_boundary_extends(bytes: Seq<u8>, more: Seq<u8>, i: int)
    requires
        valid_utf8(bytes),
        valid_utf8(more),
        0 <= i <= bytes.len(),
        is_char_boundary(bytes, i),
    ensures
        is_char_boundary(bytes + more, i),
{
    let all = bytes + more;
    vstd::utf8::valid_utf8_concat(bytes, more);
    vstd::utf8::is_char_boundary_start_end_of_seq(all);
    vstd::utf8::is_char_boundary_start_end_of_seq(more);
    if i < bytes.len() {
        vstd::utf8::is_char_boundary_iff_not_is_continuation_byte(bytes, i);
        assert(all[i] == bytes[i]);
        vstd::utf8::is_char_boundary_iff_not_is_continuation_byte(all, i);
    } else if more.len() > 0 {
        vstd::utf8::is_char_boundary_iff_not_is_continuation_byte(more, 0);
        assert(all[i] == more[0]);
        vstd::utf8::is_char_boundary_iff_not_is_continuation_byte(all, i);
    } else {
        assert(all.len() == i);
    }
}

/// A boundary between characters stays one when the text before it is cut off.
proof fn lemma_boundary_in_tail(bytes: Seq<u8>, from: int, i: int)
    requires
        valid_utf8(bytes),
        0 <= from <= i <= bytes.len(),
        is_char_boundary(bytes, from),
        is_char_boundary(bytes, i),
    ensures
        valid_utf8(bytes.subrange(from, bytes.len() as int)),
        is_char_boundary(bytes.subrange(from, bytes.len() as int), i - from),
{
    let tail = bytes.subrange(from, bytes.len() as int);
    vstd::utf8::valid_utf8_split(bytes, from);
    vstd::utf8::is_char_boundary_start_end_of_seq(tail);
    if i < bytes.len() {
        vstd::utf8::is_char_boundary_iff_not_is_continuation_byte(bytes, i);
        assert(tail[i - from] == bytes[i]);
        vstd::utf8::is_char_boundary_iff_not_is_continuation_byte(tail, i - from);
    }
}

impl Arena {
    spec fn raw(self) -> Seq<u8> {
        encode_utf8(self.buf@)
    }

    /// The number of bytes that the arena holds.
    pub closed spec fn size(self) -> nat {
        self.raw().len()
    }

    /// The reference is to a text of this arena.
    pub closed spec fn holds(self, r: Str) -> bool {
        r.len == 0 || {
            &&& r.off + r.len <= self.raw().len()
            &&& is_char_boundary(self.raw(), r.off as int)
            &&& is_char_boundary(self.raw(), r.off + r.len)
        }
    }

    /// The text that a reference is to.
    pub closed spec fn says(self, r: Str) -> Seq<char> {
        if r.len == 0 {
            Seq::empty()
        } else {
            decode_utf8(self.raw().subrange(r.off as int, r.off + r.len))
        }
    }

    /// The text that a reference is to, or none where it is empty.
    pub open spec fn says_opt(self, r: Str) -> Option<Seq<char>> {
        if r.is_nothing() {
            None
        } else {
            Some(self.says(r))
        }
    }

    /// The empty reference is to the empty text, in every arena, and no other is.
    pub proof fn lemma_nothing(self, r: Str)
        ensures
            r.is_nothing() ==> self.holds(r),
            self.holds(r) ==> (r.is_nothing() <==> self.says(r).len() == 0),
    {
        if r.len > 0 && self.holds(r) {
            self.lemma_slice(r);
            lemma_encode_empty(self.says(r));
        }
    }

    proof fn lemma_slice(self, r: Str)
        requires
            r.len > 0,
            self.holds(r),
        ensures
            valid_utf8(self.raw()),
            valid_utf8(self.raw().subrange(r.off as int, self.raw().len() as int)),
            is_char_boundary(self.raw().subrange(r.off as int, self.raw().len() as int), r.len as int),
            encode_utf8(self.says(r)) == self.raw().subrange(r.off as int, r.off + r.len),
    {
        let bytes = self.raw();
        let tail = bytes.subrange(r.off as int, bytes.len() as int);
        vstd::utf8::encode_utf8_valid_utf8(self.buf@);
        lemma_boundary_in_tail(bytes, r.off as int, r.off + r.len);
        vstd::utf8::valid_utf8_split(tail, r.len as int);
        assert(tail.subrange(0, r.len as int) =~= bytes.subrange(r.off as int, r.off + r.len));
        vstd::utf8::decode_utf8_encode_utf8(bytes.subrange(r.off as int, r.off + r.len));
    }

    /// Appends a text and hands out the reference to it. References handed out
    /// before stay good.
    pub fn push(&mut self, s: &str) -> (r: Str)
        requires
            old(self).size() + encode_utf8(s@).len() <= u32::MAX,
        ensures
            final(self).holds(r),
            final(self).says(r) == s@,
            r.is_nothing() <==> s@.len() == 0,
            final(self).size() == old(self).size() + encode_utf8(s@).len(),
            forall|q: Str| #[trigger]
                old(self).holds(q) ==> final(self).holds(q) && final(self).says(q) == old(self).says(q),
    {
        proof {
            lemma_encode_empty(s@);
        }
        if s.is_empty() {
            return Str::empty();
        }
        let off: usize = self.buf.as_str().as_bytes().len();
        let len: usize = s.as_bytes().len();
        self.buf.append(s);
        let r = Str { off: off as u32, len: len as u32 };
        proof {
            let before = old(self).raw();
            let added = encode_utf8(s@);
            lemma_encode_concat(old(self).buf@, s@);
            vstd::utf8::encode_utf8_valid_utf8(old(self).buf@);
            vstd::utf8::encode_utf8_valid_utf8(s@);
            vstd::utf8::is_char_boundary_start_end_of_seq(before);
            vstd::utf8::encode_utf8_valid_utf8(self.buf@);
            vstd::utf8::is_char_boundary_start_end_of_seq(self.raw());
            lemma_boundary_extends(before, added, off as int);
            assert(self.raw().subrange(off as int, off + len) =~= added);
            vstd::utf8::encode_utf8_decode_utf8(s@);
            assert forall|q: Str| #[trigger] old(self).holds(q) implies self.holds(q) && self.says(q)
                == old(self).says(q) by {
                if q.len > 0 {
                    lemma_boundary_extends(before, added, q.off as int);
                    lemma_boundary_extends(before, added, q.off + q.len);
                    assert(self.raw().subrange(q.off as int, q.off + q.len) =~= before.subrange(
                        q.off as int,
                        q.off + q.len,
                    ));
                }
            }
        }
        r
    }

    /// The text that a reference is to.
    pub fn get(&self, r: Str) -> (s: &str)
        requires
            self.holds(r),
        ensures
            s@ == self.says(r),
    {
        if r.is_empty() {
            let nothing = "";
            proof {
                reveal_strlit("");
                assert(nothing@ =~= Seq::<char>::empty());
            }
            return nothing;
        }
        proof {
            self.lemma_slice(r);
        }
        let all: &str = self.buf.as_str();
        let tail = all.split_at(r.off as usize).1;
        let slice = tail.split_at(r.len as usize).0;
        proof {
            vstd::utf8::encode_utf8_decode_utf8(slice@);
            assert(encode_utf8(slice@) =~= self.raw().subrange(r.off as int, r.off + r.len));
        }
        slice
    }

    /// The text that a reference is to, or `None` where it is empty.
    pub fn opt(&self, r: Str) -> (s: Option<&str>)
        requires
            self.holds(r),
        ensures
            crate::vers::opt_text(s) == self.says_opt(r),
    {
        if r.is_empty() {
            None
        } else {
            Some(self.get(r))
        }
    }

    /// The number of bytes that the arena holds.
    pub fn bytes(&self) -> (n: usize)
        ensures
            n == self.size(),
    {
        self.buf.as_str().as_bytes().len()
    }
}

} // verus!
