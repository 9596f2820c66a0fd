//! SHA-256 digests, written as `sha256:` and lowercase hexadecimal.

use vstd::prelude::*;
use vstd::utf8::encode_utf8;

verus! {

#[verifier::external_type_specification]
#[verifier::external_body]
pub struct ExHasher(sha2::Sha256);

/// The bytes that a `sha2::Sha256` has taken in.
pub uninterp spec fn hashed(h: sha2::Sha256) -> Seq<u8>;

/// The SHA-256 of some bytes, as `sha2::Digest::finalize` gives it.
pub uninterp spec fn sha256(bytes: Seq<u8>) -> Seq<u8>;

/// `sha2::Digest::new`: a hasher that has taken in nothing.
#[verifier::external_body]
fn new_hasher() -> (h: sha2::Sha256)
    ensures
        hashed(h) == Seq::<u8>::empty(),
{
    <sha2::Sha256 as sha2::Digest>::new()
}

/// `sha2::Digest::update`: the hasher takes in some more bytes.
#[verifier::external_body]
fn feed_hasher(h: &mut sha2::Sha256, bytes: &[u8])
    ensures
        hashed(*final(h)) == hashed(*old(h)) + bytes@,
{
    sha2::Digest::update(h, bytes);
}

/// `sha2::Digest::finalize`: the SHA-256 of all that the hasher has taken in, 32
/// bytes long. Nothing more is said of which bytes these are.
#[verifier::external_body]
fn finish_hasher(h: sha2::Sha256) -> (bytes: Vec<u8>)
    ensures
        bytes@ == sha256(hashed(h)),
        bytes@.len() == 32,
{
    sha2::Digest::finalize(h).to_vec()
}

/// A hexadecimal digit.
pub open spec fn hex_digit(d: int) -> char {
    if d < 10 {
        ('0' as int + d) as char
    } else {
        ('a' as int + d - 10) as char
    }
}

/// Bytes in lowercase hexadecimal, two digits each.
pub open spec fn hex(bytes: Seq<u8>) -> Seq<char>
    decreases bytes.len(),
{
    if bytes.len() == 0 {
        Seq::empty()
    } else {
        hex(bytes.drop_last()).push(hex_digit(bytes.last() as int / 16)).push(
            hex_digit(bytes.last() as int % 16),
        )
    }
}

/// A SHA-256 hash, as it is written down.
pub open spec fn hash_text(hash: Seq<u8>) -> Seq<char> {
    "sha256:"@ + hex(hash)
}

/// The digest of some bytes, as it is written down.
pub open spec fn digest_text(bytes: Seq<u8>) -> Seq<char> {
    hash_text(sha256(bytes))
}

fn hex_char(d: u8) -> (c: char)
    requires
        d < 16,
    ensures
        c == hex_digit(d as int),
{
    if d < 10 {
        (48u8 + d) as char
    } else {
        (87u8 + d) as char
    }
}

fn push_hex(out: &mut String, bytes: &[u8])
    ensures
        final(out)@ == old(out)@ + hex(bytes@),
{
    let ghost start = out@;
    proof {
        assert(bytes@.take(0) =~= Seq::empty());
        assert(start + hex(bytes@.take(0)) =~= start);
    }
    for i in 0..bytes.len()
        invariant
            out@ == start + hex(bytes@.take(i as int)),
    {
        let b: u8 = bytes[i];
        out.push(hex_char(b / 16));
        out.push(hex_char(b % 16));
        proof {
            assert(bytes@.take(i + 1).drop_last() =~= bytes@.take(i as int));
            assert(out@ =~= start + hex(bytes@.take(i + 1)));
        }
    }
    proof {
        assert(bytes@.take(bytes@.len() as int) =~= bytes@);
    }
}

/// Writes a SHA-256 hash down.
pub fn write_hash(hash: &[u8]) -> (out: String)
    ensures
        out@ == hash_text(hash@),
{
    let mut out = "sha256:".to_string();
    push_hex(&mut out, hash);
    out
}

/// A digest in the making. Pins feed snapshots and inventories, which are read
/// piece by piece.
pub struct Fingerprint {
    hasher: sha2::Sha256,
}

impl Fingerprint {
    /// What has been taken in.
    pub closed spec fn taken(self) -> Seq<u8> {
        hashed(self.hasher)
    }

    /// A digest of nothing yet.
    pub fn new() -> (r: Fingerprint)
        ensures
            r.taken() == Seq::<u8>::empty(),
    {
        Fingerprint { hasher: new_hasher() }
    }

    /// Takes in the next piece.
    pub fn take(&mut self, bytes: &[u8])
        ensures
            final(self).taken() == old(self).taken() + bytes@,
    {
        feed_hasher(&mut self.hasher, bytes);
    }

    /// The digest of all pieces together.
    pub fn text(self) -> (out: String)
        ensures
            out@ == digest_text(self.taken()),
    {
        write_hash(finish_hasher(self.hasher).as_slice())
    }
}

/// SHA-256 of a small text input (the policy file).
pub fn text_digest(s: &str) -> (out: String)
    ensures
        out@ == digest_text(encode_utf8(s@)),
{
    let mut print = Fingerprint::new();
    print.take(s.as_bytes());
    proof {
        assert(Seq::<u8>::empty() + encode_utf8(s@) =~= encode_utf8(s@));
    }
    print.text()
}

proof fn lemma_hex_digits_differ(a: int, b: int)
    requires
        0 <= a < 16,
        0 <= b < 16,
        hex_digit(a) == hex_digit(b),
    ensures
        a == b,
{
}

proof fn lemma_hex_len(a: Seq<u8>)
    ensures
        hex(a).len() == 2 * a.len(),
    decreases a.len(),
{
    if a.len() > 0 {
        lemma_hex_len(a.drop_last());
    }
}

proof fn lemma_hex_injective(a: Seq<u8>, b: Seq<u8>)
    requires
        hex(a) == hex(b),
    ensures
        a == b,
    decreases a.len(),
{
    lemma_hex_len(a);
    lemma_hex_len(b);
    if a.len() > 0 {
        let x = a.last() as int;
        let y = b.last() as int;
        let n = hex(a).len();
        assert(hex(a)[n - 1] == hex_digit(x % 16));
        assert(hex(b)[n - 1] == hex_digit(y % 16));
        assert(hex(a)[n - 2] == hex_digit(x / 16));
        assert(hex(b)[n - 2] == hex_digit(y / 16));
        lemma_hex_digits_differ(x % 16, y % 16);
        lemma_hex_digits_differ(x / 16, y / 16);
        assert(hex(a.drop_last()) =~= hex(a).take(n - 2));
        assert(hex(b.drop_last()) =~= hex(b).take(n - 2));
        lemma_hex_injective(a.drop_last(), b.drop_last());
        assert(a =~= a.drop_last().push(a.last()));
        assert(b =~= b.drop_last().push(b.last()));
    } else {
        assert(a =~= b);
    }
}

/// Two digests are written alike only where the hashes are equal.
pub proof fn law_digest_text_shows_the_hash(a: Seq<u8>, b: Seq<u8>)
    ensures
        digest_text(a) == digest_text(b) <==> sha256(a) == sha256(b),
{
    if digest_text(a) == digest_text(b) {
        let p = "sha256:"@.len() as int;
        let h = digest_text(a).len() as int;
        assert(hex(sha256(a)) =~= digest_text(a).subrange(p, h));
        assert(hex(sha256(b)) =~= digest_text(b).subrange(p, h));
        lemma_hex_injective(sha256(a), sha256(b));
    }
}

/// The value of a hexadecimal digit: a decimal one, or one of the small letters
/// from `a` to `f`.
pub open spec fn hex_value(c: char) -> int {
    if '0' <= c <= '9' {
        c as int - '0' as int
    } else if 'a' <= c <= 'f' {
        c as int - 'a' as int + 10
    } else {
        -1
    }
}

/// A hash is written as `sha256:` and two digits for each of its bytes, in their
/// order, the higher digit first.
pub proof fn law_hash_text_reads_back(hash: Seq<u8>, i: int)
    requires
        0 <= i < hash.len(),
    ensures
        hash_text(hash).len() == 7 + 2 * hash.len(),
        hash_text(hash).take(7) == "sha256:"@,
        0 <= hex_value(hash_text(hash)[7 + 2 * i]) < 16,
        0 <= hex_value(hash_text(hash)[8 + 2 * i]) < 16,
        16 * hex_value(hash_text(hash)[7 + 2 * i]) + hex_value(hash_text(hash)[8 + 2 * i]) == hash[i],
{
    reveal_strlit("sha256:");
    lemma_hex_len(hash);
    lemma_hex_reads_back(hash, i);
    assert(hash_text(hash).take(7) =~= "sha256:"@);
    assert(hash_text(hash)[7 + 2 * i] == hex(hash)[2 * i]);
    assert(hash_text(hash)[8 + 2 * i] == hex(hash)[2 * i + 1]);
}

proof fn lemma_hex_reads_back(bytes: Seq<u8>, i: int)
    requires
        0 <= i < bytes.len(),
    ensures
        hex(bytes).len() == 2 * bytes.len(),
        0 <= hex_value(hex(bytes)[2 * i]) < 16,
        0 <= hex_value(hex(bytes)[2 * i + 1]) < 16,
        16 * hex_value(hex(bytes)[2 * i]) + hex_value(hex(bytes)[2 * i + 1]) == bytes[i],
    decreases bytes.len(),
{
    lemma_hex_len(bytes);
    lemma_hex_len(bytes.drop_last());
    if i < bytes.len() - 1 {
        lemma_hex_reads_back(bytes.drop_last(), i);
    }
}

} // verus!
