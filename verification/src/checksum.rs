//! Content fingerprints: the SHA-256 digest of a byte stream, in lowercase
//! hexadecimal.
//!
//! The fingerprint is taken from the content as it was read, before any
//! compression, so it does not depend on how the content is stored.

use vstd::prelude::*;
use crate::text::string_of;

verus! {

/// A running SHA-256 computation, fed in chunks.
///
/// The state is that of `sha2::Sha256`; nothing of it is visible here but
/// the bytes taken in so far, `absorbed`.
#[verifier::external_body]
pub struct Fingerprinter {
    hasher: sha2::Sha256,
}

/// The bytes that a fingerprinter has taken in so far, in order.
pub uninterp spec fn absorbed(state: Fingerprinter) -> Seq<u8>;

/// The SHA-256 digest of `data`.
pub uninterp spec fn sha256(data: Seq<u8>) -> Seq<u8>;

/// `sha2::Sha256::new` (the `Digest` trait's `new`): a hasher that has taken
/// in nothing.
#[verifier::external_body]
fn hasher_new() -> (state: Fingerprinter)
    ensures
        absorbed(state) == Seq::<u8>::empty(),
{
    Fingerprinter { hasher: <sha2::Sha256 as sha2::Digest>::new() }
}

/// `Digest::update`: the hasher takes in `chunk` after what it already
/// holds.
#[verifier::external_body]
fn hasher_update(state: &mut Fingerprinter, chunk: &[u8])
    ensures
        absorbed(*final(state)) == absorbed(*old(state)) + chunk@,
{
    sha2::Digest::update(&mut state.hasher, chunk)
}

/// `Digest::finalize`: the digest of everything taken in. A SHA-256 digest
/// has 32 bytes.
#[verifier::external_body]
fn hasher_finalize(state: Fingerprinter) -> (digest: Vec<u8>)
    ensures
        digest@ == sha256(absorbed(state)),
        digest@.len() == 32,
{
    sha2::Digest::finalize(state.hasher).to_vec()
}

/// The lowercase hexadecimal digit of a value below 16.
pub open spec fn hex_digit(nibble: int) -> char {
    if nibble == 0 {
        '0'
    } else if nibble == 1 {
        '1'
    } else if nibble == 2 {
        '2'
    } else if nibble == 3 {
        '3'
    } else if nibble == 4 {
        '4'
    } else if nibble == 5 {
        '5'
    } else if nibble == 6 {
        '6'
    } else if nibble == 7 {
        '7'
    } else if nibble == 8 {
        '8'
    } else if nibble == 9 {
        '9'
    } else if nibble == 10 {
        'a'
    } else if nibble == 11 {
        'b'
    } else if nibble == 12 {
        'c'
    } else if nibble == 13 {
        'd'
    } else if nibble == 14 {
        'e'
    } else {
        'f'
    }
}

/// Two lowercase hexadecimal digits for each byte, the high half first.
pub open spec fn hex(bytes: Seq<u8>) -> Seq<char> {
    Seq::new(
        2 * bytes.len(),
        |i: int|
            if i % 2 == 0 {
                hex_digit(bytes[i / 2] as int / 16)
            } else {
                hex_digit(bytes[i / 2] as int % 16)
            },
    )
}

/// The fingerprint of `data`: its SHA-256 digest in lowercase hexadecimal.
pub open spec fn fingerprint_of(data: Seq<u8>) -> Seq<char> {
    hex(sha256(data))
}

/// All of `chunks`, one after the other.
pub open spec fn joined(chunks: Seq<Vec<u8>>) -> Seq<u8>
    decreases chunks.len(),
{
    if chunks.len() == 0 {
        Seq::empty()
    } else {
        joined(chunks.drop_last()) + chunks.last()@
    }
}

fn hex_digit_of(nibble: u8) -> (c: char)
    requires
        nibble < 16,
    ensures
        c == hex_digit(nibble as int),
{
    if nibble == 0 {
        '0'
    } else if nibble == 1 {
        '1'
    } else if nibble == 2 {
        '2'
    } else if nibble == 3 {
        '3'
    } else if nibble == 4 {
        '4'
    } else if nibble == 5 {
        '5'
    } else if nibble == 6 {
        '6'
    } else if nibble == 7 {
        '7'
    } else if nibble == 8 {
        '8'
    } else if nibble == 9 {
        '9'
    } else if nibble == 10 {
        'a'
    } else if nibble == 11 {
        'b'
    } else if nibble == 12 {
        'c'
    } else if nibble == 13 {
        'd'
    } else if nibble == 14 {
        'e'
    } else {
        'f'
    }
}

/// `bytes` in lowercase hexadecimal.
pub fn to_hex(bytes: &[u8]) -> (out: String)
    ensures
        out@ == hex(bytes@),
{
    let mut digits: Vec<char> = Vec::new();
    let mut i: usize = 0;
    while i < bytes.len()
        invariant
            i <= bytes.len(),
            digits@ =~= hex(bytes@.take(i as int)),
        decreases bytes.len() - i,
    {
        let byte = bytes[i];
        digits.push(hex_digit_of(byte / 16));
        digits.push(hex_digit_of(byte % 16));
        i += 1;
    }
    assert(bytes@.take(bytes.len() as int) == bytes@);
    string_of(digits.as_slice())
}

impl Fingerprinter {
    /// A fingerprinter that has taken in nothing.
    pub fn new() -> (state: Fingerprinter)
        ensures
            absorbed(state) == Seq::<u8>::empty(),
    {
        hasher_new()
    }

    /// Takes in `chunk` after what was taken in before.
    pub fn update(&mut self, chunk: &[u8])
        ensures
            absorbed(*final(self)) == absorbed(*old(self)) + chunk@,
    {
        hasher_update(self, chunk)
    }

    /// The fingerprint of everything taken in.
    pub fn finish(self) -> (fingerprint: String)
        ensures
            fingerprint@ == fingerprint_of(absorbed(self)),
            fingerprint@.len() == 64,
    {
        let digest = hasher_finalize(self);
        to_hex(digest.as_slice())
    }
}

/// The fingerprint of `data`.
pub fn fingerprint(data: &[u8]) -> (fingerprint: String)
    ensures
        fingerprint@ == fingerprint_of(data@),
        fingerprint@.len() == 64,
{
    let mut state = Fingerprinter::new();
    state.update(data);
    assert(Seq::<u8>::empty() + data@ =~= data@);
    state.finish()
}

/// The fingerprint of a content read in chunks: that of the chunks joined,
/// however the content was cut.
pub fn fingerprint_chunks(chunks: &Vec<Vec<u8>>) -> (fingerprint: String)
    ensures
        fingerprint@ == fingerprint_of(joined(chunks@)),
        fingerprint@.len() == 64,
{
    let mut state = Fingerprinter::new();
    let mut i: usize = 0;
    while i < chunks.len()
        invariant
            i <= chunks.len(),
            absorbed(state) == joined(chunks@.take(i as int)),
        decreases chunks.len() - i,
    {
        state.update(chunks[i].as_slice());
        i += 1;
        assert(chunks@.take(i as int).drop_last() == chunks@.take(i - 1));
    }
    assert(chunks@.take(chunks.len() as int) == chunks@);
    state.finish()
}

/// Whether `c` is a lowercase hexadecimal digit.
pub open spec fn is_hex_digit(c: char) -> bool {
    exists|nibble: int| 0 <= nibble < 16 && c == hex_digit(nibble)
}

/// Equal contents have equal fingerprints: the fingerprint depends on
/// the bytes alone, not on when or where they were read.
pub proof fn lemma_fingerprint_deterministic(first: Seq<u8>, second: Seq<u8>)
    requires
        first == second,
    ensures
        fingerprint_of(first) == fingerprint_of(second),
{
}

/// Hexadecimal writing loses nothing: byte strings with the same writing
/// are equal. So two fingerprints differ exactly where the digests do.
pub proof fn lemma_hex_injective(first: Seq<u8>, second: Seq<u8>)
    requires
        hex(first) == hex(second),
    ensures
        first == second,
{
    assert(first.len() == second.len()) by {
        assert(hex(first).len() == 2 * first.len());
        assert(hex(second).len() == 2 * second.len());
    }
    assert forall|k: int| 0 <= k < first.len() implies first[k] == second[k] by {
        let a = first[k] as int;
        let b = second[k] as int;
        assert(hex(first)[2 * k] == hex_digit(a / 16));
        assert(hex(second)[2 * k] == hex_digit(b / 16));
        assert(hex(first)[2 * k + 1] == hex_digit(a % 16));
        assert(hex(second)[2 * k + 1] == hex_digit(b % 16));
        assert(a / 16 == b / 16);
        assert(a % 16 == b % 16);
    }
    assert(first =~= second);
}

/// A fingerprint is 64 lowercase hexadecimal digits.
pub proof fn lemma_fingerprint_shape(digest: Seq<u8>)
    requires
        digest.len() == 32,
    ensures
        hex(digest).len() == 64,
        forall|i: int| 0 <= i < 64 ==> is_hex_digit(#[trigger] hex(digest)[i]),
{
    assert forall|i: int| 0 <= i < 64 implies is_hex_digit(#[trigger] hex(digest)[i]) by {
        let byte = digest[i / 2] as int;
        if i % 2 == 0 {
            assert(0 <= byte / 16 < 16);
            assert(hex(digest)[i] == hex_digit(byte / 16));
        } else {
            assert(0 <= byte % 16 < 16);
            assert(hex(digest)[i] == hex_digit(byte % 16));
        }
    }
}

} // verus!
