//! BLAKE3 digests of file contents.

use vstd::prelude::*;

verus! {

#[verifier::external_type_specification]
#[verifier::external_body]
pub struct ExHasher(blake3::Hasher);

/// The bytes that a hasher made by `blake3::Hasher::new` has been given so far.
/// `None` for the keyed and offset hashers of that crate.
pub uninterp spec fn hashed_bytes(h: blake3::Hasher) -> Option<Seq<u8>>;

/// The BLAKE3 digest of `input`: what `blake3::Hasher::finalize` returns once a
/// hasher has been given `input`.
pub uninterp spec fn blake3_digest(input: Seq<u8>) -> Seq<u8>;

/// Calls `blake3::Hasher::new`: a hasher of the regular kind that has been
/// given nothing.
#[verifier::external_body]
fn new_hasher() -> (h: blake3::Hasher)
    ensures
        hashed_bytes(h) == Some(Seq::<u8>::empty()),
{
    blake3::Hasher::new()
}

/// Calls `blake3::Hasher::update`, which adds `data` to the hasher's input. The
/// total is kept below 2^64 bytes, the most that the hasher's stack can hold.
#[verifier::external_body]
fn add_input(h: &mut blake3::Hasher, data: &[u8])
    requires
        hashed_bytes(*old(h)) is Some,
        hashed_bytes(*old(h))->0.len() + data@.len() <= u64::MAX,
    ensures
        hashed_bytes(*final(h)) == Some(hashed_bytes(*old(h))->0 + data@),
{
    h.update(data);
}

/// Calls `blake3::Hasher::finalize`. The digest depends on the bytes that a
/// regular hasher was given, and not on how they were cut into updates.
#[verifier::external_body]
fn digest_of(h: &blake3::Hasher) -> (r: [u8; 32])
    requires
        hashed_bytes(*h) is Some,
    ensures
        r@ == blake3_digest(hashed_bytes(*h)->0),
{
    *h.finalize().as_bytes()
}

/// Hashes contents that arrive in pieces.
pub struct ContentHasher {
    inner: blake3::Hasher,
    count: u64,
}

impl View for ContentHasher {
    type V = Seq<u8>;

    closed spec fn view(&self) -> Seq<u8> {
        hashed_bytes(self.inner)->0
    }
}

impl ContentHasher {
    /// Whether the hasher is one that `new` made.
    pub closed spec fn valid(&self) -> bool {
        hashed_bytes(self.inner) is Some && self.count == self@.len()
    }

    /// A hasher that has been given nothing.
    pub fn new() -> (r: Self)
        ensures
            r.valid(),
            r@ == Seq::<u8>::empty(),
    {
        ContentHasher { inner: new_hasher(), count: 0 }
    }

    /// The number of bytes given so far.
    pub fn count(&self) -> (r: u64)
        requires
            self.valid(),
        ensures
            r == self@.len(),
    {
        self.count
    }

    /// Adds the next piece.
    pub fn update(&mut self, piece: &[u8])
        requires
            old(self).valid(),
            old(self)@.len() + piece@.len() <= u64::MAX,
        ensures
            final(self).valid(),
            final(self)@ == old(self)@ + piece@,
    {
        let n: u64 = piece.len() as u64;
        add_input(&mut self.inner, piece);
        self.count = self.count + n;
    }

    /// The digest of all the pieces.
    pub fn finish(&self) -> (r: [u8; 32])
        requires
            self.valid(),
        ensures
            r@ == blake3_digest(self@),
    {
        digest_of(&self.inner)
    }
}

} // verus!
