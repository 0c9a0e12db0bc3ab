//! Content identity: blake3 digests.
//!
//! A file is hashed by feeding its bytes, chunk by chunk, to a [`ContentHasher`]. How the bytes
//! are cut into chunks makes no difference: the digest is that of all of them in order.
use vstd::prelude::*;

verus! {

/// The incremental hash state of the `blake3` crate.
#[verifier::external_type_specification]
#[verifier::external_body]
pub struct ExHasher(blake3::Hasher);

/// The bytes that a hash state holds: all that it was fed, in order.
pub uninterp spec fn absorbed(h: blake3::Hasher) -> Seq<u8>;

/// The blake3 hash of a byte string.
pub uninterp spec fn blake3_hash(input: Seq<u8>) -> Seq<u8>;

/// `blake3::Hasher::new`: a hash state that was fed nothing.
#[verifier::external_body]
fn hasher_new() -> (h: blake3::Hasher)
    ensures
        absorbed(h) == Seq::<u8>::empty(),
{
    blake3::Hasher::new()
}

/// `blake3::Hasher::update` adds input bytes after those already there. The state counts its
/// input in 64 bits.
#[verifier::external_body]
fn hasher_update(h: &mut blake3::Hasher, input: &[u8])
    requires
        absorbed(*old(h)).len() + input@.len() <= u64::MAX,
    ensures
        absorbed(*final(h)) == absorbed(*old(h)) + input@,
{
    h.update(input);
}

/// `blake3::Hasher::finalize` returns the hash of everything that was fed.
#[verifier::external_body]
fn hasher_finalize(h: &blake3::Hasher) -> (r: [u8; 32])
    ensures
        r@ == blake3_hash(absorbed(*h)),
{
    *h.finalize().as_bytes()
}

/// A content hash. Its value is its thirty-two bytes.
#[derive(Debug, Clone, Copy, PartialEq, Eq, Hash)]
pub struct Digest {
    bytes: [u8; 32],
}

impl View for Digest {
    type V = Seq<u8>;

    closed spec fn view(&self) -> Seq<u8> {
        self.bytes@
    }
}

impl Digest {
    /// The digest with these bytes.
    pub fn from_bytes(bytes: [u8; 32]) -> (r: Digest)
        ensures
            r@ == bytes@,
    {
        Digest { bytes }
    }

    /// The digest's bytes.
    pub fn as_bytes(&self) -> (r: &[u8; 32])
        ensures
            r@ == self@,
    {
        &self.bytes
    }

    /// Whether two digests are the same: the check behind verifying a copy.
    pub fn matches(&self, want: &Digest) -> (r: bool)
        ensures
            r == (self@ == want@),
    {
        let mut i: usize = 0;
        while i < 32
            invariant
                0 <= i <= 32,
                forall|k: int| 0 <= k < i ==> self.bytes@[k] == want.bytes@[k],
            decreases 32 - i,
        {
            if self.bytes[i] != want.bytes[i] {
                return false;
            }
            i = i + 1;
        }
        assert(self.bytes@ =~= want.bytes@);
        true
    }
}

/// Hashes a stream of bytes.
pub struct ContentHasher {
    state: blake3::Hasher,
}

impl ContentHasher {
    /// The bytes fed so far.
    pub closed spec fn fed(&self) -> Seq<u8> {
        absorbed(self.state)
    }

    pub fn new() -> (r: ContentHasher)
        ensures
            r.fed() == Seq::<u8>::empty(),
    {
        ContentHasher { state: hasher_new() }
    }

    /// Feeds the next bytes.
    pub fn update(&mut self, chunk: &[u8])
        requires
            old(self).fed().len() + chunk@.len() <= u64::MAX,
        ensures
            final(self).fed() == old(self).fed() + chunk@,
    {
        hasher_update(&mut self.state, chunk);
    }

    /// The digest of everything fed so far.
    pub fn finalize(&self) -> (r: Digest)
        ensures
            r@ == blake3_hash(self.fed()),
    {
        Digest { bytes: hasher_finalize(&self.state) }
    }
}

/// The digest of a byte string.
pub fn hash_bytes(data: &[u8]) -> (r: Digest)
    ensures
        r@ == blake3_hash(data@),
{
    let mut h = ContentHasher::new();
    let n: usize = data.len();
    assert(data@.len() == n);
    h.update(data);
    assert(h.fed() =~= data@);
    h.finalize()
}

/// Why a file could not be hashed.
#[derive(Debug)]
pub struct ReadFailure {
    /// What the system reported.
    pub message: String,
    /// Whether the failure is one of permission.
    pub denied: bool,
}

/// What came of hashing a file.
pub type HashOutcome = Result<Digest, ReadFailure>;

/// The value of a [`HashOutcome`].
pub enum HashV {
    Digest(Seq<u8>),
    Failed { message: Seq<char>, denied: bool },
}

pub open spec fn hash_view(o: HashOutcome) -> HashV {
    match o {
        Ok(d) => HashV::Digest(d@),
        Err(e) => HashV::Failed { message: e.message@, denied: e.denied },
    }
}

} // verus!
