//! Content hashes for `--checksum`.
//!
//! The hashing itself is done by the `blake3` crate. The items at the top of
//! this file state what is relied on.

use vstd::prelude::*;

verus! {

// ---------------------------------------------------------------------------
// Relied on: the crate `blake3`
// ---------------------------------------------------------------------------

/// A hash computation in progress.
#[verifier::external_type_specification]
#[verifier::external_body]
pub struct ExHasher(blake3::Hasher);

/// The bytes that a hash computation has taken in so far.
pub uninterp spec fn absorbed(hasher: blake3::Hasher) -> Seq<u8>;

/// The BLAKE3 hash of an input.
pub uninterp spec fn blake3_hash(input: Seq<u8>) -> Seq<u8>;

/// `blake3::Hasher::new`: a computation that has taken in nothing.
#[verifier::external_body]
fn new_hasher() -> (hasher: blake3::Hasher)
    ensures
        absorbed(hasher) == Seq::<u8>::empty(),
{
    blake3::Hasher::new()
}

/// `blake3::Hasher::update`: takes in the data behind what was taken in
/// before. The crate counts the input in a `u64`.
#[verifier::external_body]
fn absorb(hasher: &mut blake3::Hasher, data: &[u8])
    requires
        absorbed(*old(hasher)).len() + data@.len() <= u64::MAX,
    ensures
        absorbed(*final(hasher)) == absorbed(*old(hasher)) + data@,
{
    hasher.update(data);
}

/// `blake3::Hasher::finalize` and `blake3::Hash::as_bytes`: the hash of what
/// was taken in.
#[verifier::external_body]
fn finalize(hasher: &blake3::Hasher) -> (hash: [u8; 32])
    ensures
        hash@ == blake3_hash(absorbed(*hasher)),
{
    *hasher.finalize().as_bytes()
}

// ---------------------------------------------------------------------------
// Hashing contents
// ---------------------------------------------------------------------------

/// The BLAKE3 hash of a file's contents: 32 bytes on the stack, no hex string.
/// With `--checksum` over millions of files a 64-character allocation per file
/// would be pure waste.
#[derive(Debug, Clone, Copy)]
pub struct Digest {
    pub bytes: [u8; 32],
}

impl View for Digest {
    type V = Seq<u8>;

    open spec fn view(&self) -> Seq<u8> {
        self.bytes@
    }
}

impl Digest {
    /// True when both are the same hash.
    pub fn same(&self, other: &Digest) -> (same: bool)
        ensures
            same == (self@ == other@),
    {
        let mut i: usize = 0;
        while i < 32
            invariant
                i <= 32,
                forall|k: int| 0 <= k < i ==> self@[k] == other@[k],
            decreases 32 - i,
        {
            if self.bytes[i] != other.bytes[i] {
                assert(self@[i as int] != other@[i as int]);
                return false;
            }
            i += 1;
        }
        assert(self@ =~= other@);
        true
    }
}

/// The contents of a file, hashed piece by piece.
#[derive(Debug)]
pub struct ContentHash {
    hasher: blake3::Hasher,
}

impl View for ContentHash {
    type V = Seq<u8>;

    /// The contents so far.
    closed spec fn view(&self) -> Seq<u8> {
        absorbed(self.hasher)
    }
}

impl ContentHash {
    /// No contents yet.
    pub fn new() -> (hash: ContentHash)
        ensures
            hash@ == Seq::<u8>::empty(),
    {
        ContentHash { hasher: new_hasher() }
    }

    /// Takes in the next piece of the contents.
    pub fn update(&mut self, piece: &[u8])
        requires
            old(self)@.len() + piece@.len() <= u64::MAX,
        ensures
            final(self)@ == old(self)@ + piece@,
    {
        absorb(&mut self.hasher, piece);
    }

    /// The hash of the contents.
    pub fn finish(&self) -> (digest: Digest)
        ensures
            digest@ == blake3_hash(self@),
    {
        Digest { bytes: finalize(&self.hasher) }
    }
}

/// Two files count as different unless both could be read and have the same
/// hash.
pub open spec fn counts_as_different(a: Option<Digest>, b: Option<Digest>) -> bool {
    match (a, b) {
        (Some(x), Some(y)) => x@ != y@,
        _ => true,
    }
}

/// True when the contents of source and target differ. To be safe, a read error
/// counts as "different" (the file is then copied).
pub fn contents_differ(source: Option<Digest>, target: Option<Digest>) -> (differ: bool)
    ensures
        differ == counts_as_different(source, target),
{
    match (source, target) {
        (Some(a), Some(b)) => !a.same(&b),
        _ => true,
    }
}

/// The pieces one behind the other.
pub open spec fn joined(pieces: Seq<Seq<u8>>) -> Seq<u8>
    decreases pieces.len(),
{
    if pieces.len() == 0 {
        Seq::empty()
    } else {
        joined(pieces.drop_last()) + pieces.last()
    }
}

/// However contents are cut into pieces, taking in the pieces one after the other
/// takes in the contents.
pub proof fn pieces_make_up_the_contents(states: Seq<ContentHash>, pieces: Seq<Seq<u8>>)
    requires
        states.len() == pieces.len() + 1,
        states[0]@ == Seq::<u8>::empty(),
        forall|i: int|
            #![trigger pieces[i]]
            0 <= i < pieces.len() ==> states[i + 1]@ == states[i]@ + pieces[i],
    ensures
        states.last()@ == joined(pieces),
    decreases pieces.len(),
{
    if pieces.len() > 0 {
        let n = pieces.len() - 1;
        let before = states.drop_last();
        assert forall|i: int|
            #![trigger pieces.drop_last()[i]]
            0 <= i < n implies before[i + 1]@ == before[i]@ + pieces.drop_last()[i] by {
            assert(pieces.drop_last()[i] == pieces[i]);
        }
        pieces_make_up_the_contents(before, pieces.drop_last());
        assert(before.last() == states[n]);
        assert(states[n + 1]@ == states[n]@ + pieces[n]);
    }
}

/// Two readable files count as different exactly if their contents have
/// different hashes.
pub proof fn files_are_compared_by_hash(x: Seq<u8>, y: Seq<u8>, a: Digest, b: Digest)
    requires
        a@ == blake3_hash(x),
        b@ == blake3_hash(y),
    ensures
        counts_as_different(Some(a), Some(b)) <==> blake3_hash(x) != blake3_hash(y),
{
}

/// Files with the same contents, both of them readable, never count as
/// different: a checksum run copies nothing that is in place.
pub proof fn same_contents_are_not_copied(contents: Seq<u8>, a: Digest, b: Digest)
    requires
        a@ == blake3_hash(contents),
        b@ == blake3_hash(contents),
    ensures
        !counts_as_different(Some(a), Some(b)),
{
}

} // verus!
