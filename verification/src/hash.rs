//! Hashing capability: 32-byte hash values, keccak-256 as the default binding,
//! and per-depth hashes of empty subtrees.

use vstd::prelude::*;

verus! {

/// A 32-byte hash value.
#[derive(Clone, Copy, Debug, PartialEq, Eq)]
pub struct H256(pub [u8; 32]);

impl View for H256 {
    type V = Seq<u8>;

    open spec fn view(&self) -> Seq<u8> {
        self.0@
    }
}

impl H256 {
    /// The all-zero hash value.
    pub fn zero() -> (h: H256)
        ensures
            h@ == zero_bytes(32),
    {
        let h = H256([0u8; 32]);
        proof {
            assert(h@ =~= zero_bytes(32));
        }
        h
    }
}

/// Compares two hash values byte by byte.
pub fn h256_eq(a: &H256, b: &H256) -> (r: bool)
    ensures
        r == (a@ == b@),
{
    let mut eq = true;
    let mut i: usize = 0;
    while i < 32
        invariant
            i <= 32,
            eq == (forall|k: int| 0 <= k < i ==> a@[k] == b@[k]),
        decreases 32 - i,
    {
        if a.0[i] != b.0[i] {
            proof {
                assert(a@[i as int] != b@[i as int]);
            }
            eq = false;
        } else {
            proof {
                assert(a@[i as int] == b@[i as int]);
            }
        }
        i = i + 1;
    }
    proof {
        if eq {
            assert(a@ =~= b@);
        } else {
            assert(a@.len() == 32 && b@.len() == 32);
        }
    }
    eq
}

/// A byte sequence of `n` zero bytes.
pub open spec fn zero_bytes(n: nat) -> Seq<u8> {
    Seq::new(n, |i: int| 0u8)
}

/// The keccak-256 digest of a byte sequence. The digest is a function of the
/// input bytes alone; no closed form is stated for it.
pub uninterp spec fn keccak_of(input: Seq<u8>) -> Seq<u8>;

/// Relies on sha3::Keccak256 (`Digest::digest`): returns the keccak-256 digest
/// of the input, which is 32 bytes long and depends on the input bytes alone.
#[verifier::external_body]
fn keccak256(input: &[u8]) -> (h: H256)
    ensures
        h@ == keccak_of(input@),
{
    let digest = <sha3::Keccak256 as sha3::Digest>::digest(input);
    H256(digest.into())
}

/// Hashing capability of a Merkle tree over leaves of `LEAF_SIZE` bytes:
/// leaf hashing, pairwise compression, and hashes of empty subtrees.
pub trait HashEmptySubtree<const LEAF_SIZE: usize>: Sized {
    /// What hashing a byte string means for this hasher.
    spec fn spec_hash_bytes(&self, bytes: Seq<u8>) -> Seq<u8>;

    /// What compressing two child hashes means for this hasher.
    spec fn spec_compress(&self, lhs: Seq<u8>, rhs: Seq<u8>) -> Seq<u8>;

    /// The hash of a perfect subtree of the given depth whose leaves are all
    /// `LEAF_SIZE` zero bytes.
    spec fn spec_empty_subtree_hash(&self, depth: nat) -> Seq<u8>;

    /// Law: the zero-depth empty subtree hash is the hash of one zero leaf,
    /// and each deeper one is the compression of the two empty subtree hashes
    /// one level down.
    proof fn lemma_empty_subtree_hash(&self, depth: nat)
        ensures
            depth == 0 ==> self.spec_empty_subtree_hash(0) == self.spec_hash_bytes(
                zero_bytes(LEAF_SIZE as nat),
            ),
            depth >= 1 ==> self.spec_empty_subtree_hash(depth) == self.spec_compress(
                self.spec_empty_subtree_hash((depth - 1) as nat),
                self.spec_empty_subtree_hash((depth - 1) as nat),
            ),
    ;

    /// Hashes a byte string.
    fn hash_bytes(&self, bytes: &[u8]) -> (h: H256)
        ensures
            h@ == self.spec_hash_bytes(bytes@),
    ;

    /// Compresses two child hashes into their parent hash.
    fn compress(&self, lhs: &H256, rhs: &H256) -> (h: H256)
        ensures
            h@ == self.spec_compress(lhs@, rhs@),
    ;

    /// Returns the hash of an empty subtree with the given depth.
    fn empty_subtree_hash(&self, depth: usize) -> (h: H256)
        requires
            depth <= 32,
        ensures
            h@ == self.spec_empty_subtree_hash(depth as nat),
    ;
}

/// The hash of a perfect keccak-256 subtree of the given depth whose leaves
/// are all 88 zero bytes.
pub open spec fn keccak_empty_subtree_hash(depth: nat) -> Seq<u8>
    decreases depth,
{
    if depth == 0 {
        keccak_of(zero_bytes(88))
    } else {
        keccak_of(
            keccak_empty_subtree_hash((depth - 1) as nat) + keccak_empty_subtree_hash(
                (depth - 1) as nat,
            ),
        )
    }
}

/// Hasher using keccak-256: a leaf hash is the digest of the leaf bytes, and
/// compression is the digest of the two child hashes concatenated.
#[derive(Clone, Copy, Debug)]
pub struct KeccakHasher;

impl HashEmptySubtree<88> for KeccakHasher {
    open spec fn spec_hash_bytes(&self, bytes: Seq<u8>) -> Seq<u8> {
        keccak_of(bytes)
    }

    open spec fn spec_compress(&self, lhs: Seq<u8>, rhs: Seq<u8>) -> Seq<u8> {
        keccak_of(lhs + rhs)
    }

    open spec fn spec_empty_subtree_hash(&self, depth: nat) -> Seq<u8> {
        keccak_empty_subtree_hash(depth)
    }

    proof fn lemma_empty_subtree_hash(&self, depth: nat) {
    }

    fn hash_bytes(&self, bytes: &[u8]) -> (h: H256) {
        keccak256(bytes)
    }

    fn compress(&self, lhs: &H256, rhs: &H256) -> (h: H256) {
        let mut buf: Vec<u8> = Vec::new();
        let mut i: usize = 0;
        while i < 32
            invariant
                i <= 32,
                buf@ == lhs@.take(i as int),
            decreases 32 - i,
        {
            buf.push(lhs.0[i]);
            proof {
                assert(buf@ =~= lhs@.take(i + 1));
            }
            i = i + 1;
        }
        let mut j: usize = 0;
        while j < 32
            invariant
                j <= 32,
                buf@ == lhs@.take(32) + rhs@.take(j as int),
            decreases 32 - j,
        {
            buf.push(rhs.0[j]);
            proof {
                assert(buf@ =~= lhs@.take(32) + rhs@.take(j + 1));
            }
            j = j + 1;
        }
        proof {
            assert(buf@ =~= lhs@ + rhs@);
        }
        keccak256(buf.as_slice())
    }

    fn empty_subtree_hash(&self, depth: usize) -> (h: H256) {
        let zeros = vec![0u8; 88];
        proof {
            assert(zeros@ =~= zero_bytes(88));
        }
        let mut h = keccak256(zeros.as_slice());
        let mut d: usize = 0;
        while d < depth
            invariant
                d <= depth,
                h@ == keccak_empty_subtree_hash(d as nat),
            decreases depth - d,
        {
            h = self.compress(&h, &h);
            d = d + 1;
        }
        h
    }
}

} // verus!
