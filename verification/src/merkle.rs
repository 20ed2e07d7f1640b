//! Bounded, left-leaning, append-only in-memory Merkle tree with prefix
//! trimming and range proofs. Roots and paths over the untrimmed window are
//! computed in time proportional to the window length plus the tree depth.

use vstd::arithmetic::div_mod::{
    lemma_div_denominator, lemma_div_is_ordered, lemma_fundamental_div_mod,
};
use vstd::arithmetic::power::pow;
use vstd::arithmetic::power2::{
    is_pow2, is_pow2_equiv, lemma2_to64, lemma2_to64_rest, lemma_pow2, lemma_pow2_adds,
    lemma_pow2_pos, lemma_pow2_strictly_increases, lemma_pow2_unfold, pow2,
};
use vstd::prelude::*;

use crate::hash::{H256, HashEmptySubtree, KeccakHasher};

verus! {

/// The views (byte sequences) of a sequence of hash values.
pub open spec fn hashes_view(s: Seq<H256>) -> Seq<Seq<u8>> {
    s.map_values(|h: H256| h@)
}

/// The hash of the node at position `pos` within level `level` of the full
/// binary tree over the given leaf hashes: level 0 holds the leaf hashes
/// themselves, with every absent leaf standing for an empty subtree, and each
/// higher level compresses adjacent pairs. This is the naive full-tree Merkle
/// construction; the root of a tree of depth `d` is the node at `(d, 0)`.
pub open spec fn node_hash<const LEAF_SIZE: usize, H: HashEmptySubtree<LEAF_SIZE>>(
    hasher: H,
    leaves: Seq<Seq<u8>>,
    level: nat,
    pos: nat,
) -> Seq<u8>
    decreases level,
{
    if level == 0 {
        if pos < leaves.len() {
            leaves[pos as int]
        } else {
            hasher.spec_empty_subtree_hash(0)
        }
    } else {
        hasher.spec_compress(
            node_hash(hasher, leaves, (level - 1) as nat, 2 * pos),
            node_hash(hasher, leaves, (level - 1) as nat, 2 * pos + 1),
        )
    }
}

/// The position of the sibling of the node at position `pos` within its level.
pub open spec fn sibling_pos(pos: nat) -> nat {
    if pos % 2 == 0 {
        pos + 1
    } else {
        (pos - 1) as nat
    }
}

/// Folds a Merkle path bottom-up: starting from the hash of the node at
/// position `pos` of some level, combines it with each sibling hash in turn,
/// ordering each compression by the parity of the current position.
pub open spec fn fold_path<const LEAF_SIZE: usize, H: HashEmptySubtree<LEAF_SIZE>>(
    hasher: H,
    current: Seq<u8>,
    path: Seq<Seq<u8>>,
    pos: nat,
) -> Seq<u8>
    decreases path.len(),
{
    if path.len() == 0 {
        current
    } else {
        let parent = if pos % 2 == 0 {
            hasher.spec_compress(current, path[0])
        } else {
            hasher.spec_compress(path[0], current)
        };
        fold_path(hasher, parent, path.skip(1), pos / 2)
    }
}

/// The base-2 logarithm of `n`, rounded down; 0 for `n == 0`.
pub open spec fn log2(n: nat) -> nat
    decreases n,
{
    if n <= 1 {
        0
    } else {
        1 + log2(n / 2)
    }
}

/// `log2` inverts `pow2`.
pub proof fn lemma_log2_pow2(e: nat)
    ensures
        log2(pow2(e)) == e,
    decreases e,
{
    if e == 0 {
        lemma2_to64();
    } else {
        lemma_pow2_unfold(e);
        lemma_pow2_pos((e - 1) as nat);
        lemma_log2_pow2((e - 1) as nat);
        assert(pow2(e) / 2 == pow2((e - 1) as nat));
    }
}

/// Dividing by `pow2(j)` and then by 2 divides by `pow2(j + 1)`.
pub proof fn lemma_div_pow2_step(x: nat, j: nat)
    ensures
        (x / pow2(j)) / 2 == x / pow2(j + 1),
{
    lemma_pow2_pos(j);
    lemma_div_denominator(x as int, pow2(j) as int, 2);
    lemma_pow2_adds(j, 1);
    lemma2_to64();
    assert(pow2(j) * pow2(1) == pow2(j + 1));
}

/// A node whose whole leaf span lies at or beyond the end of the leaf
/// sequence is an empty subtree.
pub proof fn lemma_node_hash_empty<const LEAF_SIZE: usize, H: HashEmptySubtree<LEAF_SIZE>>(
    hasher: H,
    leaves: Seq<Seq<u8>>,
    level: nat,
    pos: nat,
)
    requires
        pos * pow2(level) >= leaves.len(),
    ensures
        node_hash(hasher, leaves, level, pos) == hasher.spec_empty_subtree_hash(level),
    decreases level,
{
    if level == 0 {
        lemma2_to64();
        assert(pos * 1 == pos) by (nonlinear_arith);
    } else {
        lemma_pow2_unfold(level);
        lemma_pow2_pos((level - 1) as nat);
        assert((2 * pos) * pow2((level - 1) as nat) == pos * pow2(level)) by (nonlinear_arith)
            requires pow2(level) == 2 * pow2((level - 1) as nat);
        assert((2 * pos + 1) * pow2((level - 1) as nat) >= (2 * pos) * pow2((level - 1) as nat))
            by (nonlinear_arith);
        lemma_node_hash_empty(hasher, leaves, (level - 1) as nat, 2 * pos);
        lemma_node_hash_empty(hasher, leaves, (level - 1) as nat, 2 * pos + 1);
        hasher.lemma_empty_subtree_hash(level);
    }
}

/// Two leaf sequences that agree on the whole leaf span of a node give that
/// node the same hash.
pub proof fn lemma_node_hash_agree<const LEAF_SIZE: usize, H: HashEmptySubtree<LEAF_SIZE>>(
    hasher: H,
    leaves1: Seq<Seq<u8>>,
    leaves2: Seq<Seq<u8>>,
    level: nat,
    pos: nat,
)
    requires
        (pos + 1) * pow2(level) <= leaves1.len(),
        (pos + 1) * pow2(level) <= leaves2.len(),
        forall|i: int|
            pos * pow2(level) <= i < (pos + 1) * pow2(level) ==> leaves1[i] == leaves2[i],
    ensures
        node_hash(hasher, leaves1, level, pos) == node_hash(hasher, leaves2, level, pos),
    decreases level,
{
    lemma_pow2_pos(level);
    if level == 0 {
        lemma2_to64();
        assert(pos * 1 == pos && (pos + 1) * 1 == pos + 1) by (nonlinear_arith);
        assert(leaves1[pos as int] == leaves2[pos as int]);
    } else {
        let l1 = (level - 1) as nat;
        lemma_pow2_unfold(level);
        assert((2 * pos) * pow2(l1) == pos * pow2(level) && (2 * pos + 2) * pow2(l1) == (pos + 1)
            * pow2(level) && (2 * pos + 1) * pow2(l1) == pos * pow2(level) + pow2(l1))
            by (nonlinear_arith)
            requires pow2(level) == 2 * pow2(l1);
        assert((2 * pos + 1) * pow2(l1) <= (2 * pos + 2) * pow2(l1)) by (nonlinear_arith)
            requires pow2(l1) > 0;
        lemma_node_hash_agree(hasher, leaves1, leaves2, l1, 2 * pos);
        lemma_node_hash_agree(hasher, leaves1, leaves2, l1, 2 * pos + 1);
    }
}

/// Folding a path of sibling node hashes, starting from the node at position
/// `pos` of level `level`, yields the ancestor of that node `path.len()`
/// levels up.
pub proof fn lemma_fold_path_from<const LEAF_SIZE: usize, H: HashEmptySubtree<LEAF_SIZE>>(
    hasher: H,
    leaves: Seq<Seq<u8>>,
    path: Seq<Seq<u8>>,
    level: nat,
    pos: nat,
)
    requires
        forall|j: int|
            0 <= j < path.len() ==> path[j] == node_hash(
                hasher,
                leaves,
                (level + j) as nat,
                sibling_pos(pos / #[trigger] pow2(j as nat)),
            ),
    ensures
        fold_path(hasher, node_hash(hasher, leaves, level, pos), path, pos) == node_hash(
            hasher,
            leaves,
            level + path.len(),
            pos / pow2(path.len()),
        ),
    decreases path.len(),
{
    lemma2_to64();
    if path.len() == 0 {
        assert(pos / pow2(0) == pos);
    } else {
        assert(pow2(0nat) == 1);
        assert(pos / pow2(0nat) == pos);
        assert(path[0int] == node_hash(
            hasher,
            leaves,
            (level + 0int) as nat,
            sibling_pos(pos / pow2(0int as nat)),
        ));
        assert(path[0] == node_hash(hasher, leaves, level, sibling_pos(pos)));
        let cur = node_hash(hasher, leaves, level, pos);
        let parent = if pos % 2 == 0 {
            hasher.spec_compress(cur, path[0])
        } else {
            hasher.spec_compress(path[0], cur)
        };
        if pos % 2 == 0 {
            assert(sibling_pos(pos) == pos + 1);
            assert(2 * (pos / 2) == pos);
            assert(parent == node_hash(hasher, leaves, level + 1, pos / 2));
        } else {
            assert(sibling_pos(pos) == pos - 1);
            assert(2 * (pos / 2) == pos - 1);
            assert(parent == node_hash(hasher, leaves, level + 1, pos / 2));
        }
        let rest = path.skip(1);
        assert forall|j: int| 0 <= j < rest.len() implies rest[j] == node_hash(
            hasher,
            leaves,
            ((level + 1) + j) as nat,
            sibling_pos((pos / 2) / #[trigger] pow2(j as nat)),
        ) by {
            assert(rest[j] == path[j + 1]);
            lemma_div_pow2_step(pos, j as nat);
            assert((pos / 2) / pow2(j as nat) == (pos / pow2(1)) / pow2(j as nat)) by {
                assert(pow2(1) == 2);
            }
            lemma_pow2_pos(j as nat);
            lemma_div_denominator(pos as int, 2, pow2(j as nat) as int);
            lemma_pow2_adds(1, j as nat);
            assert(2 * pow2(j as nat) == pow2(1 + j as nat));
            assert((pos / 2) / pow2(j as nat) == pos / pow2((j + 1) as nat));
        }
        lemma_fold_path_from(hasher, leaves, rest, level + 1, pos / 2);
        assert((pos / 2) / pow2((path.len() - 1) as nat) == pos / pow2(path.len())) by {
            lemma_pow2_pos((path.len() - 1) as nat);
            lemma_div_denominator(pos as int, 2, pow2((path.len() - 1) as nat) as int);
            lemma_pow2_adds(1, (path.len() - 1) as nat);
            assert(2 * pow2((path.len() - 1) as nat) == pow2(path.len()));
        }
    }
}

/// Arithmetic facts for one level of the path algorithm. At level `level`,
/// the working row holds `len0` node hashes starting at position
/// `start0 / pow2(level)`; after prepending one hash when that position is odd
/// and padding to even length, it holds `len2` hashes starting at the even
/// position `base`. The row covers the whole leaf sequence and stays within
/// the tree, and halving carries all of this to the next level.
#[verifier::rlimit(50)]
proof fn lemma_level_step(
    start0: nat,
    abs0: nat,
    all_len: nat,
    depth: nat,
    level: nat,
    len0: nat,
    len2: nat,
)
    requires
        level < depth,
        start0 <= abs0 <= all_len,
        len0 >= 1,
        abs0 / pow2(level) <= start0 / pow2(level) + len0,
        (start0 / pow2(level) + len0) * pow2(level) >= all_len,
        start0 / pow2(level) + len0 <= pow2((depth - level) as nat),
        len2 % 2 == 0,
        len2 == len0 + (start0 / pow2(level)) % 2 || len2 == len0 + (start0 / pow2(level)) % 2 + 1,
    ensures
        ({
            let cur_start = start0 / pow2(level);
            let parity = cur_start % 2;
            let base = (cur_start - parity) as nat;
            let q = abs0 / pow2(level);
            &&& base % 2 == 0
            &&& base + len2 >= cur_start + len0
            &&& (base + len2) * pow2(level) >= all_len
            &&& base + len2 <= pow2((depth - level) as nat)
            &&& len2 >= 2
            &&& base <= q <= base + len2
            &&& (q % 2 == 1 ==> base + 1 <= q)
            &&& (abs0 < all_len ==> q < base + len2)
            &&& (abs0 < all_len && q % 2 == 0 ==> q + 2 <= base + len2)
            &&& base / 2 == start0 / pow2(level + 1)
            &&& q / 2 == abs0 / pow2(level + 1)
            &&& q / 2 <= base / 2 + len2 / 2
            &&& (base / 2 + len2 / 2) * pow2(level + 1) >= all_len
            &&& base / 2 + len2 / 2 <= pow2((depth - level - 1) as nat)
        }),
{
    lemma_pow2_pos(level);
    let p = pow2(level);
    let cur_start = start0 / pow2(level);
    let parity = cur_start % 2;
    let base = (cur_start - parity) as nat;
    let q = abs0 / pow2(level);
    lemma_div_is_ordered(start0 as int, abs0 as int, p as int);
    assert(cur_start <= q);
    assert(base + (len0 + parity) == cur_start + len0);
    assert(base + len2 >= cur_start + len0);
    assert((base + len2) * p >= (cur_start + len0) * p >= all_len) by (nonlinear_arith)
        requires
            base + len2 >= cur_start + len0,
            (cur_start + len0) * p >= all_len,
            p >= 1,
    ;
    lemma_pow2_unfold((depth - level) as nat);
    let bound = pow2((depth - level) as nat);
    let half_bound = pow2((depth - level - 1) as nat);
    assert(bound == 2 * half_bound);
    assert(base + len2 <= bound) by {
        if len2 == len0 + parity + 1 {
            assert((len0 + parity) % 2 == 1);
            assert(base % 2 == 0);
            assert((base + len0 + parity) % 2 == 1);
            assert(bound % 2 == 0);
            assert(base + len0 + parity <= bound);
            assert(base + len0 + parity != bound);
        }
    }
    assert(q <= cur_start + len0);
    assert(q <= base + len2);
    if q % 2 == 1 {
        assert(q != base);
        assert(base + 1 <= q);
    }
    lemma_fundamental_div_mod(abs0 as int, p as int);
    if abs0 < all_len {
        assert(q * p <= abs0) by (nonlinear_arith)
            requires
                abs0 == p * q + abs0 % p,
                abs0 % p >= 0,
                q >= 0,
        ;
        assert(q < base + len2) by (nonlinear_arith)
            requires
                q * p <= abs0,
                abs0 < all_len,
                all_len <= (base + len2) * p,
                p >= 1,
        ;
        if q % 2 == 0 {
            assert(q != base + len2 - 1);
            assert(q + 2 <= base + len2);
        }
    }
    lemma_fundamental_div_mod(cur_start as int, 2);
    assert(base == 2 * (cur_start / 2));
    vstd::arithmetic::div_mod::lemma_div_multiples_vanish((cur_start / 2) as int, 2);
    assert(base / 2 == cur_start / 2);
    lemma_div_pow2_step(start0, level);
    lemma_div_pow2_step(abs0, level);
    assert(base / 2 == start0 / pow2(level + 1));
    assert(q / 2 == abs0 / pow2(level + 1));
    let b2 = base / 2;
    let l2 = len2 / 2;
    lemma_fundamental_div_mod(len2 as int, 2);
    assert(len2 == 2 * l2);
    vstd::arithmetic::div_mod::lemma_div_multiples_vanish((b2 + l2) as int, 2);
    assert((base + len2) == 2 * (b2 + l2));
    lemma_div_is_ordered(q as int, (base + len2) as int, 2);
    assert(q / 2 <= (base + len2) / 2);
    assert((base + len2) / 2 == b2 + l2);
    lemma_pow2_adds(level, 1);
    lemma2_to64();
    assert(pow2(level + 1) == 2 * p);
    assert((b2 + l2) * pow2(level + 1) >= all_len) by (nonlinear_arith)
        requires
            base + len2 == 2 * (b2 + l2),
            (base + len2) * p >= all_len,
            pow2(level + 1) == 2 * p,
    ;
    assert(b2 + l2 <= half_bound);
}

/// Checks a Merkle path: folds `leaf_hash` with the sibling hashes in `path`,
/// starting at leaf position `index`, and compares the result with `root`.
pub fn verify_path<const LEAF_SIZE: usize, H: HashEmptySubtree<LEAF_SIZE>>(
    hasher: &H,
    leaf_hash: &H256,
    index: u64,
    path: &Vec<H256>,
    root: &H256,
) -> (ok: bool)
    ensures
        ok == (fold_path(*hasher, leaf_hash@, hashes_view(path@), index as nat) == root@),
{
    let mut cur: H256 = *leaf_hash;
    let mut pos: u64 = index;
    let mut j: usize = 0;
    proof {
        assert(hashes_view(path@).skip(0) =~= hashes_view(path@));
    }
    while j < path.len()
        invariant
            j <= path.len(),
            fold_path(*hasher, cur@, hashes_view(path@).skip(j as int), pos as nat) == fold_path(
                *hasher,
                leaf_hash@,
                hashes_view(path@),
                index as nat,
            ),
        decreases path.len() - j,
    {
        let ghost prev = hashes_view(path@).skip(j as int);
        proof {
            assert(prev[0] == path@[j as int]@);
            assert(prev.skip(1) =~= hashes_view(path@).skip(j + 1));
        }
        if pos % 2 == 0 {
            cur = hasher.compress(&cur, &path[j]);
        } else {
            cur = hasher.compress(&path[j], &cur);
        }
        pos = pos / 2;
        j = j + 1;
    }
    proof {
        assert(hashes_view(path@).skip(path@.len() as int) =~= Seq::<Seq<u8>>::empty());
    }
    crate::hash::h256_eq(&cur, root)
}

/// Returns the depth of a tree with the given size, which must be a power of
/// two: the base-2 logarithm of the size.
pub fn tree_depth_by_size(tree_size: u64) -> (depth: usize)
    requires
        pow2(log2(tree_size as nat)) == tree_size as nat,
    ensures
        depth == log2(tree_size as nat),
        depth <= 63,
{
    let mut size = tree_size;
    let mut depth: usize = 0;
    proof {
        lemma_pow2_pos(log2(tree_size as nat));
        let e = log2(tree_size as nat);
        if e >= 64 {
            if e > 64 {
                lemma_pow2_strictly_increases(64, e);
            }
            lemma2_to64_rest();
            assert(pow2(e) >= pow2(64));
            assert(false);
        }
    }
    while size > 1
        invariant
            size >= 1,
            pow2(log2(size as nat)) == size as nat,
            log2(size as nat) + depth == log2(tree_size as nat),
            depth <= log2(tree_size as nat),
            log2(tree_size as nat) <= 63,
        decreases size,
    {
        proof {
            let e = log2(size as nat);
            assert(e >= 1);
            lemma_pow2_unfold(e);
            lemma_log2_pow2((e - 1) as nat);
            assert(size as nat / 2 == pow2((e - 1) as nat));
        }
        size = size / 2;
        depth = depth + 1;
    }
    proof {
        assert(log2(size as nat) == 0);
    }
    depth
}

/// In-memory Merkle tree of bounded depth (no more than 32) over leaves of
/// `LEAF_SIZE` bytes.
///
/// The tree is left-leaning: its logical size may exceed the number of leaves
/// supplied, and the absent rightmost leaves count as `LEAF_SIZE` zero bytes.
/// The size doubles whenever the leaves outgrow it; it never shrinks.
///
/// A prefix of leaves can be trimmed away: the root stays the same, paths to
/// the trimmed leaves become unavailable, and one cached sibling hash per
/// level stands in for the whole trimmed prefix.
pub struct MiniMerkleTree<const LEAF_SIZE: usize, H = KeccakHasher> {
    hasher: H,
    hashes: Vec<H256>,
    binary_tree_size: u64,
    start_index: u64,
    cache: Vec<H256>,
    trimmed: Ghost<Seq<Seq<u8>>>,
}

impl<const LEAF_SIZE: usize, H: HashEmptySubtree<LEAF_SIZE>> MiniMerkleTree<LEAF_SIZE, H> {
    /// The hasher this tree was built with.
    pub closed spec fn spec_hasher(&self) -> H {
        self.hasher
    }

    /// The hashes of the trimmed prefix of leaves, oldest first.
    pub closed spec fn trimmed_hashes(&self) -> Seq<Seq<u8>> {
        self.trimmed@
    }

    /// The hashes of the untrimmed window of leaves, oldest first.
    pub closed spec fn window(&self) -> Seq<Seq<u8>> {
        hashes_view(self.hashes@)
    }

    /// The hashes of every leaf ever pushed, trimmed or not, oldest first.
    pub open spec fn all_leaf_hashes(&self) -> Seq<Seq<u8>> {
        self.trimmed_hashes() + self.window()
    }

    /// How many leftmost leaves have been trimmed.
    pub closed spec fn spec_start(&self) -> nat {
        self.start_index as nat
    }

    /// The current logical size of the tree: a power of two bounding the leaf
    /// count.
    pub closed spec fn spec_size(&self) -> nat {
        self.binary_tree_size as nat
    }

    /// The current depth of the tree.
    pub open spec fn depth(&self) -> nat {
        log2(self.spec_size())
    }

    /// The root hash of the tree: the naive full-tree Merkle root over all
    /// leaves ever pushed, with absent leaves standing for empty subtrees.
    pub open spec fn spec_root(&self) -> Seq<u8> {
        node_hash(self.spec_hasher(), self.all_leaf_hashes(), self.depth(), 0)
    }

    /// Well-formedness: the size is a power of two of depth at most 32, the
    /// leaves fit in the tree, and the cache carries the hash of the sibling
    /// subtree left of the trim boundary at every level where one is needed.
    pub closed spec fn wf(&self) -> bool {
        &&& pow2(self.depth()) == self.spec_size()
        &&& self.depth() <= 32
        &&& self.trimmed@.len() == self.spec_start()
        &&& self.spec_start() + self.window().len() <= self.spec_size()
        &&& self.cache@.len() <= 33
        &&& (forall|level: nat|
            level < 33 && (self.spec_start() / #[trigger] pow2(level)) % 2 == 1 ==> level
                < self.cache@.len() && self.cache@[level as int]@ == node_hash(
                self.spec_hasher(),
                self.all_leaf_hashes(),
                level,
                (self.spec_start() / pow2(level) - 1) as nat,
            ))
        &&& (self.window().len() == 0 && self.spec_start() > 0 ==> self.depth()
            < self.cache@.len() && self.cache@[self.depth() as int]@ == node_hash(
            self.spec_hasher(),
            self.all_leaf_hashes(),
            self.depth(),
            0,
        ))
    }

    /// Creates a tree from the supplied leaves. If `min_tree_size` is given
    /// and larger than the leaf count, the tree is sized to it; it must be a
    /// power of two. The tree holds at most `2^32` leaves.
    pub fn with_hasher(
        hasher: H,
        leaves: Vec<[u8; LEAF_SIZE]>,
        min_tree_size: Option<usize>,
    ) -> (tree: Self)
        requires
            leaves@.len() <= 0x1_0000_0000,
            min_tree_size matches Some(m) ==> is_pow2(m as int) && m <= 0x1_0000_0000,
        ensures
            tree.wf(),
            tree.spec_hasher() == hasher,
            tree.spec_start() == 0,
            tree.window() == leaves@.map_values(|leaf: [u8; LEAF_SIZE]| hasher.spec_hash_bytes(leaf@)),
            tree.all_leaf_hashes() == tree.window(),
            pow2(tree.depth()) == tree.spec_size(),
            tree.depth() <= 32,
            tree.spec_size() >= leaves@.len(),
            tree.spec_size() >= 1,
            min_tree_size matches Some(m) ==> tree.spec_size() >= m,
            tree.spec_size() == 1 || tree.spec_size() / 2 < leaves@.len() || (min_tree_size
                matches Some(m) && m as nat == tree.spec_size()),
    {
        let ghost leaf_hashes = leaves@.map_values(
            |leaf: [u8; LEAF_SIZE]| hasher.spec_hash_bytes(leaf@),
        );
        let mut hashes: Vec<H256> = Vec::new();
        let mut i: usize = 0;
        while i < leaves.len()
            invariant
                i <= leaves@.len(),
                hashes@.len() == i,
                leaf_hashes == leaves@.map_values(
                    |leaf: [u8; LEAF_SIZE]| hasher.spec_hash_bytes(leaf@),
                ),
                forall|k: int| 0 <= k < i ==> hashes@[k]@ == leaf_hashes[k],
            decreases leaves@.len() - i,
        {
            let leaf = leaves[i];
            let h = hasher.hash_bytes(vstd::array::array_as_slice(&leaf));
            hashes.push(h);
            i = i + 1;
        }
        let mut binary_tree_size: u64 = 1;
        let ghost mut e: nat = 0;
        proof {
            lemma2_to64();
        }
        while binary_tree_size < hashes.len() as u64
            invariant
                hashes@.len() <= 0x1_0000_0000,
                binary_tree_size == pow2(e),
                e <= 32,
                binary_tree_size == 1 || binary_tree_size / 2 < hashes@.len(),
            decreases 2 * hashes@.len() - binary_tree_size,
        {
            proof {
                lemma2_to64();
                if e >= 32 {
                    if e > 32 {
                        lemma_pow2_strictly_increases(32, e);
                    }
                    assert(false);
                }
                lemma_pow2_unfold(e + 1);
                e = e + 1;
            }
            binary_tree_size = binary_tree_size * 2;
        }
        let mut chosen = binary_tree_size;
        let ghost mut ce: nat = e;
        match min_tree_size {
            Some(m) => {
                if (m as u64) > chosen {
                    chosen = m as u64;
                    proof {
                        is_pow2_equiv(m as int);
                        let me = choose|me: nat| pow(2, me) == m as int;
                        lemma_pow2(me);
                        lemma2_to64();
                        if me > 32 {
                            lemma_pow2_strictly_increases(32, me);
                            assert(false);
                        }
                        ce = me;
                    }
                }
            },
            None => {},
        }
        let tree = Self {
            hasher,
            hashes,
            binary_tree_size: chosen,
            start_index: 0,
            cache: Vec::new(),
            trimmed: Ghost(Seq::empty()),
        };
        proof {
            lemma_log2_pow2(ce);
            assert(tree.window() =~= leaf_hashes);
            assert(tree.all_leaf_hashes() =~= tree.window());
            assert forall|level: nat|
                level < 33 && (tree.spec_start() / #[trigger] pow2(level)) % 2 == 1 implies false by {
                lemma_pow2_pos(level);
                assert(0nat / pow2(level) == 0);
            }
        }
        tree
    }

    /// Runs the path algorithm over the window: starting from the window leaf
    /// hashes, at each level prepends the cached hash standing for the trimmed
    /// prefix when one is needed, pads with the empty subtree hash on the
    /// right, records the siblings of the leftmost window leaf and of the leaf
    /// at window offset `end_index`, and compresses pairwise. Returns the root
    /// and the two recorded paths, bottom level first.
    ///
    /// `end_index` may equal the window length: the recorded right path then
    /// describes the would-be leaf one past the window, and only its entries
    /// at levels where that position is a right child are meaningful.
    #[verifier::rlimit(100)]
    fn compute_root_and_paths(&self, end_index: u64) -> (res: (H256, Vec<H256>, Vec<H256>))
        requires
            self.wf(),
            1 <= self.hashes@.len(),
            end_index as nat <= self.hashes@.len(),
        ensures
            res.0@ == self.spec_root(),
            res.1@.len() == self.depth(),
            res.2@.len() == self.depth(),
            forall|j: nat|
                j < self.depth() ==> res.1@[j as int]@ == node_hash(
                    self.spec_hasher(),
                    self.all_leaf_hashes(),
                    j,
                    sibling_pos(self.spec_start() / #[trigger] pow2(j)),
                ),
            (end_index as nat) < self.hashes@.len() ==> forall|j: nat|
                j < self.depth() ==> res.2@[j as int]@ == node_hash(
                    self.spec_hasher(),
                    self.all_leaf_hashes(),
                    j,
                    sibling_pos((self.spec_start() + end_index as nat) / #[trigger] pow2(j)),
                ),
            forall|j: nat|
                j < self.depth() && ((self.spec_start() + end_index as nat) / #[trigger] pow2(j)) % 2
                    == 1 ==> res.2@[j as int]@ == node_hash(
                    self.spec_hasher(),
                    self.all_leaf_hashes(),
                    j,
                    ((self.spec_start() + end_index as nat) / pow2(j) - 1) as nat,
                ),
    {
        let ghost hasher = self.spec_hasher();
        let ghost all = self.all_leaf_hashes();
        let ghost start0 = self.spec_start();
        let ghost abs0: nat = self.spec_start() + end_index as nat;
        let ghost wlen = self.hashes@.len();
        proof {
            assert(all.len() == start0 + wlen);
            lemma2_to64();
        }
        let depth = tree_depth_by_size(self.binary_tree_size);
        proof {
            assert(depth == self.depth());
        }
        let mut work: Vec<H256> = Vec::new();
        let mut i: usize = 0;
        while i < self.hashes.len()
            invariant
                wlen == self.hashes@.len(),
                i <= wlen,
                work@.len() == i,
                forall|k: int| 0 <= k < i ==> (#[trigger] work@[k]) == self.hashes@[k],
            decreases wlen - i,
        {
            let x = self.hashes[i];
            work.push(x);
            i = i + 1;
        }
        proof {
            assert forall|k: int| 0 <= k < work@.len() implies (#[trigger] work@[k])@ == node_hash(
                hasher,
                all,
                0,
                (start0 + k) as nat,
            ) by {
                assert(all[start0 + k] == self.window()[k]);
            }
            assert(start0 / pow2(0) == start0);
            assert(abs0 / pow2(0) == abs0);
            assert(self.spec_size() <= 0x1_0000_0000) by {
                if self.depth() < 32 {
                    lemma_pow2_strictly_increases(self.depth(), 32);
                }
            }
            assert(all.len() <= 0x1_0000_0000);
        }
        let mut left_path: Vec<H256> = Vec::new();
        let mut right_path: Vec<H256> = Vec::new();
        let mut cur_start: u64 = self.start_index;
        let mut cur_end: u64 = self.start_index + end_index;
        let mut level: usize = 0;
        while level < depth
            invariant
                self.wf(),
                hasher == self.spec_hasher(),
                all == self.all_leaf_hashes(),
                start0 == self.spec_start(),
                abs0 == start0 + end_index as nat,
                wlen == self.hashes@.len(),
                all.len() == start0 + wlen,
                1 <= wlen,
                end_index as nat <= wlen,
                depth as nat == self.depth(),
                level <= depth,
                all.len() <= 0x1_0000_0000,
                cur_start as nat <= start0,
                cur_end as nat <= abs0,
                abs0 <= all.len(),
                cur_start as nat == start0 / pow2(level as nat),
                cur_end as nat == abs0 / pow2(level as nat),
                work@.len() >= 1,
                cur_end as nat <= cur_start as nat + work@.len(),
                forall|k: int|
                    0 <= k < work@.len() ==> (#[trigger] work@[k])@ == node_hash(
                        hasher,
                        all,
                        level as nat,
                        (cur_start + k) as nat,
                    ),
                (cur_start as nat + work@.len()) * pow2(level as nat) >= all.len(),
                cur_start as nat + work@.len() <= pow2((depth - level) as nat),
                left_path@.len() == level,
                right_path@.len() == level,
                forall|j: nat|
                    j < level ==> left_path@[j as int]@ == node_hash(
                        hasher,
                        all,
                        j,
                        sibling_pos(start0 / #[trigger] pow2(j)),
                    ),
                (end_index as nat) < wlen ==> forall|j: nat|
                    j < level ==> right_path@[j as int]@ == node_hash(
                        hasher,
                        all,
                        j,
                        sibling_pos(abs0 / #[trigger] pow2(j)),
                    ),
                forall|j: nat|
                    j < level && (abs0 / #[trigger] pow2(j)) % 2 == 1 ==> right_path@[j as int]@
                        == node_hash(hasher, all, j, (abs0 / pow2(j) - 1) as nat),
            decreases depth - level,
        {
            let ghost lvl = level as nat;
            proof {
                lemma_pow2_pos(lvl);
                lemma_div_is_ordered(start0 as int, abs0 as int, pow2(lvl) as int);
            }
            let ghost len0 = work@.len();
            let parity = cur_start % 2;
            if parity == 1 {
                proof {
                    assert((start0 / pow2(lvl)) % 2 == 1);
                }
                let c = self.cache[level];
                let ghost pre = work@;
                work.insert(0, c);
                proof {
                    assert forall|k: int| 0 <= k < work@.len() implies (#[trigger] work@[k])@
                        == node_hash(hasher, all, lvl, ((cur_start - 1) + k) as nat) by {
                        if k == 0 {
                            assert(work@[0] == self.cache@[level as int]);
                        } else {
                            assert(work@[k] == pre[k - 1]);
                        }
                    }
                }
            }
            let ghost base: nat = (cur_start - parity) as nat;
            proof {
                assert(base % 2 == 0);
                assert(work@.len() == len0 + parity);
                assert(base + work@.len() == cur_start as nat + len0);
                assert forall|m: int| 0 <= m < work@.len() implies (#[trigger] work@[m])@
                    == node_hash(hasher, all, lvl, (base + m) as nat) by {}
                assert((base + work@.len()) * pow2(lvl) >= all.len()) by (nonlinear_arith)
                    requires
                        (cur_start as nat + len0) * pow2(lvl) >= all.len(),
                        base + work@.len() == cur_start as nat + len0,
                ;
            }
            if work.len() % 2 == 1 {
                let e = self.hasher.empty_subtree_hash(level);
                let ghost pre_pad = work@;
                proof {
                    lemma_node_hash_empty(hasher, all, lvl, base + work@.len());
                }
                work.push(e);
                proof {
                    assert forall|m: int| 0 <= m < work@.len() implies (#[trigger] work@[m])@
                        == node_hash(hasher, all, lvl, (base + m) as nat) by {
                        if m < work@.len() - 1 {
                            assert(work@[m] == pre_pad[m]);
                        } else {
                            assert(work@[m] == e);
                        }
                    }
                }
            }
            let ghost len2 = work@.len();
            proof {
                assert(len2 == len0 + parity || len2 == len0 + parity + 1);
                lemma_level_step(start0, abs0, all.len(), depth as nat, lvl, len0, len2);
            }
            // sibling of the leftmost window leaf's ancestor at this level
            let rel_l: usize = if parity == 0 {
                1
            } else {
                0
            };
            let xl = work[rel_l];
            left_path.push(xl);
            proof {
                if parity == 0 {
                    assert(xl@ == node_hash(hasher, all, lvl, sibling_pos(start0 / pow2(lvl))));
                } else {
                    assert(sibling_pos(cur_start as nat) == base);
                    assert(xl@ == node_hash(hasher, all, lvl, sibling_pos(start0 / pow2(lvl))));
                }
            }
            // sibling of the ancestor of the leaf at window offset `end_index`
            let ghost q = cur_end as nat;
            let sr: u64 = if cur_end % 2 == 0 {
                cur_end + 1
            } else {
                cur_end - 1
            };
            proof {
                assert(sr as nat == sibling_pos(q));
                assert(sr as nat >= base);
            }
            let rel_r_wide: u64 = sr - (cur_start - parity);
            let rel_r: usize = rel_r_wide as usize;
            if rel_r < work.len() {
                let xr = work[rel_r];
                right_path.push(xr);
            } else {
                right_path.push(H256::zero());
            }
            proof {
                if q % 2 == 1 {
                    assert(q - 1 - base < len2);
                    assert(right_path@[level as int]@ == node_hash(
                        hasher,
                        all,
                        lvl,
                        (q - 1) as nat,
                    ));
                }
                if (end_index as nat) < wlen {
                    assert(abs0 < all.len());
                    if q % 2 == 0 {
                        assert(q + 1 - base < len2);
                        assert(right_path@[level as int]@ == node_hash(
                            hasher,
                            all,
                            lvl,
                            sibling_pos(q),
                        ));
                    }
                }
            }
            // pairwise compression into the next level
            let half = work.len() / 2;
            let mut next_work: Vec<H256> = Vec::new();
            let mut k: usize = 0;
            while k < half
                invariant
                    hasher == self.spec_hasher(),
                    base % 2 == 0,
                    work@.len() % 2 == 0,
                    work@.len() <= usize::MAX,
                    half == work@.len() / 2,
                    forall|m: int|
                        0 <= m < work@.len() ==> (#[trigger] work@[m])@ == node_hash(
                            hasher,
                            all,
                            lvl,
                            (base + m) as nat,
                        ),
                    k <= half,
                    next_work@.len() == k,
                    forall|m: int|
                        0 <= m < k ==> (#[trigger] next_work@[m])@ == node_hash(
                            hasher,
                            all,
                            lvl + 1,
                            (base / 2 + m) as nat,
                        ),
                decreases half - k,
            {
                let c = self.hasher.compress(&work[2 * k], &work[2 * k + 1]);
                proof {
                    assert(2 * (base / 2 + k) == base + 2 * k);
                    assert(c@ == node_hash(hasher, all, lvl + 1, (base / 2 + k) as nat));
                }
                next_work.push(c);
                k = k + 1;
            }
            work = next_work;
            let new_start = (cur_start - parity) / 2;
            let new_end = cur_end / 2;
            proof {
                assert((cur_start - parity) as nat == base);
                assert(new_start as nat == base / 2);
                assert(new_start as nat == start0 / pow2(lvl + 1));
                assert(new_end as nat == abs0 / pow2(lvl + 1));
                assert(work@.len() == len2 / 2);
            }
            cur_start = new_start;
            cur_end = new_end;
            level = level + 1;
        }
        proof {
            assert(start0 < pow2(depth as nat));
            vstd::arithmetic::div_mod::lemma_basic_div(start0 as int, pow2(depth as nat) as int);
            assert(cur_start as nat == 0);
            assert(work@[0]@ == node_hash(hasher, all, depth as nat, 0));
        }
        let root = work[0];
        (root, left_path, right_path)
    }

    /// Returns `true` if the tree is empty: nothing trimmed, no leaves.
    pub fn is_empty(&self) -> (b: bool)
        ensures
            b == (self.spec_start() == 0 && self.window().len() == 0),
    {
        self.start_index == 0 && self.hashes.len() == 0
    }

    /// Returns the root hash of this tree: the naive full-tree Merkle root
    /// over every leaf ever pushed, absent leaves standing for empty subtrees.
    pub fn merkle_root(&self) -> (root: H256)
        requires
            self.wf(),
        ensures
            root@ == self.spec_root(),
    {
        if self.hashes.len() == 0 {
            let depth = tree_depth_by_size(self.binary_tree_size);
            if self.start_index == 0 {
                let h = self.hasher.empty_subtree_hash(depth);
                proof {
                    assert(self.all_leaf_hashes().len() == 0);
                    assert(0 * pow2(depth as nat) == 0) by (nonlinear_arith);
                    lemma_node_hash_empty(
                        self.spec_hasher(),
                        self.all_leaf_hashes(),
                        depth as nat,
                        0,
                    );
                }
                h
            } else {
                self.cache[depth]
            }
        } else {
            let res = self.compute_root_and_paths(0);
            res.0
        }
    }

    /// Returns the root hash and the Merkle proof for the leaf at the given
    /// 0-based index, relative to the leftmost untrimmed leaf. The returned
    /// path holds one sibling hash per level, bottom first, and folds back to
    /// the root from the leaf hash.
    pub fn merkle_root_and_path(&self, index: usize) -> (res: (H256, Vec<H256>))
        requires
            self.wf(),
            (index as nat) < self.window().len(),
        ensures
            res.0@ == self.spec_root(),
            res.1@.len() == self.depth(),
            forall|j: nat|
                j < self.depth() ==> res.1@[j as int]@ == node_hash(
                    self.spec_hasher(),
                    self.all_leaf_hashes(),
                    j,
                    sibling_pos((self.spec_start() + index as nat) / #[trigger] pow2(j)),
                ),
            fold_path(
                self.spec_hasher(),
                self.all_leaf_hashes()[(self.spec_start() + index as nat) as int],
                hashes_view(res.1@),
                self.spec_start() + index as nat,
            ) == self.spec_root(),
    {
        let out = self.compute_root_and_paths(index as u64);
        let root = out.0;
        let path = out.2;
        proof {
            self.lemma_path_folds(path@, index as nat);
        }
        (root, path)
    }

    /// Returns the root hash and the Merkle proofs for the range of leaves at
    /// relative indices `0 .. length`: the path for the leftmost untrimmed
    /// leaf and the path for the leaf at relative index `length - 1`. Both
    /// fold back to the root from their leaf hashes.
    pub fn merkle_root_and_paths_for_range(&self, length: usize) -> (res: (
        H256,
        Vec<H256>,
        Vec<H256>,
    ))
        requires
            self.wf(),
            1 <= length,
            length as nat <= self.window().len(),
        ensures
            res.0@ == self.spec_root(),
            res.1@.len() == self.depth(),
            res.2@.len() == self.depth(),
            forall|j: nat|
                j < self.depth() ==> res.1@[j as int]@ == node_hash(
                    self.spec_hasher(),
                    self.all_leaf_hashes(),
                    j,
                    sibling_pos(self.spec_start() / #[trigger] pow2(j)),
                ),
            forall|j: nat|
                j < self.depth() ==> res.2@[j as int]@ == node_hash(
                    self.spec_hasher(),
                    self.all_leaf_hashes(),
                    j,
                    sibling_pos((self.spec_start() + length - 1) as nat / #[trigger] pow2(j)),
                ),
            fold_path(
                self.spec_hasher(),
                self.all_leaf_hashes()[self.spec_start() as int],
                hashes_view(res.1@),
                self.spec_start(),
            ) == self.spec_root(),
            fold_path(
                self.spec_hasher(),
                self.all_leaf_hashes()[(self.spec_start() + length - 1) as int],
                hashes_view(res.2@),
                (self.spec_start() + length - 1) as nat,
            ) == self.spec_root(),
    {
        let out = self.compute_root_and_paths((length - 1) as u64);
        proof {
            self.lemma_path_folds(out.2@, (length - 1) as nat);
            self.lemma_path_folds_left(out.1@);
        }
        (out.0, out.1, out.2)
    }

    /// A path whose entries are the sibling node hashes along the ancestors of
    /// the leaf at window offset `index` folds back to the root.
    proof fn lemma_path_folds(&self, path: Seq<H256>, index: nat)
        requires
            self.wf(),
            index < self.hashes@.len(),
            path.len() == self.depth(),
            forall|j: nat|
                j < self.depth() ==> path[j as int]@ == node_hash(
                    self.spec_hasher(),
                    self.all_leaf_hashes(),
                    j,
                    sibling_pos((self.spec_start() + index) / #[trigger] pow2(j)),
                ),
        ensures
            fold_path(
                self.spec_hasher(),
                self.all_leaf_hashes()[(self.spec_start() + index) as int],
                hashes_view(path),
                self.spec_start() + index,
            ) == self.spec_root(),
    {
        let hasher = self.spec_hasher();
        let all = self.all_leaf_hashes();
        let abs = self.spec_start() + index;
        let views = hashes_view(path);
        assert(all.len() == self.spec_start() + self.hashes@.len());
        assert forall|j: int| 0 <= j < views.len() implies views[j] == node_hash(
            hasher,
            all,
            (0 + j) as nat,
            sibling_pos(abs / #[trigger] pow2(j as nat)),
        ) by {
            assert(views[j] == path[j]@);
        }
        lemma_fold_path_from(hasher, all, views, 0, abs);
        assert(abs < all.len());
        assert(all.len() <= pow2(self.depth()));
        vstd::arithmetic::div_mod::lemma_basic_div(abs as int, pow2(self.depth()) as int);
        assert(abs / pow2(views.len()) == 0);
        assert(node_hash(hasher, all, 0, abs) == all[abs as int]);
    }

    /// The left path returned by the path algorithm folds back to the root
    /// from the leftmost untrimmed leaf.
    proof fn lemma_path_folds_left(&self, path: Seq<H256>)
        requires
            self.wf(),
            1 <= self.hashes@.len(),
            path.len() == self.depth(),
            forall|j: nat|
                j < self.depth() ==> path[j as int]@ == node_hash(
                    self.spec_hasher(),
                    self.all_leaf_hashes(),
                    j,
                    sibling_pos(self.spec_start() / #[trigger] pow2(j)),
                ),
        ensures
            fold_path(
                self.spec_hasher(),
                self.all_leaf_hashes()[self.spec_start() as int],
                hashes_view(path),
                self.spec_start(),
            ) == self.spec_root(),
    {
        self.lemma_path_folds(path, 0);
    }

    /// Trims the leftmost `count` untrimmed leaves: their hashes are replaced
    /// by one cached sibling hash per level, computed by the path algorithm
    /// for the first leaf that stays. The root does not change; paths to the
    /// trimmed leaves become unavailable. On an already emptied window (where
    /// only `count == 0` is admitted) nothing changes.
    pub fn trim_start(&mut self, count: usize)
        requires
            old(self).wf(),
            count as nat <= old(self).window().len(),
        ensures
            final(self).wf(),
            final(self).spec_hasher() == old(self).spec_hasher(),
            final(self).all_leaf_hashes() == old(self).all_leaf_hashes(),
            final(self).spec_size() == old(self).spec_size(),
            final(self).depth() == old(self).depth(),
            final(self).spec_start() == old(self).spec_start() + count,
            final(self).window() == old(self).window().skip(count as int),
            final(self).trimmed_hashes() == old(self).trimmed_hashes() + old(self).window().take(
                count as int,
            ),
            final(self).spec_root() == old(self).spec_root(),
    {
        if self.hashes.len() == 0 {
            proof {
                assert(self.window().skip(0) =~= self.window());
                assert(self.trimmed@ + old(self).window().take(0) =~= self.trimmed@);
            }
            return;
        }
        let ghost hasher = self.spec_hasher();
        let ghost all = self.all_leaf_hashes();
        let ghost start0 = self.spec_start();
        let ghost new_start: nat = start0 + count as nat;
        let ghost d = self.depth();
        let out = self.compute_root_and_paths(count as u64);
        let root = out.0;
        let mut cache = out.2;
        cache.push(root);
        let mut new_hashes: Vec<H256> = Vec::new();
        let mut i: usize = count;
        proof {
            assert(self.spec_size() <= 0x1_0000_0000) by {
                lemma2_to64();
                if self.depth() < 32 {
                    lemma_pow2_strictly_increases(self.depth(), 32);
                }
            }
        }
        while i < self.hashes.len()
            invariant
                count <= i <= self.hashes@.len(),
                new_hashes@.len() == i - count,
                forall|k: int| 0 <= k < i - count ==> (#[trigger] new_hashes@[k]) == self.hashes@[
                    k + count
                ],
            decreases self.hashes@.len() - i,
        {
            let x = self.hashes[i];
            new_hashes.push(x);
            i = i + 1;
        }
        self.hashes = new_hashes;
        self.start_index = self.start_index + (count as u64);
        self.cache = cache;
        self.trimmed = Ghost(old(self).trimmed@ + old(self).window().take(count as int));
        proof {
            assert(self.window() =~= old(self).window().skip(count as int));
            assert(self.all_leaf_hashes() =~= old(self).all_leaf_hashes());
            lemma2_to64();
            assert forall|level: nat|
                level < 33 && (new_start / #[trigger] pow2(level)) % 2 == 1 implies level
                < self.cache@.len() && self.cache@[level as int]@ == node_hash(
                hasher,
                all,
                level,
                (new_start / pow2(level) - 1) as nat,
            ) by {
                lemma_pow2_pos(level);
                if level < d {
                    assert(self.cache@[level as int] == out.2@[level as int]);
                } else {
                    assert(new_start <= pow2(d));
                    if level > d {
                        lemma_pow2_strictly_increases(d, level);
                        vstd::arithmetic::div_mod::lemma_basic_div(
                            new_start as int,
                            pow2(level) as int,
                        );
                        assert(false);
                    }
                    assert(new_start / pow2(d) == 1 || new_start / pow2(d) == 0) by {
                        if new_start < pow2(d) {
                            vstd::arithmetic::div_mod::lemma_basic_div(
                                new_start as int,
                                pow2(d) as int,
                            );
                        } else {
                            vstd::arithmetic::div_mod::lemma_div_by_self(pow2(d) as int);
                        }
                    }
                    assert(self.cache@[d as int] == root);
                }
            }
            if self.window().len() == 0 {
                assert(self.cache@[d as int] == root);
            }
        }
    }

    /// Adds a new leaf to the tree, replacing the leftmost empty leaf. If the
    /// tree is full, its size is doubled.
    pub fn push(&mut self, leaf: [u8; LEAF_SIZE])
        requires
            old(self).wf(),
            old(self).all_leaf_hashes().len() < 0x1_0000_0000,
        ensures
            final(self).wf(),
            final(self).spec_hasher() == old(self).spec_hasher(),
            final(self).spec_start() == old(self).spec_start(),
            final(self).trimmed_hashes() == old(self).trimmed_hashes(),
            final(self).window() == old(self).window() + seq![
                old(self).spec_hasher().spec_hash_bytes(leaf@),
            ],
            final(self).all_leaf_hashes() == old(self).all_leaf_hashes() + seq![
                old(self).spec_hasher().spec_hash_bytes(leaf@),
            ],
            final(self).spec_size() == if old(self).all_leaf_hashes().len() + 1 > old(
                self,
            ).spec_size() {
                2 * old(self).spec_size()
            } else {
                old(self).spec_size()
            },
    {
        let h = self.hasher.hash_bytes(vstd::array::array_as_slice(&leaf));
        self.hashes.push(h);
        proof {
            assert(self.window() =~= old(self).window() + seq![
                old(self).spec_hasher().spec_hash_bytes(leaf@),
            ]);
            assert(self.all_leaf_hashes() =~= old(self).all_leaf_hashes() + seq![
                old(self).spec_hasher().spec_hash_bytes(leaf@),
            ]);
        }
        if self.start_index + (self.hashes.len() as u64) > self.binary_tree_size {
            proof {
                let d = self.depth();
                lemma2_to64();
                if d >= 32 {
                    assert(pow2(32) == 0x1_0000_0000);
                    assert(false);
                }
                lemma_pow2_unfold(d + 1);
                lemma_log2_pow2(d + 1);
            }
            self.binary_tree_size = self.binary_tree_size * 2;
        }
        proof {
            assert(old(self).all_leaf_hashes() =~= self.all_leaf_hashes().take(
                old(self).all_leaf_hashes().len() as int,
            ));
            self.lemma_wf_after_append(*old(self));
        }
    }

    /// Appending a leaf hash and possibly doubling the size preserves
    /// well-formedness: every cached sibling subtree lies wholly inside the
    /// trimmed prefix, which the append does not touch.
    proof fn lemma_wf_after_append(&self, prev: Self)
        requires
            prev.wf(),
            prev.all_leaf_hashes().len() < 0x1_0000_0000,
            self.spec_hasher() == prev.spec_hasher(),
            self.spec_start() == prev.spec_start(),
            self.trimmed@ == prev.trimmed@,
            self.cache@ == prev.cache@,
            self.window().len() == prev.window().len() + 1,
            prev.all_leaf_hashes() == self.all_leaf_hashes().take(
                prev.all_leaf_hashes().len() as int,
            ),
            pow2(self.depth()) == self.spec_size(),
            self.depth() <= 32,
            self.spec_start() + self.window().len() <= self.spec_size(),
        ensures
            self.wf(),
    {
        let start = self.spec_start();
        let all_prev = prev.all_leaf_hashes();
        let all_new = self.all_leaf_hashes();
        assert(start <= all_prev.len());
        assert forall|level: nat|
            level < 33 && (start / #[trigger] pow2(level)) % 2 == 1 implies level
            < self.cache@.len() && self.cache@[level as int]@ == node_hash(
            self.spec_hasher(),
            all_new,
            level,
            (start / pow2(level) - 1) as nat,
        ) by {
            lemma_pow2_pos(level);
            let q = start / pow2(level);
            assert(q >= 1);
            lemma_fundamental_div_mod(start as int, pow2(level) as int);
            assert(q * pow2(level) <= start);
            lemma_node_hash_agree(
                self.spec_hasher(),
                all_prev,
                all_new,
                level,
                (q - 1) as nat,
            );
        }
    }
}

/// Law: the root of a tree depends only on its hasher, its leaf hashes
/// (trimmed or not) and its size. Trimming changes none of them, so the root
/// survives any trim; and a trimmed tree and an untrimmed copy holding the
/// same leaves in a tree of the same size keep returning equal roots as the
/// same leaves are pushed to both, since `push` grows the leaf sequence and
/// the size by the leaf count alone.
pub proof fn lemma_root_determined_by_leaves<const LEAF_SIZE: usize, H: HashEmptySubtree<LEAF_SIZE>>(
    t1: &MiniMerkleTree<LEAF_SIZE, H>,
    t2: &MiniMerkleTree<LEAF_SIZE, H>,
)
    requires
        t1.spec_hasher() == t2.spec_hasher(),
        t1.all_leaf_hashes() == t2.all_leaf_hashes(),
        t1.spec_size() == t2.spec_size(),
    ensures
        t1.spec_root() == t2.spec_root(),
{
}

impl<const LEAF_SIZE: usize> MiniMerkleTree<LEAF_SIZE, KeccakHasher> where
    KeccakHasher: HashEmptySubtree<LEAF_SIZE>,
 {
    /// Creates a tree hashed with keccak-256 from the supplied leaves; see
    /// `with_hasher`.
    pub fn new(leaves: Vec<[u8; LEAF_SIZE]>, min_tree_size: Option<usize>) -> (tree: Self)
        requires
            leaves@.len() <= 0x1_0000_0000,
            min_tree_size matches Some(m) ==> is_pow2(m as int) && m <= 0x1_0000_0000,
        ensures
            tree.wf(),
            tree.spec_hasher() == KeccakHasher,
            tree.spec_start() == 0,
            tree.window() == leaves@.map_values(
                |leaf: [u8; LEAF_SIZE]| KeccakHasher.spec_hash_bytes(leaf@),
            ),
            tree.all_leaf_hashes() == tree.window(),
            pow2(tree.depth()) == tree.spec_size(),
            tree.depth() <= 32,
            tree.spec_size() >= leaves@.len(),
            tree.spec_size() >= 1,
            min_tree_size matches Some(m) ==> tree.spec_size() >= m,
            tree.spec_size() == 1 || tree.spec_size() / 2 < leaves@.len() || (min_tree_size
                matches Some(m) && m as nat == tree.spec_size()),
    {
        Self::with_hasher(KeccakHasher, leaves, min_tree_size)
    }
}

} // verus!
