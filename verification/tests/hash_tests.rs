use merkle_core::hash::{h256_eq, HashEmptySubtree, KeccakHasher, H256};

/// keccak-256 of the empty byte string, a fixed reference value.
const KECCAK_EMPTY: [u8; 32] = [
    0xc5, 0xd2, 0x46, 0x01, 0x86, 0xf7, 0x23, 0x3c, 0x92, 0x7e, 0x7d, 0xb2, 0xdc, 0xc7, 0x03,
    0xc0, 0xe5, 0x00, 0xb6, 0x53, 0xca, 0x82, 0x27, 0x3b, 0x7b, 0xfa, 0xd8, 0x04, 0x5d, 0x85,
    0xa4, 0x70,
];

#[test]
fn keccak_of_empty_input_matches_reference() {
    let h = KeccakHasher.hash_bytes(&[]);
    assert_eq!(h, H256(KECCAK_EMPTY));
}

#[test]
fn hashing_is_not_identity() {
    let input = [0u8; 88];
    let h = KeccakHasher.hash_bytes(&input);
    assert_ne!(h.0, [0u8; 32]);
    let again = KeccakHasher.hash_bytes(&input);
    assert_eq!(h, again);
}

#[test]
fn compress_depends_on_order() {
    let a = KeccakHasher.hash_bytes(&[1u8]);
    let b = KeccakHasher.hash_bytes(&[2u8]);
    let ab = KeccakHasher.compress(&a, &b);
    let ba = KeccakHasher.compress(&b, &a);
    assert_ne!(ab, ba);
}

#[test]
fn empty_subtree_hash_steps_by_compression() {
    let e0 = KeccakHasher.empty_subtree_hash(0);
    let leaf0 = KeccakHasher.hash_bytes(&[0u8; 88]);
    assert_eq!(e0, leaf0);
    for depth in 1..=32usize {
        let lower = KeccakHasher.empty_subtree_hash(depth - 1);
        let expected = KeccakHasher.compress(&lower, &lower);
        assert_eq!(KeccakHasher.empty_subtree_hash(depth), expected);
    }
}

#[test]
fn h256_eq_compares_bytes() {
    let mut x = [7u8; 32];
    let a = H256(x);
    assert!(h256_eq(&a, &H256(x)));
    x[31] = 8;
    assert!(!h256_eq(&a, &H256(x)));
    assert_eq!(H256::zero(), H256([0u8; 32]));
}
