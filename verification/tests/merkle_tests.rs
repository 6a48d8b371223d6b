//! Behavioural tests for the Merkle Patricia Trie: lookup round trips,
//! removal, duplicate rejection, digest equality and divergence, and the
//! compression of split edges.

use merkle_patricia_tree::merkle_tree::MerklePatriciaTree;
use merkle_patricia_tree::merkle_tree::TrieError;
use sha2::Digest;

/// An independent SHA-256, for checking the digest protocol from outside.
fn sha(data: &[u8]) -> [u8; 32] {
    let mut out = [0u8; 32];
    out.copy_from_slice(&sha2::Sha256::digest(data));
    out
}

/// A fixed-seed xorshift generator, so the "random" tests are repeatable.
fn next_rand(state: &mut u64) -> u64 {
    let mut x = *state;
    x ^= x << 13;
    x ^= x >> 7;
    x ^= x << 17;
    *state = x;
    x
}

/// `count` distinct 32-byte keys with distinct values. The index is baked
/// into the first bytes, so the keys are pairwise distinct by construction.
fn pseudo_pairs(count: u32) -> Vec<(Vec<u8>, u64)> {
    let mut state: u64 = 0x9e3779b97f4a7c15;
    let mut out: Vec<(Vec<u8>, u64)> = Vec::new();
    let mut index: u32 = 0;
    while index < count {
        let mut key: Vec<u8> = Vec::new();
        key.extend_from_slice(&index.to_le_bytes());
        while key.len() < 32 {
            key.extend_from_slice(&next_rand(&mut state).to_le_bytes());
        }
        key.truncate(32);
        out.push((key, index as u64));
        index += 1;
    }
    out
}

#[test]
fn insert_test() {
    let mut new_tree = MerklePatriciaTree::new();

    new_tree.insert(b"q", 1).unwrap();
    new_tree.insert(b"qw", 2).unwrap();
    new_tree.insert(b"qwe", 3).unwrap();
    new_tree.insert(b"qwer", 4).unwrap();
    new_tree.insert(b"qwert", 5).unwrap();
    new_tree.insert(b"qwerty", 6).unwrap();

    assert_eq!(new_tree.get(b"q"), Some(&1));
    assert_eq!(new_tree.get(b"qw"), Some(&2));
    assert_eq!(new_tree.get(b"qwe"), Some(&3));
    assert_eq!(new_tree.get(b"qwer"), Some(&4));
    assert_eq!(new_tree.get(b"qwert"), Some(&5));
    assert_eq!(new_tree.get(b"qwerty"), Some(&6));
}

#[test]
fn exists_value() {
    let mut new_tree = MerklePatriciaTree::new();

    new_tree.insert(b"exist", 1).unwrap();
    assert_eq!(new_tree.insert(b"exist", 2), Err(TrieError::KeyAlreadyPresent));
}

#[test]
fn random_insert_test() {
    let pairs = pseudo_pairs(100);
    let mut new_tree = MerklePatriciaTree::new();

    for (key, value) in pairs.iter() {
        new_tree.insert(key, *value).unwrap();
    }

    for (key, value) in pairs.iter() {
        assert_eq!(new_tree.get(key), Some(value));
    }
}

#[test]
fn remove_test() {
    let mut new_tree = MerklePatriciaTree::new();

    new_tree.insert(b"q", 1).unwrap();
    new_tree.insert(b"qw", 2).unwrap();
    new_tree.insert(b"qwe", 3).unwrap();
    new_tree.insert(b"qwer", 4).unwrap();
    new_tree.insert(b"qwert", 5).unwrap();
    new_tree.insert(b"qwerty", 6).unwrap();

    assert_eq!(new_tree.remove(b"q"), Some(1));
    assert_eq!(new_tree.remove(b"qw"), Some(2));
    assert_eq!(new_tree.remove(b"qwe"), Some(3));
    assert_eq!(new_tree.remove(b"qwer"), Some(4));
    assert_eq!(new_tree.remove(b"qwert"), Some(5));
    assert_eq!(new_tree.remove(b"qwerty"), Some(6));

    assert_eq!(new_tree.remove(b"q"), None);
    assert_eq!(new_tree.remove(b"qw"), None);
    assert_eq!(new_tree.remove(b"qwe"), None);
    assert_eq!(new_tree.remove(b"qwer"), None);
    assert_eq!(new_tree.remove(b"qwert"), None);
    assert_eq!(new_tree.remove(b"qwerty"), None);
}

#[test]
fn remove_random_test() {
    let pairs = pseudo_pairs(100);
    let mut new_tree = MerklePatriciaTree::new();

    for (key, value) in pairs.iter() {
        new_tree.insert(key, *value).unwrap();
    }

    for (key, value) in pairs.iter() {
        assert_eq!(new_tree.remove(key), Some(*value));
    }

    for (key, _value) in pairs.iter() {
        assert_eq!(new_tree.remove(key), None);
    }
}

#[test]
fn hash_test() {
    let mut new_tree = MerklePatriciaTree::new();

    new_tree.insert(b"q", 1).unwrap();
    new_tree.insert(b"qw", 2).unwrap();
    new_tree.insert(b"qwe", 3).unwrap();
    new_tree.insert(b"qwer", 4).unwrap();
    new_tree.insert(b"qwert", 5).unwrap();
    new_tree.insert(b"qwerty", 6).unwrap();

    let mut new_tree2 = MerklePatriciaTree::new();

    new_tree2.insert(b"q", 1).unwrap();
    new_tree2.insert(b"qw", 2).unwrap();
    new_tree2.insert(b"qwe", 3).unwrap();
    new_tree2.insert(b"qwer", 4).unwrap();
    new_tree2.insert(b"qwert", 5).unwrap();
    new_tree2.insert(b"qwerty", 6).unwrap();

    assert_eq!(new_tree.root_digest(), new_tree2.root_digest());
}

#[test]
fn hash_test_different() {
    let mut new_tree = MerklePatriciaTree::new();

    new_tree.insert(b"q", 1).unwrap();
    new_tree.insert(b"qw", 2).unwrap();
    new_tree.insert(b"qwe", 3).unwrap();
    new_tree.insert(b"qwer", 4).unwrap();
    new_tree.insert(b"qwert", 5).unwrap();
    new_tree.insert(b"qwerty", 6).unwrap();

    let mut new_tree2 = MerklePatriciaTree::new();

    new_tree2.insert(b"q", 1).unwrap();
    new_tree2.insert(b"qw", 2).unwrap();
    new_tree2.insert(b"qwe", 3).unwrap();
    new_tree2.insert(b"qwer", 4).unwrap();
    new_tree2.insert(b"qwert", 5).unwrap();
    new_tree2.insert(b"qqwerty", 6).unwrap();

    assert_ne!(new_tree.root_digest(), new_tree2.root_digest());
}

#[test]
fn random_hash_test() {
    let pairs = pseudo_pairs(1000);
    let mut new_tree = MerklePatriciaTree::new();
    let mut new_tree2 = MerklePatriciaTree::new();

    for (key, value) in pairs.iter() {
        new_tree.insert(key, *value).unwrap();
        new_tree2.insert(key, *value).unwrap();

        assert_eq!(new_tree.root_digest(), new_tree2.root_digest());
    }
}

#[test]
fn empty_digest_test() {
    let new_tree = MerklePatriciaTree::new();
    assert!(new_tree.is_empty());
    assert_eq!(new_tree.root_digest(), [0u8; 32]);
}

#[test]
fn digest_reverse_order_test() {
    let mut forward = MerklePatriciaTree::new();
    forward.insert(b"q", 1).unwrap();
    forward.insert(b"qw", 2).unwrap();
    forward.insert(b"qwe", 3).unwrap();
    forward.insert(b"qwer", 4).unwrap();
    forward.insert(b"qwert", 5).unwrap();
    forward.insert(b"qwerty", 6).unwrap();

    let mut backward = MerklePatriciaTree::new();
    backward.insert(b"qwerty", 6).unwrap();
    backward.insert(b"qwert", 5).unwrap();
    backward.insert(b"qwer", 4).unwrap();
    backward.insert(b"qwe", 3).unwrap();
    backward.insert(b"qw", 2).unwrap();
    backward.insert(b"q", 1).unwrap();

    assert_eq!(forward.root_digest(), backward.root_digest());
    assert!(forward == backward);
}

#[test]
fn value_sensitivity_test() {
    let mut a = MerklePatriciaTree::new();
    a.insert(b"alpha", 1).unwrap();
    a.insert(b"beta", 2).unwrap();

    let mut b = MerklePatriciaTree::new();
    b.insert(b"alpha", 1).unwrap();
    b.insert(b"beta", 3).unwrap();

    assert_ne!(a.root_digest(), b.root_digest());
    assert!(a != b);
}

#[test]
fn duplicate_insert_keeps_state_test() {
    let mut tree = MerklePatriciaTree::new();
    tree.insert(b"left", 10).unwrap();
    tree.insert(b"leftmost", 11).unwrap();
    let before = tree.root_digest();

    assert_eq!(tree.insert(b"left", 99), Err(TrieError::KeyAlreadyPresent));

    assert_eq!(tree.root_digest(), before);
    assert_eq!(tree.get(b"left"), Some(&10));
    assert_eq!(tree.get(b"leftmost"), Some(&11));
}

#[test]
fn reinsert_after_remove_test() {
    let mut once = MerklePatriciaTree::new();
    once.insert(b"stem", 7).unwrap();
    once.insert(b"stems", 8).unwrap();
    once.insert(b"branch", 9).unwrap();

    let mut cycled = MerklePatriciaTree::new();
    cycled.insert(b"stem", 7).unwrap();
    cycled.insert(b"stems", 8).unwrap();
    cycled.insert(b"branch", 9).unwrap();
    assert_eq!(cycled.remove(b"stems"), Some(8));
    cycled.insert(b"stems", 8).unwrap();

    assert_eq!(once.root_digest(), cycled.root_digest());
}

#[test]
fn random_remove_all_zero_digest_test() {
    let pairs = pseudo_pairs(1000);
    let mut tree = MerklePatriciaTree::new();

    for (key, value) in pairs.iter() {
        tree.insert(key, *value).unwrap();
    }
    for (key, value) in pairs.iter() {
        assert_eq!(tree.get(key), Some(value));
    }
    for (key, value) in pairs.iter() {
        assert_eq!(tree.remove(key), Some(*value));
    }

    assert!(tree.is_empty());
    assert_eq!(tree.root_digest(), [0u8; 32]);
}

#[test]
fn digest_preimage_test() {
    // One binding: the root digest is H(H(label) ++ H(encode(value))),
    // recomputed here with an independent hasher and encoder.
    let mut tree = MerklePatriciaTree::new();
    tree.insert(b"q", 1).unwrap();

    let mut preimage: Vec<u8> = Vec::new();
    preimage.extend_from_slice(&sha(b"q"));
    preimage.extend_from_slice(&sha(&bincode::serialize(&1u64).unwrap()));
    assert_eq!(tree.root_digest(), sha(&preimage));

    // A nested binding hangs a child below: the child's digest enters the
    // parent's preimage as 32 raw bytes, not rehashed.
    tree.insert(b"qw", 2).unwrap();

    let mut child: Vec<u8> = Vec::new();
    child.extend_from_slice(&sha(b"w"));
    child.extend_from_slice(&sha(&bincode::serialize(&2u64).unwrap()));
    let child_digest = sha(&child);

    let mut root: Vec<u8> = Vec::new();
    root.extend_from_slice(&sha(b"q"));
    root.extend_from_slice(&sha(&bincode::serialize(&1u64).unwrap()));
    root.extend_from_slice(&child_digest);
    assert_eq!(tree.root_digest(), sha(&root));
}

#[test]
fn digest_child_order_test() {
    // Diverging keys split the root into a valueless node with an empty
    // label; its children enter the preimage in ascending first-byte order,
    // whatever order they were inserted in.
    let mut tree = MerklePatriciaTree::new();
    tree.insert(b"banana", 2).unwrap();
    tree.insert(b"apple", 1).unwrap();

    let mut a: Vec<u8> = Vec::new();
    a.extend_from_slice(&sha(b"apple"));
    a.extend_from_slice(&sha(&bincode::serialize(&1u64).unwrap()));
    let mut b: Vec<u8> = Vec::new();
    b.extend_from_slice(&sha(b"banana"));
    b.extend_from_slice(&sha(&bincode::serialize(&2u64).unwrap()));

    let mut root: Vec<u8> = Vec::new();
    root.extend_from_slice(&sha(b""));
    root.extend_from_slice(&sha(&a));
    root.extend_from_slice(&sha(&b));
    assert_eq!(tree.root_digest(), sha(&root));
}

#[test]
fn split_and_compress_test() {
    let mut tree = MerklePatriciaTree::new();
    tree.insert(b"abcd", 1).unwrap();
    tree.insert(b"abef", 2).unwrap();
    assert_eq!(tree.remove(b"abcd"), Some(1));

    assert_eq!(tree.get(b"abef"), Some(&2));

    // After compression the trie must be the single-edge trie holding only
    // ("abef", 2); the canonical digest makes that observable.
    let mut single = MerklePatriciaTree::new();
    single.insert(b"abef", 2).unwrap();
    assert_eq!(tree.root_digest(), single.root_digest());
}
