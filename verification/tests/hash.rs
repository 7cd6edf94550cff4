use brangetree::{HashFold, TreeFolder};
use sha2::{Digest, Sha256};

fn be64_leaves(ns: &[u64]) -> Vec<Vec<u8>> {
    ns.iter().map(|n| n.to_be_bytes().to_vec()).collect()
}

#[test]
fn bin_test_hash() {
    let leaves = be64_leaves(&[0, 1]);
    let (result, _) = TreeFolder::fold(HashFold::new(), &leaves, None).unwrap();
    let h0 = Sha256::digest(&leaves[0]).to_vec();
    let h1 = Sha256::digest(&leaves[1]).to_vec();
    let mut hasher = Sha256::new();
    hasher.update(h0);
    hasher.update(h1);
    let root = hasher.finalize().to_vec();
    assert_eq!(result.unwrap(), root);
}

#[test]
fn hash_test_hash() {
    let leaves = be64_leaves(&[0, 1]);
    let (result, _) = TreeFolder::fold(HashFold::new(), &leaves, None).unwrap();
    let h0 = Sha256::digest(&leaves[0]).to_vec();
    let h1 = Sha256::digest(&leaves[1]).to_vec();
    let mut hasher = Sha256::new();
    hasher.update(h0);
    hasher.update(h1);
    let root = hasher.finalize().to_vec();
    assert_eq!(result.unwrap(), root);
}

#[test]
fn test_single_leaf_root_is_its_digest() {
    let leaves = be64_leaves(&[42]);
    let (result, _) = TreeFolder::fold(HashFold::new(), &leaves, None).unwrap();
    assert_eq!(result.unwrap(), Sha256::digest(&leaves[0]).to_vec());
}
