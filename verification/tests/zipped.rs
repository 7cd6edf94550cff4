use brangetree::{
    find_merkle_path, hash_zipped, make_range, Error, HashFold, TreeFolder,
};
use flate2::write::GzEncoder;
use flate2::Compression;
use sha2::{Digest, Sha256};
use std::io::Write;

fn gzip(data: &[u8]) -> Vec<u8> {
    let mut enc = GzEncoder::new(Vec::new(), Compression::default());
    enc.write_all(data).unwrap();
    enc.finish().unwrap()
}

fn range_leaves(ranges: &[(u32, u32)]) -> Vec<Vec<u8>> {
    ranges.iter().map(|(l, r)| make_range(*l, *r).to_vec()).collect()
}

// 16 bytes; the first byte reads 1 0 0 1 0 0 0 0, the rest is zero, so
// the whole stream decodes to the ranges (0,1), (1,4), (4, MAX).
fn sample_bitmap() -> Vec<u8> {
    let mut data = vec![0u8; 16];
    data[0] = 0x90;
    data
}

#[test]
fn test_hash_zipped_unfilled() {
    let zipped = gzip(&sample_bitmap());
    let result = hash_zipped(&zipped, false).unwrap();
    assert_eq!(result.leaf_count, 3);
    assert_eq!(result.filled_count, 3);
    let leaves = range_leaves(&[(0, 1), (1, 4), (4, u32::MAX)]);
    let (expected, _) = TreeFolder::fold(HashFold::new(), &leaves, None).unwrap();
    assert_eq!(result.root.unwrap(), expected.unwrap());
}

#[test]
fn test_hash_zipped_filled() {
    let zipped = gzip(&sample_bitmap());
    let result = hash_zipped(&zipped, true).unwrap();
    assert_eq!(result.leaf_count, 3);
    assert_eq!(result.filled_count, 4);
    let leaves = range_leaves(&[(0, 1), (1, 4), (4, u32::MAX)]);
    let sentinel = make_range(u32::MAX, u32::MAX).to_vec();
    let (expected, _) = TreeFolder::fold(HashFold::new(), &leaves, Some(sentinel)).unwrap();
    assert_eq!(result.root.unwrap(), expected.unwrap());
}

#[test]
fn test_hash_zipped_all_active() {
    // two all-zero words: one tail range over the whole space
    let zipped = gzip(&[0u8; 16]);
    let result = hash_zipped(&zipped, false).unwrap();
    assert_eq!(result.leaf_count, 1);
    let leaves = range_leaves(&[(0, u32::MAX)]);
    let (expected, _) = TreeFolder::fold(HashFold::new(), &leaves, None).unwrap();
    assert_eq!(result.root.unwrap(), expected.unwrap());
}

#[test]
fn test_hash_zipped_all_revoked_word() {
    // an all-ones word, then an all-zero word: the batched call moves the
    // boundary to the word's first bit
    let mut data = vec![0xffu8; 8];
    data.extend_from_slice(&[0u8; 8]);
    let zipped = gzip(&data);
    let result = hash_zipped(&zipped, false).unwrap();
    assert_eq!(result.leaf_count, 2);
    let leaves = range_leaves(&[(0, 1), (1, u32::MAX)]);
    let (expected, _) = TreeFolder::fold(HashFold::new(), &leaves, None).unwrap();
    assert_eq!(result.root.unwrap(), expected.unwrap());
}

#[test]
fn test_hash_zipped_empty_bitmap() {
    // no bits at all: only the tail range over the whole space
    let zipped = gzip(&[]);
    let result = hash_zipped(&zipped, false).unwrap();
    assert_eq!(result.leaf_count, 1);
    let leaves = range_leaves(&[(0, u32::MAX)]);
    let (expected, _) = TreeFolder::fold(HashFold::new(), &leaves, None).unwrap();
    assert_eq!(result.root.unwrap(), expected.unwrap());
}

#[test]
fn test_hash_zipped_partial_tail_word() {
    // 9 bytes: one all-zero word, then a tail byte whose first bit is
    // revoked at index 65
    let mut data = vec![0u8; 9];
    data[8] = 0x80;
    let zipped = gzip(&data);
    let result = hash_zipped(&zipped, false).unwrap();
    assert_eq!(result.leaf_count, 2);
    let leaves = range_leaves(&[(0, 65), (65, u32::MAX)]);
    let (expected, _) = TreeFolder::fold(HashFold::new(), &leaves, None).unwrap();
    assert_eq!(result.root.unwrap(), expected.unwrap());
}

#[test]
fn test_hash_zipped_rejects_garbage() {
    let garbage = b"this is not a gzip stream".to_vec();
    match hash_zipped(&garbage, false) {
        Err(Error::Io) => {},
        other => panic!("expected an Io error, got {:?}", other.map(|r| r.leaf_count)),
    }
}

#[test]
fn test_find_merkle_path_found() {
    let zipped = gzip(&sample_bitmap());
    let (range, path, result) = find_merkle_path(&zipped, 2).unwrap();
    assert_eq!(range, Some((1, 4)));
    let path = path.unwrap();
    assert_eq!(path.leaf, Sha256::digest(make_range(1, 4)).to_vec());
    let root = result.root.unwrap();
    let mut backend = HashFold::new();
    let verify = path.fold(&mut backend).unwrap();
    assert_eq!(verify, root);
    // the committed root is the same one hash_zipped reports with fill
    let hashed = hash_zipped(&zipped, true).unwrap();
    assert_eq!(root, hashed.root.unwrap());
}

#[test]
fn test_find_merkle_path_every_active_index() {
    let zipped = gzip(&sample_bitmap());
    let hashed = hash_zipped(&zipped, true).unwrap();
    let root = hashed.root.unwrap();
    for index in [2u32, 3, 5, 100, 1_000_000] {
        let (range, path, result) = find_merkle_path(&zipped, index).unwrap();
        let (l, r) = range.unwrap();
        assert!(l < index && index < r);
        let mut backend = HashFold::new();
        let verify = path.unwrap().fold(&mut backend).unwrap();
        assert_eq!(verify, result.root.unwrap());
        assert_eq!(verify, root);
    }
}

#[test]
fn test_find_merkle_path_boundary_index() {
    // 1 is a range boundary: neither (0,1) nor (1,4) strictly contains it
    let zipped = gzip(&sample_bitmap());
    let (range, path, result) = find_merkle_path(&zipped, 1).unwrap();
    assert!(range.is_none());
    assert!(path.is_none());
    assert!(result.root.is_some());
}

#[test]
fn test_find_merkle_path_revoked_index() {
    let zipped = gzip(&sample_bitmap());
    let (range, path, result) = find_merkle_path(&zipped, 4).unwrap();
    assert!(range.is_none());
    assert!(path.is_none());
    // the root is still reported
    let hashed = hash_zipped(&zipped, true).unwrap();
    assert_eq!(result.root.unwrap(), hashed.root.unwrap());
}
