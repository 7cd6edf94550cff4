use brangetree::{TestFold, TreeFolder};

fn text_leaves(ns: &[u64]) -> Vec<Vec<u8>> {
    ns.iter().map(|n| n.to_string().into_bytes()).collect()
}

#[test]
fn test_basic() {
    let leaves = text_leaves(&[0, 1, 2, 3, 4]);
    let (result, _) = TreeFolder::fold(TestFold::new(), &leaves, None).unwrap();
    assert_eq!(result.unwrap(), b"[[[0,1],[2,3]],4]".to_vec());
}

#[test]
fn test_fill() {
    let leaves = text_leaves(&[0, 1, 2, 3, 4]);
    let (result, _) = TreeFolder::fold(TestFold::new(), &leaves, Some(b"E".to_vec())).unwrap();
    assert_eq!(result.unwrap(), b"[[[0,1],[2,3]],[[4,E],[E,E]]]".to_vec());
}

#[test]
fn test_unfilled() {
    let leaves = text_leaves(&[0, 1, 2, 3, 4]);
    let (result, _) = TreeFolder::fold(TestFold::new(), &leaves, None).unwrap();
    assert_eq!(result.unwrap(), b"[[[0,1],[2,3]],4]".to_vec());
}

#[test]
fn test_filled_even() {
    let leaves = text_leaves(&[0, 1, 2, 3]);
    let (result, _) = TreeFolder::fold(TestFold::new(), &leaves, Some(b"E".to_vec())).unwrap();
    assert_eq!(result.unwrap(), b"[[0,1],[2,3]]".to_vec());
}

#[test]
fn test_filled_uneven() {
    let leaves = text_leaves(&[0, 1, 2, 3, 4]);
    let (result, _) = TreeFolder::fold(TestFold::new(), &leaves, Some(b"E".to_vec())).unwrap();
    assert_eq!(result.unwrap(), b"[[[0,1],[2,3]],[[4,E],[E,E]]]".to_vec());
}

#[test]
fn test_empty_tree_has_no_root() {
    let leaves: Vec<Vec<u8>> = Vec::new();
    let (result, _) = TreeFolder::fold(TestFold::new(), &leaves, None).unwrap();
    assert!(result.is_none());
}

#[test]
fn test_fill_empty_tree_is_one_sentinel() {
    let leaves: Vec<Vec<u8>> = Vec::new();
    let (result, _) = TreeFolder::fold(TestFold::new(), &leaves, Some(b"E".to_vec())).unwrap();
    assert_eq!(result.unwrap(), b"E".to_vec());
}

#[test]
fn test_result_is_idempotent() {
    let leaves = text_leaves(&[0, 1, 2, 3, 4]);
    let mut folder = TreeFolder::new(TestFold::new());
    folder.extend(&leaves).unwrap();
    let first = folder.result().unwrap().unwrap();
    let second = folder.result().unwrap().unwrap();
    assert_eq!(first, b"[[[0,1],[2,3]],4]".to_vec());
    assert_eq!(first, second);
}

#[test]
fn test_push_matches_extend() {
    let leaves = text_leaves(&[7, 8, 9]);
    let mut one = TreeFolder::new(TestFold::new());
    for leaf in &leaves {
        one.push(leaf).unwrap();
    }
    let mut two = TreeFolder::new(TestFold::new());
    two.extend(&leaves).unwrap();
    assert_eq!(one.len(), 3);
    assert_eq!(one.result().unwrap(), two.result().unwrap());
}

#[test]
fn test_fill_equals_plain_sentinel_pushes() {
    let leaves = text_leaves(&[0, 1, 2, 3, 4]);
    let (filled, _) = TreeFolder::fold(TestFold::new(), &leaves, Some(b"E".to_vec())).unwrap();
    let mut plain_leaves = leaves.clone();
    while plain_leaves.len() < 8 {
        plain_leaves.push(b"E".to_vec());
    }
    let (plain, _) = TreeFolder::fold(TestFold::new(), &plain_leaves, None).unwrap();
    assert_eq!(filled, plain);
}
