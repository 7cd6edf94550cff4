use brangetree::{Path, PathJoin, PathTracker, TestFold, TreeFolder};

fn text_leaves(n: u64) -> Vec<Vec<u8>> {
    (0..n).map(|i| i.to_string().into_bytes()).collect()
}

#[test]
fn test_track() {
    let leaves = text_leaves(8);
    let tracker = PathTracker::new(TestFold::new(), Some(3));
    let (result, tracker) = TreeFolder::fold(tracker, &leaves, None).unwrap();
    let path = tracker.path_result().unwrap();
    let expect_result = b"[[[0,1],[2,3]],[[4,5],[6,7]]]".to_vec();
    assert_eq!(result.unwrap(), expect_result);
    assert_eq!(
        path,
        Path::new(
            b"3".to_vec(),
            vec![
                PathJoin::Left(b"2".to_vec()),
                PathJoin::Left(b"[0,1]".to_vec()),
                PathJoin::Right(b"[[4,5],[6,7]]".to_vec()),
            ],
        )
    );
    let mut backend = TestFold::new();
    assert_eq!(path.fold(&mut backend).unwrap(), expect_result);
}

#[test]
fn test_track_multiple() {
    let leaves = text_leaves(128);
    for i in 0..128usize {
        let tracker = PathTracker::new(TestFold::new(), Some(i));
        let (result, tracker) = TreeFolder::fold(tracker, &leaves, None).unwrap();
        let path = tracker.path_result().unwrap();
        let leaf = path.leaf.clone();
        let mut backend = TestFold::new();
        let verify = path.fold(&mut backend).unwrap();
        assert_eq!(leaf, i.to_string().into_bytes());
        assert_eq!(result.unwrap(), verify);
    }
}

#[test]
fn test_track_with_fill() {
    let leaves = text_leaves(5);
    let tracker = PathTracker::new(TestFold::new(), Some(4));
    let mut folder = TreeFolder::new(tracker);
    folder.extend(&leaves).unwrap();
    folder.fill(b"E".to_vec()).unwrap();
    let root = folder.result().unwrap().unwrap();
    let tracker = folder.into_base();
    let path = tracker.path_result().unwrap();
    assert_eq!(path.leaf, b"4".to_vec());
    let mut backend = TestFold::new();
    assert_eq!(path.fold(&mut backend).unwrap(), root);
}

#[test]
fn test_track_next_picks_following_leaf() {
    let leaves = text_leaves(4);
    let mut folder = TreeFolder::new(PathTracker::new(TestFold::new(), None));
    folder.push(&leaves[0]).unwrap();
    folder.base_mut().track_next();
    folder.push(&leaves[1]).unwrap();
    folder.push(&leaves[2]).unwrap();
    folder.push(&leaves[3]).unwrap();
    let root = folder.result().unwrap().unwrap();
    let path = folder.into_base().path_result().unwrap();
    assert_eq!(path.leaf, b"1".to_vec());
    let mut backend = TestFold::new();
    assert_eq!(path.fold(&mut backend).unwrap(), root);
}
