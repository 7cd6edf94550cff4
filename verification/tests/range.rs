use brangetree::{make_range, RangeCollect, RangeParser, RangeTarget};

#[test]
fn test_range() {
    let bits = &[true, false, false, true];
    let mut parser = RangeParser::new(RangeCollect::new());
    for bit in bits {
        parser.process_bits(*bit, 1).unwrap();
    }
    let collect = parser.complete().unwrap();
    assert_eq!(collect.result, vec![(0, 1), (1, 4), (4, u32::MAX)]);
}

#[test]
fn test_range_all_active() {
    let mut parser = RangeParser::new(RangeCollect::new());
    parser.process_bits(false, 64).unwrap();
    let collect = parser.complete().unwrap();
    assert_eq!(collect.result, vec![(0, u32::MAX)]);
}

#[test]
fn test_range_batched_revoked_run() {
    // a batched revoked call moves the boundary once, to its first bit
    let mut parser = RangeParser::new(RangeCollect::new());
    parser.process_bits(true, 64).unwrap();
    parser.process_bits(false, 1).unwrap();
    parser.process_bits(true, 1).unwrap();
    let collect = parser.complete().unwrap();
    assert_eq!(collect.result, vec![(0, 1), (1, 66), (66, u32::MAX)]);
}

#[test]
fn test_range_adjacent_revoked_bits() {
    let bits = &[true, true, false, true];
    let mut parser = RangeParser::new(RangeCollect::new());
    for bit in bits {
        parser.process_bits(*bit, 1).unwrap();
    }
    let collect = parser.complete().unwrap();
    assert_eq!(collect.result, vec![(0, 1), (2, 4), (4, u32::MAX)]);
}

#[test]
fn test_make_range_is_big_endian() {
    assert_eq!(make_range(1, 4), [0, 0, 0, 1, 0, 0, 0, 4]);
    assert_eq!(
        make_range(0x01020304, 0xa0b0c0d0),
        [0x01, 0x02, 0x03, 0x04, 0xa0, 0xb0, 0xc0, 0xd0]
    );
    assert_eq!(make_range(u32::MAX, u32::MAX), [0xff; 8]);
}
