use h3xy::{parse_ranges, Range, RangeError};

#[test]
fn test_from_start_length() {
    let r = Range::from_start_length(0x1000, 0x200).unwrap();
    assert_eq!(r.start(), 0x1000);
    assert_eq!(r.end(), 0x11FF);
    assert_eq!(r.length(), 0x200);
}

#[test]
fn test_from_start_end() {
    let r = Range::from_start_end(0x1000, 0x11FF).unwrap();
    assert_eq!(r.start(), 0x1000);
    assert_eq!(r.end(), 0x11FF);
    assert_eq!(r.length(), 0x200);
}

#[test]
fn test_contains() {
    let r = Range::from_start_end(0x1000, 0x1FFF).unwrap();
    assert!(r.contains(0x1000));
    assert!(r.contains(0x1500));
    assert!(r.contains(0x1FFF));
    assert!(!r.contains(0x0FFF));
    assert!(!r.contains(0x2000));
}

#[test]
fn test_overlaps() {
    let r1 = Range::from_start_end(0x1000, 0x1FFF).unwrap();
    let r2 = Range::from_start_end(0x1800, 0x2800).unwrap();
    let r3 = Range::from_start_end(0x2000, 0x3000).unwrap();
    let r4 = Range::from_start_end(0x0500, 0x0FFF).unwrap();

    assert!(r1.overlaps(&r2)); // overlap at 0x1800-0x1FFF
    assert!(!r1.overlaps(&r3)); // adjacent but not overlapping
    assert!(!r1.overlaps(&r4)); // no overlap
}

#[test]
fn test_intersection() {
    let r1 = Range::from_start_end(0x1000, 0x1FFF).unwrap();
    let r2 = Range::from_start_end(0x1800, 0x2800).unwrap();

    let i = r1.intersection(&r2).unwrap();
    assert_eq!(i.start(), 0x1800);
    assert_eq!(i.end(), 0x1FFF);

    let r3 = Range::from_start_end(0x2000, 0x3000).unwrap();
    assert!(r1.intersection(&r3).is_none());
}

#[test]
fn test_parse_ranges_multiple() {
    let ranges = parse_ranges("0x1000,0x100:0x2000-0x2FFF").unwrap();
    assert_eq!(ranges.len(), 2);
    assert_eq!(ranges[0].start(), 0x1000);
    assert_eq!(ranges[0].end(), 0x10FF);
    assert_eq!(ranges[1].start(), 0x2000);
    assert_eq!(ranges[1].end(), 0x2FFF);
}

#[test]
fn test_zero_length_error() {
    assert!(matches!(
        Range::from_start_length(0x1000, 0),
        Err(RangeError::ZeroLength { .. })
    ));
}

#[test]
fn test_start_exceeds_end_error() {
    assert!(matches!(
        Range::from_start_end(0x2000, 0x1000),
        Err(RangeError::StartExceedsEnd { .. })
    ));
}

#[test]
fn test_full_4gib_range_rejected() {
    assert!(matches!(
        Range::from_start_end(0, u32::MAX),
        Err(RangeError::InvalidFormat(_))
    ));
}

#[test]
fn test_near_max_range_allowed() {
    // 1 to MAX is allowed (length = MAX)
    let r = Range::from_start_end(1, u32::MAX).unwrap();
    assert_eq!(r.length(), u32::MAX);
}

#[test]
fn test_single_byte_range() {
    let r = Range::from_start_end(0x1000, 0x1000).unwrap();
    assert_eq!(r.length(), 1);
    assert!(r.contains(0x1000));
    assert!(!r.contains(0x1001));
}

#[test]
fn test_parse_ranges_single() {
    let ranges = parse_ranges("0x1000,0x100").unwrap();
    assert_eq!(ranges.len(), 1);
}

#[test]
fn test_address_overflow_in_start_length() {
    let result = Range::from_start_length(u32::MAX, 2);
    assert!(result.is_err());
}

#[test]
fn test_overlaps_single_byte_boundary() {
    let r1 = Range::from_start_end(0x1000, 0x1000).unwrap();
    let r2 = Range::from_start_end(0x1000, 0x1000).unwrap();
    assert!(r1.overlaps(&r2));

    let r3 = Range::from_start_end(0x1001, 0x1001).unwrap();
    assert!(!r1.overlaps(&r3));
}