use h3xy::{HexFile, HexFileError, Segment};

#[test]
fn test_normalized_merges_contiguous() {
    let hf = HexFile::with_segments(vec![
        Segment::new(0x100, vec![0x01, 0x02]),
        Segment::new(0x102, vec![0x03, 0x04]),
    ]);
    let norm = hf.normalized().unwrap();
    assert_eq!(norm.segments.len(), 1);
    assert_eq!(norm.segments[0].start_address, 0x100);
    assert_eq!(norm.segments[0].data, vec![0x01, 0x02, 0x03, 0x04]);
}

#[test]
fn test_normalized_preserves_gaps() {
    let hf = HexFile::with_segments(vec![
        Segment::new(0x100, vec![0x01, 0x02]),
        Segment::new(0x200, vec![0x03, 0x04]),
    ]);
    let norm = hf.normalized().unwrap();
    assert_eq!(norm.segments.len(), 2);
}

#[test]
fn test_normalized_errors_on_overlap() {
    let hf = HexFile::with_segments(vec![
        Segment::new(0x100, vec![0x01, 0x02, 0x03]),
        Segment::new(0x101, vec![0xFF]),
    ]);
    assert!(matches!(
        hf.normalized(),
        Err(HexFileError::OverlappingSegments { .. })
    ));
}

#[test]
fn test_normalized_lossy_last_wins() {
    let hf = HexFile::with_segments(vec![
        Segment::new(0x100, vec![0x01, 0x02, 0x03]),
        Segment::new(0x101, vec![0xFF]),
    ]);
    let norm = hf.normalized_lossy();
    assert_eq!(norm.segments.len(), 1);
    assert_eq!(norm.segments[0].data, vec![0x01, 0xFF, 0x03]);
}

#[test]
fn test_read_byte() {
    let hf = HexFile::with_segments(vec![Segment::new(0x100, vec![0xAA, 0xBB, 0xCC])]);
    assert_eq!(hf.read_byte(0x100), Some(0xAA));
    assert_eq!(hf.read_byte(0x101), Some(0xBB));
    assert_eq!(hf.read_byte(0x102), Some(0xCC));
    assert_eq!(hf.read_byte(0x103), None);
    assert_eq!(hf.read_byte(0x0FF), None);
}

#[test]
fn test_read_bytes_with_gaps() {
    let hf = HexFile::with_segments(vec![
        Segment::new(0x100, vec![0xAA]),
        Segment::new(0x102, vec![0xCC]),
    ]);
    let result = hf.read_bytes(0x100, 3);
    assert_eq!(result, vec![Some(0xAA), None, Some(0xCC)]);
}

#[test]
fn test_read_bytes_contiguous() {
    let hf = HexFile::with_segments(vec![Segment::new(0x100, vec![0xAA, 0xBB, 0xCC])]);
    assert_eq!(
        hf.read_bytes_contiguous(0x100, 3),
        Some(vec![0xAA, 0xBB, 0xCC])
    );
    assert_eq!(hf.read_bytes_contiguous(0x100, 4), None);
}

#[test]
fn test_write_bytes() {
    let mut hf = HexFile::new();
    hf.write_bytes(0x100, &[0x01, 0x02]);
    hf.write_bytes(0x101, &[0xFF]); // overlaps
    let norm = hf.normalized_lossy();
    assert_eq!(norm.segments[0].data, vec![0x01, 0xFF]);
}

#[test]
fn test_sorted_order() {
    let hf = HexFile::with_segments(vec![
        Segment::new(0x300, vec![0x03]),
        Segment::new(0x100, vec![0x01]),
        Segment::new(0x200, vec![0x02]),
    ]);
    let norm = hf.normalized().unwrap();
    assert_eq!(norm.segments[0].start_address, 0x100);
    assert_eq!(norm.segments[1].start_address, 0x200);
    assert_eq!(norm.segments[2].start_address, 0x300);
}