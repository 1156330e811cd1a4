use h3xy::{AlignOptions, HexFile, OpsError, Segment, SwapMode};

#[test]
fn test_align_prepends_fill() {
    let mut hf = HexFile::with_segments(vec![Segment::new(0x1001, vec![0xAA, 0xBB])]);
    hf.align(&AlignOptions {
        alignment: 4,
        fill_byte: 0xFF,
        align_length: false,
    })
    .unwrap();

    assert_eq!(hf.segments()[0].start_address, 0x1000);
    assert_eq!(hf.segments()[0].data, vec![0xFF, 0xAA, 0xBB]);
}

#[test]
fn test_align_with_length() {
    let mut hf = HexFile::with_segments(vec![Segment::new(0x1001, vec![0xAA, 0xBB])]);
    hf.align(&AlignOptions {
        alignment: 4,
        fill_byte: 0xFF,
        align_length: true,
    })
    .unwrap();

    assert_eq!(hf.segments()[0].start_address, 0x1000);
    // 1 prepended + 2 data + 1 appended = 4
    assert_eq!(hf.segments()[0].len(), 4);
    assert_eq!(hf.segments()[0].data, vec![0xFF, 0xAA, 0xBB, 0xFF]);
}

#[test]
fn test_align_already_aligned() {
    let mut hf = HexFile::with_segments(vec![Segment::new(0x1000, vec![0xAA; 8])]);
    hf.align(&AlignOptions {
        alignment: 4,
        fill_byte: 0xFF,
        align_length: true,
    })
    .unwrap();

    assert_eq!(hf.segments()[0].start_address, 0x1000);
    assert_eq!(hf.segments()[0].len(), 8);
}

#[test]
fn test_align_invalid_alignment() {
    let mut hf = HexFile::with_segments(vec![Segment::new(0x1000, vec![0xAA])]);
    let result = hf.align(&AlignOptions {
        alignment: 0, // any non-zero alignment is accepted
        fill_byte: 0xFF,
        align_length: false,
    });
    assert!(matches!(result, Err(OpsError::InvalidAlignment(0))));
}

#[test]
fn test_split_segments() {
    let mut hf = HexFile::with_segments(vec![Segment::new(0x1000, vec![0xAA; 10])]);
    hf.split(4);

    assert_eq!(hf.segments().len(), 3);
    assert_eq!(hf.segments()[0].start_address, 0x1000);
    assert_eq!(hf.segments()[0].len(), 4);
    assert_eq!(hf.segments()[1].start_address, 0x1004);
    assert_eq!(hf.segments()[1].len(), 4);
    assert_eq!(hf.segments()[2].start_address, 0x1008);
    assert_eq!(hf.segments()[2].len(), 2);
}

#[test]
fn test_swap_word() {
    let mut hf = HexFile::with_segments(vec![Segment::new(0x1000, vec![0xAA, 0xBB, 0xCC, 0xDD])]);
    hf.swap_bytes(SwapMode::Word).unwrap();

    assert_eq!(hf.segments()[0].data, vec![0xBB, 0xAA, 0xDD, 0xCC]);
}

#[test]
fn test_swap_dword() {
    let mut hf = HexFile::with_segments(vec![Segment::new(0x1000, vec![0xAA, 0xBB, 0xCC, 0xDD])]);
    hf.swap_bytes(SwapMode::DWord).unwrap();

    assert_eq!(hf.segments()[0].data, vec![0xDD, 0xCC, 0xBB, 0xAA]);
}

#[test]
fn test_swap_odd_length_error() {
    let mut hf = HexFile::with_segments(vec![Segment::new(0x1000, vec![0xAA, 0xBB, 0xCC])]);
    let result = hf.swap_bytes(SwapMode::Word);

    // A trailing byte that does not fill a pair stays in place
    assert!(result.is_ok());
    assert_eq!(hf.segments()[0].data, vec![0xBB, 0xAA, 0xCC]);
}

#[test]
fn test_scale_addresses() {
    let mut hf = HexFile::with_segments(vec![
        Segment::new(0x1000, vec![0xAA]),
        Segment::new(0x2000, vec![0xBB]),
    ]);
    hf.scale_addresses(2).unwrap();

    assert_eq!(hf.segments()[0].start_address, 0x2000);
    assert_eq!(hf.segments()[1].start_address, 0x4000);
}

#[test]
fn test_unscale_addresses() {
    let mut hf = HexFile::with_segments(vec![
        Segment::new(0x2000, vec![0xAA]),
        Segment::new(0x4000, vec![0xBB]),
    ]);
    hf.unscale_addresses(2).unwrap();

    assert_eq!(hf.segments()[0].start_address, 0x1000);
    assert_eq!(hf.segments()[1].start_address, 0x2000);
}

#[test]
fn test_unscale_not_divisible() {
    let mut hf = HexFile::with_segments(vec![Segment::new(0x1001, vec![0xAA])]);
    let result = hf.unscale_addresses(2);

    assert!(matches!(
        result,
        Err(OpsError::AddressNotDivisible {
            address: 0x1001,
            divisor: 2
        })
    ));
}

#[test]
fn test_align_causes_overlap() {
    let mut hf = HexFile::with_segments(vec![
        Segment::new(0x1001, vec![0xAA]),
        Segment::new(0x1003, vec![0xBB]),
    ]);
    hf.align(&AlignOptions {
        alignment: 4,
        fill_byte: 0xFF,
        align_length: false,
    })
    .unwrap();
    // The padding lies under the data and the result is normalized
    assert!(hf.normalized().is_ok());
    assert_eq!(hf.segments()[0].data, vec![0xFF, 0xAA, 0xFF, 0xBB]);
    let norm = hf.normalized_lossy();
    assert_eq!(norm.segments().len(), 1);
}

#[test]
fn test_align_with_alignment_1() {
    let mut hf = HexFile::with_segments(vec![Segment::new(0x1001, vec![0xAA, 0xBB])]);
    hf.align(&AlignOptions {
        alignment: 1,
        fill_byte: 0xFF,
        align_length: true,
    })
    .unwrap();
    // No change expected
    assert_eq!(hf.segments()[0].start_address, 0x1001);
    assert_eq!(hf.segments()[0].len(), 2);
}

#[test]
fn test_split_zero_size_noop() {
    let mut hf = HexFile::with_segments(vec![Segment::new(0x1000, vec![0xAA; 10])]);
    hf.split(0);
    assert_eq!(hf.segments().len(), 1);
}

#[test]
fn test_split_larger_than_segment() {
    let mut hf = HexFile::with_segments(vec![Segment::new(0x1000, vec![0xAA; 4])]);
    hf.split(100);
    assert_eq!(hf.segments().len(), 1);
}

#[test]
fn test_swap_multiple_segments() {
    let mut hf = HexFile::with_segments(vec![
        Segment::new(0x1000, vec![0x01, 0x02]),
        Segment::new(0x2000, vec![0x03, 0x04]),
    ]);
    hf.swap_bytes(SwapMode::Word).unwrap();
    assert_eq!(hf.segments()[0].data, vec![0x02, 0x01]);
    assert_eq!(hf.segments()[1].data, vec![0x04, 0x03]);
}

#[test]
fn test_swap_dword_larger_buffer() {
    let mut hf = HexFile::with_segments(vec![Segment::new(
        0x1000,
        vec![0x01, 0x02, 0x03, 0x04, 0x05, 0x06, 0x07, 0x08],
    )]);
    hf.swap_bytes(SwapMode::DWord).unwrap();
    assert_eq!(
        hf.segments()[0].data,
        vec![0x04, 0x03, 0x02, 0x01, 0x08, 0x07, 0x06, 0x05]
    );
}

#[test]
fn transform_test_scale_unscale_roundtrip() {
    let mut hf = HexFile::with_segments(vec![
        Segment::new(0x1000, vec![0xAA]),
        Segment::new(0x2000, vec![0xBB]),
    ]);
    let original = hf.clone();
    hf.scale_addresses(4).unwrap();
    hf.unscale_addresses(4).unwrap();
    assert_eq!(hf.segments()[0].start_address, original.segments()[0].start_address);
    assert_eq!(hf.segments()[1].start_address, original.segments()[1].start_address);
}

#[test]
fn test_unscale_transactional() {
    let mut hf = HexFile::with_segments(vec![
        Segment::new(0x2000, vec![0xAA]), // divisible by 2
        Segment::new(0x3001, vec![0xBB]), // NOT divisible by 2
    ]);
    let original_first = hf.segments()[0].start_address;
    let result = hf.unscale_addresses(2);
    assert!(result.is_err());
    // First segment should NOT have been modified
    assert_eq!(hf.segments()[0].start_address, original_first);
}

#[test]
fn test_scale_saturation() {
    let mut hf = HexFile::with_segments(vec![Segment::new(u32::MAX / 2 + 1, vec![0xAA])]);
    // Scaling out of the address space is refused and changes nothing
    let result = hf.scale_addresses(3);
    assert!(matches!(result, Err(OpsError::AddressOverflow)));
    assert_eq!(hf.segments()[0].start_address, u32::MAX / 2 + 1);
}

#[test]
fn test_unscale_by_zero() {
    let mut hf = HexFile::with_segments(vec![Segment::new(0x1000, vec![0xAA])]);
    let result = hf.unscale_addresses(0);
    assert!(result.is_err());
}

#[test]
fn transform_test_align_then_split() {
    let mut hf = HexFile::with_segments(vec![Segment::new(0x1001, vec![0xAA; 15])]);
    hf.align(&AlignOptions {
        alignment: 4,
        fill_byte: 0xFF,
        align_length: true,
    })
    .unwrap();
    // After align: start=0x1000, len=16 (1 prepend + 15 data)
    // Actually: 0x1001 aligns down to 0x1000, prepend 1. length 16, aligned to 4 = 16.
    hf.split(8);
    assert_eq!(hf.segments().len(), 2);
    assert_eq!(hf.segments()[0].start_address, 0x1000);
    assert_eq!(hf.segments()[0].len(), 8);
    assert_eq!(hf.segments()[1].start_address, 0x1008);
    assert_eq!(hf.segments()[1].len(), 8);
}