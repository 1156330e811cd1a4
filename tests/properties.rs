use h3xy::signature::{signature_payload, signed_message, SignatureMethod};
use h3xy::{
    parse_intel_hex, parse_ranges, parse_srec, write_intel_hex, write_srec, AlignOptions, ChecksumAlgorithm,
    ChecksumOptions, ChecksumTarget, FillOptions, ForcedRange, HexFile, IntelHexMode, IntelHexWriteOptions, OpsError,
    ParseError, Range, SRecordType, SRecordWriteOptions, Segment, SwapMode,
};

fn options(algorithm: ChecksumAlgorithm) -> ChecksumOptions {
    ChecksumOptions { algorithm, range: None, little_endian_output: false, forced_range: None, exclude_ranges: vec![] }
}

#[test]
fn scenario_intel_hex_round_trip() {
    let input = b":020000040800F2\r\n:10000000000102030405060708090A0B0C0D0E0F78\r\n:10001000101112131415161718191A1B1C1D1E1F68\r\n:00000001FF\r\n";
    let first = parse_intel_hex(input).unwrap();
    let again = parse_intel_hex(&write_intel_hex(&first, &IntelHexWriteOptions::default())).unwrap();
    assert_eq!(first, again);
    assert_eq!(first.segments().len(), 1);
    assert_eq!(first.segments()[0].start_address, 0x0800_0000);
    assert_eq!(first.segments()[0].data, (0u8..32).collect::<Vec<u8>>());
}

#[test]
fn scenario_checksum_append_byte_sum() {
    let mut hf = HexFile::with_segments(vec![Segment::new(0x1000, vec![1, 2, 3, 4])]);
    let r = hf.checksum(&options(ChecksumAlgorithm::ByteSumBe), &ChecksumTarget::Append).unwrap();
    assert_eq!(r, vec![0x00, 0x0A]);
    let n = hf.normalized_lossy();
    assert_eq!(n.segments()[0].start_address, 0x1000);
    assert_eq!(n.segments()[0].data, vec![1, 2, 3, 4, 0x00, 0x0A]);
}

#[test]
fn scenario_checksum_begin_excludes_target() {
    let mut hf = HexFile::with_segments(vec![Segment::new(0x1000, vec![1, 2, 3, 4])]);
    hf.checksum(&options(ChecksumAlgorithm::ByteSumBe), &ChecksumTarget::Begin).unwrap();
    assert_eq!(hf.normalized_lossy().segments()[0].data, vec![0x00, 0x07, 0x03, 0x04]);
}

#[test]
fn scenario_align_with_length() {
    let mut hf = HexFile::with_segments(vec![Segment::new(0x1001, vec![0xAA, 0xBB])]);
    hf.align(&AlignOptions { alignment: 4, fill_byte: 0xFF, align_length: true }).unwrap();
    assert_eq!(hf.segments().len(), 1);
    assert_eq!(hf.segments()[0].start_address, 0x1000);
    assert_eq!(hf.segments()[0].data, vec![0xFF, 0xAA, 0xBB, 0xFF]);
}

#[test]
fn scenario_srec_auto_type() {
    let hf = HexFile::with_segments(vec![Segment::new(0x10000, vec![0x03, 0x04])]);
    let text = String::from_utf8(write_srec(&hf, &SRecordWriteOptions::default()).unwrap()).unwrap();
    assert!(text.starts_with("S2"));
    assert!(text.ends_with("S804000000FB\r\n"));
}

#[test]
fn normalization_is_idempotent() {
    let hf = HexFile::with_segments(vec![
        Segment::new(0x20, vec![1, 2, 3]),
        Segment::new(0x10, vec![4, 5]),
        Segment::new(0x21, vec![9]),
        Segment::new(0x12, vec![6]),
    ]);
    let once = hf.normalized_lossy();
    let twice = once.normalized_lossy();
    assert_eq!(once, twice);
    assert_eq!(once.segments().len(), 2);
    assert_eq!(once.segments()[0].data, vec![4, 5, 6]);
    assert_eq!(once.segments()[1].data, vec![1, 9, 3]);
}

#[test]
fn later_segment_wins() {
    let mut hf = HexFile::new();
    hf.append_segment(Segment::new(0x100, vec![1, 2, 3]));
    hf.append_segment(Segment::new(0x101, vec![9]));
    assert_eq!(hf.read_byte(0x100), Some(1));
    assert_eq!(hf.read_byte(0x101), Some(9));
    assert_eq!(hf.read_byte(0x102), Some(3));
    hf.prepend_segment(Segment::new(0x100, vec![7, 7, 7, 7]));
    assert_eq!(hf.read_byte(0x100), Some(1));
    assert_eq!(hf.read_byte(0x103), Some(7));
}

#[test]
fn cut_then_fill_tiles_pattern() {
    let mut hf = HexFile::with_segments(vec![Segment::new(0x100, vec![1, 2, 3, 4, 5, 6])]);
    let r = Range::from_start_end(0x101, 0x104).unwrap();
    hf.cut(r);
    hf.fill(r, &FillOptions { pattern: vec![0xA, 0xB, 0xC], overwrite: false });
    let n = hf.normalized_lossy();
    assert_eq!(n.segments()[0].data, vec![1, 0xA, 0xB, 0xC, 0xA, 6]);
}

#[test]
fn align_makes_starts_and_lengths_multiples() {
    let mut hf = HexFile::with_segments(vec![Segment::new(0x1003, vec![1, 2, 3, 4, 5]), Segment::new(0x2005, vec![6])]);
    hf.align(&AlignOptions { alignment: 3, fill_byte: 0, align_length: true }).unwrap();
    for s in hf.segments() {
        assert_eq!(s.start_address % 3, 0);
        assert_eq!(s.data.len() % 3, 0);
    }
    assert_eq!(hf.read_byte(0x1003), Some(1));
    assert_eq!(hf.read_byte(0x2005), Some(6));
}

#[test]
fn split_keeps_bytes_in_order() {
    let data: Vec<u8> = (0u8..23).collect();
    let mut hf = HexFile::with_segments(vec![Segment::new(0x500, data.clone())]);
    hf.split(5);
    let mut joined = Vec::new();
    for s in hf.segments() {
        assert!(s.data.len() <= 5);
        joined.extend_from_slice(&s.data);
    }
    assert_eq!(joined, data);
    assert_eq!(hf.segments()[4].start_address, 0x514);
}

#[test]
fn swapping_twice_restores() {
    let mut hf = HexFile::with_segments(vec![Segment::new(0, vec![1, 2, 3, 4, 5, 6, 7, 8])]);
    hf.swap_bytes(SwapMode::DWord).unwrap();
    assert_eq!(hf.segments()[0].data, vec![4, 3, 2, 1, 8, 7, 6, 5]);
    hf.swap_bytes(SwapMode::DWord).unwrap();
    assert_eq!(hf.segments()[0].data, vec![1, 2, 3, 4, 5, 6, 7, 8]);
    hf.swap_bytes(SwapMode::Word).unwrap();
    hf.swap_bytes(SwapMode::Word).unwrap();
    assert_eq!(hf.segments()[0].data, vec![1, 2, 3, 4, 5, 6, 7, 8]);
}

#[test]
fn scale_then_unscale_restores() {
    let mut hf = HexFile::with_segments(vec![Segment::new(0x123, vec![1]), Segment::new(0x4567, vec![2])]);
    hf.scale_addresses(7).unwrap();
    assert_eq!(hf.segments()[0].start_address, 0x123 * 7);
    hf.unscale_addresses(7).unwrap();
    assert_eq!(hf.segments()[0].start_address, 0x123);
    assert_eq!(hf.segments()[1].start_address, 0x4567);
}

#[test]
fn overwrite_end_leaves_window_out_of_sum() {
    let mut hf = HexFile::with_segments(vec![Segment::new(0x10, vec![5, 6, 0xEE, 0xEE])]);
    hf.checksum(&options(ChecksumAlgorithm::ByteSumBe), &ChecksumTarget::OverwriteEnd).unwrap();
    assert_eq!(hf.normalized_lossy().segments()[0].data, vec![5, 6, 0x00, 0x0B]);
}

#[test]
fn address_target_over_data_is_excluded() {
    let mut hf = HexFile::with_segments(vec![Segment::new(0x10, vec![0x10, 0x20, 0x30])]);
    hf.checksum(&options(ChecksumAlgorithm::ByteSumBe), &ChecksumTarget::Address(0x11)).unwrap();
    assert_eq!(hf.normalized_lossy().segments()[0].data, vec![0x10, 0x00, 0x10]);
}

#[test]
fn checksum_algorithms_exact_values() {
    let hf = HexFile::with_segments(vec![Segment::new(0x1000, b"123456789".to_vec())]);
    let cases: Vec<(ChecksumAlgorithm, Vec<u8>)> = vec![
        (ChecksumAlgorithm::Crc16, vec![0xBB, 0x3D]),
        (ChecksumAlgorithm::Crc32, vec![0xCB, 0xF4, 0x39, 0x26]),
        (ChecksumAlgorithm::Crc16CcittBe, vec![0x90, 0x6E]),
        (ChecksumAlgorithm::Crc16CcittLe, vec![0x6E, 0x90]),
        (ChecksumAlgorithm::Crc16CcittBeInit0, vec![0x31, 0xC3]),
        (ChecksumAlgorithm::Crc16CcittLeInit0, vec![0xC3, 0x31]),
        (ChecksumAlgorithm::ByteSumBe, vec![0x01, 0xDD]),
        (ChecksumAlgorithm::ByteSumLe, vec![0xDD, 0x01]),
        (ChecksumAlgorithm::ByteSumTwosComplement, vec![0xFE, 0x23]),
    ];
    for (a, expected) in cases {
        assert_eq!(hf.calculate_checksum(&options(a)).unwrap(), expected);
    }
    let mut reversed = options(ChecksumAlgorithm::Crc32);
    reversed.little_endian_output = true;
    assert_eq!(hf.calculate_checksum(&reversed).unwrap(), vec![0x26, 0x39, 0xF4, 0xCB]);
}

#[test]
fn word_sum_needs_aligned_runs() {
    let hf = HexFile::with_segments(vec![Segment::new(0x1001, vec![1, 2])]);
    assert!(matches!(hf.calculate_checksum(&options(ChecksumAlgorithm::WordSumBe)), Err(OpsError::LengthNotMultiple { .. })));
    let hf2 = HexFile::with_segments(vec![Segment::new(0x1000, vec![0x12, 0x34]), Segment::new(0x2000, vec![0x00, 0x01])]);
    assert_eq!(hf2.calculate_checksum(&options(ChecksumAlgorithm::WordSumBe)).unwrap(), vec![0x12, 0x35]);
    assert_eq!(hf2.calculate_checksum(&options(ChecksumAlgorithm::WordSumLe)).unwrap(), vec![0x12, 0x35]);
}

#[test]
fn forced_range_fills_with_pattern() {
    let hf = HexFile::with_segments(vec![Segment::new(0x1001, vec![0x05])]);
    let mut o = options(ChecksumAlgorithm::ByteSumBe);
    o.forced_range = Some(ForcedRange { range: Range::from_start_end(0x1000, 0x1003).unwrap(), pattern: vec![] });
    assert_eq!(hf.calculate_checksum(&o).unwrap(), vec![0x03, 0x02]);
    o.exclude_ranges = vec![Range::from_start_end(0x1002, 0x1003).unwrap()];
    assert_eq!(hf.calculate_checksum(&o).unwrap(), vec![0x01, 0x04]);
}

#[test]
fn unknown_algorithm_index() {
    assert!(matches!(ChecksumAlgorithm::from_index(10), Err(OpsError::UnsupportedChecksumAlgorithm(10))));
    assert_eq!(ChecksumAlgorithm::from_index(18).unwrap(), ChecksumAlgorithm::Crc16CcittBeInit0);
}

#[test]
fn append_at_top_overflows() {
    let mut hf = HexFile::with_segments(vec![Segment::new(0xFFFF_FFFF, vec![1])]);
    assert!(matches!(hf.checksum(&options(ChecksumAlgorithm::ByteSumBe), &ChecksumTarget::Append), Err(OpsError::AddressOverflow)));
    let mut low = HexFile::with_segments(vec![Segment::new(0x1, vec![1])]);
    assert!(matches!(low.checksum(&options(ChecksumAlgorithm::ByteSumBe), &ChecksumTarget::Prepend), Err(OpsError::AddressOverflow)));
}

#[test]
fn intel_hex_errors() {
    assert!(matches!(parse_intel_hex(b":00000002FE\n:00000001FF\n"), Err(ParseError::InvalidRecord { line: 1, .. })));
    assert!(matches!(parse_intel_hex(b":0000000AF6\n"), Err(ParseError::UnsupportedRecordType { line: 1, record_type: 0x0A })));
    assert!(matches!(parse_intel_hex(b":00000001FG\n"), Err(ParseError::InvalidHexDigit { line: 1, char: 'G' })));
    assert!(matches!(parse_intel_hex(b":00000001FF\n:00000001FF\n"), Err(ParseError::InvalidRecord { line: 2, .. })));
    assert!(matches!(parse_intel_hex(b"\n\n:00000001FE\n"), Err(ParseError::ChecksumMismatch { line: 3, expected: 0xFF, actual: 0xFE })));
}

#[test]
fn intel_hex_segment_mode_and_line_length() {
    let hf = HexFile::with_segments(vec![Segment::new(0x1FFFE, vec![1, 2, 3, 4])]);
    let opts = IntelHexWriteOptions { bytes_per_line: 0, mode: IntelHexMode::ExtendedSegment };
    let text = String::from_utf8(write_intel_hex(&hf, &opts)).unwrap();
    assert_eq!(text, ":020000021000EC\r\n:02FFFE000102FE\r\n:020000022000DC\r\n:020000000304F7\r\n:00000001FF\r\n");
    assert_eq!(parse_intel_hex(text.as_bytes()).unwrap().normalized_lossy(), hf.normalized_lossy());
}

#[test]
fn srec_explicit_type_too_narrow() {
    let hf = HexFile::with_segments(vec![Segment::new(0x10000, vec![1])]);
    let opts = SRecordWriteOptions { bytes_per_line: 16, record_type: Some(SRecordType::S1) };
    assert!(matches!(write_srec(&hf, &opts), Err(ParseError::AddressOverflow(_))));
    assert!(matches!(parse_srec(b"S4030000FC\n"), Err(ParseError::UnsupportedRecordType { line: 1, .. })));
}

#[test]
fn ranges_in_many_notations() {
    let rs = parse_ranges("'0x10-0x1F:1000h,10h:0b11,2:1_000,4:ABC,1'").unwrap();
    assert_eq!(rs.len(), 5);
    assert_eq!((rs[0].start(), rs[0].end()), (0x10, 0x1F));
    assert_eq!((rs[1].start(), rs[1].length()), (0x1000, 0x10));
    assert_eq!((rs[2].start(), rs[2].length()), (3, 2));
    assert_eq!((rs[3].start(), rs[3].length()), (1000, 4));
    assert_eq!((rs[4].start(), rs[4].length()), (0xABC, 1));
    assert!(parse_ranges("0x20-0x10").is_err());
    assert!(parse_ranges("12").is_err());
    assert!(parse_ranges("0,0x1_0000_0000").is_err());
}

#[test]
fn fill_gaps_spans_first_to_last() {
    let mut hf = HexFile::with_segments(vec![Segment::new(0x10, vec![1]), Segment::new(0x13, vec![2])]);
    hf.fill_gaps(0xEE);
    assert_eq!(hf.segments().len(), 1);
    assert_eq!(hf.segments()[0].data, vec![1, 0xEE, 0xEE, 2]);
    assert_eq!(hf.gap_count(), 0);
    let empty_fill = HexFile::new().as_contiguous(0);
    assert!(empty_fill.is_none());
}

#[test]
fn signature_payload_with_header() {
    let hf = HexFile::with_segments(vec![Segment::new(0x2000, vec![3, 4]), Segment::new(0x1000, vec![1, 2])]);
    assert_eq!(signature_payload(&hf, false).unwrap(), vec![1, 2, 3, 4]);
    assert_eq!(signature_payload(&hf, true).unwrap(), vec![0, 0, 0x10, 0, 0, 0, 0, 4, 1, 2, 3, 4]);
    let m = SignatureMethod::from_signing_index(49).unwrap();
    assert!(m.with_metadata());
    let digest = signed_message(m, b"abc");
    assert_eq!(digest.len(), 64);
    assert_eq!(&digest[..4], &[0xDD, 0xAF, 0x35, 0xA1]);
    assert_eq!(signed_message(SignatureMethod::from_signing_index(32).unwrap(), b"abc"), b"abc".to_vec());
    assert!(SignatureMethod::from_signing_index(34).is_none());
    assert_eq!(SignatureMethod::from_verify_index(10), Some(SignatureMethod::Ed25519Sha512Data { with_metadata: false }));
}
