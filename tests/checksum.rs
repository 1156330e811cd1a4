use h3xy::{byte_sum, word_sum_be, word_sum_le, ChecksumAlgorithm, ChecksumOptions, ChecksumTarget, HexFile, Segment};

#[test]
fn test_byte_sum() {
    assert_eq!(byte_sum(&[0x01, 0x02, 0x03, 0x04]), 0x000A);
    assert_eq!(byte_sum(&[0xFF, 0xFF]), 0x01FE);
    assert_eq!(byte_sum(&[]), 0);
}

#[test]
fn test_byte_sum_overflow() {
    // 257 * 0xFF = 65535 = 0xFFFF (max u16)
    let data = vec![0xFF; 257];
    assert_eq!(byte_sum(&data), 0xFFFF);

    // Test actual wrapping: 258 * 0xFF = 65790, wraps to 65790 - 65536 = 254 = 0x00FE
    let data2 = vec![0xFF; 258];
    assert_eq!(byte_sum(&data2), 0x00FE);
}

#[test]
fn test_word_sum_be() {
    assert_eq!(word_sum_be(&[0x00, 0x01, 0x00, 0x02]).unwrap(), 0x0003);
    assert_eq!(word_sum_be(&[0x12, 0x34, 0x56, 0x78]).unwrap(), 0x68AC);
}

#[test]
fn test_word_sum_le() {
    assert_eq!(word_sum_le(&[0x01, 0x00, 0x02, 0x00]).unwrap(), 0x0003);
    assert_eq!(word_sum_le(&[0x34, 0x12, 0x78, 0x56]).unwrap(), 0x68AC);
}

#[test]
fn test_word_sum_odd_length() {
    assert!(word_sum_be(&[0x01, 0x02, 0x03]).is_err());
    assert!(word_sum_le(&[0x01]).is_err());
}

#[test]
fn test_twos_complement() {
    let sum: u16 = 0x1234;
    let twos = (!sum).wrapping_add(1);
    assert_eq!(twos, 0xEDCC);
    assert_eq!(sum.wrapping_add(twos), 0);
}

#[test]
fn test_hexfile_checksum_append() {
    let mut hf = HexFile::with_segments(vec![Segment::new(0x1000, vec![0x01, 0x02])]);
    let options = ChecksumOptions {
        algorithm: ChecksumAlgorithm::ByteSumBe,
        range: None,
        little_endian_output: false,
        forced_range: None,
        exclude_ranges: vec![],
    };
    hf.checksum(&options, &ChecksumTarget::Append).unwrap();

    let norm = hf.normalized_lossy();
    assert_eq!(norm.max_address(), Some(0x1003));
}

#[test]
fn test_hexfile_checksum_overwrite_end() {
    // Data at 0x1000-0x1003 (4 bytes), checksum is 2 bytes
    // OverwriteEnd should write at 0x1002-0x1003
    let mut hf = HexFile::with_segments(vec![Segment::new(0x1000, vec![0x01, 0x02, 0x03, 0x04])]);
    let options = ChecksumOptions {
        algorithm: ChecksumAlgorithm::ByteSumBe,
        range: None,
        little_endian_output: false,
        forced_range: None,
        exclude_ranges: vec![],
    };
    hf.checksum(&options, &ChecksumTarget::OverwriteEnd).unwrap();

    let norm = hf.normalized_lossy();
    assert_eq!(norm.segments().len(), 1);
    assert_eq!(norm.min_address(), Some(0x1000));
    assert_eq!(norm.max_address(), Some(0x1003)); // Same end address
    // First two bytes unchanged; the last two are the target window, left
    // out of the sum, and overwritten with it (0x01 + 0x02 = 0x0003)
    assert_eq!(norm.segments()[0].data, vec![0x01, 0x02, 0x00, 0x03]);
}

#[test]
fn test_hexfile_checksum_overwrite_end_crc32() {
    // Data at 0x1000-0x1007 (8 bytes), CRC32 is 4 bytes
    // OverwriteEnd should write at 0x1004-0x1007
    let mut hf = HexFile::with_segments(vec![Segment::new(0x1000, vec![0xAA; 8])]);
    let options = ChecksumOptions {
        algorithm: ChecksumAlgorithm::Crc32,
        range: None,
        little_endian_output: false,
        forced_range: None,
        exclude_ranges: vec![],
    };
    hf.checksum(&options, &ChecksumTarget::OverwriteEnd).unwrap();

    let norm = hf.normalized_lossy();
    assert_eq!(norm.min_address(), Some(0x1000));
    assert_eq!(norm.max_address(), Some(0x1007)); // Same end address
    // First 4 bytes unchanged
    assert_eq!(&norm.segments()[0].data[..4], &[0xAA, 0xAA, 0xAA, 0xAA]);
}

#[test]
fn test_algorithm_from_index() {
    assert!(ChecksumAlgorithm::from_index(0).is_ok());
    assert!(ChecksumAlgorithm::from_index(9).is_ok());
    assert!(ChecksumAlgorithm::from_index(8).is_err()); // not implemented
    assert!(ChecksumAlgorithm::from_index(10).is_err()); // SHA-1
}

#[test]
fn test_algorithm_result_size() {
    assert_eq!(ChecksumAlgorithm::Crc32.result_size(), 4);
    assert_eq!(ChecksumAlgorithm::ByteSumBe.result_size(), 2);
    assert_eq!(ChecksumAlgorithm::Crc16.result_size(), 2);
}