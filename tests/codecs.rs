use h3xy::{
    parse_binary, parse_hex_ascii, parse_intel_hex, parse_srec, write_binary, write_hex_ascii, write_intel_hex,
    write_srec, BinaryWriteOptions, HexAsciiWriteOptions, HexFile, IntelHexWriteOptions, ParseError, SRecordType,
    SRecordWriteOptions, Segment,
};

#[test]
fn test_parse_simple() {
    let input = b":10010000214601360121470136007EFE09D2190140\n\
                  :100110002146017E17C20001FF5F16002148011928\n\
                  :00000001FF\n";
    let hf = parse_intel_hex(input).unwrap();
    assert_eq!(hf.segments().len(), 1);
    assert_eq!(hf.segments()[0].start_address, 0x0100);
    assert_eq!(hf.segments()[0].len(), 32);
}

#[test]
fn test_parse_extended_linear() {
    let input = b":020000040800F2\n\
                  :10000000FFFFFFFFFFFFFFFFFFFFFFFFFFFFFFFF00\n\
                  :00000001FF\n";
    let hf = parse_intel_hex(input).unwrap();
    assert_eq!(hf.segments().len(), 1);
    assert_eq!(hf.segments()[0].start_address, 0x08000000);
}

#[test]
fn test_parse_extended_segment() {
    let input = b":020000021000EC\n\
                  :10000000FFFFFFFFFFFFFFFFFFFFFFFFFFFFFFFF00\n\
                  :00000001FF\n";
    let hf = parse_intel_hex(input).unwrap();
    assert_eq!(hf.segments().len(), 1);
    assert_eq!(hf.segments()[0].start_address, 0x00010000);
}

#[test]
fn test_checksum_error() {
    let input = b":10010000214601360121470136007EFE09D2190141\n\
                  :00000001FF\n";
    let result = parse_intel_hex(input);
    assert!(matches!(result, Err(ParseError::ChecksumMismatch { .. })));
}

#[test]
fn test_missing_eof() {
    let input = b":10010000214601360121470136007EFE09D2190140\n";
    let result = parse_intel_hex(input);
    assert!(matches!(result, Err(ParseError::UnexpectedEof)));
}

#[test]
fn test_roundtrip() {
    let input = b":020000040800F2\n\
                  :10000000000102030405060708090A0B0C0D0E0F78\n\
                  :10001000101112131415161718191A1B1C1D1E1F68\n\
                  :00000001FF\n";
    let hf = parse_intel_hex(input).unwrap();
    let output = write_intel_hex(&hf, &IntelHexWriteOptions::default());
    let hf2 = parse_intel_hex(&output).unwrap();
    assert_eq!(hf, hf2);
}

#[test]
fn test_write_simple() {
    let hf = HexFile::with_segments(vec![Segment::new(0x0100, vec![0x00, 0x01, 0x02, 0x03])]);
    let output = write_intel_hex(&hf, &IntelHexWriteOptions::default());
    let text = String::from_utf8(output).unwrap();
    // Auto mode uses extended segment records below 1 MiB
    assert!(text.contains(":020000020000FC"));
    assert!(text.contains(":0401000000010203F5"));
    assert!(text.contains(":00000001FF"));
}

#[test]
fn test_srec_roundtrip_s1() {
    let hexfile = HexFile::with_segments(vec![Segment::new(0x1000, vec![0x01, 0x02, 0x03])]);
    let options = SRecordWriteOptions {
        bytes_per_line: 16,
        record_type: Some(SRecordType::S1),
    };
    let out = write_srec(&hexfile, &options).unwrap();
    let parsed = parse_srec(&out).unwrap();
    let norm = parsed.normalized_lossy();
    assert_eq!(norm.segments().len(), 1);
    assert_eq!(norm.segments()[0].start_address, 0x1000);
    assert_eq!(norm.segments()[0].data, vec![0x01, 0x02, 0x03]);
}

#[test]
fn test_srec_bad_checksum() {
    let line = b"S11310000102030405060708090A0B0C0D0E0F00\n";
    let result = parse_srec(line);
    assert!(result.is_err());
}

#[test]
fn test_srec_auto_type_s2() {
    let hexfile = HexFile::with_segments(vec![Segment::new(0x1_0000, vec![0x01])]);
    let out = write_srec(&hexfile, &SRecordWriteOptions::default()).unwrap();
    let text = String::from_utf8(out).unwrap();
    assert!(text.starts_with("S2"));
}

#[test]
fn test_parse_lowercase_prefix() {
    let data = b"s10500000102f7\ns9030000fc\n";
    let parsed = parse_srec(data).unwrap();
    let norm = parsed.normalized_lossy();
    assert_eq!(norm.segments()[0].start_address, 0x0000);
    assert_eq!(norm.segments()[0].data, vec![0x01, 0x02]);
}

#[test]
fn test_hex_ascii_roundtrip() {
    let hexfile = HexFile::with_segments(vec![Segment::new(0x1000, vec![0xDE, 0xAD, 0xBE])]);
    let options = HexAsciiWriteOptions {
        line_length: 2,
        separator: Some(", ".to_string()),
    };
    let out = write_hex_ascii(&hexfile, &options);
    let parsed = parse_hex_ascii(&out, 0x1000).unwrap();
    assert_eq!(parsed.segments().len(), 1);
    assert_eq!(parsed.segments()[0].start_address, 0x1000);
    assert_eq!(parsed.segments()[0].data, vec![0xDE, 0xAD, 0xBE]);
}

#[test]
fn test_hex_ascii_odd_digits_error() {
    let data = b"0A1";
    let result = parse_hex_ascii(data, 0);
    assert!(result.is_err());
}

#[test]
fn test_hex_ascii_accepts_0x_prefix() {
    let data = b"0x12, 0x34\n0XAB";
    let parsed = parse_hex_ascii(data, 0x2000).unwrap();
    assert_eq!(parsed.segments()[0].start_address, 0x2000);
    assert_eq!(parsed.segments()[0].data, vec![0x12, 0x34, 0xAB]);
}

#[test]
fn test_hex_ascii_single_digit_tokens() {
    let data = b"A B C";
    let parsed = parse_hex_ascii(data, 0).unwrap();
    assert_eq!(parsed.segments()[0].data, vec![0x0A, 0x0B, 0x0C]);
}

#[test]
fn test_hex_ascii_contiguous_pairs() {
    let data = b"23456789";
    let parsed = parse_hex_ascii(data, 0).unwrap();
    assert_eq!(parsed.segments()[0].data, vec![0x23, 0x45, 0x67, 0x89]);
}

#[test]
fn test_parse_binary_base_address() {
    let data = vec![0xAA, 0xBB, 0xCC];
    let hexfile = parse_binary(&data, 0x1000).unwrap();
    assert_eq!(hexfile.segments().len(), 1);
    assert_eq!(hexfile.segments()[0].start_address, 0x1000);
    assert_eq!(hexfile.segments()[0].data, data);
}

#[test]
fn test_parse_binary_overflow() {
    let data = vec![0xAA, 0xBB];
    let result = parse_binary(&data, u32::MAX);
    assert!(result.is_err());
}

#[test]
fn test_write_binary_order_of_appearance() {
    let hexfile = HexFile::with_segments(vec![
        Segment::new(0x2000, vec![0x01, 0x02]),
        Segment::new(0x1000, vec![0xAA]),
    ]);
    let out = write_binary(&hexfile, &BinaryWriteOptions::default());
    assert_eq!(out, vec![0x01, 0x02, 0xAA]);
}

#[test]
fn test_write_binary_fill_gaps() {
    let hexfile = HexFile::with_segments(vec![
        Segment::new(0x1000, vec![0xAA]),
        Segment::new(0x1002, vec![0xBB]),
    ]);
    let out = write_binary(
        &hexfile,
        &BinaryWriteOptions {
            fill_gaps: Some(0x00),
        },
    );
    assert_eq!(out, vec![0xAA, 0x00, 0xBB]);
}