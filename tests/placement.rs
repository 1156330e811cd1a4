use h3xy::checksum_params::parse_checksum;
use h3xy::signature::place_signature;
use h3xy::{
    ChecksumAlgorithm, ChecksumTarget, HexFile, OpsError, Pipeline, PipelineChecksum, Range, RemapOptions, Segment,
};

#[test]
fn checksum_grammar_full() {
    let p = parse_checksum("9", "@Append;0x1000-0x10FF/0x1010,4/0x1020-0x1021;!0x1000,0x100#0xA55A", true).unwrap();
    assert_eq!(p.algorithm, 9);
    assert!(matches!(p.target, ChecksumTarget::Append));
    assert!(p.little_endian);
    let r = p.range.unwrap();
    assert_eq!((r.start(), r.end()), (0x1000, 0x10FF));
    assert_eq!(p.exclude_ranges.len(), 2);
    assert_eq!((p.exclude_ranges[0].start(), p.exclude_ranges[0].end()), (0x1010, 0x1013));
    assert_eq!((p.exclude_ranges[1].start(), p.exclude_ranges[1].end()), (0x1020, 0x1021));
    let f = p.forced_range.unwrap();
    assert_eq!((f.range.start(), f.range.end()), (0x1000, 0x10FF));
    assert_eq!(f.pattern, vec![0xA5, 0x5A]);
}

#[test]
fn checksum_grammar_targets() {
    assert_eq!(parse_checksum("", "@begin", false).unwrap().algorithm, 0);
    assert!(matches!(parse_checksum("", "@UPFRONT", false).unwrap().target, ChecksumTarget::Prepend));
    assert!(matches!(parse_checksum("", "@end", false).unwrap().target, ChecksumTarget::OverwriteEnd));
    assert!(matches!(parse_checksum("", "@0x2000", false).unwrap().target, ChecksumTarget::Address(0x2000)));
    match parse_checksum("12", "sum.txt;!0x10,2", false).unwrap() {
        p => {
            assert!(matches!(&p.target, ChecksumTarget::File(f) if f == "sum.txt"));
            assert_eq!(p.forced_range.unwrap().pattern, vec![0xFF]);
        },
    }
    assert!(parse_checksum("256", "@append", false).is_err());
    assert!(parse_checksum("x", "@append", false).is_err());
    assert!(parse_checksum("0", "@nowhere", false).is_err());
    assert!(parse_checksum("0", "@append;0x10,4;0x20,4", false).is_err());
    assert!(parse_checksum("0", "@append;!0x10,4;!0x20,4", false).is_err());
    assert!(parse_checksum("0", "@append;!0x10,4#ABC", false).is_err());
}

#[test]
fn signature_placed_by_target() {
    let mut hf = HexFile::with_segments(vec![Segment::new(0x100, vec![1, 2, 3, 4])]);
    place_signature(&mut hf, &ChecksumTarget::Append, &[9, 9]).unwrap();
    assert_eq!(hf.read_byte(0x104), Some(9));
    place_signature(&mut hf, &ChecksumTarget::OverwriteEnd, &[7]).unwrap();
    assert_eq!(hf.read_byte(0x105), Some(7));
    place_signature(&mut hf, &ChecksumTarget::Prepend, &[5, 5]).unwrap();
    assert_eq!(hf.read_byte(0xFE), Some(5));
    assert!(place_signature(&mut hf, &ChecksumTarget::File("s.bin".to_string()), &[1]).is_err());
    let mut low = HexFile::with_segments(vec![Segment::new(0, vec![1])]);
    assert!(matches!(place_signature(&mut low, &ChecksumTarget::Prepend, &[1]), Err(OpsError::AddressOverflow)));
}

#[test]
fn pipeline_runs_stages_in_order() {
    let hexfile = HexFile::with_segments(vec![Segment::new(0x018000, vec![0x01, 0x02])]);
    let pipeline = Pipeline {
        hexfile,
        remap: Some(RemapOptions { start: 0x018000, end: 0x01BFFF, linear: 0x1000, size: 0x4000, inc: 0x10000 }),
        fill_ranges: vec![Range::from_start_length(0x1002, 2).unwrap()],
        checksum: Some(PipelineChecksum {
            algorithm: ChecksumAlgorithm::ByteSumBe,
            range: None,
            little_endian_output: false,
            forced_range: None,
            exclude_ranges: vec![],
            target: ChecksumTarget::Append,
        }),
        ..Default::default()
    };
    let result = pipeline.execute_without_log(|r: Range| vec![0x10; r.length() as usize]).unwrap();
    assert_eq!(result.checksum_bytes, Some(vec![0x00, 0x23]));
    let n = result.hexfile.normalized_lossy();
    assert_eq!(n.segments()[0].start_address, 0x1000);
    assert_eq!(n.segments()[0].data, vec![0x01, 0x02, 0x10, 0x10, 0x00, 0x23]);
}

#[test]
fn pipeline_stage_error() {
    let hexfile = HexFile::with_segments(vec![Segment::new(0x10, vec![1])]);
    let pipeline = Pipeline {
        hexfile,
        align: Some(h3xy::AlignOptions { alignment: 0, fill_byte: 0, align_length: false }),
        ..Default::default()
    };
    assert!(pipeline.execute_without_log(|r: Range| vec![0; r.length() as usize]).is_err());
}

#[test]
fn fill_gaps_always_spans() {
    let mut hf = HexFile::with_segments(vec![Segment::new(0x10, vec![1]), Segment::new(0x12, vec![2])]);
    hf.fill_gaps(0);
    assert_eq!(hf.segments().len(), 1);
    assert_eq!(hf.segments()[0].data, vec![1, 0, 2]);
}
