use h3xy::{
    execute_log_commands, flag_dspic_expand, flag_fill_ranges_random, flag_map_star12, flag_remap, parse_log_commands,
    random_fill_bytes, random_fill_seed_from_time, AlignOptions, HexFile, LogCommand, LogCommandKind, LogError,
    Pipeline, Range, RemapOptions, Segment,
};

#[test]
fn test_random_fill_bytes_deterministic() {
    let range = Range::from_start_length(0x1000, 4).unwrap();
    let data = random_fill_bytes(range, 1);
    assert_eq!(data, vec![0x2D, 0xCF, 0x46, 0x29]);
}

#[test]
fn test_parse_log_commands_basic() {
    let content = "FileOpen test.hex\nFileClose\nFileNew\n";
    let commands = parse_log_commands(content).unwrap();
    assert_eq!(commands.len(), 3);
    assert_eq!(commands[0].line, 1);
    assert_eq!(
        commands[0].kind,
        LogCommandKind::FileOpen("test.hex".to_string())
    );
}

#[test]
fn test_parse_log_commands_missing_filename() {
    let content = "FileOpen\n";
    let err = parse_log_commands(content).unwrap_err();
    assert!(matches!(err, LogError::MissingFilename { line: 1 }));
}

#[test]
fn test_execute_log_commands_fileopen() {
    let commands = vec![LogCommand {
        line: 1,
        kind: LogCommandKind::FileOpen("input.bin".to_string()),
    }];
    let mut file = HexFile::new();
    fn load_ok(_: &String) -> Result<HexFile, String> {
        Ok(HexFile::with_segments(vec![Segment::new(
            0x1000,
            vec![0xAA],
        )]))
    }
    execute_log_commands(&mut file, &commands, load_ok).unwrap();
    assert_eq!(file.segments().len(), 1);
    assert_eq!(file.segments()[0].start_address, 0x1000);
}

#[test]
fn test_execute_log_commands_load_error() {
    let commands = vec![LogCommand {
        line: 3,
        kind: LogCommandKind::FileOpen("missing.bin".to_string()),
    }];
    let mut file = HexFile::new();
    let err = execute_log_commands(&mut file, &commands, |_: &String| {
        Err("missing".to_string())
    })
    .unwrap_err();
    assert!(matches!(err, LogError::Load { line: 3, .. }));
}

#[test]
fn test_pipeline_fill_cut_align() {
    let hexfile = HexFile::with_segments(vec![Segment::new(0x1001, vec![0xAA, 0xBB])]);
    let pipeline = Pipeline {
        hexfile,
        fill_ranges: vec![Range::from_start_length(0x1000, 4).unwrap()],
        fill_pattern: Some(vec![0xFF]),
        cut_ranges: vec![Range::from_start_end(0x1002, 0x1002).unwrap()],
        align: Some(AlignOptions {
            alignment: 4,
            fill_byte: 0x00,
            align_length: true,
        }),
        ..Default::default()
    };

    let result = pipeline
        .execute(|range: Range| vec![0x00; range.length() as usize], |_: &String| Err("no loader".to_string()))
        .unwrap();
    let norm = result.hexfile.normalized_lossy();
    assert_eq!(norm.segments().len(), 1);
    assert_eq!(norm.segments()[0].start_address, 0x1000);
    assert_eq!(norm.segments()[0].data.len(), 4);
}

#[test]
fn log_commands_ignore_case_and_quotes() {
    let commands = parse_log_commands("  fileopen \"a b.hex\"  \r\n\nFILENEW\n").unwrap();
    assert_eq!(commands.len(), 2);
    assert_eq!(commands[0].kind, LogCommandKind::FileOpen("a b.hex".to_string()));
    assert_eq!(commands[1].line, 3);
    assert_eq!(commands[1].kind, LogCommandKind::FileNew);
}

#[test]
fn log_unknown_command_is_refused() {
    let err = parse_log_commands("FileClose\nFrobnicate x\n").unwrap_err();
    assert!(matches!(err, LogError::UnsupportedCommand { line: 2, .. }));
}

#[test]
fn log_close_empties_image() {
    let commands = vec![LogCommand { line: 1, kind: LogCommandKind::FileClose }];
    let mut file = HexFile::with_segments(vec![Segment::new(0x10, vec![1])]);
    execute_log_commands(&mut file, &commands, |_: &String| Err("unused".to_string())).unwrap();
    assert!(file.is_empty());
}

#[test]
fn random_fill_prepends_under_data() {
    let mut hf = HexFile::with_segments(vec![Segment::new(0x1001, vec![0xAA])]);
    let r = Range::from_start_length(0x1000, 3).unwrap();
    flag_fill_ranges_random(&mut hf, &[r], &[vec![1, 2, 3]]);
    assert_eq!(hf.read_byte(0x1000), Some(1));
    assert_eq!(hf.read_byte(0x1001), Some(0xAA));
    assert_eq!(hf.read_byte(0x1002), Some(3));
}

#[test]
fn random_seed_never_zero() {
    let r = Range::from_start_length(0, 1).unwrap();
    assert_eq!(random_fill_seed_from_time(r, 1), 0x9E37_79B9_7F4A_7C15);
    assert_eq!(random_fill_seed_from_time(r, 0), 1);
}

#[test]
fn scenario_remap_banked() {
    let mut hf = HexFile::with_segments(vec![
        Segment::new(0x1000, vec![0xAA]),
        Segment::new(0x018000, vec![0x01, 0x02]),
        Segment::new(0x028000, vec![0x03]),
    ]);
    let options = RemapOptions { start: 0x018000, end: 0x02BFFF, linear: 0x008000, size: 0x4000, inc: 0x010000 };
    flag_remap(&mut hf, &options).unwrap();
    assert_eq!(hf.segments()[0].start_address, 0x1000);
    assert_eq!(hf.segments()[1].start_address, 0x008000);
    assert_eq!(hf.segments()[2].start_address, 0x00C000);
}

#[test]
fn remap_rejects_zero_size() {
    let mut hf = HexFile::with_segments(vec![Segment::new(0x1000, vec![0xAA])]);
    let options = RemapOptions { start: 0, end: 0x1000, linear: 0, size: 0, inc: 1 };
    assert!(flag_remap(&mut hf, &options).is_err());
    assert_eq!(hf.segments()[0].start_address, 0x1000);
}

#[test]
fn star12_maps_bank_window() {
    let mut hf = HexFile::with_segments(vec![
        Segment::new(0x31_8000, vec![0x11]),
        Segment::new(0x4000, vec![0x22]),
        Segment::new(0xC010, vec![0x33]),
    ]);
    flag_map_star12(&mut hf).unwrap();
    assert_eq!(hf.segments()[0].start_address, 0x0C_4000);
    assert_eq!(hf.segments()[1].start_address, 0x0F_8000);
    assert_eq!(hf.segments()[2].start_address, 0x0F_C010);
}

#[test]
fn scenario_dspic_expand() {
    let mut hf = HexFile::with_segments(vec![Segment::new(0x1000, vec![0xAA, 0xBB, 0xCC, 0xDD])]);
    let r = Range::from_start_end(0x1000, 0x1003).unwrap();
    flag_dspic_expand(&mut hf, r, None).unwrap();
    let last = hf.segments().last().unwrap();
    assert_eq!(last.start_address, 0x2000);
    assert_eq!(last.data, vec![0xAA, 0xBB, 0x00, 0x00, 0xCC, 0xDD, 0x00, 0x00]);
}

#[test]
fn dspic_shrink_and_clear_ghost() {
    let mut hf = HexFile::with_segments(vec![Segment::new(0x2000, vec![1, 2, 3, 4, 5, 6, 7, 8])]);
    let r = Range::from_start_end(0x2000, 0x2007).unwrap();
    hf.dspic_shrink(r, None).unwrap();
    let last = hf.segments().last().unwrap();
    assert_eq!(last.start_address, 0x1000);
    assert_eq!(last.data, vec![1, 2, 5, 6]);
    hf.dspic_clear_ghost(r).unwrap();
    assert_eq!(hf.segments().last().unwrap().data, vec![1, 2, 3, 0, 5, 6, 7, 0]);
}

#[test]
fn dspic_expand_uncovered_fails() {
    let mut hf = HexFile::with_segments(vec![Segment::new(0x1000, vec![0xAA, 0xBB])]);
    let r = Range::from_start_end(0x1000, 0x1003).unwrap();
    assert!(flag_dspic_expand(&mut hf, r, None).is_err());
    assert_eq!(hf.segments().len(), 1);
}
