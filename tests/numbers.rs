use h3xy::{
    parse_import_param, parse_merge_param, parse_merge_params, parse_number, parse_output_params, parse_signed_number,
};

#[test]
fn test_parse_signed_number_negative_hex() {
    assert_eq!(parse_signed_number("-0x10").unwrap(), -16);
    assert_eq!(parse_signed_number("0x10").unwrap(), 16);
}

#[test]
fn test_parse_number_with_dots() {
    assert_eq!(parse_number("0x10.0F").unwrap(), 0x100F);
    assert_eq!(parse_number("1.024").unwrap(), 1024);
}

#[test]
fn test_parse_number_with_hex_suffix() {
    assert_eq!(parse_number("10h").unwrap(), 0x10);
    assert_eq!(parse_number("0fH").unwrap(), 0x0F);
}

#[test]
fn test_parse_number_with_c_suffixes() {
    assert_eq!(parse_number("0x10u").unwrap(), 0x10);
    assert_eq!(parse_number("0x10UL").unwrap(), 0x10);
    assert_eq!(parse_number("255u").unwrap(), 255);
}

#[test]
fn numbers_in_every_notation() {
    assert_eq!(parse_number(" 42 "), Some(42));
    assert_eq!(parse_number("0b101"), Some(5));
    assert_eq!(parse_number("101b"), Some(5));
    assert_eq!(parse_number("BEEF"), Some(0xBEEF));
    assert_eq!(parse_number("0xFFFFFFFF"), Some(u32::MAX));
    assert_eq!(parse_number("0x100000000"), None);
    assert_eq!(parse_number("0b102"), None);
    assert_eq!(parse_number(""), None);
    assert_eq!(parse_number("0x"), None);
    assert_eq!(parse_signed_number("-"), None);
}

#[test]
fn test_parse_merge_params_with_range() {
    let params = parse_merge_params("cal1.hex;-0x10:0x1000-0x10FF+cal2.s19;128").unwrap();
    assert_eq!(params.len(), 2);
    assert_eq!(params[0].offset, Some(-0x10));
    assert!(params[0].range.is_some());
    assert_eq!(params[1].offset, Some(128));
}

#[test]
fn test_parse_import_param_with_offset() {
    let param = parse_import_param("file.bin;0x1000").unwrap();
    assert_eq!(param.offset, 0x1000);
}

#[test]
fn test_parse_import_param_invalid_offset() {
    let result = parse_import_param("file.bin;0xZZ");
    assert!(result.is_err());
}

#[test]
fn test_parse_merge_params_invalid_range() {
    let result = parse_merge_params("file.hex:0x2000-0x1000");
    assert!(result.is_err());
}

#[test]
fn test_parse_output_params_hex() {
    let (len, rec_type) = parse_output_params("0x20:0x2").unwrap();
    assert_eq!(len, Some(32));
    assert_eq!(rec_type, Some(2));
}

#[test]
fn merge_param_fields() {
    let p = parse_merge_param("'dir/a+b.hex;0x20:0x100,0x10'").unwrap();
    assert_eq!(p.file, "dir/a+b.hex");
    assert_eq!(p.offset, Some(0x20));
    let r = p.range.unwrap();
    assert_eq!((r.start(), r.end()), (0x100, 0x10F));
    let q = parse_merge_params("\"x+y.hex\" + z.hex").unwrap();
    assert_eq!(q.len(), 2);
    assert_eq!(q[0].file, "x+y.hex");
    assert_eq!(q[1].file, "z.hex");
    assert_eq!(parse_import_param("f.bin").unwrap().offset, 0);
    assert_eq!(parse_output_params("").unwrap(), (None, None));
    assert!(parse_output_params("300").is_err());
}
