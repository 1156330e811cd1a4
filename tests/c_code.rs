use h3xy::{write_c_code, CCodeWordType, CCodeWriteOptions, HexFile, Segment};

#[test]
fn test_write_c_code_basic() {
    let hexfile = HexFile::with_segments(vec![Segment::new(0x1000, vec![0x01, 0x02, 0x03])]);
    let options = CCodeWriteOptions {
        prefix: "flashDrv".to_string(),
        header_name: "flashDrv".to_string(),
        word_size: 0,
        word_type: CCodeWordType::Intel,
        decrypt: false,
        decrypt_value: 0,
    };
    let output = write_c_code(&hexfile, &options).unwrap();
    assert!(
        String::from_utf8(output.c)
            .unwrap()
            .contains("flashDrvBlk0")
    );
    assert!(
        String::from_utf8(output.h)
            .unwrap()
            .contains("FLASHDRV_BLOCK0_ADDRESS")
    );
}

#[test]
fn c_code_words_exact_text() {
    let hexfile = HexFile::with_segments(vec![Segment::new(0x20, vec![0x01, 0x02, 0x03, 0x04])]);
    let options = CCodeWriteOptions {
        prefix: " my-img ".to_string(),
        header_name: "img".to_string(),
        word_size: 1,
        word_type: CCodeWordType::Motorola,
        decrypt: true,
        decrypt_value: 0x1_00FF,
    };
    let output = write_c_code(&hexfile, &options).unwrap();
    assert_eq!(
        String::from_utf8(output.h).unwrap(),
        "#pragma once\n#include <stdint.h>\n\n#define MY_IMG_BLOCK_COUNT 1\n\n#define MY_IMG_BLOCK0_ADDRESS 0x00000020u\n#define MY_IMG_BLOCK0_LENGTH_BYTES 0x4u\n#define MY_IMG_BLOCK0_LENGTH_ELEMENTS 0x2u\nextern const uint16_t my-imgBlk0[];\n\n"
    );
    assert_eq!(
        String::from_utf8(output.c).unwrap(),
        "#include \"img.h\"\n\nconst uint16_t my-imgBlk0[] = {\n    0x01FD, 0x03FB\n};\n\n"
    );
}

#[test]
fn c_code_rejects_bad_options() {
    let hexfile = HexFile::with_segments(vec![Segment::new(0x20, vec![0x01, 0x02, 0x03])]);
    let mut options = CCodeWriteOptions {
        prefix: "p".to_string(),
        header_name: "h".to_string(),
        word_size: 3,
        word_type: CCodeWordType::Intel,
        decrypt: false,
        decrypt_value: 0,
    };
    assert!(write_c_code(&hexfile, &options).is_err());
    options.word_size = 1;
    assert!(write_c_code(&hexfile, &options).is_err());
    options.word_size = 0;
    options.prefix = "  ".to_string();
    assert!(write_c_code(&hexfile, &options).is_err());
}
