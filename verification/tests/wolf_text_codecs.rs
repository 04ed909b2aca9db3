use hoshi2star::wolf::encoding::{decode_shiftjis, decode_text, encode_shiftjis, encode_text};

#[test]
fn test_decode_shiftjis_ascii() {
    let result = decode_shiftjis(b"Hello").unwrap();
    assert_eq!(result, "Hello");
}

#[test]
fn test_decode_shiftjis_japanese() {
    // "テスト" in Shift-JIS: テ=0x83 0x65, ス=0x83 0x58, ト=0x83 0x67
    let sjis_bytes: &[u8] = &[0x83, 0x65, 0x83, 0x58, 0x83, 0x67];
    let result = decode_shiftjis(sjis_bytes).unwrap();
    assert_eq!(result, "テスト");
}

#[test]
fn test_encode_shiftjis_ascii() {
    let result = encode_shiftjis("Hello").unwrap();
    assert_eq!(result, b"Hello");
}

#[test]
fn test_encode_shiftjis_accented() {
    // "café" — é (U+00E9) is not representable in Shift-JIS
    let result = encode_shiftjis("café");
    assert!(result.is_err(), "should fail for characters outside Shift-JIS");
}

#[test]
fn shift_jis_errors_name_their_input() {
    assert_eq!(
        encode_shiftjis("café").unwrap_err(),
        "Shift-JIS encode error: 'café' contains characters not in Shift-JIS"
    );
    assert_eq!(decode_shiftjis(&[0x83, 0xFF, 0x41]).unwrap_err(), "Shift-JIS decode error on 3 bytes");
}

#[test]
fn text_codecs_follow_the_file_encoding() {
    assert_eq!(encode_text("テスト", true).unwrap(), "テスト".as_bytes());
    assert_eq!(encode_text("テスト", false).unwrap(), vec![0x83, 0x65, 0x83, 0x58, 0x83, 0x67]);
    assert_eq!(decode_text("テスト".as_bytes(), true).unwrap(), "テスト");
    assert!(decode_text(&[0xFF, 0xFE], true).is_none());
    assert!(encode_text("café", false).is_none());
    assert_eq!(encode_text("café", true).unwrap(), "café".as_bytes());
}
