use encoding_rs::SHIFT_JIS;
use hoshi2star::detector::WolfVersion;
use hoshi2star::wolf::dat_parser::{
    dat_type_separator_bytes, db_magic_sjis_bytes, db_magic_utf8_bytes, parse_database, DatParseError, STRING_FIELD_START,
    VALID_FIELD_START,
};
use hoshi2star::wolf::extractor::{extract_database_segments, ExtractorError, WolfSegmentKind};
use hoshi2star::wolf::injector::{encode_for_wolf, inject_dat, InjectorError, WolfTranslation};

fn v2() -> WolfVersion {
    WolfVersion { major: 2, minor: 0 }
}

fn v3() -> WolfVersion {
    WolfVersion { major: 3, minor: 0 }
}

fn sjis_string(text: &str) -> Vec<u8> {
    let (encoded, _, _) = SHIFT_JIS.encode(text);
    let sjis: &[u8] = &encoded;
    let len = (sjis.len() + 1) as u32;
    let mut out = len.to_le_bytes().to_vec();
    out.extend_from_slice(sjis);
    out.push(0x00);
    out
}

fn empty_wolf_string() -> Vec<u8> {
    let mut v = 1u32.to_le_bytes().to_vec();
    v.push(0x00);
    v
}

/// A `.project` with one type, one field and one data entry.
fn make_minimal_project(type_label: &str, field_name: &str, entry_name: &str) -> Vec<u8> {
    let mut b = Vec::new();
    b.extend_from_slice(&1u32.to_le_bytes());
    b.extend(sjis_string(type_label));
    b.extend_from_slice(&1u32.to_le_bytes());
    b.extend(sjis_string(field_name));
    b.extend_from_slice(&1u32.to_le_bytes());
    if entry_name.is_empty() {
        b.extend(empty_wolf_string());
    } else {
        b.extend(sjis_string(entry_name));
    }
    b.extend(empty_wolf_string());
    b.extend_from_slice(&1u32.to_le_bytes());
    b.push(0x00);
    b.extend_from_slice(&1u32.to_le_bytes());
    b.extend_from_slice(&1u32.to_le_bytes());
    b.push(0x00);
    b.extend_from_slice(&1u32.to_le_bytes());
    b.extend_from_slice(&0u32.to_le_bytes());
    b.extend_from_slice(&1u32.to_le_bytes());
    b.extend_from_slice(&0u32.to_le_bytes());
    b.extend_from_slice(&1u32.to_le_bytes());
    b.extend_from_slice(&0u32.to_le_bytes());
    b
}

/// An unencrypted Shift-JIS `.dat` with one type, one string field and one entry.
fn make_minimal_dat(string_value: &str) -> Vec<u8> {
    let version: u8 = 0xC1;
    let mut b = Vec::new();
    b.push(0x00);
    b.extend_from_slice(&db_magic_sjis_bytes());
    b.push(version);
    b.extend_from_slice(&1u32.to_le_bytes());
    b.extend_from_slice(&dat_type_separator_bytes());
    b.extend_from_slice(&0u32.to_le_bytes());
    b.extend_from_slice(&1u32.to_le_bytes());
    b.extend_from_slice(&STRING_FIELD_START.to_le_bytes());
    b.extend_from_slice(&1u32.to_le_bytes());
    b.extend(sjis_string(string_value));
    b.push(version);
    b
}

fn make_db_dat_int(int_value: u32) -> Vec<u8> {
    let ver: u8 = 0xC1;
    let mut b = Vec::new();
    b.push(0x00);
    b.extend_from_slice(&db_magic_sjis_bytes());
    b.push(ver);
    b.extend_from_slice(&1u32.to_le_bytes());
    b.extend_from_slice(&dat_type_separator_bytes());
    b.extend_from_slice(&0u32.to_le_bytes());
    b.extend_from_slice(&1u32.to_le_bytes());
    b.extend_from_slice(&VALID_FIELD_START.to_le_bytes());
    b.extend_from_slice(&1u32.to_le_bytes());
    b.extend_from_slice(&int_value.to_le_bytes());
    b.push(ver);
    b
}

// --- parse_database ---

#[test]
fn test_parse_database_synthetic_string_field() {
    let project = make_minimal_project("キャラ", "名前", "");
    let dat = make_minimal_dat("テスト");
    let db = parse_database(&project, &dat).unwrap();
    assert_eq!(db.types.len(), 1);
    assert_eq!(db.types[0].name, "キャラ");
    assert_eq!(db.types[0].fields.len(), 1);
    assert_eq!(db.types[0].fields[0].name, "名前");
    assert!(db.types[0].fields[0].is_string());
    assert_eq!(db.types[0].entries.len(), 1);
    assert_eq!(db.types[0].entries[0].string_values, ["テスト"]);
    assert!(!db.is_utf8);
}

#[test]
fn test_parse_database_int_field() {
    let project = make_minimal_project("Vars", "hp", "hero");
    let dat = make_db_dat_int(42);
    let db = parse_database(&project, &dat).unwrap();
    assert_eq!(db.types[0].fields[0].is_string(), false);
    assert_eq!(db.types[0].fields[0].is_valid(), true);
    assert_eq!(db.types[0].entries[0].int_values, [42u32]);
    assert!(db.types[0].entries[0].string_values.is_empty());
}

#[test]
fn test_parse_database_rejects_encrypted() {
    let mut dat = vec![0x01];
    dat.extend_from_slice(&db_magic_sjis_bytes());
    dat.push(0xC1);
    let project = make_minimal_project("T", "F", "");
    let err = parse_database(&project, &dat).unwrap_err();
    assert!(matches!(err, DatParseError::Unsupported(_)));
}

#[test]
fn test_parse_database_rejects_lz4() {
    let mut dat = vec![0x00];
    dat.extend_from_slice(&db_magic_sjis_bytes());
    dat.push(0xC4);
    let project = make_minimal_project("T", "F", "");
    let err = parse_database(&project, &dat).unwrap_err();
    assert!(matches!(err, DatParseError::Unsupported(_)));
}

#[test]
fn test_parse_database_invalid_magic() {
    let mut dat = vec![0x00];
    dat.extend_from_slice(&[0xFF; 9]);
    dat.push(0xC1);
    let project = make_minimal_project("T", "F", "");
    let err = parse_database(&project, &dat).unwrap_err();
    assert!(matches!(err, DatParseError::InvalidMagic));
}

#[test]
fn parse_database_short_file_is_io_error() {
    let project = make_minimal_project("T", "F", "");
    assert!(matches!(parse_database(&project, &[0u8; 5]), Err(DatParseError::Io(_))));
}

#[test]
fn parse_database_type_count_mismatch_fails() {
    let project = make_minimal_project("T", "F", "");
    let mut dat = make_minimal_dat("x");
    dat[11..15].copy_from_slice(&2u32.to_le_bytes());
    assert!(parse_database(&project, &dat).is_err());
}

#[test]
fn parse_database_default_names() {
    // An empty entry name in the schema is kept empty; the field name is read.
    let project = make_minimal_project("T", "F", "");
    let db = parse_database(&project, &make_minimal_dat("v")).unwrap();
    assert_eq!(db.types[0].fields[0].name, "F");
}

// --- encode_for_wolf ---

#[test]
fn test_encode_french_accents_in_v2() {
    let result = encode_for_wolf("café", &v2());
    assert!(
        matches!(result, Err(InjectorError::Encoding(_))),
        "accented chars must fail for Wolf v2 (Shift-JIS)"
    );
}

#[test]
fn test_encode_french_accents_in_v3() {
    let result = encode_for_wolf("café", &v3());
    assert!(result.is_ok(), "UTF-8 v3 should accept accented chars");
    assert_eq!(result.unwrap(), "café".as_bytes());
}

#[test]
fn test_encode_ascii_both_versions() {
    assert!(encode_for_wolf("Hello", &v2()).is_ok());
    assert!(encode_for_wolf("Hello", &v3()).is_ok());
}

#[test]
fn encode_for_wolf_shift_jis_bytes() {
    assert_eq!(encode_for_wolf("テスト", &v2()).unwrap(), vec![0x83, 0x65, 0x83, 0x58, 0x83, 0x67]);
}

// --- inject_dat ---

#[test]
fn test_inject_dat_identity() {
    let project = make_minimal_project("Type", "name", "entry");
    let dat = make_minimal_dat("テスト");

    let (new_bytes, result) = inject_dat(&project, &dat, &vec![], &v2()).unwrap();
    assert_eq!(result.updated_count, 0);
    assert_eq!(new_bytes, dat, "identity injection must produce identical bytes");
}

#[test]
fn test_inject_dat_name() {
    let project = make_minimal_project("Type", "name", "entry");
    let dat = make_minimal_dat("テスト");

    let translations = vec![WolfTranslation { key: "Database/TestDB/0/0/name".to_string(), text: "Test".to_string() }];
    let (new_bytes, result) = inject_dat(&project, &dat, &translations, &v2()).unwrap();
    assert_eq!(result.updated_count, 1);

    let db = parse_database(&project, &new_bytes).unwrap();
    assert_eq!(db.types[0].entries[0].string_values[0], "Test");
}

#[test]
fn test_inject_dat_wrong_key() {
    let project = make_minimal_project("Type", "name", "entry");
    let dat = make_minimal_dat("テスト");

    let translations = vec![WolfTranslation { key: "Database/TestDB/99/0/name".to_string(), text: "Nope".to_string() }];
    let result = inject_dat(&project, &dat, &translations, &v2());
    assert!(matches!(result, Err(InjectorError::KeyNotFound(_))));
}

#[test]
fn inject_dat_unencodable_text_is_encoding_error() {
    let project = make_minimal_project("Type", "name", "entry");
    let dat = make_minimal_dat("テスト");
    let translations = vec![WolfTranslation { key: "Database/TestDB/0/0/name".to_string(), text: "café".to_string() }];
    assert!(matches!(inject_dat(&project, &dat, &translations, &v2()), Err(InjectorError::Encoding(_))));
}

#[test]
fn inject_dat_bad_database_is_parse_error() {
    let project = make_minimal_project("Type", "name", "entry");
    assert!(matches!(inject_dat(&project, &[0u8; 4], &vec![], &v2()), Err(InjectorError::DatParse(_))));
}

#[test]
fn test_round_trip_dat_identity() {
    let project = make_minimal_project("キャラ", "名前", "hero");
    let dat = make_minimal_dat("テスト");

    let segs = extract_database_segments("TestDB", &project, &dat, &v2()).unwrap();
    assert!(!segs.is_empty());

    let (new_bytes, result) = inject_dat(&project, &dat, &vec![], &v2()).unwrap();
    assert_eq!(result.updated_count, 0);
    assert_eq!(new_bytes, dat, "round-trip identity must produce identical bytes");
}

#[test]
fn test_round_trip_dat_translation() {
    let project = make_minimal_project("キャラ", "名前", "hero");
    let dat = make_minimal_dat("テスト");

    let segs = extract_database_segments("TestDB", &project, &dat, &v2()).unwrap();
    assert_eq!(segs.len(), 1);

    let translations = vec![WolfTranslation { key: segs[0].key.clone(), text: "Test".to_string() }];
    let (new_bytes, result) = inject_dat(&project, &dat, &translations, &v2()).unwrap();
    assert_eq!(result.updated_count, 1);

    let db = parse_database(&project, &new_bytes).unwrap();
    assert_eq!(db.types[0].entries[0].string_values[0], "Test");
}

// --- extract_database_segments ---

#[test]
fn test_extract_database_name_field_japanese() {
    let project = make_minimal_project("Items", "name", "");
    let dat = make_minimal_dat("テスト");
    let segs = extract_database_segments("UserDB", &project, &dat, &v2()).unwrap();
    assert_eq!(segs.len(), 1);
    assert_eq!(segs[0].source_text, "テスト");
    assert!(segs[0].key.starts_with("Database/UserDB/"));
    assert!(segs[0].key.ends_with("/name"));
}

#[test]
fn test_extract_database_known_field_ascii_extracted() {
    let project = make_minimal_project("Items", "name", "");
    let dat = make_minimal_dat("Hero");
    let segs = extract_database_segments("UserDB", &project, &dat, &v2()).unwrap();
    assert_eq!(segs.len(), 1, "known translatable field name must be extracted");
}

#[test]
fn test_extract_database_skips_int_field() {
    let project = make_minimal_project("Vars", "hp", "");
    let dat = make_db_dat_int(100);
    let segs = extract_database_segments("UserDB", &project, &dat, &v2()).unwrap();
    assert!(segs.is_empty(), "integer fields must be skipped");
}

#[test]
fn test_extract_database_skips_empty_value() {
    let project = make_minimal_project("Items", "name", "");
    let dat = make_minimal_dat("");
    let segs = extract_database_segments("UserDB", &project, &dat, &v2()).unwrap();
    assert!(segs.is_empty(), "empty string must be skipped");
}

#[test]
fn test_key_format_dat() {
    let project = make_minimal_project("Chars", "名前", "");
    let dat = make_minimal_dat("テスト");
    let segs = extract_database_segments("CDB", &project, &dat, &v2()).unwrap();
    assert_eq!(segs.len(), 1);
    assert!(segs[0].key.starts_with("Database/CDB/"), "key must follow Database/{{db}}/... format");
}

#[test]
fn extract_database_exact_key_and_kind() {
    let project = make_minimal_project("Chars", "名前", "");
    let segs = extract_database_segments("CDB", &project, &make_minimal_dat("テスト"), &v2()).unwrap();
    assert_eq!(segs[0].key, "Database/CDB/0/0/名前");
    match &segs[0].kind {
        WolfSegmentKind::DatabaseField { db_name, type_idx, entry_idx, field_name } => {
            assert_eq!(db_name, "CDB");
            assert_eq!((*type_idx, *entry_idx), (0, 0));
            assert_eq!(field_name, "名前");
        },
        other => panic!("unexpected kind {other:?}"),
    }
}

#[test]
fn extract_database_filters_values() {
    let project = make_minimal_project("Items", "memo", "");
    // Unknown field name and no Japanese: skipped.
    assert!(extract_database_segments("D", &project, &make_minimal_dat("Hero"), &v2()).unwrap().is_empty());
    // Unknown field name with Japanese: kept.
    assert_eq!(extract_database_segments("D", &project, &make_minimal_dat("勇者"), &v2()).unwrap().len(), 1);
    // Resource paths and placeholders alone are skipped even with a known name.
    let named = make_minimal_project("Items", "name", "");
    assert!(extract_database_segments("D", &named, &make_minimal_dat("title.png"), &v2()).unwrap().is_empty());
    assert!(extract_database_segments("D", &named, &make_minimal_dat("\\v[1]"), &v2()).unwrap().is_empty());
    assert!(extract_database_segments("D", &named, &make_minimal_dat("   "), &v2()).unwrap().is_empty());
}

#[test]
fn extract_database_parse_error_names_the_file() {
    let project = make_minimal_project("Items", "name", "");
    match extract_database_segments("Broken", &project, &[0u8; 3], &v2()) {
        Err(ExtractorError::DatParse { file, .. }) => assert_eq!(file, "Broken"),
        other => panic!("unexpected {other:?}"),
    }
}

#[test]
fn inject_dat_keeps_unknown1_extra_string_terminator_and_tail() {
    let ver: u8 = 0xC1;
    let mut b = Vec::new();
    b.push(0x00);
    b.extend_from_slice(&db_magic_sjis_bytes());
    b.push(ver);
    b.extend_from_slice(&1u32.to_le_bytes());
    b.extend_from_slice(&dat_type_separator_bytes());
    b.extend_from_slice(&0x0001_D4C0u32.to_le_bytes());
    b.extend_from_slice(&1u32.to_le_bytes());
    b.extend(sjis_string("extra"));
    b.extend_from_slice(&STRING_FIELD_START.to_le_bytes());
    b.extend_from_slice(&1u32.to_le_bytes());
    b.extend(sjis_string("テスト"));
    b.push(0x7F);
    b.extend_from_slice(&[0xAA, 0xBB]);
    let project = make_minimal_project("キャラ", "名前", "主人公");
    let (out, res) = inject_dat(&project, &b, &vec![], &v2()).unwrap();
    assert_eq!(out, b);
    assert_eq!(res.updated_count, 0);
    let db = parse_database(&project, &b).unwrap();
    assert_eq!(db.types[0].unknown1, 0x0001_D4C0);
    assert_eq!(db.terminator, 0x7F);
    assert_eq!(db.trailing, vec![0xAA, 0xBB]);
}

#[test]
fn inject_dat_translation_reads_back() {
    let project = make_minimal_project("キャラ", "名前", "主人公");
    let dat = make_minimal_dat("テスト");
    let t = vec![WolfTranslation { key: "Database/DataBase/0/0/名前".to_owned(), text: "Test".to_owned() }];
    let (out, res) = inject_dat(&project, &dat, &t, &v2()).unwrap();
    assert_eq!(res.updated_count, 1);
    let db = parse_database(&project, &out).unwrap();
    assert_eq!(db.types[0].entries[0].string_values, ["Test"]);
    assert_eq!(db.types[0].name, "キャラ");
}

#[test]
fn inject_dat_keeps_frames_without_terminating_zero() {
    // A UTF-8 database whose one string is stored without its 0x00.
    let ver: u8 = 0xC1;
    let mut b = Vec::new();
    b.push(0x00);
    b.extend_from_slice(&db_magic_utf8_bytes());
    b.push(ver);
    b.extend_from_slice(&1u32.to_le_bytes());
    b.extend_from_slice(&dat_type_separator_bytes());
    b.extend_from_slice(&0u32.to_le_bytes());
    b.extend_from_slice(&1u32.to_le_bytes());
    b.extend_from_slice(&STRING_FIELD_START.to_le_bytes());
    b.extend_from_slice(&1u32.to_le_bytes());
    b.extend_from_slice(&3u32.to_le_bytes());
    b.extend_from_slice(b"abc");
    b.push(ver);
    let project = make_minimal_project("T", "name", "row");
    let db = parse_database(&project, &b).expect("the reader accepts it");
    assert_eq!(db.types[0].entries[0].string_values, ["abc"]);
    let (out, res) = inject_dat(&project, &b, &vec![], &v3()).unwrap();
    assert_eq!(out, b);
    assert_eq!(res.updated_count, 0);
    // A translation re-frames only the string it replaces.
    let t = vec![WolfTranslation { key: "Database/DB/0/0/name".to_owned(), text: "xyz".to_owned() }];
    let (out2, _) = inject_dat(&project, &b, &t, &v3()).unwrap();
    let db2 = parse_database(&project, &out2).unwrap();
    assert_eq!(db2.types[0].entries[0].string_values, ["xyz"]);
    assert_eq!(out2.len(), b.len() + 1);
}
