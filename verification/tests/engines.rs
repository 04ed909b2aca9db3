use hoshi2star::detector::{
    detect_engine, is_mv_mz_system, DetectionError, Engine, find_data_dir, find_vx_ace_data_dir, find_wolf_data_dir, guess_wolf_version_from_structure, is_vx_ace_data_dir,
    is_wolf_game_dir, wolf_version_of_archive, GameDirListing, WolfVersion,
};
use hoshi2star::manifest::{hoshi2star_version, update_stats, ManifestData, ManifestStats};
use hoshi2star::mv_mz::decryptor::{decrypt_file, parse_hex_key, DecryptorError};
use hoshi2star::wolf::decryptor::key_conv;
use hoshi2star::wolf::extractor::{
    extract_common_events_v3, extract_map_segments_v3, map_segments, normalize_wolf_command_signatures,
    ExtractorError, WolfSegmentKind,
};
use hoshi2star::wolf::v3::command::{Command, CID_CHOICES, CID_MESSAGE};
use hoshi2star::wolf::v3::common_events::{self, CommonEventV3, CommonEventsV3};
use hoshi2star::wolf::v3::compression::recompress_v3;
use hoshi2star::wolf::v3::map::{EventV3, MapV3, PageV3};
use hoshi2star::wolf::wolfx::{decrypt, WolfXError};

// --- RPG Maker MV/MZ assets ---

const RPGM_MAGIC_PREFIX: &[u8] = &[0x52, 0x50, 0x47, 0x4D];

fn make_encrypted(payload: &[u8], key: &[u8; 16], is_mz: bool) -> Vec<u8> {
    let mut file = Vec::new();
    file.extend_from_slice(RPGM_MAGIC_PREFIX);
    file.push(if is_mz { b'Z' } else { b'V' });
    file.extend_from_slice(&[0x00, 0x00, 0x00, 0x00, 0x03, 0x01, 0x00, 0x00, 0x00, 0x00, 0x00]);
    for i in 0..16 {
        file.push(payload[i] ^ key[i]);
    }
    file.extend_from_slice(&payload[16..]);
    file
}

fn key_to_hex(key: &[u8; 16]) -> String {
    key.iter().map(|b| format!("{b:02x}")).collect()
}

#[test]
fn test_decrypt_mv_round_trip() {
    let key: [u8; 16] = [0x9a, 0x58, 0xa3, 0xab, 0x5d, 0x37, 0xb8, 0xc6, 0xe0, 0xf7, 0xa9, 0xb2, 0xc4, 0xd5, 0xe6, 0xf7];
    let original: Vec<u8> = (0u8..32).collect();

    let encrypted = make_encrypted(&original, &key, false);
    let decrypted = decrypt_file(&encrypted, &key_to_hex(&key)).unwrap();

    assert_eq!(decrypted, original);
}

#[test]
fn test_decrypt_mz_round_trip() {
    let key: [u8; 16] = [0x01; 16];
    let original: Vec<u8> = (0u8..48).collect();

    let encrypted = make_encrypted(&original, &key, true);
    let decrypted = decrypt_file(&encrypted, &key_to_hex(&key)).unwrap();

    assert_eq!(decrypted, original);
}

#[test]
fn test_decrypt_error_invalid_magic() {
    let key = "00000000000000000000000000000000";
    let bad_data = vec![0xFF; 64];
    let result = decrypt_file(&bad_data, key);
    assert!(matches!(result, Err(DecryptorError::InvalidMagic)));
}

#[test]
fn test_decrypt_error_file_too_short() {
    let key = "9a58a3ab5d37b8c6e0f7a9b2c4d5e6f7";
    let mut data = vec![0u8; 20];
    data[..4].copy_from_slice(RPGM_MAGIC_PREFIX);
    data[4] = b'V';
    let result = decrypt_file(&data, key);
    assert!(matches!(result, Err(DecryptorError::FileTooShort)));
}

#[test]
fn test_decrypt_error_invalid_key_length() {
    let key: [u8; 16] = [0x00; 16];
    let original: Vec<u8> = (0u8..32).collect();
    let encrypted = make_encrypted(&original, &key, false);

    let result = decrypt_file(&encrypted, "tooshort");
    assert!(matches!(result, Err(DecryptorError::InvalidKey(_))));
}

#[test]
fn test_decrypt_error_invalid_key_hex() {
    let key: [u8; 16] = [0x00; 16];
    let original: Vec<u8> = (0u8..32).collect();
    let encrypted = make_encrypted(&original, &key, false);

    let result = decrypt_file(&encrypted, "zzzzzzzzzzzzzzzzzzzzzzzzzzzzzzzz");
    assert!(matches!(result, Err(DecryptorError::InvalidKey(_))));
}

#[test]
fn test_parse_hex_key_all_zeros() {
    let result = parse_hex_key("00000000000000000000000000000000").unwrap();
    assert_eq!(result, [0u8; 16]);
}

#[test]
fn test_parse_hex_key_all_ff() {
    let result = parse_hex_key("ffffffffffffffffffffffffffffffff").unwrap();
    assert_eq!(result, [0xFFu8; 16]);
}

#[test]
fn parse_hex_key_mixed_case_and_sign() {
    let k = parse_hex_key("0A0bCc00000000000000000000000000").unwrap();
    assert_eq!(&k[..3], &[0x0A, 0x0B, 0xCC]);
    assert!(matches!(parse_hex_key("0A0b+c00000000000000000000000000"), Err(DecryptorError::InvalidKey(_))));
    assert!(matches!(parse_hex_key("-c000000000000000000000000000000"), Err(DecryptorError::InvalidKey(_))));
}

#[test]
fn decrypt_rejects_signed_key_pairs() {
    let mut data = b"RPGMV".to_vec();
    data.resize(32, 0);
    let key = "+f".repeat(16);
    assert!(matches!(decrypt_file(&data, &key), Err(DecryptorError::InvalidKey(_))));
}

// --- WolfX ---

#[test]
fn test_decrypt_returns_guidance() {
    let err = decrypt(&[0u8; 16]).unwrap_err();
    let msg = err.message();
    assert!(msg.contains("UberWolf"));
    assert!(msg.contains("WolfX"));
    assert_eq!(err, WolfXError::NotSupported);
}

// --- detection ---

fn listing(entries: &[&str], dirs: &[&str]) -> GameDirListing {
    GameDirListing {
        entries: entries.iter().map(|s| s.to_string()).collect(),
        dirs: dirs.iter().map(|s| s.to_string()).collect(),
    }
}

#[test]
fn test_is_mv_mz_system_valid() {
    let json = r#"{"gameTitle": "勇者の物語", "encryptionKey": ""}"#;
    assert!(is_mv_mz_system(json));
}

#[test]
fn test_is_mv_mz_system_empty_title_still_valid() {
    // An empty string is a valid JSON string — gameTitle exists, so it's MV/MZ
    let json = r#"{"gameTitle": ""}"#;
    assert!(is_mv_mz_system(json));
}

#[test]
fn test_is_mv_mz_system_missing_game_title() {
    let json = r#"{"title": "Not an MV game"}"#;
    assert!(!is_mv_mz_system(json));
}

#[test]
fn test_is_mv_mz_system_invalid_json() {
    assert!(!is_mv_mz_system("not json at all"));
}

#[test]
fn test_is_mv_mz_system_empty_string() {
    assert!(!is_mv_mz_system(""));
}

#[test]
fn test_detect_engine_unknown_no_data_dir() {
    let result = detect_engine(&listing(&[], &[]), None);
    assert!(matches!(result, Err(DetectionError::UnknownEngine)));
}

#[test]
fn test_detect_unknown_neither() {
    // No data directory at all
    let result = detect_engine(&listing(&[], &[]), None);
    assert!(matches!(result, Err(DetectionError::UnknownEngine)));
}

#[test]
fn detect_engine_prefers_an_mv_mz_system_file() {
    let wolf = listing(&["Game.exe", "BasicData"], &["BasicData", "data"]);
    assert!(matches!(detect_engine(&wolf, Some(r#"{"gameTitle": "x"}"#)), Ok(Engine::MvMz)));
    assert!(matches!(detect_engine(&wolf, Some(r#"{"title": "wrong"}"#)), Ok(Engine::Wolf)));
    assert!(matches!(detect_engine(&wolf, None), Ok(Engine::Wolf)));
    let plain = listing(&["data"], &["data"]);
    assert!(matches!(detect_engine(&plain, Some(r#"{"title": "wrong"}"#)), Err(DetectionError::UnknownEngine)));
    assert!(!is_mv_mz_system(r#"["gameTitle"]"#));
}

#[test]
fn test_wolf_version_is_utf8() {
    assert!(WolfVersion { major: 3, minor: 0 }.is_utf8());
    assert!(WolfVersion { major: 4, minor: 0 }.is_utf8());
}

#[test]
fn test_wolf_version_is_shiftjis() {
    assert!(!WolfVersion { major: 2, minor: 0 }.is_utf8());
    assert!(!WolfVersion { major: 1, minor: 0 }.is_utf8());
}

#[test]
fn wolf_dir_with_launcher_and_basic_data() {
    assert!(is_wolf_game_dir(&listing(&["Game.exe", "BasicData"], &["BasicData"])));
    assert!(is_wolf_game_dir(&listing(&["Game.ini", "BasicData"], &["BasicData"])));
}

#[test]
fn wolf_dir_with_archives() {
    assert!(is_wolf_game_dir(&listing(&["Game.exe", "Data", "Data/BasicData.wolf"], &["Data"])));
    assert!(is_wolf_game_dir(&listing(&["Game.exe", "Data.wolf"], &[])));
    assert!(!is_wolf_game_dir(&listing(&["Game.exe", "Data", "Data/.wolf"], &["Data"])));
    assert!(!is_wolf_game_dir(&listing(&["Game.exe", "Data", "Data/sub/x.wolf"], &["Data", "Data/sub"])));
}

#[test]
fn wolf_dir_with_maps() {
    let l = listing(&["Game.exe", "Data", "Data/MapData", "Data/MapData/Map001.mps"], &["Data", "Data/MapData"]);
    assert!(is_wolf_game_dir(&l));
}

#[test]
fn wolf_dir_needs_a_launcher() {
    assert!(!is_wolf_game_dir(&listing(&["BasicData"], &["BasicData"])));
    assert!(!is_wolf_game_dir(&listing(&["Game.exe"], &[])));
}

#[test]
fn data_dirs_in_order_of_preference() {
    assert_eq!(find_data_dir(&listing(&[], &["data", "www/data"])), Some("data"));
    assert_eq!(find_data_dir(&listing(&[], &["www/data"])), Some("www/data"));
    assert_eq!(find_data_dir(&listing(&[], &[])), None);
    assert_eq!(find_wolf_data_dir(&listing(&[], &["Data", "data"])), Some("Data"));
    assert_eq!(find_wolf_data_dir(&listing(&[], &["data"])), Some("data"));
    assert_eq!(find_vx_ace_data_dir(&listing(&[], &["data"])), Some("data"));
    assert_eq!(find_vx_ace_data_dir(&listing(&[], &[])), None);
}

#[test]
fn vx_ace_data_dir_holds_system() {
    assert!(is_vx_ace_data_dir(&listing(&["Data/System.rvdata2"], &["Data"]), "Data"));
    assert!(!is_vx_ace_data_dir(&listing(&["Data/Actors.rvdata2"], &["Data"]), "Data"));
}

fn v6_header(key: &[u8; 12], code_page: u32) -> Vec<u8> {
    let mut body = Vec::new();
    body.extend_from_slice(&0x2000u32.to_le_bytes());
    body.extend_from_slice(&0x2Ci64.to_le_bytes());
    body.extend_from_slice(&0x8000i64.to_le_bytes());
    body.extend_from_slice(&0i64.to_le_bytes());
    body.extend_from_slice(&0x80i64.to_le_bytes());
    body.extend_from_slice(&code_page.to_le_bytes());
    key_conv(&mut body, 4, key);
    let mut hdr = vec![b'D', b'X', 6u8, 0u8];
    hdr.extend_from_slice(&body);
    hdr
}

#[test]
fn wolf_version_from_archive_header() {
    let key = hoshi2star::wolf::decryptor::known_key(Some("v2.10")).unwrap();
    let utf8 = v6_header(&key, 65001);
    assert_eq!(wolf_version_of_archive(&utf8), Some(WolfVersion { major: 3, minor: 0 }));
    let plain = v6_header(&[0u8; 12], 932);
    assert_eq!(wolf_version_of_archive(&plain), Some(WolfVersion { major: 2, minor: 0 }));
    assert_eq!(guess_wolf_version_from_structure(Some(&utf8)), WolfVersion { major: 3, minor: 0 });
    assert_eq!(guess_wolf_version_from_structure(None), WolfVersion { major: 2, minor: 0 });
    assert_eq!(guess_wolf_version_from_structure(Some(b"DX\x05\x00")), WolfVersion { major: 2, minor: 0 });
}

// --- manifest ---

fn sample_stats() -> ManifestStats {
    ManifestStats { file_count: 10, segment_count: 500, translated_count: 200, glossary_term_count: 15 }
}

#[test]
fn manifest_new_and_update() {
    let mut m = ManifestData::new(
        "test-project-id".to_string(),
        "Test Game".to_string(),
        "mv_mz".to_string(),
        "/games/test".to_string(),
        sample_stats(),
        "2024-01-01T00:00:00Z".to_string(),
    );
    assert_eq!(m.hoshi2star_version, hoshi2star_version());
    assert_eq!(m.created_at, m.last_opened_at);
    let new_stats = ManifestStats { translated_count: 350, ..sample_stats() };
    update_stats(&mut m, new_stats, "2024-02-02T00:00:00Z".to_string());
    assert_eq!(m.stats.translated_count, 350);
    assert_eq!(m.project_id, "test-project-id");
    assert_eq!(m.created_at, "2024-01-01T00:00:00Z");
    assert_eq!(m.last_opened_at, "2024-02-02T00:00:00Z");
}

// --- map and common-event segments ---

fn message(text: &str) -> Command {
    Command { cid: CID_MESSAGE, args: vec![], indent: 0, string_args: vec![text.to_owned()], move_data: None, v35_unknown: vec![] }
}

fn choices(items: &[&str]) -> Command {
    Command {
        cid: CID_CHOICES,
        args: vec![items.len() as u32],
        indent: 0,
        string_args: items.iter().map(|s| s.to_string()).collect(),
        move_data: None,
        v35_unknown: vec![],
    }
}

#[test]
fn map_segments_keys_and_filters() {
    let events = vec![vec![vec![message("こんにちは"), message("\\v[1]"), choices(&["はい", "", "いいえ"])]]];
    let segs = map_segments("Map001", &events);
    assert_eq!(segs.len(), 3);
    assert_eq!(segs[0].key, "MapData/Map001/events/0/pages/0/0");
    assert_eq!(segs[0].source_text, "こんにちは");
    assert_eq!(segs[1].key, "MapData/Map001/events/0/pages/0/2/choices/0");
    assert_eq!(segs[2].key, "MapData/Map001/events/0/pages/0/2/choices/2");
    match &segs[2].kind {
        WolfSegmentKind::MapMessage { map_name, event_idx, page_idx, cmd_idx } => {
            assert_eq!(map_name, "Map001");
            assert_eq!((*event_idx, *page_idx, *cmd_idx), (0, 0, 2));
        },
        other => panic!("unexpected kind {other:?}"),
    }
}

#[test]
fn map_segments_distinct_keys() {
    let events = vec![vec![vec![message("こんにちは"), message("さようなら")]], vec![vec![], vec![message("またね")]]];
    let segs = map_segments("Map002", &events);
    assert_eq!(segs.len(), 3);
    assert_ne!(segs[0].key, segs[1].key);
    assert_eq!(segs[2].key, "MapData/Map002/events/1/pages/1/0");
}

fn page_with(commands: Vec<Command>) -> PageV3 {
    PageV3 {
        unknown1: 0,
        graphic_name: String::new(),
        graphic_direction: 0,
        graphic_frame: 0,
        graphic_opacity: 0,
        graphic_render_mode: 0,
        conditions: vec![0u8; 37],
        movement: vec![0u8; 4],
        flags: 0,
        route_flags: 0,
        route: Vec::new(),
        commands,
        features: 0,
        shadow_graphic_num: 0,
        collision_width: 0,
        collision_height: 0,
        page_transfer: None,
    }
}

#[test]
fn extract_v3_map_from_compressed_bytes() {
    let mut magic = [0u8; 20];
    magic[10..15].copy_from_slice(b"WOLFM");
    magic[16] = 0x55;
    let map = MapV3 {
        magic,
        version: 0x67,
        unknown2: 0,
        unknown3: String::new(),
        tileset_id: 1,
        width: 1,
        height: 1,
        unknown4: 0,
        layer_cnt: 3,
        tiles: None,
        events: vec![EventV3 { id: 0, name: "EV".to_owned(), x: 0, y: 0, pages: vec![page_with(vec![message("テスト")])] }],
    };
    let packed = recompress_v3(&map.dump().unwrap()).unwrap();
    let segs = extract_map_segments_v3("TitleMap", &packed).unwrap();
    assert_eq!(segs.len(), 1);
    assert_eq!(segs[0].key, "MapData/TitleMap/events/0/pages/0/0");
    assert_eq!(segs[0].source_text, "テスト");
    assert!(matches!(extract_map_segments_v3("TitleMap", &packed[..30]), Err(ExtractorError::MapParser(_))));
}

#[test]
fn extract_v3_common_events_from_compressed_bytes() {
    let event = CommonEventV3 {
        int_id: 1,
        unknown1: 0,
        unknown2: [0u8; 7],
        name: "Ev001".to_owned(),
        commands: vec![message("こんにちは"), choices(&["はい", "title.png"])],
        unknown11: String::new(),
        description: String::new(),
        unknown3: Vec::new(),
        unknown4: Vec::new(),
        unknown5: Vec::new(),
        unknown6: Vec::new(),
        unknown7: vec![0u8; 0x1D],
        unknown8: vec![String::new(); 100],
        unknown9: String::new(),
        unknown10: None,
    };
    let ce = CommonEventsV3 {
        magic: [0x57, 0x00, 0x00, 0x4F, 0x4C, 0x55, 0x46, 0x43, 0x00],
        version: 0x93,
        events: vec![event],
        terminator: 0x89,
    };
    let packed = common_events::recompress(&ce.dump().unwrap()).unwrap();
    let segs = extract_common_events_v3(&packed).unwrap();
    assert_eq!(segs.len(), 2);
    assert_eq!(segs[0].key, "CommonEvents/Ev001/0/0");
    assert_eq!(segs[1].key, "CommonEvents/Ev001/0/1/choices/0");
    assert!(matches!(extract_common_events_v3(b"garbage data that is definitely not a common event file"), Err(ExtractorError::MapParser(_))));
}

#[test]
fn normalize_signatures_rewrites_unknown_variants() {
    let mut bytes = vec![0x04, 0xD2, 0x00, 0x00, 0x07, 0xD2, 0x00, 0x00, 0x05, 0xD3, 0x00, 0x00, 0x09, 0xD2, 0x00];
    normalize_wolf_command_signatures(&mut bytes);
    assert_eq!(bytes, vec![0x06, 0xD2, 0x00, 0x00, 0x07, 0xD2, 0x00, 0x00, 0x03, 0xD3, 0x00, 0x00, 0x09, 0xD2, 0x00]);
    let mut short = vec![0x04, 0xD2, 0x00];
    normalize_wolf_command_signatures(&mut short);
    assert_eq!(short, vec![0x04, 0xD2, 0x00]);
}
