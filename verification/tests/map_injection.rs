use encoding_rs::SHIFT_JIS;
use hoshi2star::detector::WolfVersion;
use hoshi2star::wolf::extractor::{extract_map_segments_v3, map_segments};
use hoshi2star::wolf::injector::{InjectorError, WolfTranslation};
use hoshi2star::wolf::map_injector::{
    find_translation, inject_map_v2, inject_map_v3, map_replacements, map_string_slots, patch_mps_strings,
};
use hoshi2star::wolf::v3::command::{Command, CID_CHOICES, CID_MESSAGE};
use hoshi2star::wolf::v3::compression::{decompress_v3, is_lz4_v3, recompress_v3};
use hoshi2star::wolf::v3::map::{EventV3, MapV3, PageV3};
use wolfrpg_map_parser::command::Command as V2Command;

fn v2() -> WolfVersion {
    WolfVersion { major: 2, minor: 0 }
}

fn sjis_string(text: &str) -> Vec<u8> {
    let (enc, _, _) = SHIFT_JIS.encode(text);
    let len = (enc.len() + 1) as u32;
    let mut out = len.to_le_bytes().to_vec();
    out.extend_from_slice(&enc);
    out.push(0x00);
    out
}

fn make_show_message_cmd(text: &str) -> Vec<u8> {
    let mut b = Vec::new();
    b.extend_from_slice(&0x01650000u32.to_be_bytes());
    b.push(0x00);
    b.push(0x00);
    b.push(0x00);
    b.extend(sjis_string(text));
    b.push(0x00);
    b
}

fn make_page(commands_bytes: &[u8], command_count: u32) -> Vec<u8> {
    let mut b = Vec::new();
    b.extend_from_slice(b"\x79\xff\xff\xff\xff");
    b.extend(sjis_string(""));
    b.extend_from_slice(&[0x02, 0x00, 0x00, 0x00, 0x00]);
    b.extend_from_slice(&[0x00; 36]);
    b.extend_from_slice(&[0x00; 6]);
    b.extend_from_slice(&0u32.to_le_bytes());
    b.extend_from_slice(&command_count.to_le_bytes());
    b.extend_from_slice(commands_bytes);
    b.extend_from_slice(&0u32.to_le_bytes());
    b.extend_from_slice(&[0x00, 0x00, 0x00, 0x7a]);
    b
}

fn make_event(page_bytes: &[u8]) -> Vec<u8> {
    let mut b = Vec::new();
    b.extend_from_slice(&0x6f393000u32.to_be_bytes());
    b.push(0x00);
    b.extend_from_slice(&1u32.to_le_bytes());
    b.extend(sjis_string("E"));
    b.extend_from_slice(&0u32.to_le_bytes());
    b.extend_from_slice(&0u32.to_le_bytes());
    b.extend_from_slice(&1u32.to_le_bytes());
    b.extend_from_slice(&0u32.to_le_bytes());
    b.extend_from_slice(page_bytes);
    b.push(0x70);
    b
}

fn make_mps_with_event(event_bytes: &[u8]) -> Vec<u8> {
    let mut b = Vec::new();
    b.extend_from_slice(b"\x00\x00\x00\x00\x00\x00\x00\x00\x00\x00\x57\x4F\x4C\x46\x4D\x00\x00\x00\x00\x00");
    b.extend_from_slice(&[0x00; 5]);
    for v in [0u32, 1, 1, 1, 1] {
        b.extend_from_slice(&v.to_le_bytes());
    }
    b.extend_from_slice(&[0x00; 12]);
    b.extend_from_slice(event_bytes);
    b.push(0x66);
    b
}

fn message(text: &str) -> Command {
    Command { cid: CID_MESSAGE, args: vec![], indent: 0, string_args: vec![text.to_owned()], move_data: None, v35_unknown: vec![] }
}

fn translation(key: &str, text: &str) -> WolfTranslation {
    WolfTranslation { key: key.to_owned(), text: text.to_owned() }
}

#[test]
fn test_inject_map_identity() {
    let mps = make_mps_with_event(&make_event(&make_page(&make_show_message_cmd("テスト"), 1)));
    let events = vec![vec![vec![message("テスト")]]];
    let (new_bytes, result) = inject_map_v2("Map001", &mps, &events, &vec![], &v2()).unwrap();
    assert_eq!(result.updated_count, 0);
    assert_eq!(new_bytes, mps);
    assert_eq!(result.file_path, "Map001.mps");
}

#[test]
fn v2_translation_is_spliced() {
    let mps = make_mps_with_event(&make_event(&make_page(&make_show_message_cmd("テスト"), 1)));
    let events = vec![vec![vec![message("テスト")]]];
    let ts = vec![translation("MapData/Map001/events/0/pages/0/0", "Hello!!")];
    let (new_bytes, result) = inject_map_v2("Map001", &mps, &events, &ts, &v2()).unwrap();
    assert_eq!(result.updated_count, 1);
    let expected = make_mps_with_event(&make_event(&make_page(&make_show_message_cmd("Hello!!"), 1)));
    assert_eq!(new_bytes, expected);
}

#[test]
fn test_inject_map_wrong_key() {
    let mps = make_mps_with_event(&make_event(&make_page(&make_show_message_cmd("テスト"), 1)));
    let events = vec![vec![vec![message("テスト")]]];
    let ts = vec![translation("MapData/Map001/events/99/pages/0/0", "Nope")];
    let (new_bytes, result) = inject_map_v2("Map001", &mps, &events, &ts, &v2()).unwrap();
    assert_eq!(result.updated_count, 0);
    assert_eq!(new_bytes, mps);
}

/// The text of the first command of the first page of the first event, as
/// the v2 map parser reads it back.
fn first_message_text(mps: &[u8]) -> String {
    let re_parsed = wolfrpg_map_parser::Map::parse(mps);
    re_parsed
        .events()
        .first()
        .and_then(|e| e.pages().first())
        .and_then(|p| p.commands().first())
        .and_then(|c| if let V2Command::ShowMessage(m) = c { Some(m.text().to_owned()) } else { None })
        .unwrap()
}

#[test]
fn test_inject_map_translation() {
    let mps = make_mps_with_event(&make_event(&make_page(&make_show_message_cmd("テスト"), 1)));
    let events = vec![vec![vec![message("テスト")]]];
    let translations = vec![translation("MapData/Map001/events/0/pages/0/0", "Hello!!")];
    let (new_bytes, result) = inject_map_v2("Map001", &mps, &events, &translations, &v2()).unwrap();
    assert_eq!(result.updated_count, 1);
    assert_eq!(first_message_text(&new_bytes), "Hello!!");
}

#[test]
fn test_round_trip_mps_identity() {
    let mps = make_mps_with_event(&make_event(&make_page(&make_show_message_cmd("こんにちは"), 1)));
    let events = vec![vec![vec![message("こんにちは")]]];
    let segs = map_segments("RtMap", &events);
    assert_eq!(segs.len(), 1);
    let translations: Vec<WolfTranslation> =
        segs.iter().map(|s| WolfTranslation { key: s.key.clone(), text: s.source_text.clone() }).collect();
    let (new_bytes, result) = inject_map_v2("RtMap", &mps, &events, &translations, &v2()).unwrap();
    assert_eq!(result.updated_count, 0);
    assert_eq!(new_bytes, mps, "round-trip identity must produce identical bytes");
}

#[test]
fn test_round_trip_mps_translation() {
    let mps = make_mps_with_event(&make_event(&make_page(&make_show_message_cmd("こんにちは"), 1)));
    let events = vec![vec![vec![message("こんにちは")]]];
    let segs = map_segments("RtMap", &events);
    assert_eq!(segs.len(), 1);
    let translations = vec![WolfTranslation { key: segs[0].key.clone(), text: "Hello".to_string() }];
    let (new_bytes, result) = inject_map_v2("RtMap", &mps, &events, &translations, &v2()).unwrap();
    assert_eq!(result.updated_count, 1);
    assert_eq!(first_message_text(&new_bytes), "Hello");
}

#[test]
fn v2_unencodable_translation_is_an_error() {
    let mps = make_mps_with_event(&make_event(&make_page(&make_show_message_cmd("テスト"), 1)));
    let events = vec![vec![vec![message("テスト")]]];
    let ts = vec![translation("MapData/Map001/events/0/pages/0/0", "café")];
    assert!(matches!(inject_map_v2("Map001", &mps, &events, &ts, &v2()), Err(InjectorError::Encoding(_))));
}

#[test]
fn slots_skip_blank_strings_and_key_choices() {
    let choices = Command {
        cid: CID_CHOICES,
        args: vec![2],
        indent: 0,
        string_args: vec!["はい".to_owned(), " ".to_owned(), "いいえ".to_owned()],
        move_data: None,
        v35_unknown: vec![],
    };
    let slots = map_string_slots("M", &vec![vec![vec![message(""), choices]]]);
    assert_eq!(
        slots,
        vec![
            ("MapData/M/events/0/pages/0/1/choices/0".to_owned(), "はい".to_owned()),
            ("MapData/M/events/0/pages/0/1/choices/2".to_owned(), "いいえ".to_owned()),
        ]
    );
    let reps = map_replacements(&slots, &vec![translation("MapData/M/events/0/pages/0/1/choices/2", "No")], &v2()).unwrap();
    assert_eq!(reps[0].0, reps[0].1);
    assert_eq!(reps[1].1, b"No".to_vec());
}

#[test]
fn patch_applies_replacements_in_order_once() {
    let frame = |b: &[u8]| {
        let mut v = ((b.len() + 1) as u32).to_le_bytes().to_vec();
        v.extend_from_slice(b);
        v.push(0);
        v
    };
    let mut original = vec![0xEE];
    original.extend(frame(b"ab"));
    original.extend(frame(b"ab"));
    let reps = vec![(b"ab".to_vec(), b"xyz".to_vec())];
    let (out, n) = patch_mps_strings(&original, &reps);
    let mut expected = vec![0xEE];
    expected.extend(frame(b"xyz"));
    expected.extend(frame(b"ab"));
    assert_eq!(out, expected);
    assert_eq!(n, 1);
}

#[test]
fn last_translation_for_a_key_wins() {
    let ts = vec![translation("k", "first"), translation("other", "x"), translation("k", "second")];
    assert_eq!(find_translation(&ts, "k"), Some("second".to_owned()));
    assert_eq!(find_translation(&ts, "missing"), None);
}

fn v3_map(texts: &[&str]) -> MapV3 {
    let mut magic = [0u8; 20];
    magic[10..15].copy_from_slice(b"WOLFM");
    magic[16] = 0x55;
    let page = PageV3 {
        unknown1: 0,
        graphic_name: String::new(),
        graphic_direction: 0,
        graphic_frame: 0,
        graphic_opacity: 0,
        graphic_render_mode: 0,
        conditions: vec![0u8; 37],
        movement: vec![0u8; 4],
        flags: 0,
        route_flags: 0,
        route: Vec::new(),
        commands: texts.iter().map(|t| message(t)).collect(),
        features: 0,
        shadow_graphic_num: 0,
        collision_width: 0,
        collision_height: 0,
        page_transfer: None,
    };
    MapV3 {
        magic,
        version: 0x67,
        unknown2: 0,
        unknown3: String::new(),
        tileset_id: 1,
        width: 1,
        height: 1,
        unknown4: 0,
        layer_cnt: 3,
        tiles: None,
        events: vec![EventV3 { id: 0, name: "EV".to_owned(), x: 0, y: 0, pages: vec![page] }],
    }
}

#[test]
fn v3_translation_round_trip() {
    let packed = recompress_v3(&v3_map(&["こんにちは", "  "]).dump().unwrap()).unwrap();
    let segs = extract_map_segments_v3("TitleMap", &packed).unwrap();
    assert_eq!(segs.len(), 1);
    let ts = vec![translation(&segs[0].key, "Hello, world!"), translation("MapData/TitleMap/events/0/pages/0/1", "blank")];
    let (new_bytes, result) = inject_map_v3("TitleMap", &packed, &ts).unwrap();
    assert_eq!(result.updated_count, 1);
    assert!(is_lz4_v3(&new_bytes));
    let decompressed = decompress_v3(&new_bytes).unwrap();
    let map = MapV3::parse(&decompressed).unwrap();
    assert_eq!(map.events[0].pages[0].commands[0].string_args[0], "Hello, world!");
    assert_eq!(map.events[0].pages[0].commands[1].string_args[0], "  ");
    let new_segs = extract_map_segments_v3("TitleMap", &new_bytes).unwrap();
    assert_eq!(new_segs[0].source_text, "Hello, world!");
    assert_eq!(map.dump().unwrap(), decompressed);
}

#[test]
fn v3_identity_injection() {
    let packed = recompress_v3(&v3_map(&["こんにちは"]).dump().unwrap()).unwrap();
    let (new_bytes, result) = inject_map_v3("M", &packed, &vec![translation("MapData/M/events/0/pages/0/0", "こんにちは")]).unwrap();
    assert_eq!(result.updated_count, 0);
    assert_eq!(decompress_v3(&new_bytes).unwrap(), decompress_v3(&packed).unwrap());
    assert!(matches!(inject_map_v3("M", &packed[..20], &vec![]), Err(InjectorError::V3Format(_))));
}
