use hoshi2star::wolf::v3::coder::{ByteReader, ByteWriter};
use hoshi2star::wolf::v3::command::{Command, RouteCommand, CID_CHOICES, CID_MESSAGE};
use hoshi2star::wolf::v3::common_events::{
    self, CommonEventV3, CommonEventsV3, EVENT_INDICATOR, TERMINATOR_MIN, UNKNOWN2_LEN, UNKNOWN7_LEN,
    UNKNOWN8_LEN,
};
use hoshi2star::wolf::v3::compression::{decompress_v3, is_lz4_v3, recompress_v3, HEADER_SIZE};
use hoshi2star::wolf::v3::map::{
    EventV3, MapV3, PageV3, CONDITIONS_LEN, EVENT_TERMINATOR, MAP_TERMINATOR, MOVEMENT_LEN, PAGE_TERMINATOR,
    VERSION_V35,
};
use hoshi2star::wolf::v3::V3FormatError;

const ROUTE_COMMAND_MAGIC: [u8; 2] = [0x01, 0x00];
const EVENT_MAGIC1: [u8; 4] = [0x39, 0x30, 0x00, 0x00];
const EVENT_MAGIC2: [u8; 4] = [0x00, 0x00, 0x00, 0x00];
const MAGIC_PREFIX: [u8; 16] = [0, 0, 0, 0, 0, 0, 0, 0, 0, 0, 0x57, 0x4F, 0x4C, 0x46, 0x4D, 0x00];
const CE_MAGIC: [u8; 9] = [0x57, 0x00, 0x00, 0x4F, 0x4C, 0x00, 0x46, 0x43, 0x00];
const CE_UTF8_MAGIC_INDEX: usize = 5;

// --- coder ---

#[test]
fn test_read_u8_u32_le() {
    let mut r = ByteReader::new(&[0x01, 0x02, 0x00, 0x00, 0x00]);
    assert_eq!(r.read_u8().unwrap(), 0x01);
    assert_eq!(r.read_u32_le().unwrap(), 0x02);
    assert_eq!(r.remaining(), 0);
}

#[test]
fn test_read_unexpected_eof() {
    let mut r = ByteReader::new(&[0x01]);
    let err = r.read_u32_le().unwrap_err();
    assert_eq!(err, V3FormatError::UnexpectedEof { offset: 0, needed: 4, available: 1 });
}

#[test]
fn test_string_round_trip_utf8() {
    let mut w = ByteWriter::new();
    w.write_string("こんにちは", true).unwrap();
    let bytes = w.into_bytes();

    let mut r = ByteReader::new(&bytes);
    let s = r.read_string(true).unwrap();
    assert_eq!(s, "こんにちは");
    assert_eq!(r.remaining(), 0);
}

#[test]
fn test_string_round_trip_shift_jis() {
    let mut w = ByteWriter::new();
    w.write_string("テスト", false).unwrap();
    let bytes = w.into_bytes();

    let mut r = ByteReader::new(&bytes);
    let s = r.read_string(false).unwrap();
    assert_eq!(s, "テスト");
    assert_eq!(r.remaining(), 0);
}

#[test]
fn test_empty_string_round_trip() {
    let mut w = ByteWriter::new();
    w.write_string("", true).unwrap();
    let bytes = w.into_bytes();
    assert_eq!(bytes, vec![0x01, 0x00, 0x00, 0x00, 0x00]);

    let mut r = ByteReader::new(&bytes);
    assert_eq!(r.read_string(true).unwrap(), "");
}

#[test]
fn test_zero_length_string_errors() {
    let mut r = ByteReader::new(&[0x00, 0x00, 0x00, 0x00]);
    let err = r.read_string(true).unwrap_err();
    assert_eq!(err, V3FormatError::ZeroLengthString { offset: 0 });
}

#[test]
fn test_shift_jis_encode_error_for_unsupported_chars() {
    let mut w = ByteWriter::new();
    let err = w.write_string("café", false).unwrap_err();
    assert!(matches!(err, V3FormatError::InvalidEncoding { .. }));
}

#[test]
fn reader_tracks_position() {
    let mut r = ByteReader::new(&[1, 2, 3, 4, 5, 6]);
    assert_eq!(r.read_bytes(2).unwrap(), &[1, 2]);
    assert_eq!(r.position(), 2);
    assert_eq!(r.remaining(), 4);
    assert!(r.read_bytes(5).is_err());
}

// --- command ---

fn round_trip(bytes: &[u8], is_utf8: bool, v35: bool) -> Command {
    let mut reader = ByteReader::new(bytes);
    let command = Command::parse(&mut reader, is_utf8, v35).unwrap();
    assert_eq!(reader.remaining(), 0, "parser should consume all bytes");

    let mut writer = ByteWriter::new();
    command.dump(&mut writer, is_utf8, v35).unwrap();
    assert_eq!(writer.into_bytes(), bytes, "dump should reproduce input");

    command
}

#[test]
fn test_message_no_v35() {
    let mut w = ByteWriter::new();
    w.write_u8(1);
    w.write_u32_le(CID_MESSAGE);
    w.write_u8(0);
    w.write_u8(1);
    w.write_string("Hello", true).unwrap();
    w.write_u8(0x00);
    let bytes = w.into_bytes();

    let command = round_trip(&bytes, true, false);
    assert_eq!(command.cid, CID_MESSAGE);
    assert_eq!(command.args, Vec::<u32>::new());
    assert_eq!(command.indent, 0);
    assert_eq!(command.string_args, vec!["Hello".to_owned()]);
    assert!(command.move_data.is_none());
    assert!(command.v35_unknown.is_empty());
}

#[test]
fn test_message_with_v35_unknown() {
    let mut w = ByteWriter::new();
    w.write_u8(1);
    w.write_u32_le(CID_MESSAGE);
    w.write_u8(2);
    w.write_u8(1);
    w.write_string("こんにちは", true).unwrap();
    w.write_u8(0x00);
    w.write_u8(3);
    w.write_bytes(&[0xAA, 0xBB, 0xCC]);
    let bytes = w.into_bytes();

    let command = round_trip(&bytes, true, true);
    assert_eq!(command.cid, CID_MESSAGE);
    assert_eq!(command.indent, 2);
    assert_eq!(command.v35_unknown, vec![0xAA, 0xBB, 0xCC]);
}

#[test]
fn test_choices_multiple_string_args() {
    let mut w = ByteWriter::new();
    w.write_u8(2);
    w.write_u32_le(CID_CHOICES);
    w.write_u32_le(3);
    w.write_u8(0);
    w.write_u8(3);
    w.write_string("はい", true).unwrap();
    w.write_string("いいえ", true).unwrap();
    w.write_string("キャンセル", true).unwrap();
    w.write_u8(0x00);
    w.write_u8(0);
    let bytes = w.into_bytes();

    let command = round_trip(&bytes, true, true);
    assert_eq!(command.cid, CID_CHOICES);
    assert_eq!(command.args, vec![3]);
    assert_eq!(command.string_args, vec!["はい".to_owned(), "いいえ".to_owned(), "キャンセル".to_owned()]);
    assert!(command.v35_unknown.is_empty());
}

#[test]
fn test_move_command_with_route() {
    let mut w = ByteWriter::new();
    w.write_u8(1);
    w.write_u32_le(201);
    w.write_u8(0);
    w.write_u8(0);
    w.write_u8(0x01);
    w.write_bytes(&[0x01, 0x02, 0x03, 0x04, 0x05]);
    w.write_u8(0xFF);
    w.write_u32_le(2);
    w.write_u8(0x10);
    w.write_u8(0);
    w.write_bytes(&ROUTE_COMMAND_MAGIC);
    w.write_u8(0x20);
    w.write_u8(1);
    w.write_u32_le(42);
    w.write_bytes(&ROUTE_COMMAND_MAGIC);
    let bytes = w.into_bytes();

    let command = round_trip(&bytes, true, false);
    assert_eq!(command.cid, 201);
    let move_data = command.move_data.unwrap();
    assert_eq!(move_data.unknown, [0x01, 0x02, 0x03, 0x04, 0x05]);
    assert_eq!(move_data.flags, 0xFF);
    assert_eq!(
        move_data.route,
        vec![RouteCommand { id: 0x10, args: vec![] }, RouteCommand { id: 0x20, args: vec![42] },]
    );
}

#[test]
fn test_invalid_terminator_errors() {
    let mut w = ByteWriter::new();
    w.write_u8(1);
    w.write_u32_le(CID_MESSAGE);
    w.write_u8(0);
    w.write_u8(0);
    w.write_u8(0x42);
    let bytes = w.into_bytes();

    let mut reader = ByteReader::new(&bytes);
    let err = Command::parse(&mut reader, true, false).unwrap_err();
    assert!(matches!(err, V3FormatError::InvalidTerminator { found: 0x42, .. }));
}

#[test]
fn test_invalid_route_magic_errors() {
    let mut w = ByteWriter::new();
    w.write_u8(0x10);
    w.write_u8(0);
    w.write_bytes(&[0xFF, 0xFF]);
    let bytes = w.into_bytes();

    let mut reader = ByteReader::new(&bytes);
    let err = RouteCommand::parse(&mut reader).unwrap_err();
    assert!(matches!(err, V3FormatError::InvalidRouteMagic { .. }));
}

#[test]
fn command_zero_args_count_errors() {
    let mut reader = ByteReader::new(&[0x00, 0x65, 0, 0, 0, 0, 0, 0]);
    assert!(matches!(Command::parse(&mut reader, true, false), Err(V3FormatError::InvalidArgsCount { found: 0, .. })));
}

// --- compression ---

fn synthetic_header(version: u32, is_utf8: bool) -> [u8; HEADER_SIZE] {
    let mut header = [0u8; HEADER_SIZE];
    header[0..16].copy_from_slice(&MAGIC_PREFIX);
    header[16] = if is_utf8 { 0x55 } else { 0x00 };
    header[20..24].copy_from_slice(&version.to_le_bytes());
    header[24] = 0;
    header
}

#[test]
fn test_is_lz4_v3_detects_valid_header() {
    let header = synthetic_header(0x67, true);
    let mut bytes = header.to_vec();
    bytes.extend_from_slice(&[0u8; 13]);
    assert!(is_lz4_v3(&bytes));
}

#[test]
fn test_is_lz4_v3_rejects_short_buffer() {
    assert!(!is_lz4_v3(&[0u8; 10]));
}

#[test]
fn test_is_lz4_v3_rejects_pre_v3_version() {
    let header = synthetic_header(0x10, false);
    let mut bytes = header.to_vec();
    bytes.extend_from_slice(&[0u8; 13]);
    assert!(!is_lz4_v3(&bytes));
}

#[test]
fn test_decompress_recompress_round_trip() {
    let header = synthetic_header(0x67, true);
    let payload = b"hello wolf v3 payload, compress me please".to_vec();

    let compressed = recompress_v3(&[header.to_vec(), payload.clone()].concat()).unwrap();
    assert!(is_lz4_v3(&compressed));

    let decompressed = decompress_v3(&compressed).unwrap();
    assert_eq!(&decompressed[..HEADER_SIZE], &header);
    assert_eq!(&decompressed[HEADER_SIZE..], payload.as_slice());
}

#[test]
fn decompress_truncated_block_is_eof() {
    let header = synthetic_header(0x67, true);
    let compressed = recompress_v3(&[header.to_vec(), b"payload payload payload".to_vec()].concat()).unwrap();
    let cut = &compressed[..compressed.len() - 2];
    assert!(matches!(decompress_v3(cut), Err(V3FormatError::UnexpectedEof { .. })));
    assert!(matches!(decompress_v3(&header), Err(V3FormatError::UnexpectedEof { offset: 0, needed: 33, available: 25 })));
}

#[test]
fn recompress_needs_a_header() {
    assert!(recompress_v3(&[0u8; 10]).is_err());
}

// --- map ---

fn empty_page() -> PageV3 {
    PageV3 {
        unknown1: 0,
        graphic_name: String::new(),
        graphic_direction: 0,
        graphic_frame: 0,
        graphic_opacity: 0,
        graphic_render_mode: 0,
        conditions: vec![0u8; CONDITIONS_LEN],
        movement: vec![0u8; MOVEMENT_LEN],
        flags: 0,
        route_flags: 0,
        route: Vec::new(),
        commands: Vec::new(),
        features: 0,
        shadow_graphic_num: 0,
        collision_width: 0,
        collision_height: 0,
        page_transfer: None,
    }
}

#[test]
fn test_page_round_trip_with_message_command() {
    let mut page = empty_page();
    page.graphic_name = "chara1".to_owned();
    page.commands.push(Command {
        cid: CID_MESSAGE,
        args: Vec::new(),
        indent: 0,
        string_args: vec!["Hello".to_owned()],
        move_data: None,
        v35_unknown: Vec::new(),
    });

    let mut writer = ByteWriter::new();
    page.dump(&mut writer, true, false).unwrap();
    let bytes = writer.into_bytes();

    let mut reader = ByteReader::new(&bytes);
    let parsed = PageV3::parse(&mut reader, true, false).unwrap();
    assert_eq!(reader.remaining(), 0);
    assert_eq!(parsed, page);

    let mut writer2 = ByteWriter::new();
    parsed.dump(&mut writer2, true, false).unwrap();
    assert_eq!(writer2.into_bytes(), bytes);
}

#[test]
fn test_page_with_features_gt_3_has_page_transfer() {
    let mut page = empty_page();
    page.features = 4;
    page.page_transfer = Some(7);

    let mut writer = ByteWriter::new();
    page.dump(&mut writer, false, true).unwrap();
    let bytes = writer.into_bytes();

    let mut reader = ByteReader::new(&bytes);
    let parsed = PageV3::parse(&mut reader, false, true).unwrap();
    assert_eq!(reader.remaining(), 0);
    assert_eq!(parsed.page_transfer, Some(7));
    assert_eq!(parsed, page);
}

#[test]
fn test_page_invalid_terminator_errors() {
    let page = empty_page();
    let mut writer = ByteWriter::new();
    page.dump(&mut writer, true, false).unwrap();
    let mut bytes = writer.into_bytes();
    let last = bytes.len() - 1;
    bytes[last] = 0x00;

    let mut reader = ByteReader::new(&bytes);
    let err = PageV3::parse(&mut reader, true, false).unwrap_err();
    assert!(matches!(err, V3FormatError::UnexpectedByte { expected: PAGE_TERMINATOR, found: 0x00, .. }));
}

#[test]
fn test_event_round_trip_with_one_page() {
    let event = EventV3 { id: 1, name: "EV001".to_owned(), x: 3, y: 4, pages: vec![empty_page()] };

    let mut writer = ByteWriter::new();
    event.dump(&mut writer, true, false).unwrap();
    let bytes = writer.into_bytes();

    let mut reader = ByteReader::new(&bytes);
    let parsed = EventV3::parse(&mut reader, true, false).unwrap();
    assert_eq!(reader.remaining(), 0);
    assert_eq!(parsed, event);
}

#[test]
fn test_event_invalid_magic1_errors() {
    let event = EventV3 { id: 1, name: String::new(), x: 0, y: 0, pages: Vec::new() };
    let mut writer = ByteWriter::new();
    event.dump(&mut writer, true, false).unwrap();
    let mut bytes = writer.into_bytes();
    bytes[0] = 0xFF;

    let mut reader = ByteReader::new(&bytes);
    let err = EventV3::parse(&mut reader, true, false).unwrap_err();
    assert!(matches!(err, V3FormatError::InvalidMagic { context: "event magic 1", .. }));
}

#[test]
fn test_event_page_count_mismatch_errors() {
    let mut writer = ByteWriter::new();
    writer.write_bytes(&EVENT_MAGIC1);
    writer.write_u32_le(1);
    writer.write_string("", true).unwrap();
    writer.write_u32_le(0);
    writer.write_u32_le(0);
    writer.write_u32_le(1);
    writer.write_bytes(&EVENT_MAGIC2);
    writer.write_u8(EVENT_TERMINATOR);
    let bytes = writer.into_bytes();

    let mut reader = ByteReader::new(&bytes);
    let err = EventV3::parse(&mut reader, true, false).unwrap_err();
    assert!(matches!(err, V3FormatError::CountMismatch { expected: 1, actual: 0, context: "event pages" }));
}

fn empty_map(version: u32, is_utf8: bool, width: u32, height: u32) -> MapV3 {
    let mut magic = [0u8; 20];
    magic[10..15].copy_from_slice(b"WOLFM");
    magic[16] = if is_utf8 { 0x55 } else { 0x00 };

    let layer_cnt = 3;
    let tile_len = (width * height * layer_cnt * 4) as usize;
    let tiles = if is_utf8 && tile_len == 0 { None } else { Some(vec![0u8; tile_len]) };

    MapV3 {
        magic,
        version,
        unknown2: 0,
        unknown3: String::new(),
        tileset_id: 1,
        width,
        height,
        unknown4: if version >= VERSION_V35 { 0 } else { 0 },
        layer_cnt,
        tiles,
        events: Vec::new(),
    }
}

#[test]
fn test_map_round_trip_pre_v35_shift_jis_no_events() {
    let map = empty_map(0x60, false, 2, 2);
    let bytes = map.dump().unwrap();

    let parsed = MapV3::parse(&bytes).unwrap();
    assert_eq!(parsed, map);

    assert_eq!(parsed.dump().unwrap(), bytes);
}

#[test]
fn test_map_round_trip_v35_utf8_no_tiles_with_event() {
    let mut map = empty_map(0x67, true, 2, 2);
    map.tiles = None;
    map.events.push(EventV3 { id: 0, name: "EV001".to_owned(), x: 1, y: 1, pages: vec![empty_page()] });

    let bytes = map.dump().unwrap();
    let parsed = MapV3::parse(&bytes).unwrap();
    assert_eq!(parsed, map);
    assert_eq!(parsed.dump().unwrap(), bytes);
}

#[test]
fn test_map_round_trip_v35_utf8_with_tiles() {
    let mut map = empty_map(0x67, true, 2, 2);
    map.tiles = Some(vec![0u8; (2 * 2 * 3 * 4) as usize]);

    let bytes = map.dump().unwrap();
    let parsed = MapV3::parse(&bytes).unwrap();
    assert_eq!(parsed, map);
    assert_eq!(parsed.dump().unwrap(), bytes);
}

#[test]
fn test_map_event_terminator_mismatch_errors() {
    let map = empty_map(0x60, false, 0, 0);
    let mut bytes = map.dump().unwrap();
    let last = bytes.len() - 1;
    bytes[last] = 0xAB;

    let err = MapV3::parse(&bytes).unwrap_err();
    assert!(matches!(err, V3FormatError::UnexpectedByte { expected: MAP_TERMINATOR, found: 0xAB, .. }));
}

#[test]
fn map_flags_come_from_the_header() {
    let map = empty_map(0x67, true, 0, 0);
    assert!(map.is_utf8());
    assert!(map.is_v35());
    let old = empty_map(0x60, false, 0, 0);
    assert!(!old.is_utf8());
    assert!(!old.is_v35());
}

#[test]
fn map_trailing_bytes_error() {
    let map = empty_map(0x60, false, 1, 1);
    let mut bytes = map.dump().unwrap();
    bytes.push(0);
    assert!(matches!(MapV3::parse(&bytes), Err(V3FormatError::TrailingData { .. })));
}

// --- common events ---

fn empty_event() -> CommonEventV3 {
    CommonEventV3 {
        int_id: 1,
        unknown1: 0,
        unknown2: [0u8; UNKNOWN2_LEN],
        name: "Ev001".to_owned(),
        commands: Vec::new(),
        unknown11: String::new(),
        description: String::new(),
        unknown3: Vec::new(),
        unknown4: Vec::new(),
        unknown5: Vec::new(),
        unknown6: Vec::new(),
        unknown7: vec![0u8; UNKNOWN7_LEN],
        unknown8: vec![String::new(); UNKNOWN8_LEN],
        unknown9: String::new(),
        unknown10: None,
    }
}

#[test]
fn test_event_round_trip_no_unknown10() {
    let event = empty_event();

    let mut writer = ByteWriter::new();
    event.dump(&mut writer, true, false).unwrap();
    let bytes = writer.into_bytes();

    let mut reader = ByteReader::new(&bytes);
    let parsed = CommonEventV3::parse(&mut reader, true, false).unwrap();
    assert_eq!(reader.remaining(), 0);
    assert_eq!(parsed, event);

    let mut writer2 = ByteWriter::new();
    parsed.dump(&mut writer2, true, false).unwrap();
    assert_eq!(writer2.into_bytes(), bytes);
}

#[test]
fn test_event_round_trip_with_unknown10_and_command() {
    let mut event = empty_event();
    event.unknown10 = Some(("extra".to_owned(), 42));
    event.commands.push(Command {
        cid: CID_MESSAGE,
        args: Vec::new(),
        indent: 0,
        string_args: vec!["こんにちは".to_owned()],
        move_data: None,
        v35_unknown: vec![0xAB],
    });
    event.unknown3 = vec!["a".to_owned(), "b".to_owned()];
    event.unknown4 = vec![1, 2, 3];
    event.unknown5 = vec![vec!["x".to_owned(), "y".to_owned()], vec![]];
    event.unknown6 = vec![vec![1, 2], vec![3]];

    let mut writer = ByteWriter::new();
    event.dump(&mut writer, true, true).unwrap();
    let bytes = writer.into_bytes();

    let mut reader = ByteReader::new(&bytes);
    let parsed = CommonEventV3::parse(&mut reader, true, true).unwrap();
    assert_eq!(reader.remaining(), 0);
    assert_eq!(parsed, event);

    let mut writer2 = ByteWriter::new();
    parsed.dump(&mut writer2, true, true).unwrap();
    assert_eq!(writer2.into_bytes(), bytes);
}

#[test]
fn test_event_invalid_header_indicator_errors() {
    let mut writer = ByteWriter::new();
    writer.write_u8(0x00);
    let bytes = writer.into_bytes();

    let mut reader = ByteReader::new(&bytes);
    let err = CommonEventV3::parse(&mut reader, true, false).unwrap_err();
    assert!(matches!(err, V3FormatError::UnexpectedByte { expected: EVENT_INDICATOR, found: 0x00, .. }));
}

fn empty_common_events(is_utf8: bool, version: u8) -> CommonEventsV3 {
    let mut magic = CE_MAGIC;
    magic[CE_UTF8_MAGIC_INDEX] = if is_utf8 { 0x55 } else { 0x00 };
    CommonEventsV3 { magic, version, events: Vec::new(), terminator: 0x89 }
}

#[test]
fn test_common_events_round_trip_no_events() {
    let ce = empty_common_events(true, 0x93);
    let bytes = ce.dump().unwrap();

    let parsed = CommonEventsV3::parse(&bytes).unwrap();
    assert_eq!(parsed, ce);
    assert_eq!(parsed.dump().unwrap(), bytes);
}

#[test]
fn test_common_events_round_trip_with_event() {
    let mut ce = empty_common_events(true, 0xCC);
    ce.events.push(empty_event());

    let bytes = ce.dump().unwrap();
    let parsed = CommonEventsV3::parse(&bytes).unwrap();
    assert_eq!(parsed, ce);
    assert_eq!(parsed.dump().unwrap(), bytes);
}

#[test]
fn test_common_events_terminator_too_small_errors() {
    let ce = empty_common_events(true, 0x93);
    let mut bytes = ce.dump().unwrap();
    let last = bytes.len() - 1;
    bytes[last] = 0x10;

    let err = CommonEventsV3::parse(&bytes).unwrap_err();
    assert!(matches!(err, V3FormatError::UnexpectedByte { expected: TERMINATOR_MIN, found: 0x10, .. }));
}

#[test]
fn test_is_lz4_v3_detects_real_inko_header() {
    let mut bytes = vec![0x00, 0x57, 0x00, 0x00, 0x4F, 0x4C, 0x55, 0x46, 0x43, 0x00, 0x93];
    bytes.extend_from_slice(&[0u8; 8]);
    assert!(common_events::is_lz4_v3(&bytes));
}

#[test]
fn test_is_lz4_v3_rejects_non_v35_version() {
    let mut bytes = vec![0x00, 0x57, 0x00, 0x00, 0x4F, 0x4C, 0x00, 0x46, 0x43, 0x00, 0x10];
    bytes.extend_from_slice(&[0u8; 8]);
    assert!(!common_events::is_lz4_v3(&bytes));
}

#[test]
fn common_events_compression_round_trip() {
    let ce = empty_common_events(false, 0x93);
    let bytes = ce.dump().unwrap();
    let packed = common_events::recompress(&bytes).unwrap();
    assert_eq!(common_events::decompress(&packed).unwrap(), bytes);
    assert!(!ce.is_utf8());
    assert!(ce.is_v35());
}

#[test]
fn command_faults_carry_their_offsets() {
    let bytes = [0x01u8, 0x65, 0x00, 0x00, 0x00, 0x00, 0x00, 0x42];
    let mut reader = ByteReader::new(&bytes);
    assert_eq!(
        Command::parse(&mut reader, true, false).unwrap_err(),
        V3FormatError::InvalidTerminator { offset: 7, found: 0x42 }
    );
    let mut reader = ByteReader::new(&[0x00u8, 0x65]);
    assert_eq!(
        Command::parse(&mut reader, true, false).unwrap_err(),
        V3FormatError::InvalidArgsCount { offset: 0, found: 0 }
    );
}

#[test]
fn common_event_header_fault_is_exact() {
    let mut reader = ByteReader::new(&[0x00u8]);
    assert_eq!(
        CommonEventV3::parse(&mut reader, true, false).unwrap_err(),
        V3FormatError::UnexpectedByte {
            offset: 0,
            expected: 0x8E,
            found: 0x00,
            context: "common event header indicator",
        }
    );
}

#[test]
fn map_round_trip_shift_jis_ascii_strings() {
    let mut map = empty_map(0x60, false, 1, 1);
    map.tiles = Some(vec![0u8; (1 * 1 * 3 * 4) as usize]);
    map.events.push(EventV3 { id: 3, name: "EV_ascii".to_owned(), x: 0, y: 0, pages: vec![empty_page()] });
    let bytes = map.dump().unwrap();
    let parsed = MapV3::parse(&bytes).unwrap();
    assert_eq!(parsed, map);
    assert_eq!(parsed.dump().unwrap(), bytes);
}
