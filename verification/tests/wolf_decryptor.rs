use hoshi2star::wolf::decryptor::{
    code_page_to_wolf_version, crc32, extract_all, guess_key_v6, key_conv, key_conv7, key_create_7, known_key,
    parse_index, read_header, read_header_v5, read_header_v6, read_signature, wolf_key, wolf_key_name,
    DecryptorError, WOLF_KEY_COUNT,
};

const KEY_V220: [u8; 12] = [0x38, 0x50, 0x40, 0x28, 0x72, 0x4F, 0x21, 0x70, 0x3B, 0x73, 0x35, 0x38];

fn named_key(name: &str) -> [u8; 12] {
    known_key(Some(name)).unwrap()
}

// --- DXA v8: crc32 / key_create_7 / key_conv7 ---

#[test]
fn test_key_create_7_wolf_v2225() {
    let key = key_create_7(b"WLFRPrO!p(;s5((8P@((UFWlu$#5(=");
    let original = b"SomeTestData123".to_vec();
    let mut buf = original.clone();
    key_conv7(&mut buf, 0, &key);
    assert_ne!(buf, original);
    key_conv7(&mut buf, 0, &key);
    assert_eq!(buf, original);
}

#[test]
fn test_key_conv7_symmetric() {
    let key = [0x56u8, 0xF0, 0x6C, 0xA7, 0x87, 0xF0, 0x0E];
    let original = b"Hello, Wolf v8!".to_vec();
    let mut data = original.clone();
    key_conv7(&mut data, 0, &key);
    assert_ne!(data, original);
    key_conv7(&mut data, 0, &key);
    assert_eq!(data, original);
}

#[test]
fn test_key_conv7_offset_wraps() {
    let key = [0x56u8, 0xF0, 0x6C, 0xA7, 0x87, 0xF0, 0x0E];
    let mut a = [0x00u8];
    let mut b = [0x00u8];
    key_conv7(&mut a, 0, &key);
    key_conv7(&mut b, 7, &key);
    assert_eq!(a[0], b[0]);
}

// --- key_conv ---

#[test]
fn test_key_conv_symmetric() {
    let key = KEY_V220;
    let original = b"Hello, Wolf!".to_vec();
    let mut data = original.clone();
    key_conv(&mut data, 0, &key);
    assert_ne!(data, original, "XOR must change data");
    key_conv(&mut data, 0, &key);
    assert_eq!(data, original, "XOR twice must restore original");
}

#[test]
fn test_key_conv_known_vector() {
    let key = KEY_V220;
    let mut data = [0x00u8];
    key_conv(&mut data, 0, &key);
    assert_eq!(data[0], 0x38);
}

#[test]
fn test_key_conv_offset_wraps() {
    let key = KEY_V220;
    let mut a = [0x00u8];
    let mut b = [0x00u8];
    key_conv(&mut a, 0, &key);
    key_conv(&mut b, 12, &key);
    assert_eq!(a[0], b[0]);
}

#[test]
fn test_key_conv_wolf_offset_bug() {
    let key = KEY_V220;
    let unpacked_size: u64 = 1024;
    let original = vec![0xAAu8; 16];
    let mut data = original.clone();
    key_conv(&mut data, unpacked_size, &key);
    assert_ne!(data, original);
    key_conv(&mut data, unpacked_size, &key);
    assert_eq!(data, original);
}

// --- known_key ---

#[test]
fn test_known_key_v220() {
    let key = known_key(Some("v2.20")).unwrap();
    assert_eq!(key[0], 0x38);
    assert_eq!(key[1], 0x50);
    assert_eq!(key[11], 0x38);
}

#[test]
fn test_known_key_unknown() {
    assert!(known_key(Some("v9.99")).is_none());
}

// --- read_signature + read_header_v5 ---

fn make_v5_header(key: &[u8; 12]) -> Vec<u8> {
    let index_size: u32 = 0x1000;
    let base_offset: u32 = 0x18;
    let index_offset: u32 = 0x5000;
    let file_table: u32 = 0x00;
    let dir_table: u32 = 0x40;

    let mut body = Vec::with_capacity(20);
    body.extend_from_slice(&index_size.to_le_bytes());
    body.extend_from_slice(&base_offset.to_le_bytes());
    body.extend_from_slice(&index_offset.to_le_bytes());
    body.extend_from_slice(&file_table.to_le_bytes());
    body.extend_from_slice(&dir_table.to_le_bytes());
    key_conv(&mut body, 4, key);

    let mut hdr = vec![b'D', b'X', 5u8, 0u8];
    hdr.extend_from_slice(&body);
    hdr
}

#[test]
fn test_read_header_v5_synthetic() {
    let key = KEY_V220;
    let hdr = make_v5_header(&key);

    assert_eq!(read_signature(&hdr).unwrap(), 5);
    let h = read_header_v5(&hdr, &key).unwrap();
    assert_eq!(h.index_size, 0x1000);
    assert_eq!(h.base_offset, 0x18);
    assert_eq!(h.index_offset, 0x5000);
    assert_eq!(h.file_table_offset, 0x00);
    assert_eq!(h.dir_table_offset, 0x40);
}

// --- read_header_v6 + CodePage → WolfVersion ---

fn make_v6_header(key: &[u8; 12], code_page: u32) -> Vec<u8> {
    let index_size: u32 = 0x2000;
    let base_offset: i64 = 0x2C;
    let index_offset: i64 = 0x8000;
    let file_table: i64 = 0x00;
    let dir_table: i64 = 0x80;

    let mut body = Vec::with_capacity(40);
    body.extend_from_slice(&index_size.to_le_bytes());
    body.extend_from_slice(&base_offset.to_le_bytes());
    body.extend_from_slice(&index_offset.to_le_bytes());
    body.extend_from_slice(&file_table.to_le_bytes());
    body.extend_from_slice(&dir_table.to_le_bytes());
    body.extend_from_slice(&code_page.to_le_bytes());
    key_conv(&mut body, 4, key);

    let mut hdr = vec![b'D', b'X', 6u8, 0u8];
    hdr.extend_from_slice(&body);
    hdr
}

#[test]
fn test_read_header_v6_synthetic() {
    let key = KEY_V220;
    let hdr = make_v6_header(&key, 932);

    assert_eq!(read_signature(&hdr).unwrap(), 6);
    let h = read_header_v6(&hdr, &key).unwrap();
    assert_eq!(h.base_offset, 0x2C);
    assert_eq!(h.index_offset, 0x8000);
    assert_eq!(h.file_table_offset, 0x00);
    assert_eq!(h.dir_table_offset, 0x80);
    assert_eq!(h.code_page, 932);
}

#[test]
fn test_code_page_932_is_shiftjis() {
    assert!(!code_page_to_wolf_version(932).is_utf8());
}

#[test]
fn test_code_page_65001_is_utf8() {
    assert!(code_page_to_wolf_version(65001).is_utf8());
}

// --- guess_key_v6 ---

fn make_v6_header_for_guess(key: &[u8; 12]) -> Vec<u8> {
    let index_size: u32 = 0x2000;
    let base_offset: i64 = 0x2C;
    let index_offset: i64 = 0x8000;
    let file_table: i64 = 0x00;
    let dir_table: i64 = 0x80;
    let code_page: u32 = 932;

    let mut body = Vec::with_capacity(44);
    body.extend_from_slice(&index_size.to_le_bytes());
    body.extend_from_slice(&base_offset.to_le_bytes());
    body.extend_from_slice(&index_offset.to_le_bytes());
    body.extend_from_slice(&file_table.to_le_bytes());
    body.extend_from_slice(&dir_table.to_le_bytes());
    body.extend_from_slice(&code_page.to_le_bytes());
    body.extend_from_slice(&[0u8; 4]);
    key_conv(&mut body, 4, key);

    let mut hdr = vec![b'D', b'X', 6u8, 0u8];
    hdr.extend_from_slice(&body);
    hdr
}

#[test]
fn test_guess_key_v6_synthetic() {
    let key = KEY_V220;
    let hdr = make_v6_header_for_guess(&key);
    let found = guess_key_v6(&hdr).expect("should recover key from null high bytes");
    assert_eq!(found, key);
}

#[test]
fn test_guess_key_v6_random_data() {
    let short = vec![0xABu8; 32];
    assert!(guess_key_v6(&short).is_none());
}

// --- parse_index ---

#[test]
fn test_parse_index_v5_synthetic() {
    let key = [0u8; 12];
    let version = 5u8;
    let index_offset: u64 = 0x5000;

    let name_table: Vec<u8> = b"file1.dat\0file2.dat\0".to_vec();
    let file_table = name_table.len() as u64;

    let mut entries = vec![0u8; 2 * 0x2C];
    entries[0x00..0x04].copy_from_slice(&0u32.to_le_bytes());
    entries[0x04..0x08].copy_from_slice(&0u32.to_le_bytes());
    entries[0x20..0x24].copy_from_slice(&0u32.to_le_bytes());
    entries[0x24..0x28].copy_from_slice(&100u32.to_le_bytes());
    entries[0x28..0x2C].copy_from_slice(&(-1i32).to_le_bytes());
    let e = 0x2C;
    entries[e..e + 0x04].copy_from_slice(&10u32.to_le_bytes());
    entries[e + 0x04..e + 0x08].copy_from_slice(&0u32.to_le_bytes());
    entries[e + 0x20..e + 0x24].copy_from_slice(&100u32.to_le_bytes());
    entries[e + 0x24..e + 0x28].copy_from_slice(&200u32.to_le_bytes());
    entries[e + 0x28..e + 0x2C].copy_from_slice(&(-1i32).to_le_bytes());

    let dir_table = file_table + entries.len() as u64;
    let mut toc = name_table;
    toc.extend_from_slice(&entries);

    let result = parse_index(&mut toc, &key, version, index_offset, file_table, dir_table).unwrap();

    assert_eq!(result.len(), 2);
    assert_eq!(result[0].name_offset, 0);
    assert_eq!(result[0].unpacked_size, 100);
    assert_eq!(result[0].packed_size, -1);
    assert_eq!(result[1].name_offset, 10);
    assert_eq!(result[1].data_offset, 100);
    assert_eq!(result[1].unpacked_size, 200);
}

#[test]
fn test_parse_index_v6_synthetic() {
    let key = [0u8; 12];
    let version = 6u8;
    let index_offset: u64 = 0;

    let name_table: Vec<u8> = b"alpha.dat\0beta.bin\0".to_vec();
    let file_table = name_table.len() as u64;

    let mut entries = vec![0u8; 2 * 0x40];
    entries[0x00..0x08].copy_from_slice(&0i64.to_le_bytes());
    entries[0x08..0x10].copy_from_slice(&0u64.to_le_bytes());
    entries[0x28..0x30].copy_from_slice(&0i64.to_le_bytes());
    entries[0x30..0x38].copy_from_slice(&500i64.to_le_bytes());
    entries[0x38..0x40].copy_from_slice(&(-1i64).to_le_bytes());
    let e = 0x40;
    entries[e..e + 0x08].copy_from_slice(&10i64.to_le_bytes());
    entries[e + 0x08..e + 0x10].copy_from_slice(&0u64.to_le_bytes());
    entries[e + 0x28..e + 0x30].copy_from_slice(&500i64.to_le_bytes());
    entries[e + 0x30..e + 0x38].copy_from_slice(&1000i64.to_le_bytes());
    entries[e + 0x38..e + 0x40].copy_from_slice(&(-1i64).to_le_bytes());

    let dir_table = file_table + entries.len() as u64;
    let mut toc = name_table;
    toc.extend_from_slice(&entries);

    let result = parse_index(&mut toc, &key, version, index_offset, file_table, dir_table).unwrap();

    assert_eq!(result.len(), 2);
    assert_eq!(result[0].name_offset, 0);
    assert_eq!(result[0].unpacked_size, 500);
    assert_eq!(result[0].packed_size, -1);
    assert_eq!(result[1].name_offset, 10);
    assert_eq!(result[1].data_offset, 500);
    assert_eq!(result[1].unpacked_size, 1000);
}

// --- extract_all ---

fn make_v5_archive(key: &[u8; 12], file_name: &str, content: &[u8]) -> Vec<u8> {
    let unpacked_size = content.len() as u32;

    let mut name_table = file_name.as_bytes().to_vec();
    name_table.push(0);
    let file_table: u32 = name_table.len() as u32;

    let mut entry = vec![0u8; 0x2C];
    entry[0x00..0x04].copy_from_slice(&0u32.to_le_bytes());
    entry[0x04..0x08].copy_from_slice(&0u32.to_le_bytes());
    entry[0x20..0x24].copy_from_slice(&0u32.to_le_bytes());
    entry[0x24..0x28].copy_from_slice(&unpacked_size.to_le_bytes());
    entry[0x28..0x2C].copy_from_slice(&(-1i32).to_le_bytes());

    let dir_table: u32 = file_table + 0x2C;

    let mut toc = name_table;
    toc.extend_from_slice(&entry);
    let index_size: u32 = toc.len() as u32;

    let base_offset: u32 = 0x18;
    let index_offset: u32 = base_offset + content.len() as u32;

    let mut hdr_body = vec![0u8; 20];
    hdr_body[0x00..0x04].copy_from_slice(&index_size.to_le_bytes());
    hdr_body[0x04..0x08].copy_from_slice(&base_offset.to_le_bytes());
    hdr_body[0x08..0x0C].copy_from_slice(&index_offset.to_le_bytes());
    hdr_body[0x0C..0x10].copy_from_slice(&file_table.to_le_bytes());
    hdr_body[0x10..0x14].copy_from_slice(&dir_table.to_le_bytes());
    key_conv(&mut hdr_body, 4, key);

    let mut file_data = content.to_vec();
    key_conv(&mut file_data, unpacked_size as u64, key);

    key_conv(&mut toc, index_offset as u64 % 12, key);

    let mut archive = vec![b'D', b'X', 5u8, 0u8];
    archive.extend_from_slice(&hdr_body);
    archive.extend_from_slice(&file_data);
    archive.extend_from_slice(&toc);
    archive
}

fn make_v6_archive(key: &[u8; 12], file_name: &str, content: &[u8], code_page: u32) -> Vec<u8> {
    let unpacked_size = content.len() as i64;

    let mut name_table = file_name.as_bytes().to_vec();
    name_table.push(0);
    let file_table: i64 = name_table.len() as i64;

    let mut entry = vec![0u8; 0x40];
    entry[0x00..0x08].copy_from_slice(&0i64.to_le_bytes());
    entry[0x08..0x10].copy_from_slice(&0u64.to_le_bytes());
    entry[0x28..0x30].copy_from_slice(&0i64.to_le_bytes());
    entry[0x30..0x38].copy_from_slice(&unpacked_size.to_le_bytes());
    entry[0x38..0x40].copy_from_slice(&(-1i64).to_le_bytes());

    let dir_table: i64 = file_table + 0x40;

    let mut toc = name_table;
    toc.extend_from_slice(&entry);
    let index_size: u32 = toc.len() as u32;

    let base_offset: i64 = 0x2C;
    let index_offset: i64 = base_offset + content.len() as i64;

    let mut hdr_body = vec![0u8; 40];
    hdr_body[0x00..0x04].copy_from_slice(&index_size.to_le_bytes());
    hdr_body[0x04..0x0C].copy_from_slice(&base_offset.to_le_bytes());
    hdr_body[0x0C..0x14].copy_from_slice(&index_offset.to_le_bytes());
    hdr_body[0x14..0x1C].copy_from_slice(&file_table.to_le_bytes());
    hdr_body[0x1C..0x24].copy_from_slice(&dir_table.to_le_bytes());
    hdr_body[0x24..0x28].copy_from_slice(&code_page.to_le_bytes());
    key_conv(&mut hdr_body, 4, key);

    let mut file_data = content.to_vec();
    key_conv(&mut file_data, unpacked_size as u64, key);

    key_conv(&mut toc, 0, key);

    let mut archive = vec![b'D', b'X', 6u8, 0u8];
    archive.extend_from_slice(&hdr_body);
    archive.extend_from_slice(&file_data);
    archive.extend_from_slice(&toc);
    archive
}

#[test]
fn test_extract_all_synthetic_v5() {
    let key = named_key("v2.20");
    let content = b"Hello, Wolf RPG!";
    let archive = make_v5_archive(&key, "game.dat", content);

    let result = extract_all(&archive).unwrap();
    assert_eq!(result.version, 5);
    assert_eq!(result.files.len(), 1);
    assert_eq!(result.files[0].name, "game.dat");
    assert_eq!(result.files[0].data.as_slice(), content.as_slice());
}

#[test]
fn test_extract_all_synthetic_v6() {
    let key = named_key("v2.20");
    let content = b"Wolf RPG v6 content";
    let archive = make_v6_archive(&key, "data.bin", content, 932);

    let result = extract_all(&archive).unwrap();
    assert_eq!(result.version, 6);
    assert_eq!(result.code_page, Some(932));
    assert_eq!(result.files.len(), 1);
    assert_eq!(result.files[0].name, "data.bin");
    assert_eq!(result.files[0].data.as_slice(), content.as_slice());
}

#[test]
fn test_extract_all_round_trip() {
    let key = named_key("v2.10");
    let original: &[u8] = b"Round-trip binary payload \xAB\xCD\xEF";
    let archive = make_v5_archive(&key, "payload.bin", original);

    let result = extract_all(&archive).unwrap();
    assert_eq!(result.files[0].data.as_slice(), original);
}

#[test]
fn test_extract_all_no_key() {
    let key = named_key("no_key");
    let content = b"constant-key archive content";
    let archive = make_v5_archive(&key, "nokey.dat", content);

    let result = extract_all(&archive).unwrap();
    assert_eq!(result.files.len(), 1);
    assert_eq!(result.files[0].data.as_slice(), content.as_slice());
}

#[test]
fn test_extract_all_bad_signature() {
    let data = vec![0xABu8, 0xCD, 0xEF, 0x00, 0x11, 0x22, 0x33, 0x44];
    assert!(matches!(extract_all(&data).unwrap_err(), DecryptorError::InvalidSignature));
}

// --- checks of this library's own ---

#[test]
fn known_keys_have_names_that_find_them() {
    for i in 0..WOLF_KEY_COUNT {
        assert_eq!(known_key(Some(wolf_key_name(i))), Some(wolf_key(i)));
    }
    assert!(known_key(None).is_none());
}

#[test]
fn crc32_known_value() {
    // The standard check value of CRC-32/ISO-HDLC.
    assert_eq!(crc32(b"123456789"), 0xCBF4_3926);
}

#[test]
fn read_signature_errors() {
    assert!(matches!(read_signature(b"DX"), Err(DecryptorError::InvalidSignature)));
    assert!(matches!(read_signature(b"DX\x07\x00"), Err(DecryptorError::UnsupportedVersion(7))));
    assert_eq!(read_signature(b"DX\x08\x00").unwrap(), 8);
}

#[test]
fn read_header_dispatches_on_version() {
    let key = KEY_V220;
    let v5 = make_v5_header(&key);
    let (version, base, index, ft, dt, cp) = read_header(&v5, &key).unwrap();
    assert_eq!((version, base, index, ft, dt, cp), (5, 0x18, 0x5000, 0, 0x40, None));
    let v6 = make_v6_header(&key, 65001);
    let (version, base, index, ft, dt, cp) = read_header(&v6, &key).unwrap();
    assert_eq!((version, base, index, ft, dt, cp), (6, 0x2C, 0x8000, 0, 0x80, Some(65001)));
    assert!(matches!(read_header(&v6[..0x20], &key), Err(DecryptorError::HeaderTooShort)));
}

#[test]
fn extract_all_rejects_truncated_archive() {
    let key = named_key("v2.20");
    let archive = make_v5_archive(&key, "game.dat", b"Hello, Wolf RPG!");
    assert!(extract_all(&archive[..archive.len() - 4]).is_err());
}
