//! Wolf RPG DXA archive decryptor.
//!
//! DxLib archives (`.wolf`) of versions 5 and 6 are XOR-ciphered with a
//! 12-byte key; version 8 keeps a plaintext header, derives 7-byte keys from
//! CRC32 and compresses its table of contents with Huffman + LZ.

use vstd::bytes::*;
use vstd::prelude::*;
use vstd::slice::slice_subrange;

use crate::detector::WolfVersion;
use crate::wolf::encoding::{decode_shiftjis_lossy, decode_utf8_lossy, utf8_lossy_decoding, shift_jis_decoding};

verus! {

// ---------------------------------------------------------------------------
// Errors and public types
// ---------------------------------------------------------------------------

/// Why an archive could not be decrypted.
#[derive(Debug)]
pub enum DecryptorError {
    /// Not a DXA archive (the signature is not `DX`).
    InvalidSignature,
    /// A DXA version other than 5, 6 and 8.
    UnsupportedVersion(u8),
    /// The header, table of contents or some file data lies past the end.
    HeaderTooShort,
    /// The key cannot be guessed (header fields not null).
    CannotGuessKey,
    /// An entry uses a compression this decoder does not handle.
    UnsupportedCompression,
    /// No known key fits: the archive may use WolfX (v3.5+) encryption.
    PossibleWolfX,
}

/// One file extracted from a DXA archive.
#[derive(Debug, Clone)]
pub struct WolfFile {
    pub name: String,
    pub data: Vec<u8>,
    pub unpacked_size: u64,
}

/// A fully parsed DXA archive.
#[derive(Debug)]
pub struct WolfArchive {
    pub version: u8,
    pub code_page: Option<u32>,
    pub files: Vec<WolfFile>,
}

/// One entry of a DXA table of contents. Fields are 32-bit in v5 and 64-bit
/// in v6/v8; `packed_size` is -1 for an entry stored without LZ compression.
#[derive(Debug, Clone, Copy)]
pub struct DxFileEntry {
    pub name_offset: u64,
    pub attributes: u32,
    pub data_offset: u64,
    pub unpacked_size: u64,
    pub packed_size: i64,
}

pub open spec fn spec_is_dir(e: DxFileEntry) -> bool {
    e.attributes & 0x10 != 0
}

pub open spec fn spec_is_compressed(e: DxFileEntry) -> bool {
    e.packed_size != -1 && e.packed_size as u64 != e.unpacked_size
}

impl DxFileEntry {
    /// The directory attribute bit (0x10).
    pub fn is_dir(&self) -> (r: bool)
        ensures
            r == spec_is_dir(*self),
    {
        self.attributes & 0x10 != 0
    }

    /// Stored with LZ compression: a packed size other than -1 that differs
    /// from the unpacked size.
    pub fn is_compressed(&self) -> (r: bool)
        ensures
            r == spec_is_compressed(*self),
    {
        self.packed_size != -1 && self.packed_size as u64 != self.unpacked_size
    }
}

// ---------------------------------------------------------------------------
// XOR key streams
// ---------------------------------------------------------------------------

/// `data` XOR-ed with `key` repeated, the key starting at position
/// `offset % key.len()`.
pub open spec fn xor_keyed(data: Seq<u8>, offset: int, key: Seq<u8>) -> Seq<u8> {
    Seq::new(data.len(), |i: int| data[i] ^ key[(offset + i) % (key.len() as int)])
}

proof fn lemma_xor_u8_twice(a: u8, b: u8)
    ensures
        (a ^ b) ^ b == a,
{
    assert((a ^ b) ^ b == a) by (bit_vector);
}

/// The key stream is its own inverse: applying it twice at the same offset
/// restores the data.
pub proof fn lemma_xor_keyed_involution(data: Seq<u8>, offset: int, key: Seq<u8>)
    requires
        key.len() > 0,
    ensures
        xor_keyed(xor_keyed(data, offset, key), offset, key) == data,
{
    let once = xor_keyed(data, offset, key);
    let twice = xor_keyed(once, offset, key);
    assert forall|i: int| 0 <= i < data.len() implies twice[i] == data[i] by {
        lemma_xor_u8_twice(data[i], key[(offset + i) % (key.len() as int)]);
    }
    assert(twice =~= data);
}

/// Only the key position matters: offsets a whole key length apart give the
/// same stream.
pub proof fn lemma_xor_keyed_period(data: Seq<u8>, offset: int, key: Seq<u8>)
    requires
        key.len() > 0,
        offset >= 0,
    ensures
        xor_keyed(data, offset + key.len(), key) == xor_keyed(data, offset, key),
{
    let n = key.len() as int;
    assert forall|i: int| 0 <= i < data.len() implies #[trigger] xor_keyed(data, offset + n, key)[i]
        == xor_keyed(data, offset, key)[i] by {
        vstd::arithmetic::div_mod::lemma_mod_add_multiples_vanish(offset + i, n);
        assert(offset + n + i == (offset + i) + n);
    }
    assert(xor_keyed(data, offset + key.len(), key) =~= xor_keyed(data, offset, key));
}

/// XORs `data` in place with `key`, starting at key position `offset % 12`.
/// Applying it twice with the same offset restores the data.
pub fn key_conv(data: &mut [u8], offset: u64, key: &[u8; 12])
    ensures
        final(data)@ == xor_keyed(old(data)@, offset as int, key@),
{
    let ghost orig = data@;
    let mut pos: usize = (offset % 12) as usize;
    let mut i: usize = 0;
    while i < data.len()
        invariant
            key@.len() == 12,
            data@.len() == orig.len(),
            i <= data@.len(),
            pos == (offset as int + i) % 12,
            forall|j: int| 0 <= j < i ==> data@[j] == orig[j] ^ key@[(offset as int + j) % 12],
            forall|j: int| i <= j < data@.len() ==> data@[j] == orig[j],
        decreases data@.len() - i,
    {
        let b = data[i] ^ key[pos];
        data[i] = b;
        pos = pos + 1;
        if pos == 12 {
            pos = 0;
        }
        i = i + 1;
    }
    assert(data@ =~= xor_keyed(orig, offset as int, key@));
}

/// XORs `data` in place with a 7-byte `key`, starting at key position
/// `offset % 7` (the DXA v8 scheme).
pub fn key_conv7(data: &mut [u8], offset: u64, key: &[u8; 7])
    ensures
        final(data)@ == xor_keyed(old(data)@, offset as int, key@),
{
    let ghost orig = data@;
    let mut pos: usize = (offset % 7) as usize;
    let mut i: usize = 0;
    while i < data.len()
        invariant
            key@.len() == 7,
            data@.len() == orig.len(),
            i <= data@.len(),
            pos == (offset as int + i) % 7,
            forall|j: int| 0 <= j < i ==> data@[j] == orig[j] ^ key@[(offset as int + j) % 7],
            forall|j: int| i <= j < data@.len() ==> data@[j] == orig[j],
        decreases data@.len() - i,
    {
        let b = data[i] ^ key[pos];
        data[i] = b;
        pos = pos + 1;
        if pos == 7 {
            pos = 0;
        }
        i = i + 1;
    }
    assert(data@ =~= xor_keyed(orig, offset as int, key@));
}

// ---------------------------------------------------------------------------
// Known 12-byte keys
// ---------------------------------------------------------------------------

/// Number of entries in the known-key table.
pub const WOLF_KEY_COUNT: usize = 5;

/// The known Wolf RPG XOR keys, in the order they are tried: v2.20, v2.01,
/// v2.10, v2.255 and DxLib's constant "no key" key.
pub open spec fn wolf_key_spec(i: int) -> Seq<u8> {
    if i == 0 {
        seq![0x38u8, 0x50, 0x40, 0x28, 0x72, 0x4F, 0x21, 0x70, 0x3B, 0x73, 0x35, 0x38]
    } else if i == 1 {
        seq![0x0Fu8, 0x53, 0xE1, 0x3E, 0x04, 0x37, 0x12, 0x17, 0x60, 0x0F, 0x53, 0xE1]
    } else if i == 2 {
        seq![0x4Cu8, 0xD9, 0x2A, 0xB7, 0x28, 0x9B, 0xAC, 0x07, 0x3E, 0x77, 0xEC, 0x4C]
    } else if i == 3 {
        seq![0xB8u8, 0x58, 0x8C, 0x7B, 0xCA, 0x3D, 0x6F, 0x3D, 0x8C, 0x34, 0xF8, 0x1A]
    } else {
        seq![0x55u8, 0xAA, 0x20, 0x55, 0x55, 0x06, 0x55, 0xAA, 0x55, 0xD5, 0x7C, 0x66]
    }
}

/// The version names of the known keys.
pub open spec fn wolf_key_name_spec(i: int) -> Seq<char> {
    if i == 0 {
        seq!['v', '2', '.', '2', '0']
    } else if i == 1 {
        seq!['v', '2', '.', '0', '1']
    } else if i == 2 {
        seq!['v', '2', '.', '1', '0']
    } else if i == 3 {
        seq!['v', '2', '.', '2', '5', '5']
    } else {
        seq!['n', 'o', '_', 'k', 'e', 'y']
    }
}

/// The known key for a version name, if there is one.
pub open spec fn known_key_of(name: Seq<char>) -> Option<Seq<u8>> {
    if name == wolf_key_name_spec(0) {
        Some(wolf_key_spec(0))
    } else if name == wolf_key_name_spec(1) {
        Some(wolf_key_spec(1))
    } else if name == wolf_key_name_spec(2) {
        Some(wolf_key_spec(2))
    } else if name == wolf_key_name_spec(3) {
        Some(wolf_key_spec(3))
    } else if name == wolf_key_name_spec(4) {
        Some(wolf_key_spec(4))
    } else {
        None
    }
}

proof fn lemma_key_names_distinct(i: int, j: int)
    requires
        0 <= i < 5,
        0 <= j < 5,
        i != j,
    ensures
        wolf_key_name_spec(i) != wolf_key_name_spec(j),
{
    let a = wolf_key_name_spec(i);
    let b = wolf_key_name_spec(j);
    if a.len() == b.len() {
        assert(a[0] != b[0] || a[3] != b[3]);
    }
}

/// The `i`-th known key.
pub fn wolf_key(i: usize) -> (k: [u8; 12])
    requires
        i < WOLF_KEY_COUNT,
    ensures
        k@ == wolf_key_spec(i as int),
{
    broadcast use vstd::array::lemma_array_index;

    let k: [u8; 12] = if i == 0 {
        [0x38, 0x50, 0x40, 0x28, 0x72, 0x4F, 0x21, 0x70, 0x3B, 0x73, 0x35, 0x38]
    } else if i == 1 {
        [0x0F, 0x53, 0xE1, 0x3E, 0x04, 0x37, 0x12, 0x17, 0x60, 0x0F, 0x53, 0xE1]
    } else if i == 2 {
        [0x4C, 0xD9, 0x2A, 0xB7, 0x28, 0x9B, 0xAC, 0x07, 0x3E, 0x77, 0xEC, 0x4C]
    } else if i == 3 {
        [0xB8, 0x58, 0x8C, 0x7B, 0xCA, 0x3D, 0x6F, 0x3D, 0x8C, 0x34, 0xF8, 0x1A]
    } else {
        [0x55, 0xAA, 0x20, 0x55, 0x55, 0x06, 0x55, 0xAA, 0x55, 0xD5, 0x7C, 0x66]
    };
    assert(k@ =~= wolf_key_spec(i as int));
    k
}

/// The version name of the `i`-th known key.
pub fn wolf_key_name(i: usize) -> (name: &'static str)
    requires
        i < WOLF_KEY_COUNT,
    ensures
        name@ == wolf_key_name_spec(i as int),
{
    if i == 0 {
        proof {
            reveal_strlit("v2.20");
        }
        assert("v2.20"@ =~= wolf_key_name_spec(0));
        "v2.20"
    } else if i == 1 {
        proof {
            reveal_strlit("v2.01");
        }
        assert("v2.01"@ =~= wolf_key_name_spec(1));
        "v2.01"
    } else if i == 2 {
        proof {
            reveal_strlit("v2.10");
        }
        assert("v2.10"@ =~= wolf_key_name_spec(2));
        "v2.10"
    } else if i == 3 {
        proof {
            reveal_strlit("v2.255");
        }
        assert("v2.255"@ =~= wolf_key_name_spec(3));
        "v2.255"
    } else {
        proof {
            reveal_strlit("no_key");
        }
        assert("no_key"@ =~= wolf_key_name_spec(4));
        "no_key"
    }
}

/// Character-wise equality of two strings.
pub fn str_equal(a: &str, b: &str) -> (r: bool)
    ensures
        r == (a@ == b@),
{
    let n = a.unicode_len();
    if n != b.unicode_len() {
        return false;
    }
    let mut i: usize = 0;
    while i < n
        invariant
            n == a@.len(),
            n == b@.len(),
            i <= n,
            forall|j: int| 0 <= j < i ==> a@[j] == b@[j],
        decreases n - i,
    {
        if a.get_char(i) != b.get_char(i) {
            return false;
        }
        i = i + 1;
    }
    assert(a@ =~= b@);
    true
}

/// Looks up a known Wolf RPG XOR key by version name. `None` for an unknown
/// or absent name; the caller then tries `guess_key_v6`.
pub fn known_key(version_hint: Option<&str>) -> (r: Option<[u8; 12]>)
    ensures
        version_hint is None ==> r is None,
        version_hint matches Some(h) ==> match known_key_of(h@) {
            None => r is None,
            Some(k) => r matches Some(rk) && rk@ == k,
        },
{
    let hint = match version_hint {
        None => return None,
        Some(h) => h,
    };
    let mut i: usize = 0;
    while i < WOLF_KEY_COUNT
        invariant
            i <= WOLF_KEY_COUNT,
            version_hint == Some(hint),
            forall|j: int| 0 <= j < i ==> hint@ != wolf_key_name_spec(j),
        decreases WOLF_KEY_COUNT - i,
    {
        let name = wolf_key_name(i);
        if str_equal(hint, name) {
            proof {
                assert forall|j: int| 0 <= j < 5 && j != i implies hint@ != wolf_key_name_spec(j) by {
                    lemma_key_names_distinct(i as int, j);
                }
                assert(hint@ == wolf_key_name_spec(i as int));
                assert(known_key_of(hint@) == Some(wolf_key_spec(i as int)));
            }
            return Some(wolf_key(i));
        }
        i = i + 1;
    }
    assert(hint@ != wolf_key_name_spec(0));
    assert(hint@ != wolf_key_name_spec(1));
    assert(hint@ != wolf_key_name_spec(2));
    assert(hint@ != wolf_key_name_spec(3));
    assert(hint@ != wolf_key_name_spec(4));
    assert(known_key_of(hint@) is None);
    None
}

// ---------------------------------------------------------------------------
// Little-endian fields
// ---------------------------------------------------------------------------

/// The little-endian `u32` at `off`.
pub open spec fn u32_le_at(s: Seq<u8>, off: int) -> u32 {
    spec_u32_from_le_bytes(s.subrange(off, off + 4))
}

/// The little-endian `u64` at `off`.
pub open spec fn u64_le_at(s: Seq<u8>, off: int) -> u64 {
    spec_u64_from_le_bytes(s.subrange(off, off + 8))
}

fn read_u32_le_at(buf: &[u8], off: usize) -> (v: u32)
    requires
        off + 4 <= buf.len(),
    ensures
        v == u32_le_at(buf@, off as int),
{
    u32_from_le_bytes(slice_subrange(buf, off, off + 4))
}

fn read_u64_le_at(buf: &[u8], off: usize) -> (v: u64)
    requires
        off + 8 <= buf.len(),
    ensures
        v == u64_le_at(buf@, off as int),
{
    u64_from_le_bytes(slice_subrange(buf, off, off + 8))
}

/// `data[lo..hi]`, copied and decrypted with `key` from key position 4.
fn decrypted_body(data: &[u8], lo: usize, hi: usize, key: &[u8; 12]) -> (buf: Vec<u8>)
    requires
        lo <= hi <= data@.len(),
    ensures
        buf@ == xor_keyed(data@.subrange(lo as int, hi as int), 4, key@),
{
    let mut buf = vstd::slice::slice_to_vec(slice_subrange(data, lo, hi));
    key_conv(&mut buf, 4, key);
    buf
}

// ---------------------------------------------------------------------------
// Signature and headers
// ---------------------------------------------------------------------------

/// The archive version byte when `data` starts with a `DX` signature of a
/// supported version (5, 6 or 8).
pub open spec fn signature_version(data: Seq<u8>) -> Result<u8, DecryptorError> {
    if data.len() < 4 || data[0] != 0x44u8 || data[1] != 0x58u8 {
        Err(DecryptorError::InvalidSignature)
    } else if data[2] != 5 && data[2] != 6 && data[2] != 8 {
        Err(DecryptorError::UnsupportedVersion(data[2]))
    } else {
        Ok(data[2])
    }
}

/// Reads the `DX` signature and returns the archive version (5, 6 or 8).
pub fn read_signature(data: &[u8]) -> (r: Result<u8, DecryptorError>)
    ensures
        r == signature_version(data@),
{
    if data.len() < 4 || data[0] != 0x44u8 || data[1] != 0x58u8 {
        return Err(DecryptorError::InvalidSignature);
    }
    let version = data[2];
    if version != 5 && version != 6 && version != 8 {
        return Err(DecryptorError::UnsupportedVersion(version));
    }
    Ok(version)
}

/// The decrypted header body of a v5 archive (`file[0x04..0x18]`).
pub open spec fn header_body_v5(data: Seq<u8>, key: Seq<u8>) -> Seq<u8> {
    xor_keyed(data.subrange(0x04, 0x18), 4, key)
}

/// The decrypted header body of a v6/v8 archive (`file[0x04..0x2C]`).
pub open spec fn header_body_v6(data: Seq<u8>, key: Seq<u8>) -> Seq<u8> {
    xor_keyed(data.subrange(0x04, 0x2C), 4, key)
}

/// A DXA v5 header (32-bit fields).
#[derive(Debug, Clone, Copy)]
pub struct DxHeaderV5 {
    pub index_size: u32,
    pub base_offset: u32,
    pub index_offset: u32,
    pub file_table_offset: u32,
    pub dir_table_offset: u32,
}

/// A DXA v6/v8 header (64-bit offsets and the code page).
#[derive(Debug, Clone, Copy)]
pub struct DxHeaderV6 {
    pub index_size: u32,
    pub base_offset: i64,
    pub index_offset: i64,
    pub file_table_offset: i64,
    pub dir_table_offset: i64,
    pub code_page: u32,
}

/// Reads and decrypts a DXA v5 header: five little-endian `u32`s at
/// `file[0x04..0x18]`, decrypted from key position 4.
pub fn read_header_v5(data: &[u8], key: &[u8; 12]) -> (r: Result<DxHeaderV5, DecryptorError>)
    ensures
        data@.len() < 0x18 <==> r is Err,
        r matches Err(e) ==> e is HeaderTooShort,
        r matches Ok(h) ==> {
            let b = header_body_v5(data@, key@);
            &&& h.index_size == u32_le_at(b, 0x00)
            &&& h.base_offset == u32_le_at(b, 0x04)
            &&& h.index_offset == u32_le_at(b, 0x08)
            &&& h.file_table_offset == u32_le_at(b, 0x0C)
            &&& h.dir_table_offset == u32_le_at(b, 0x10)
        },
{
    if data.len() < 0x18 {
        return Err(DecryptorError::HeaderTooShort);
    }
    let buf = decrypted_body(data, 0x04, 0x18, key);
    Ok(DxHeaderV5 {
        index_size: read_u32_le_at(&buf, 0x00),
        base_offset: read_u32_le_at(&buf, 0x04),
        index_offset: read_u32_le_at(&buf, 0x08),
        file_table_offset: read_u32_le_at(&buf, 0x0C),
        dir_table_offset: read_u32_le_at(&buf, 0x10),
    })
}

/// Reads and decrypts a DXA v6/v8 header (`file[0x04..0x2C]`, 40 bytes):
/// the index size, four 64-bit offsets and the code page.
pub fn read_header_v6(data: &[u8], key: &[u8; 12]) -> (r: Result<DxHeaderV6, DecryptorError>)
    ensures
        data@.len() < 0x2C <==> r is Err,
        r matches Err(e) ==> e is HeaderTooShort,
        r matches Ok(h) ==> {
            let b = header_body_v6(data@, key@);
            &&& h.index_size == u32_le_at(b, 0x00)
            &&& h.base_offset == u64_le_at(b, 0x04) as i64
            &&& h.index_offset == u64_le_at(b, 0x0C) as i64
            &&& h.file_table_offset == u64_le_at(b, 0x14) as i64
            &&& h.dir_table_offset == u64_le_at(b, 0x1C) as i64
            &&& h.code_page == u32_le_at(b, 0x24)
        },
{
    if data.len() < 0x2C {
        return Err(DecryptorError::HeaderTooShort);
    }
    let buf = decrypted_body(data, 0x04, 0x2C, key);
    Ok(DxHeaderV6 {
        index_size: read_u32_le_at(&buf, 0x00),
        base_offset: read_u64_le_at(&buf, 0x04) as i64,
        index_offset: read_u64_le_at(&buf, 0x0C) as i64,
        file_table_offset: read_u64_le_at(&buf, 0x14) as i64,
        dir_table_offset: read_u64_le_at(&buf, 0x1C) as i64,
        code_page: read_u32_le_at(&buf, 0x24),
    })
}

/// The Wolf RPG generation a DXA code page stands for: 65001 (UTF-8) is
/// v3+, anything else (932 Shift-JIS, 0 legacy) is v2.
pub fn code_page_to_wolf_version(code_page: u32) -> (v: WolfVersion)
    ensures
        v.minor == 0,
        v.major == (if code_page == 65001 { 3u8 } else { 2u8 }),
{
    if code_page == 65001 {
        WolfVersion { major: 3, minor: 0 }
    } else {
        WolfVersion { major: 2, minor: 0 }
    }
}

/// The header fields `(version, base_offset, index_offset, file_table,
/// dir_table, code_page)` of an archive read with `key`.
pub open spec fn header_fields(data: Seq<u8>, key: Seq<u8>) -> Result<
    (u8, u64, u64, u64, u64, Option<u32>),
    DecryptorError,
> {
    match signature_version(data) {
        Err(e) => Err(e),
        Ok(v) => if v == 5 {
            if data.len() < 0x18 {
                Err(DecryptorError::HeaderTooShort)
            } else {
                let b = header_body_v5(data, key);
                Ok(
                    (
                        5u8,
                        u32_le_at(b, 0x04) as u64,
                        u32_le_at(b, 0x08) as u64,
                        u32_le_at(b, 0x0C) as u64,
                        u32_le_at(b, 0x10) as u64,
                        None,
                    ),
                )
            }
        } else {
            if data.len() < 0x2C {
                Err(DecryptorError::HeaderTooShort)
            } else {
                let b = header_body_v6(data, key);
                Ok(
                    (
                        v,
                        u64_le_at(b, 0x04),
                        u64_le_at(b, 0x0C),
                        u64_le_at(b, 0x14),
                        u64_le_at(b, 0x1C),
                        Some(u32_le_at(b, 0x24)),
                    ),
                )
            }
        },
    }
}

proof fn lemma_u64_i64_u64(x: u64)
    ensures
        (x as i64) as u64 == x,
{
    assert((x as i64) as u64 == x) by (bit_vector);
}

/// Reads the header of an archive of any supported version:
/// `(version, base_offset, index_offset, file_table, dir_table, code_page)`;
/// `code_page` is `None` for v5, whose header has no such field.
pub fn read_header(data: &[u8], key: &[u8; 12]) -> (r: Result<
    (u8, u64, u64, u64, u64, Option<u32>),
    DecryptorError,
>)
    ensures
        r == header_fields(data@, key@),
{
    let version = read_signature(data)?;
    if version == 5 {
        let h = read_header_v5(data, key)?;
        Ok(
            (
                5,
                h.base_offset as u64,
                h.index_offset as u64,
                h.file_table_offset as u64,
                h.dir_table_offset as u64,
                None,
            ),
        )
    } else {
        let h = read_header_v6(data, key)?;
        proof {
            let b = header_body_v6(data@, key@);
            lemma_u64_i64_u64(u64_le_at(b, 0x04));
            lemma_u64_i64_u64(u64_le_at(b, 0x0C));
            lemma_u64_i64_u64(u64_le_at(b, 0x14));
            lemma_u64_i64_u64(u64_le_at(b, 0x1C));
        }
        Ok(
            (
                version,
                h.base_offset as u64,
                h.index_offset as u64,
                h.file_table_offset as u64,
                h.dir_table_offset as u64,
                Some(h.code_page),
            ),
        )
    }
}

/// The `index_size` field of the header read with `key`.
pub open spec fn header_index_size(data: Seq<u8>, key: Seq<u8>) -> Result<u64, DecryptorError> {
    match signature_version(data) {
        Err(e) => Err(e),
        Ok(v) => if v <= 5 {
            if data.len() < 0x18 {
                Err(DecryptorError::HeaderTooShort)
            } else {
                Ok(u32_le_at(header_body_v5(data, key), 0) as u64)
            }
        } else {
            if data.len() < 0x2C {
                Err(DecryptorError::HeaderTooShort)
            } else {
                Ok(u32_le_at(header_body_v6(data, key), 0) as u64)
            }
        },
    }
}

/// Reads only the `index_size` field of the decrypted header.
fn read_index_size(data: &[u8], key: &[u8; 12]) -> (r: Result<u64, DecryptorError>)
    ensures
        r == header_index_size(data@, key@),
{
    let version = read_signature(data)?;
    if version <= 5 {
        Ok(read_header_v5(data, key)?.index_size as u64)
    } else {
        Ok(read_header_v6(data, key)?.index_size as u64)
    }
}

// ---------------------------------------------------------------------------
// Key discovery
// ---------------------------------------------------------------------------

/// The key recovered from an encrypted v6/v8 header by the known-plaintext
/// attack on the null high halves of its 64-bit fields:
/// `key = file[0x0C..0x10] | file[0x1C..0x20] | file[0x14..0x18]`, accepted
/// when `file[0x24..0x28]` repeats `key[0..4]`, `file[0x2C..0x30]` repeats
/// `key[8..12]`, the version byte is 5, 6 or 8 and the decrypted index size
/// is under 16 MiB.
pub open spec fn guessed_key(raw: Seq<u8>) -> Option<Seq<u8>> {
    if raw.len() < 0x30 {
        None
    } else {
        let high_base = raw.subrange(0x0C, 0x10);
        let high_idx = raw.subrange(0x14, 0x18);
        let high_ftbl = raw.subrange(0x1C, 0x20);
        let high_dtbl = raw.subrange(0x24, 0x28);
        let post_hdr = raw.subrange(0x2C, 0x30);
        let key = high_base + high_ftbl + high_idx;
        if high_base != high_dtbl || high_idx != post_hdr {
            None
        } else if raw[2] != 5 && raw[2] != 6 && raw[2] != 8 {
            None
        } else if u32_le_at(header_body_v6(raw, key), 0) >= 0x0100_0000 {
            None
        } else {
            Some(key)
        }
    }
}

fn same_4_bytes(data: &[u8], a: usize, b: usize) -> (r: bool)
    requires
        a + 4 <= data.len(),
        b + 4 <= data.len(),
    ensures
        r == (data@.subrange(a as int, a + 4) == data@.subrange(b as int, b + 4)),
{
    let r = data[a] == data[b] && data[a + 1] == data[b + 1] && data[a + 2] == data[b + 2] && data[a
        + 3] == data[b + 3];
    if r {
        assert(data@.subrange(a as int, a + 4) =~= data@.subrange(b as int, b + 4));
    } else {
        let ghost sa = data@.subrange(a as int, a + 4);
        let ghost sb = data@.subrange(b as int, b + 4);
        assert(sa[0] != sb[0] || sa[1] != sb[1] || sa[2] != sb[2] || sa[3] != sb[3]);
    }
    r
}

/// Recovers the XOR key of an encrypted DXA v6/v8 header from its null
/// high bytes (see `guessed_key`); `None` when the header is shorter than
/// 0x30 bytes or the recovered key fails the checks.
pub fn guess_key_v6(raw_header: &[u8]) -> (r: Option<[u8; 12]>)
    ensures
        match guessed_key(raw_header@) {
            None => r is None,
            Some(k) => r matches Some(rk) && rk@ == k,
        },
{
    if raw_header.len() < 0x30 {
        return None;
    }
    if !same_4_bytes(raw_header, 0x0C, 0x24) || !same_4_bytes(raw_header, 0x14, 0x2C) {
        return None;
    }
    let key: [u8; 12] = [
        raw_header[0x0C],
        raw_header[0x0D],
        raw_header[0x0E],
        raw_header[0x0F],
        raw_header[0x1C],
        raw_header[0x1D],
        raw_header[0x1E],
        raw_header[0x1F],
        raw_header[0x14],
        raw_header[0x15],
        raw_header[0x16],
        raw_header[0x17],
    ];
    proof {
        broadcast use vstd::array::lemma_array_index;

        let r = raw_header@;
        assert(key@ =~= r.subrange(0x0C, 0x10) + r.subrange(0x1C, 0x20) + r.subrange(0x14, 0x18));
    }
    let version = raw_header[0x02];
    if version != 5 && version != 6 && version != 8 {
        return None;
    }
    let body = decrypted_body(raw_header, 0x04, 0x2C, &key);
    let index_size = read_u32_le_at(&body, 0);
    if index_size >= 0x0100_0000 {
        return None;
    }
    Some(key)
}

/// A candidate key gives a plausible header: an index size under 16 MiB
/// and, for v6/v8, a code page of 0, 932 or 65001.
pub open spec fn key_is_plausible(data: Seq<u8>, version: u8, key: Seq<u8>) -> bool {
    if version <= 5 {
        data.len() >= 0x18 && u32_le_at(header_body_v5(data, key), 0) < 0x0100_0000
    } else {
        &&& data.len() >= 0x2C
        &&& u32_le_at(header_body_v6(data, key), 0) < 0x0100_0000
        &&& {
            let cp = u32_le_at(header_body_v6(data, key), 0x24);
            cp == 0 || cp == 932 || cp == 65001
        }
    }
}

/// Checks whether a candidate key produces a plausible decrypted header.
fn is_valid_key(data: &[u8], version: u8, key: &[u8; 12]) -> (r: bool)
    ensures
        r == key_is_plausible(data@, version, key@),
{
    if version <= 5 {
        if data.len() < 0x18 {
            return false;
        }
        let buf = decrypted_body(data, 0x04, 0x18, key);
        read_u32_le_at(&buf, 0) < 0x0100_0000
    } else {
        if data.len() < 0x2C {
            return false;
        }
        let buf = decrypted_body(data, 0x04, 0x2C, key);
        let index_size = read_u32_le_at(&buf, 0);
        let code_page = read_u32_le_at(&buf, 0x24);
        index_size < 0x0100_0000 && (code_page == 0 || code_page == 932 || code_page == 65001)
    }
}

/// The first known key, from index `i` on, that gives a plausible header.
pub open spec fn first_plausible_key(data: Seq<u8>, version: u8, i: int) -> Option<Seq<u8>>
    decreases 5 - i,
{
    if i < 0 || i >= 5 {
        None
    } else if key_is_plausible(data, version, wolf_key_spec(i)) {
        Some(wolf_key_spec(i))
    } else {
        first_plausible_key(data, version, i + 1)
    }
}

/// The key `find_key` settles on: the first plausible known key, else the
/// guessed one.
pub open spec fn discovered_key(data: Seq<u8>, version: u8) -> Option<Seq<u8>> {
    match first_plausible_key(data, version, 0) {
        Some(k) => Some(k),
        None => guessed_key(data),
    }
}

/// Tries each known key, then `guess_key_v6`; `PossibleWolfX` when none fits.
fn find_key(data: &[u8], version: u8) -> (r: Result<[u8; 12], DecryptorError>)
    ensures
        match discovered_key(data@, version) {
            Some(k) => r matches Ok(rk) && rk@ == k,
            None => r matches Err(e) && e is PossibleWolfX,
        },
{
    let mut i: usize = 0;
    while i < WOLF_KEY_COUNT
        invariant
            i <= WOLF_KEY_COUNT,
            first_plausible_key(data@, version, 0) == first_plausible_key(data@, version, i as int),
        decreases WOLF_KEY_COUNT - i,
    {
        let key = wolf_key(i);
        if is_valid_key(data, version, &key) {
            return Ok(key);
        }
        i = i + 1;
    }
    match guess_key_v6(data) {
        Some(key) => Ok(key),
        None => Err(DecryptorError::PossibleWolfX),
    }
}

// ---------------------------------------------------------------------------
// Table of contents (v5/v6)
// ---------------------------------------------------------------------------

/// Size of one table-of-contents entry: 0x2C bytes in v5, 0x40 in v6/v8.
pub open spec fn toc_entry_size(version: u8) -> int {
    if version <= 5 {
        0x2C
    } else {
        0x40
    }
}

/// The entry at `base`: v5 has `u32` name offset, attributes, data offset,
/// unpacked size and an `i32` packed size at 0x00, 0x04, 0x20, 0x24, 0x28;
/// v6/v8 has 64-bit fields at 0x00, 0x08 (low half kept), 0x28, 0x30, 0x38.
pub open spec fn toc_entry(toc: Seq<u8>, base: int, version: u8) -> DxFileEntry {
    if version <= 5 {
        DxFileEntry {
            name_offset: u32_le_at(toc, base) as u64,
            attributes: u32_le_at(toc, base + 0x04),
            data_offset: u32_le_at(toc, base + 0x20) as u64,
            unpacked_size: u32_le_at(toc, base + 0x24) as u64,
            packed_size: (u32_le_at(toc, base + 0x28) as i32) as i64,
        }
    } else {
        DxFileEntry {
            name_offset: u64_le_at(toc, base),
            attributes: (u64_le_at(toc, base + 0x08) & 0xFFFF_FFFF) as u32,
            data_offset: u64_le_at(toc, base + 0x28),
            unpacked_size: u64_le_at(toc, base + 0x30),
            packed_size: u64_le_at(toc, base + 0x38) as i64,
        }
    }
}

/// The file (non-directory) entries among the first `n` entries from `ft`,
/// in table order.
pub open spec fn toc_file_entries(toc: Seq<u8>, version: u8, ft: int, n: nat) -> Seq<DxFileEntry>
    decreases n,
{
    if n == 0 {
        Seq::empty()
    } else {
        let prev = toc_file_entries(toc, version, ft, (n - 1) as nat);
        let e = toc_entry(toc, ft + (n - 1) * toc_entry_size(version), version);
        if spec_is_dir(e) {
            prev
        } else {
            prev.push(e)
        }
    }
}

/// The file entries between the file table `ft` and the directory table
/// `dt` (both offsets inside the decrypted table of contents); none when
/// `dt` does not lie after `ft` and within the table.
pub open spec fn index_file_entries(toc: Seq<u8>, version: u8, ft: int, dt: int) -> Seq<DxFileEntry> {
    if dt <= ft || dt > toc.len() {
        Seq::empty()
    } else {
        toc_file_entries(toc, version, ft, ((dt - ft) / toc_entry_size(version)) as nat)
    }
}

/// The key position the table of contents is decrypted from: its archive
/// offset in v5, 0 in v6 and later.
pub open spec fn toc_key_offset(version: u8, index_offset: u64) -> int {
    if version <= 5 {
        (index_offset % 12) as int
    } else {
        0
    }
}

fn read_toc_entry(toc: &[u8], base: usize, version: u8) -> (e: DxFileEntry)
    requires
        base + toc_entry_size(version) <= toc.len(),
    ensures
        e == toc_entry(toc@, base as int, version),
{
    if version <= 5 {
        DxFileEntry {
            name_offset: read_u32_le_at(toc, base) as u64,
            attributes: read_u32_le_at(toc, base + 0x04),
            data_offset: read_u32_le_at(toc, base + 0x20) as u64,
            unpacked_size: read_u32_le_at(toc, base + 0x24) as u64,
            packed_size: (read_u32_le_at(toc, base + 0x28) as i32) as i64,
        }
    } else {
        DxFileEntry {
            name_offset: read_u64_le_at(toc, base),
            attributes: (read_u64_le_at(toc, base + 0x08) & 0xFFFF_FFFF) as u32,
            data_offset: read_u64_le_at(toc, base + 0x28),
            unpacked_size: read_u64_le_at(toc, base + 0x30),
            packed_size: read_u64_le_at(toc, base + 0x38) as i64,
        }
    }
}

proof fn lemma_entry_fits(ft: int, dt: int, es: int, i: int)
    requires
        es > 0,
        ft < dt,
        0 <= i < (dt - ft) / es,
    ensures
        ft + (i + 1) * es <= dt,
        (i + 1) * es == i * es + es,
{
    vstd::arithmetic::div_mod::lemma_fundamental_div_mod(dt - ft, es);
    vstd::arithmetic::mul::lemma_mul_inequality(i + 1, (dt - ft) / es, es);
    vstd::arithmetic::mul::lemma_mul_is_distributive_add_other_way(es, i, 1);
    assert(((dt - ft) / es) * es <= dt - ft) by (nonlinear_arith)
        requires
            es > 0,
            dt - ft == es * ((dt - ft) / es) + (dt - ft) % es,
            0 <= (dt - ft) % es,
    ;
}

/// Decrypts the table of contents in place and lists its file entries
/// (directories are left out). Entries lie between the file table
/// `file_table` and the directory table `dir_table`, both offsets inside
/// the table of contents.
pub fn parse_index(
    index_data: &mut [u8],
    key: &[u8; 12],
    version: u8,
    index_offset: u64,
    file_table: u64,
    dir_table: u64,
) -> (r: Result<Vec<DxFileEntry>, DecryptorError>)
    ensures
        final(index_data)@ == xor_keyed(old(index_data)@, toc_key_offset(version, index_offset), key@),
        r matches Ok(v) && v@ == index_file_entries(
            final(index_data)@,
            version,
            file_table as int,
            dir_table as int,
        ),
{
    let toc_key_offset: u64 = if version <= 5 {
        index_offset % 12
    } else {
        0
    };
    key_conv(index_data, toc_key_offset, key);
    let entry_size: usize = if version <= 5 {
        0x2C
    } else {
        0x40
    };
    if dir_table <= file_table || dir_table > index_data.len() as u64 {
        return Ok(Vec::new());
    }
    let ft = file_table as usize;
    let dt = dir_table as usize;
    let n_entries = (dt - ft) / entry_size;
    let mut entries: Vec<DxFileEntry> = Vec::new();
    let mut i: usize = 0;
    let mut base: usize = ft;
    while i < n_entries
        invariant
            entry_size == toc_entry_size(version),
            ft < dt <= index_data@.len(),
            n_entries == (dt - ft) / (entry_size as int),
            i <= n_entries,
            base == ft + i * entry_size,
            entries@ == toc_file_entries(index_data@, version, ft as int, i as nat),
        decreases n_entries - i,
    {
        proof {
            lemma_entry_fits(ft as int, dt as int, entry_size as int, i as int);
        }
        let entry = read_toc_entry(index_data, base, version);
        if !entry.is_dir() {
            entries.push(entry);
        }
        i = i + 1;
        base = base + entry_size;
    }
    Ok(entries)
}

// ---------------------------------------------------------------------------
// File names
// ---------------------------------------------------------------------------

/// The end of the NUL-terminated string starting at `start`: the index of
/// the first zero byte from `start` on, or the end of `s`.
pub open spec fn cstr_end(s: Seq<u8>, start: int) -> int
    decreases s.len() - start,
{
    if start >= s.len() {
        s.len() as int
    } else if s[start] == 0 {
        start
    } else {
        cstr_end(s, start + 1)
    }
}

proof fn lemma_cstr_end_bounds(s: Seq<u8>, start: int)
    requires
        0 <= start <= s.len(),
    ensures
        start <= cstr_end(s, start) <= s.len(),
        forall|k: int| start <= k < cstr_end(s, start) ==> s[k] != 0,
        cstr_end(s, start) < s.len() ==> s[cstr_end(s, start)] == 0,
    decreases s.len() - start,
{
    if start < s.len() && s[start] != 0 {
        lemma_cstr_end_bounds(s, start + 1);
    }
}

/// The index of the first zero byte of `s` at or after `start`, or its length.
fn find_cstr_end(s: &[u8], start: usize) -> (end: usize)
    requires
        start <= s.len(),
    ensures
        end == cstr_end(s@, start as int),
{
    let mut i = start;
    while i < s.len() && s[i] != 0
        invariant
            start <= i <= s.len(),
            cstr_end(s@, start as int) == cstr_end(s@, i as int),
        decreases s.len() - i,
    {
        i = i + 1;
    }
    i
}

/// A file name decoded in the archive's code page: lossy UTF-8 for 65001,
/// lossy Shift-JIS otherwise.
pub open spec fn decoded_name(raw: Seq<u8>, code_page: u32) -> Seq<char> {
    if code_page == 65001 {
        utf8_lossy_decoding(raw)
    } else {
        shift_jis_decoding(raw).0
    }
}

fn decode_name(raw: &[u8], code_page: u32) -> (name: String)
    ensures
        name@ == decoded_name(raw@, code_page),
{
    if code_page == 65001 {
        decode_utf8_lossy(raw)
    } else {
        decode_shiftjis_lossy(raw)
    }
}

// ---------------------------------------------------------------------------
// Whole-archive extraction (v5/v6)
// ---------------------------------------------------------------------------

/// What an extracted file holds.
pub struct WolfFileModel {
    pub name: Seq<char>,
    pub data: Seq<u8>,
    pub unpacked_size: u64,
}

pub open spec fn wolf_file_model(f: WolfFile) -> WolfFileModel {
    WolfFileModel { name: f.name@, data: f.data@, unpacked_size: f.unpacked_size }
}

pub open spec fn wolf_files_model(fs: Seq<WolfFile>) -> Seq<WolfFileModel> {
    fs.map_values(|f: WolfFile| wolf_file_model(f))
}

/// One v5/v6 entry extracted: its bytes `data[base + data_offset ..][..unpacked_size]`
/// decrypted from key position `unpacked_size` (Wolf RPG keys file data by
/// size, not by position), its name the NUL-terminated string at
/// `name_offset` in the table of contents. Compressed entries are not
/// supported; data past the end, or a name offset past the table, is
/// `HeaderTooShort`.
pub open spec fn extract_entry(
    data: Seq<u8>,
    toc: Seq<u8>,
    e: DxFileEntry,
    base: int,
    key: Seq<u8>,
    code_page: u32,
) -> Result<WolfFileModel, DecryptorError> {
    let start = base + e.data_offset;
    let len = e.unpacked_size as int;
    if spec_is_compressed(e) {
        Err(DecryptorError::UnsupportedCompression)
    } else if start + len > data.len() {
        Err(DecryptorError::HeaderTooShort)
    } else if e.name_offset > toc.len() {
        Err(DecryptorError::HeaderTooShort)
    } else {
        let ns = e.name_offset as int;
        Ok(
            WolfFileModel {
                name: decoded_name(toc.subrange(ns, cstr_end(toc, ns)), code_page),
                data: xor_keyed(data.subrange(start, start + len), len, key),
                unpacked_size: e.unpacked_size,
            },
        )
    }
}

/// The entries extracted in table order; the first failing entry's error.
pub open spec fn extract_entries(
    data: Seq<u8>,
    toc: Seq<u8>,
    entries: Seq<DxFileEntry>,
    base: int,
    key: Seq<u8>,
    code_page: u32,
) -> Result<Seq<WolfFileModel>, DecryptorError>
    decreases entries.len(),
{
    if entries.len() == 0 {
        Ok(Seq::empty())
    } else {
        match extract_entries(data, toc, entries.drop_last(), base, key, code_page) {
            Err(e) => Err(e),
            Ok(prev) => match extract_entry(data, toc, entries.last(), base, key, code_page) {
                Err(e) => Err(e),
                Ok(f) => Ok(prev.push(f)),
            },
        }
    }
}

/// The key that decrypts the table of contents and file data: the header
/// key, except that an all-zero header key (Wolf v2.255) means the real key
/// is stored in plaintext at `file[base_offset..][..12]`.
pub open spec fn data_key_for(data: Seq<u8>, header_key: Seq<u8>, base: int) -> Seq<u8> {
    if header_key == Seq::new(12, |i: int| 0u8) && data.len() >= base + 12 {
        data.subrange(base, base + 12)
    } else {
        header_key
    }
}

/// The contents of a v5/v6 archive: version, code page and files.
pub open spec fn archive_v56(data: Seq<u8>, version: u8) -> Result<
    (u8, Option<u32>, Seq<WolfFileModel>),
    DecryptorError,
> {
    match discovered_key(data, version) {
        None => Err(DecryptorError::PossibleWolfX),
        Some(hk) => match header_fields(data, hk) {
            Err(e) => Err(e),
            Ok((_, base, idx, ft, dt, cp)) => match header_index_size(data, hk) {
                Err(e) => Err(e),
                Ok(isz) => if idx + isz > data.len() {
                    Err(DecryptorError::HeaderTooShort)
                } else {
                    let dk = data_key_for(data, hk, base as int);
                    let toc = xor_keyed(
                        data.subrange(idx as int, idx + isz),
                        toc_key_offset(version, idx),
                        dk,
                    );
                    let entries = index_file_entries(toc, version, ft as int, dt as int);
                    let code_page = match cp {
                        Some(c) => c,
                        None => 932u32,
                    };
                    match extract_entries(data, toc, entries, base as int, dk, code_page) {
                        Err(e) => Err(e),
                        Ok(files) => Ok((version, cp, files)),
                    }
                },
            },
        },
    }
}

fn key_from_slice(data: &[u8], start: usize) -> (k: [u8; 12])
    requires
        start + 12 <= data.len(),
    ensures
        k@ == data@.subrange(start as int, start + 12),
{
    let k: [u8; 12] = [
        data[start],
        data[start + 1],
        data[start + 2],
        data[start + 3],
        data[start + 4],
        data[start + 5],
        data[start + 6],
        data[start + 7],
        data[start + 8],
        data[start + 9],
        data[start + 10],
        data[start + 11],
    ];
    proof {
        broadcast use vstd::array::lemma_array_index;

        assert(k@ =~= data@.subrange(start as int, start + 12));
    }
    k
}

fn is_zero_key(k: &[u8; 12]) -> (r: bool)
    ensures
        r == (k@ == Seq::new(12, |i: int| 0u8)),
{
    let mut i: usize = 0;
    while i < 12
        invariant
            k@.len() == 12,
            i <= 12,
            forall|j: int| 0 <= j < i ==> k@[j] == 0,
        decreases 12 - i,
    {
        if k[i] != 0 {
            assert(k@[i as int] != Seq::new(12, |i: int| 0u8)[i as int]);
            return false;
        }
        i = i + 1;
    }
    assert(k@ =~= Seq::new(12, |i: int| 0u8));
    true
}

proof fn lemma_extract_entries_err_extends(
    data: Seq<u8>,
    toc: Seq<u8>,
    entries: Seq<DxFileEntry>,
    k: int,
    base: int,
    key: Seq<u8>,
    code_page: u32,
)
    requires
        0 <= k <= entries.len(),
        extract_entries(data, toc, entries.take(k), base, key, code_page) is Err,
    ensures
        extract_entries(data, toc, entries, base, key, code_page) == extract_entries(
            data,
            toc,
            entries.take(k),
            base,
            key,
            code_page,
        ),
    decreases entries.len() - k,
{
    if k < entries.len() {
        assert(entries.take(k + 1).drop_last() =~= entries.take(k));
        lemma_extract_entries_err_extends(data, toc, entries, k + 1, base, key, code_page);
    } else {
        assert(entries.take(k) =~= entries);
    }
}

fn extract_one(
    data: &[u8],
    toc: &[u8],
    entry: &DxFileEntry,
    base_offset: u64,
    key: &[u8; 12],
    code_page: u32,
) -> (r: Result<WolfFile, DecryptorError>)
    ensures
        match extract_entry(data@, toc@, *entry, base_offset as int, key@, code_page) {
            Err(e) => r == Err::<WolfFile, DecryptorError>(e),
            Ok(m) => r matches Ok(f) && wolf_file_model(f) == m,
        },
{
    if entry.is_compressed() {
        return Err(DecryptorError::UnsupportedCompression);
    }
    let dlen = data.len() as u64;
    if base_offset > dlen || entry.data_offset > dlen - base_offset {
        return Err(DecryptorError::HeaderTooShort);
    }
    let start = base_offset + entry.data_offset;
    if entry.unpacked_size > dlen - start {
        return Err(DecryptorError::HeaderTooShort);
    }
    let end = start + entry.unpacked_size;
    if entry.name_offset > toc.len() as u64 {
        return Err(DecryptorError::HeaderTooShort);
    }
    let mut file_data = vstd::slice::slice_to_vec(slice_subrange(data, start as usize, end as usize));
    key_conv(&mut file_data, entry.unpacked_size, key);
    let ns = entry.name_offset as usize;
    let ne = find_cstr_end(toc, ns);
    proof {
        lemma_cstr_end_bounds(toc@, ns as int);
    }
    let name = decode_name(slice_subrange(toc, ns, ne), code_page);
    Ok(WolfFile { name, data: file_data, unpacked_size: entry.unpacked_size })
}

fn extract_all_v56(data: &[u8], version: u8) -> (r: Result<WolfArchive, DecryptorError>)
    requires
        version == 5 || version == 6,
    ensures
        match archive_v56(data@, version) {
            Err(e) => r matches Err(re) && re == e,
            Ok((v, cp, files)) => r matches Ok(a) && a.version == v && a.code_page == cp
                && wolf_files_model(a.files@) == files,
        },
{
    let header_key = find_key(data, version)?;
    let (_, base_offset, index_offset, file_table, dir_table, code_page) = read_header(
        data,
        &header_key,
    )?;
    let index_size = read_index_size(data, &header_key)?;
    let data_key: [u8; 12] = if is_zero_key(&header_key) && base_offset <= data.len() as u64
        && data.len() as u64 - base_offset >= 12 {
        key_from_slice(data, base_offset as usize)
    } else {
        header_key
    };
    assert(data_key@ == data_key_for(data@, header_key@, base_offset as int));
    if index_offset > data.len() as u64 || index_size > data.len() as u64 - index_offset {
        return Err(DecryptorError::HeaderTooShort);
    }
    let toc_end = index_offset + index_size;
    let mut toc_data = vstd::slice::slice_to_vec(
        slice_subrange(data, index_offset as usize, toc_end as usize),
    );
    let entries = parse_index(
        &mut toc_data,
        &data_key,
        version,
        index_offset,
        file_table,
        dir_table,
    )?;
    let code_page_val: u32 = match code_page {
        Some(c) => c,
        None => 932,
    };
    let ghost toc = toc_data@;
    let mut files: Vec<WolfFile> = Vec::new();
    assert(entries@.take(0) =~= Seq::<DxFileEntry>::empty());
    assert(archive_v56(data@, version) == match extract_entries(
        data@,
        toc,
        entries@,
        base_offset as int,
        data_key@,
        code_page_val,
    ) {
        Err(e) => Err(e),
        Ok(fs) => Ok((version, code_page, fs)),
    });
    assert(wolf_files_model(files@) =~= Seq::<WolfFileModel>::empty());
    let mut i: usize = 0;
    while i < entries.len()
        invariant
            i <= entries@.len(),
            toc_data@ == toc,
            archive_v56(data@, version) == match extract_entries(
                data@,
                toc,
                entries@,
                base_offset as int,
                data_key@,
                code_page_val,
            ) {
                Err(e) => Err(e),
                Ok(fs) => Ok((version, code_page, fs)),
            },
            extract_entries(data@, toc, entries@.take(i as int), base_offset as int, data_key@, code_page_val)
                == Ok::<Seq<WolfFileModel>, DecryptorError>(wolf_files_model(files@)),
        decreases entries.len() - i,
    {
        assert(entries@.take(i + 1).drop_last() =~= entries@.take(i as int));
        assert(entries@.take(i + 1).last() == entries@[i as int]);
        let f = match extract_one(data, &toc_data, &entries[i], base_offset, &data_key, code_page_val) {
            Ok(f) => f,
            Err(e) => {
                proof {
                    lemma_extract_entries_err_extends(
                        data@,
                        toc,
                        entries@,
                        i + 1,
                        base_offset as int,
                        data_key@,
                        code_page_val,
                    );
                }
                return Err(e);
            },
        };
        let ghost old_files = files@;
        let ghost fm = wolf_file_model(f);
        files.push(f);
        assert(files@ == old_files.push(f));
        assert(wolf_files_model(files@) =~= wolf_files_model(old_files).push(fm));
        i = i + 1;
    }
    assert(entries@.take(entries@.len() as int) =~= entries@);
    Ok(WolfArchive { version, code_page, files })
}

// ---------------------------------------------------------------------------
// DXA v8: DxLib LZ decoder
// ---------------------------------------------------------------------------

/// One token of a DxLib LZ stream: a literal byte, or a copy of `len` bytes
/// from `dist` bytes back in the output.
#[derive(Debug, Clone, Copy)]
pub enum LzToken {
    Literal(u8),
    Copy { len: usize, dist: usize },
}

/// The token at `sp`, with `remaining` stream bytes left, and the position
/// and remaining count after it; `None` when the stream ends or is
/// malformed there (decoding stops).
///
/// A byte other than `keycode` is a literal; `keycode keycode` is a literal
/// `keycode`; `keycode c` starts a copy, with `c` (less one when above
/// `keycode`) holding the length in its upper five bits (bit 2: one more
/// length byte follows, times 32) and in its low two bits the size (1, 2
/// or 3 bytes, little-endian) of the distance, which is stored less one.
/// Lengths are stored less 4.
pub open spec fn lz_token(data: Seq<u8>, keycode: u8, sp: int, remaining: int) -> Option<
    (LzToken, int, int),
> {
    if sp < 0 || sp >= data.len() {
        None
    } else if data[sp] != keycode {
        Some((LzToken::Literal(data[sp]), sp + 1, remaining - 1))
    } else if sp + 1 >= data.len() || remaining < 2 {
        None
    } else if data[sp + 1] == keycode {
        Some((LzToken::Literal(keycode), sp + 2, remaining - 2))
    } else {
        let code: int = if data[sp + 1] > keycode {
            data[sp + 1] - 1
        } else {
            data[sp + 1] as int
        };
        let sp2 = sp + 2;
        let r2 = remaining - 2;
        let extended = (code / 4) % 2 == 1;
        if extended && (sp2 >= data.len() || r2 == 0) {
            None
        } else {
            let len = if extended {
                code / 8 + data[sp2] * 32 + 4
            } else {
                code / 8 + 4
            };
            let sp3 = if extended {
                sp2 + 1
            } else {
                sp2
            };
            let r3 = if extended {
                r2 - 1
            } else {
                r2
            };
            let width = code % 4;
            if width == 0 {
                if sp3 >= data.len() || r3 == 0 {
                    None
                } else {
                    Some((LzToken::Copy { len: len as usize, dist: (data[sp3] + 1) as usize }, sp3 + 1, r3 - 1))
                }
            } else if width == 1 {
                if sp3 + 1 >= data.len() || r3 < 2 {
                    None
                } else {
                    Some(
                        (
                            LzToken::Copy {
                                len: len as usize,
                                dist: (data[sp3] + data[sp3 + 1] * 256 + 1) as usize,
                            },
                            sp3 + 2,
                            r3 - 2,
                        ),
                    )
                }
            } else if width == 2 {
                if sp3 + 2 >= data.len() || r3 < 3 {
                    None
                } else {
                    Some(
                        (
                            LzToken::Copy {
                                len: len as usize,
                                dist: (data[sp3] + data[sp3 + 1] * 256 + data[sp3 + 2] * 65536
                                    + 1) as usize,
                            },
                            sp3 + 3,
                            r3 - 3,
                        ),
                    )
                }
            } else {
                None
            }
        }
    }
}

/// `out` followed by a copy of `len` bytes starting `dist` bytes back; when
/// the copy overlaps what it writes, the pattern repeats with period `dist`.
pub open spec fn copy_back(out: Seq<u8>, dist: int, len: int) -> Seq<u8> {
    out + Seq::new(len as nat, |k: int| out[out.len() - dist + k % dist])
}

/// Decoding from `sp` on, with `remaining` stream bytes, onto `out`, until
/// the stream is used up, `dest` bytes are written, or a token is malformed
/// or reaches outside the output.
pub open spec fn lz_run(
    data: Seq<u8>,
    keycode: u8,
    sp: int,
    remaining: int,
    out: Seq<u8>,
    dest: int,
) -> Seq<u8>
    decreases remaining,
{
    if remaining <= 0 || out.len() >= dest {
        out
    } else {
        match lz_token(data, keycode, sp, remaining) {
            None => out,
            Some((LzToken::Literal(b), sp2, r2)) => if r2 < remaining {
                lz_run(data, keycode, sp2, r2, out.push(b), dest)
            } else {
                out
            },
            Some((LzToken::Copy { len, dist }, sp2, r2)) => if dist > out.len() || out.len()
                + len > dest || r2 >= remaining {
                out
            } else {
                lz_run(data, keycode, sp2, r2, copy_back(out, dist as int, len as int), dest)
            },
        }
    }
}

/// What DxLib's LZ decoder gives for `data`: a 9-byte header (destination
/// size `u32`, stream size `u32` counting the header, key code byte), then
/// the tokens; the output has the destination size, zero-filled past where
/// decoding stopped. `None` when the header is short or the stream size is
/// under 9.
pub open spec fn lz_decoded(data: Seq<u8>) -> Option<Seq<u8>> {
    if data.len() < 9 {
        None
    } else if u32_le_at(data, 4) < 9 {
        None
    } else {
        let dest = u32_le_at(data, 0) as int;
        let out = lz_run(data, data[8], 9, u32_le_at(data, 4) - 9, Seq::empty(), dest);
        Some(out + Seq::new((dest - out.len()) as nat, |i: int| 0u8))
    }
}

proof fn lemma_lz_token_progress(data: Seq<u8>, keycode: u8, sp: int, remaining: int)
    requires
        0 <= sp,
        remaining > 0,
    ensures
        lz_token(data, keycode, sp, remaining) matches Some((_, sp2, r2)) ==> sp < sp2 <= data.len()
            && 0 <= r2 < remaining,
{
}

fn lz_read_token(data: &[u8], keycode: u8, sp: usize, remaining: usize) -> (r: Option<
    (LzToken, usize, usize),
>)
    requires
        remaining > 0,
    ensures
        lz_token(data@, keycode, sp as int, remaining as int) is None <==> r is None,
        r matches Some((t, sp2, r2)) ==> lz_token(data@, keycode, sp as int, remaining as int) == Some(
            (t, sp2 as int, r2 as int),
        ),
{
    proof {
        lemma_lz_token_progress(data@, keycode, sp as int, remaining as int);
    }
    if sp >= data.len() {
        return None;
    }
    let byte = data[sp];
    if byte != keycode {
        return Some((LzToken::Literal(byte), sp + 1, remaining - 1));
    }
    if sp + 1 >= data.len() || remaining < 2 {
        return None;
    }
    let next = data[sp + 1];
    if next == keycode {
        return Some((LzToken::Literal(keycode), sp + 2, remaining - 2));
    }
    let code: usize = if next > keycode {
        (next - 1) as usize
    } else {
        next as usize
    };
    let mut sp2 = sp + 2;
    let mut r2 = remaining - 2;
    let extended = (code / 4) % 2 == 1;
    let mut len: usize = code / 8;
    if extended {
        if sp2 >= data.len() || r2 == 0 {
            return None;
        }
        len = len + (data[sp2] as usize) * 32;
        sp2 = sp2 + 1;
        r2 = r2 - 1;
    }
    len = len + 4;
    let width = code % 4;
    if width == 0 {
        if sp2 >= data.len() || r2 == 0 {
            return None;
        }
        let dist = data[sp2] as usize + 1;
        Some((LzToken::Copy { len, dist }, sp2 + 1, r2 - 1))
    } else if width == 1 {
        if data.len() - sp2 < 2 || r2 < 2 {
            return None;
        }
        let dist = data[sp2] as usize + (data[sp2 + 1] as usize) * 256 + 1;
        Some((LzToken::Copy { len, dist }, sp2 + 2, r2 - 2))
    } else if width == 2 {
        if data.len() - sp2 < 3 || r2 < 3 {
            return None;
        }
        let dist = data[sp2] as usize + (data[sp2 + 1] as usize) * 256 + (data[sp2 + 2] as usize)
            * 65536 + 1;
        Some((LzToken::Copy { len, dist }, sp2 + 3, r2 - 3))
    } else {
        None
    }
}

/// Decodes DxLib LZ-compressed data (see `lz_decoded`).
fn lz_decode(data: &[u8]) -> (r: Option<Vec<u8>>)
    ensures
        match lz_decoded(data@) {
            None => r is None,
            Some(o) => r matches Some(v) && v@ == o,
        },
{
    if data.len() < 9 {
        return None;
    }
    let dest_size = read_u32_le_at(data, 0) as usize;
    let src_field = read_u32_le_at(data, 4);
    if src_field < 9 {
        return None;
    }
    let keycode = data[8];
    let ghost whole = lz_run(data@, keycode, 9, src_field - 9, Seq::empty(), dest_size as int);
    let mut out: Vec<u8> = Vec::new();
    let mut sp: usize = 9;
    let mut remaining: usize = (src_field - 9) as usize;
    let mut done = false;
    while !done && remaining > 0 && out.len() < dest_size
        invariant
            dest_size <= u32::MAX,
            out@.len() <= dest_size,
            done ==> whole == out@,
            !done ==> whole == lz_run(data@, keycode, sp as int, remaining as int, out@, dest_size as int),
        decreases remaining + (if done { 0int } else { 1int }),
    {
        proof {
            lemma_lz_token_progress(data@, keycode, sp as int, remaining as int);
        }
        match lz_read_token(data, keycode, sp, remaining) {
            None => {
                done = true;
            },
            Some((LzToken::Literal(b), sp2, r2)) => {
                assert(lz_token(data@, keycode, sp as int, remaining as int) == Some(
                    (LzToken::Literal(b), sp2 as int, r2 as int),
                ));
                assert(lz_run(data@, keycode, sp as int, remaining as int, out@, dest_size as int)
                    == lz_run(data@, keycode, sp2 as int, r2 as int, out@.push(b), dest_size as int));
                out.push(b);
                sp = sp2;
                remaining = r2;
            },
            Some((LzToken::Copy { len, dist }, sp2, r2)) => {
                if dist > out.len() || len > dest_size - out.len() {
                    done = true;
                } else {
                    let ghost before = out@;
                    let n = out.len();
                    let mut k: usize = 0;
                    while k < len
                        invariant
                            n == before.len(),
                            0 < dist <= n,
                            k <= len,
                            out@.len() == n + k,
                            out@ =~= before + Seq::new(k as nat, |j: int| before[n - dist + j % (dist as int)]),
                        decreases len - k,
                    {
                        let b = out[n - dist + k % dist];
                        out.push(b);
                        k = k + 1;
                    }
                    assert(out@ =~= copy_back(before, dist as int, len as int));
                    assert(lz_run(data@, keycode, sp as int, remaining as int, before, dest_size as int)
                        == lz_run(data@, keycode, sp2 as int, r2 as int, out@, dest_size as int));
                    sp = sp2;
                    remaining = r2;
                }
            },
        }
    }
    let ghost decoded = out@;
    assert(decoded == whole) by {
        if !done {
            assert(whole == lz_run(data@, keycode, sp as int, remaining as int, out@, dest_size as int));
        }
    }
    while out.len() < dest_size
        invariant
            decoded.len() <= out@.len() <= dest_size,
            out@ =~= decoded + Seq::new((out@.len() - decoded.len()) as nat, |i: int| 0u8),
        decreases dest_size - out.len(),
    {
        out.push(0);
    }
    Some(out)
}

// ---------------------------------------------------------------------------
// DXA v8: CRC32-derived 7-byte keys
// ---------------------------------------------------------------------------

/// `n` rounds of the reflected CRC-32 shift (polynomial 0xEDB88320).
pub open spec fn crc_shift(c: u32, n: nat) -> u32
    decreases n,
{
    if n == 0 {
        c
    } else {
        crc_shift(
            if c & 1 != 0 {
                (c >> 1) ^ 0xEDB8_8320u32
            } else {
                c >> 1
            },
            (n - 1) as nat,
        )
    }
}

/// The CRC-32 register after `data`, starting from all ones.
pub open spec fn crc_register(data: Seq<u8>) -> u32
    decreases data.len(),
{
    if data.len() == 0 {
        0xFFFF_FFFFu32
    } else {
        crc_shift(crc_register(data.drop_last()) ^ (data.last() as u32), 8)
    }
}

/// The standard CRC-32 (IEEE, reflected) of `data`.
pub open spec fn crc32_of(data: Seq<u8>) -> u32 {
    !crc_register(data)
}

/// Standard CRC-32 (polynomial 0xEDB88320).
pub fn crc32(data: &[u8]) -> (c: u32)
    ensures
        c == crc32_of(data@),
{
    let mut crc: u32 = 0xFFFF_FFFF;
    let mut i: usize = 0;
    while i < data.len()
        invariant
            i <= data@.len(),
            crc == crc_register(data@.take(i as int)),
        decreases data@.len() - i,
    {
        assert(data@.take(i + 1).drop_last() =~= data@.take(i as int));
        let start = crc ^ (data[i] as u32);
        crc = start;
        let mut j: u32 = 0;
        while j < 8
            invariant
                j <= 8,
                crc_shift(start, 8) == crc_shift(crc, (8 - j) as nat),
            decreases 8 - j,
        {
            crc = if crc & 1 != 0 {
                (crc >> 1) ^ 0xEDB8_8320u32
            } else {
                crc >> 1
            };
            j = j + 1;
        }
        i = i + 1;
    }
    assert(data@.take(data@.len() as int) =~= data@);
    !crc
}

/// The bytes of `s` at even positions.
pub open spec fn even_bytes(s: Seq<u8>) -> Seq<u8> {
    Seq::new(((s.len() + 1) / 2) as nat, |i: int| s[2 * i])
}

/// The bytes of `s` at odd positions.
pub open spec fn odd_bytes(s: Seq<u8>) -> Seq<u8> {
    Seq::new((s.len() / 2) as nat, |i: int| s[2 * i + 1])
}

/// DxLib `KeyCreate`: the first four little-endian bytes of the CRC-32 of
/// the even-position bytes, then the first three of that of the odd ones.
pub open spec fn key7_of(source: Seq<u8>) -> Seq<u8> {
    spec_u32_to_le_bytes(crc32_of(even_bytes(source))).take(4) + spec_u32_to_le_bytes(
        crc32_of(odd_bytes(source)),
    ).take(3)
}

fn every_other(s: &[u8], first: usize) -> (out: Vec<u8>)
    requires
        first <= 1,
    ensures
        first == 0 ==> out@ == even_bytes(s@),
        first == 1 ==> out@ == odd_bytes(s@),
{
    let count: usize = if first == 0 {
        s.len() / 2 + s.len() % 2
    } else {
        s.len() / 2
    };
    let mut out: Vec<u8> = Vec::new();
    let mut k: usize = 0;
    while k < count
        invariant
            first <= 1,
            count == (if first == 0 { (s@.len() + 1) / 2 } else { s@.len() / 2 }),
            k <= count,
            out@.len() == k,
            forall|j: int| 0 <= j < k ==> out@[j] == s@[2 * j + first],
        decreases count - k,
    {
        assert(2 * k + first < s.len());
        out.push(s[2 * k + first]);
        k = k + 1;
    }
    if first == 0 {
        assert(out@ =~= even_bytes(s@));
    } else {
        assert(out@ =~= odd_bytes(s@));
    }
    out
}

/// DxLib `KeyCreate`: derives a 7-byte XOR key from `source` (see `key7_of`).
pub fn key_create_7(source: &[u8]) -> (k: [u8; 7])
    ensures
        k@ == key7_of(source@),
{
    let even = every_other(source, 0);
    let odd = every_other(source, 1);
    let c0 = u32_to_le_bytes(crc32(&even));
    let c1 = u32_to_le_bytes(crc32(&odd));
    proof {
        lemma_auto_spec_u32_to_from_le_bytes();
    }
    let k: [u8; 7] = [c0[0], c0[1], c0[2], c0[3], c1[0], c1[1], c1[2]];
    proof {
        broadcast use vstd::array::lemma_array_index;

        assert(k@ =~= key7_of(source@));
    }
    k
}

// ---------------------------------------------------------------------------
// DXA v8: DxLib Huffman decoder
// ---------------------------------------------------------------------------

/// Bit `p` of `data` read most-significant first; 0 past the end.
pub open spec fn msb_bit(data: Seq<u8>, p: int) -> nat {
    if 0 <= p && p / 8 < data.len() {
        ((data[p / 8] >> ((7 - p % 8) as u8)) & 1u8) as nat
    } else {
        0
    }
}

/// The `n` bits from bit `p` on, most significant first, as a number.
pub open spec fn msb_value(data: Seq<u8>, p: int, n: nat) -> nat
    decreases n,
{
    if n == 0 {
        0
    } else {
        msb_value(data, p, (n - 1) as nat) * 2 + msb_bit(data, p + n - 1)
    }
}

/// The bit position after reading `n` bits from `p`: the reader does not
/// move past the end of the data.
pub open spec fn msb_after(data: Seq<u8>, p: int, n: nat) -> int {
    if p + n <= 8 * data.len() {
        p + n
    } else if p <= 8 * data.len() {
        8 * data.len() as int
    } else {
        p
    }
}

proof fn lemma_msb_value_bound(data: Seq<u8>, p: int, n: nat)
    ensures
        msb_value(data, p, n) < vstd::arithmetic::power2::pow2(n),
    decreases n,
{
    vstd::arithmetic::power2::lemma_pow2_pos(n);
    if n > 0 {
        lemma_msb_value_bound(data, p, (n - 1) as nat);
        vstd::arithmetic::power2::lemma_pow2_unfold(n);
        if 0 <= p + n - 1 && (p + n - 1) / 8 < data.len() {
            let b = data[(p + n - 1) / 8];
            let sh = (7 - (p + n - 1) % 8) as u8;
            assert((b >> sh) & 1u8 <= 1u8) by (bit_vector);
        }
    }
}

/// The parsed Huffman header: original size, the 256 symbol weights
/// (delta-coded), and the bit position after it.
pub open spec fn huff_weights(data: Seq<u8>, p: int, i: nat) -> (Seq<u16>, int)
    decreases i,
{
    if i == 0 {
        (Seq::empty(), p)
    } else {
        let (ws, p1) = huff_weights(data, p, (i - 1) as nat);
        let bn = ((msb_value(data, p1, 3) + 1) * 2) as nat;
        let p2 = msb_after(data, p1, 3);
        let minus = msb_value(data, p2, 1) != 0;
        let p3 = msb_after(data, p2, 1);
        let val = msb_value(data, p3, bn) as u16;
        let p4 = msb_after(data, p3, bn);
        let w = if i == 1 {
            val
        } else if minus {
            vstd::wrapping::u16_specs::wrapping_sub(ws.last(), val)
        } else {
            vstd::wrapping::u16_specs::wrapping_add(ws.last(), val)
        };
        (ws.push(w), p4)
    }
}

/// `(original size, weights, header length in bytes)` of a Huffman stream:
/// a 6-bit width less one, the original size in that many bits, the same
/// for the compressed size (skipped), then for each of the 256 weights a
/// 3-bit width code `c` (the delta has `2 * (c + 1)` bits), a sign bit and
/// the delta from the previous weight.
pub open spec fn huff_header(data: Seq<u8>) -> (nat, Seq<u16>, int) {
    let orig_bits = (msb_value(data, 0, 6) + 1) as nat;
    let p1 = msb_after(data, 0, 6);
    let orig_size = msb_value(data, p1, orig_bits);
    let p2 = msb_after(data, p1, orig_bits);
    let press_bits = (msb_value(data, p2, 6) + 1) as nat;
    let p3 = msb_after(data, p2, 6);
    let p4 = msb_after(data, p3, press_bits);
    let (ws, p5) = huff_weights(data, p4, 256);
    (orig_size, ws, (p5 + 7) / 8)
}

/// A Huffman tree under construction: node weights, parents (-1: a root),
/// children (-1: none) and the number of nodes in use. Nodes 0..255 are
/// the byte symbols; merged nodes follow.
pub struct HuffTree {
    pub w: Seq<u64>,
    pub parent: Seq<i32>,
    pub c0: Seq<i32>,
    pub c1: Seq<i32>,
    pub nodes: int,
}

/// The two lightest roots among nodes `0..n` (-1 where there is none): the
/// first node of least weight, then the first of least weight among the
/// others.
pub open spec fn lightest_roots(w: Seq<u64>, parent: Seq<i32>, n: int) -> (i32, i32)
    decreases n,
{
    if n <= 0 {
        (-1i32, -1i32)
    } else {
        let (m1, m2) = lightest_roots(w, parent, n - 1);
        let i = n - 1;
        if parent[i] != -1 {
            (m1, m2)
        } else if m1 == -1 || w[m1 as int] > w[i] {
            (i as i32, m1)
        } else if m2 == -1 || w[m2 as int] > w[i] {
            (m1, i as i32)
        } else {
            (m1, m2)
        }
    }
}

pub open spec fn huff_initial(weights: Seq<u16>) -> HuffTree {
    HuffTree {
        w: Seq::new(511, |i: int| if i < 256 { weights[i] as u64 } else { 0u64 }),
        parent: Seq::new(511, |i: int| -1i32),
        c0: Seq::new(511, |i: int| -1i32),
        c1: Seq::new(511, |i: int| -1i32),
        nodes: 256,
    }
}

/// The tree after `m` merges: each merge joins the two lightest roots under
/// a new node whose weight is their (wrapping) sum; merging stops when
/// fewer than two roots are left.
pub open spec fn huff_tree_after(weights: Seq<u16>, m: nat) -> HuffTree
    decreases m,
{
    if m == 0 {
        huff_initial(weights)
    } else {
        let t = huff_tree_after(weights, (m - 1) as nat);
        let (m1, m2) = lightest_roots(t.w, t.parent, t.nodes);
        if t.nodes >= 511 || m1 == -1 || m2 == -1 {
            t
        } else {
            let n = t.nodes;
            HuffTree {
                w: t.w.update(n, vstd::wrapping::u64_specs::wrapping_add(t.w[m1 as int], t.w[m2 as int])),
                parent: t.parent.update(m1 as int, n as i32).update(m2 as int, n as i32),
                c0: t.c0.update(n, m1),
                c1: t.c1.update(n, m2),
                nodes: n + 1,
            }
        }
    }
}

/// Bit `q` of the compressed body, least significant first; 0 past the end.
pub open spec fn lsb_bit(press: Seq<u8>, q: int) -> u32 {
    if 0 <= q && q / 8 < press.len() {
        ((press[q / 8] as u32) >> ((q % 8) as u32)) & 1u32
    } else {
        0
    }
}

/// The symbol reached from node `n` following body bits from `q` (bit 0:
/// first child), and the bit position after it. `None` on a missing child
/// (or one not below its parent, which a built tree never has).
pub open spec fn huff_walk(t: HuffTree, press: Seq<u8>, n: int, q: int) -> Option<(int, int)>
    decreases n,
{
    if n < 0 || n >= 511 {
        None
    } else if n <= 255 {
        Some((n, q))
    } else {
        let next = if lsb_bit(press, q) == 0 {
            t.c0[n]
        } else {
            t.c1[n]
        };
        if next < 0 || next >= n {
            None
        } else {
            huff_walk(t, press, next as int, q + 1)
        }
    }
}

/// The first `k` symbols decoded from the root, and the bit position after.
pub open spec fn huff_symbols(t: HuffTree, press: Seq<u8>, k: nat) -> Option<(Seq<u8>, int)>
    decreases k,
{
    if k == 0 {
        Some((Seq::empty(), 0))
    } else {
        match huff_symbols(t, press, (k - 1) as nat) {
            None => None,
            Some((s, q)) => match huff_walk(t, press, t.nodes - 1, q) {
                None => None,
                Some((sym, q2)) => Some((s.push(sym as u8), q2)),
            },
        }
    }
}

/// What DxLib's Huffman decoder gives for `data`: the header, then the
/// original size's worth of symbols decoded from the body that follows it.
/// `None` for empty input or a walk that leaves the tree.
pub open spec fn huffman_decoded(data: Seq<u8>) -> Option<Seq<u8>> {
    if data.len() == 0 {
        None
    } else {
        let (orig_size, weights, head_size) = huff_header(data);
        let press = if head_size <= data.len() {
            data.subrange(head_size, data.len() as int)
        } else {
            Seq::empty()
        };
        match huff_symbols(huff_tree_after(weights, 255), press, orig_size) {
            None => None,
            Some((s, _)) => Some(s),
        }
    }
}

proof fn lemma_u8_and_one(x: u8)
    ensures
        x & 1u8 <= 1u8,
{
    assert(x & 1u8 <= 1u8) by (bit_vector);
}

/// Reads `n <= 64` bits most-significant first from bit
/// `8 * byte_pos + bit_pos`, stopping at the end of the data.
fn read_msb_bits(data: &[u8], byte_pos: &mut usize, bit_pos: &mut u8, n: u8) -> (v: u64)
    requires
        n <= 64,
        *old(bit_pos) < 8,
        *old(byte_pos) < data.len() || (*old(byte_pos) == data.len() && *old(bit_pos) == 0),
    ensures
        v == msb_value(data@, 8 * *old(byte_pos) + *old(bit_pos), n as nat),
        8 * *final(byte_pos) + *final(bit_pos) == msb_after(data@, 8 * *old(byte_pos) + *old(bit_pos), n as nat),
        *final(bit_pos) < 8,
        *final(byte_pos) < data.len() || (*final(byte_pos) == data.len() && *final(bit_pos) == 0),
{
    let ghost p0 = 8 * *byte_pos + *bit_pos;
    let mut result: u64 = 0;
    let mut i: u8 = 0;
    while i < n
        invariant
            n <= 64,
            i <= n,
            *bit_pos < 8,
            *byte_pos < data.len() || (*byte_pos == data.len() && *bit_pos == 0),
            result == msb_value(data@, p0, i as nat),
            8 * *byte_pos + *bit_pos == msb_after(data@, p0, i as nat),
            0 <= p0 <= 8 * data@.len(),
        decreases n - i,
    {
        proof {
            lemma_msb_value_bound(data@, p0, i as nat);
            vstd::arithmetic::power2::lemma2_to64();
            vstd::arithmetic::power2::lemma2_to64_rest();
            if i < 63 {
                vstd::arithmetic::power2::lemma_pow2_strictly_increases(i as nat, 63);
            }
        }
        let ghost p = 8 * *byte_pos + *bit_pos;
        let bit: u64 = if *byte_pos >= data.len() {
            0
        } else {
            let shifted: u8 = data[*byte_pos] >> (7 - *bit_pos);
            let t: u8 = shifted & 1;
            proof {
                lemma_u8_and_one(shifted);
            }
            assert(p / 8 == *byte_pos && p % 8 == *bit_pos);
            t as u64
        };
        assert(p0 + i == p || p == 8 * data@.len());
        assert(bit == msb_bit(data@, p0 + i));
        result = result * 2 + bit;
        if *byte_pos < data.len() {
            *bit_pos = *bit_pos + 1;
            if *bit_pos == 8 {
                *byte_pos = *byte_pos + 1;
                *bit_pos = 0;
            }
        }
        i = i + 1;
    }
    result
}

fn read_huff_weights(data: &[u8], byte_pos: &mut usize, bit_pos: &mut u8) -> (ws: Vec<u16>)
    requires
        *old(bit_pos) < 8,
        *old(byte_pos) < data.len() || (*old(byte_pos) == data.len() && *old(bit_pos) == 0),
    ensures
        huff_weights(data@, 8 * *old(byte_pos) + *old(bit_pos), 256) == (
            ws@,
            8 * *final(byte_pos) + *final(bit_pos),
        ),
        ws@.len() == 256,
        *final(bit_pos) < 8,
        *final(byte_pos) < data.len() || (*final(byte_pos) == data.len() && *final(bit_pos) == 0),
{
    let ghost p0 = 8 * *byte_pos + *bit_pos;
    let mut ws: Vec<u16> = Vec::new();
    let mut i: usize = 0;
    while i < 256
        invariant
            i <= 256,
            ws@.len() == i,
            *bit_pos < 8,
            *byte_pos < data.len() || (*byte_pos == data.len() && *bit_pos == 0),
            huff_weights(data@, p0, i as nat) == (ws@, 8 * *byte_pos + *bit_pos),
        decreases 256 - i,
    {
        let ghost pcode = 8 * *byte_pos + *bit_pos;
        let code = read_msb_bits(data, byte_pos, bit_pos, 3);
        proof {
            lemma_msb_value_bound(data@, pcode, 3);
            vstd::arithmetic::power2::lemma2_to64();
        }
        let bn: u8 = ((code as u8) + 1) * 2;
        let minus = read_msb_bits(data, byte_pos, bit_pos, 1) != 0;
        let raw = read_msb_bits(data, byte_pos, bit_pos, bn);
        let val = raw as u16;
        let w: u16 = if i == 0 {
            val
        } else if minus {
            ws[i - 1].wrapping_sub(val)
        } else {
            ws[i - 1].wrapping_add(val)
        };
        ws.push(w);
        i = i + 1;
    }
    ws
}

/// The two lightest roots among nodes `0..n` (see `lightest_roots`).
fn find_lightest(w: &Vec<u64>, parent: &Vec<i32>, n: usize) -> (r: (i32, i32))
    requires
        n <= w@.len(),
        n <= parent@.len(),
        n <= 511,
    ensures
        r == lightest_roots(w@, parent@, n as int),
        -1 <= r.0 < n,
        -1 <= r.1 < n,
{
    let mut min1: i32 = -1;
    let mut min2: i32 = -1;
    let mut ni: usize = 0;
    while ni < n
        invariant
            n <= w@.len(),
            n <= parent@.len(),
            n <= 511,
            ni <= n,
            (min1, min2) == lightest_roots(w@, parent@, ni as int),
            -1 <= min1 < ni,
            -1 <= min2 < ni,
        decreases n - ni,
    {
        if parent[ni] == -1 {
            if min1 == -1 || w[min1 as usize] > w[ni] {
                min2 = min1;
                min1 = ni as i32;
            } else if min2 == -1 || w[min2 as usize] > w[ni] {
                min2 = ni as i32;
            }
        }
        ni = ni + 1;
    }
    (min1, min2)
}

pub open spec fn tree_of(w: Seq<u64>, parent: Seq<i32>, c0: Seq<i32>, c1: Seq<i32>, nodes: int) -> HuffTree {
    HuffTree { w, parent, c0, c1, nodes }
}

/// Builds the Huffman tree of `weights` (see `huff_tree_after`).
fn build_huff_tree(weights: &Vec<u16>) -> (r: (Vec<u64>, Vec<i32>, Vec<i32>, Vec<i32>, usize))
    requires
        weights@.len() == 256,
    ensures
        tree_of(r.0@, r.1@, r.2@, r.3@, r.4 as int) == huff_tree_after(weights@, 255),
        256 <= r.4 <= 511,
        r.0@.len() == 511 && r.1@.len() == 511 && r.2@.len() == 511 && r.3@.len() == 511,
{
    let mut w: Vec<u64> = Vec::new();
    let mut parent: Vec<i32> = Vec::new();
    let mut c0: Vec<i32> = Vec::new();
    let mut c1: Vec<i32> = Vec::new();
    let mut i: usize = 0;
    while i < 511
        invariant
            weights@.len() == 256,
            i <= 511,
            w@.len() == i && parent@.len() == i && c0@.len() == i && c1@.len() == i,
            forall|j: int| 0 <= j < i ==> w@[j] == huff_initial(weights@).w[j],
            forall|j: int| 0 <= j < i ==> parent@[j] == -1 && c0@[j] == -1 && c1@[j] == -1,
        decreases 511 - i,
    {
        if i < 256 {
            w.push(weights[i] as u64);
        } else {
            w.push(0);
        }
        parent.push(-1);
        c0.push(-1);
        c1.push(-1);
        i = i + 1;
    }
    let mut nodes: usize = 256;
    assert(w@ =~= huff_initial(weights@).w);
    assert(parent@ =~= huff_initial(weights@).parent);
    assert(c0@ =~= huff_initial(weights@).c0);
    assert(c1@ =~= huff_initial(weights@).c1);
    assert(tree_of(w@, parent@, c0@, c1@, 256) == huff_tree_after(weights@, 0));
    let mut m: usize = 0;
    while m < 255
        invariant
            weights@.len() == 256,
            m <= 255,
            256 <= nodes <= 511,
            w@.len() == 511 && parent@.len() == 511 && c0@.len() == 511 && c1@.len() == 511,
            tree_of(w@, parent@, c0@, c1@, nodes as int) == huff_tree_after(weights@, m as nat),
        decreases 255 - m,
    {
        let (m1, m2) = find_lightest(&w, &parent, nodes);
        if nodes < 511 && m1 != -1 && m2 != -1 {
            let n = nodes;
            let sum = w[m1 as usize].wrapping_add(w[m2 as usize]);
            w.set(n, sum);
            parent.set(m1 as usize, n as i32);
            parent.set(m2 as usize, n as i32);
            c0.set(n, m1);
            c1.set(n, m2);
            nodes = nodes + 1;
        }
        m = m + 1;
    }
    (w, parent, c0, c1, nodes)
}

/// The state of the least-significant-first body reader at bit `q`:
/// byte `ps` with `pc` of its bits used and the rest in `pb`; once past
/// the end it stays there, reading zeros.
pub open spec fn lsb_reader(press: Seq<u8>, q: int, ps: usize, pc: u32, pb: u32) -> bool {
    &&& ps <= press.len()
    &&& pc <= 8
    &&& q >= 0
    &&& (ps < press.len() ==> 8 * ps + pc == q && pb == (press[ps as int] as u32) >> pc)
    &&& (ps == press.len() ==> q >= 8 * ps && pb == 0)
}

proof fn lemma_shift_step(x: u32, k: u32)
    requires
        k < 8,
    ensures
        (x >> k) >> 1u32 == x >> (k + 1) as u32,
        x >> 0u32 == x,
        (x >> k) & 1u32 == (x >> k) & 1u32,
        0u32 >> 1u32 == 0u32,
        0u32 & 1u32 == 0u32,
{
    assert((x >> k) >> 1u32 == x >> (k + 1) as u32) by (bit_vector)
        requires
            k < 8,
    ;
    assert(x >> 0u32 == x) by (bit_vector);
    assert(0u32 >> 1u32 == 0u32) by (bit_vector);
    assert(0u32 & 1u32 == 0u32) by (bit_vector);
}

fn next_lsb_bit(press: &[u8], ps: &mut usize, pc: &mut u32, pb: &mut u32, Ghost(q): Ghost<int>) -> (bit: u32)
    requires
        lsb_reader(press@, q, *old(ps), *old(pc), *old(pb)),
    ensures
        bit == lsb_bit(press@, q),
        lsb_reader(press@, q + 1, *final(ps), *final(pc), *final(pb)),
{
    if *pc == 8 {
        if *ps < press.len() {
            *ps = *ps + 1;
        }
        *pb = if *ps < press.len() {
            press[*ps] as u32
        } else {
            0
        };
        *pc = 0;
        proof {
            lemma_shift_step(*pb, 0);
        }
    }
    proof {
        lemma_shift_step(if *ps < press@.len() { press@[*ps as int] as u32 } else { 0 }, *pc);
        if *ps < press@.len() {
            assert(q / 8 == *ps && q % 8 == *pc);
        }
    }
    let bit = *pb & 1;
    *pb = *pb >> 1;
    *pc = *pc + 1;
    bit
}

proof fn lemma_huff_symbols_none(t: HuffTree, press: Seq<u8>, k: nat, k2: nat)
    requires
        k <= k2,
        huff_symbols(t, press, k) is None,
    ensures
        huff_symbols(t, press, k2) is None,
    decreases k2 - k,
{
    if k < k2 {
        lemma_huff_symbols_none(t, press, k, (k2 - 1) as nat);
    }
}

/// Decodes DxLib Huffman-compressed data (see `huffman_decoded`).
fn huffman_decode(data: &[u8]) -> (r: Option<Vec<u8>>)
    ensures
        match huffman_decoded(data@) {
            None => r is None,
            Some(o) => r matches Some(v) && v@ == o,
        },
{
    if data.len() == 0 {
        return None;
    }
    let mut byte_pos: usize = 0;
    let mut bit_pos: u8 = 0;
    let ob = read_msb_bits(data, &mut byte_pos, &mut bit_pos, 6);
    proof {
        lemma_msb_value_bound(data@, 0, 6);
        vstd::arithmetic::power2::lemma2_to64();
    }
    let orig_bits: u8 = ob as u8 + 1;
    let orig_size = read_msb_bits(data, &mut byte_pos, &mut bit_pos, orig_bits);
    let ghost ppress = 8 * byte_pos + bit_pos;
    let pbits = read_msb_bits(data, &mut byte_pos, &mut bit_pos, 6);
    proof {
        lemma_msb_value_bound(data@, ppress, 6);
    }
    let press_bits: u8 = pbits as u8 + 1;
    let _ = read_msb_bits(data, &mut byte_pos, &mut bit_pos, press_bits);
    let weights = read_huff_weights(data, &mut byte_pos, &mut bit_pos);
    let head_size: usize = if bit_pos > 0 {
        byte_pos + 1
    } else {
        byte_pos
    };
    let ghost hdr = huff_header(data@);
    assert(hdr.0 == orig_size && hdr.1 == weights@ && hdr.2 == head_size);
    let (_w, _parent, c0, c1, nodes) = build_huff_tree(&weights);
    let ghost t = huff_tree_after(weights@, 255);
    let press: &[u8] = if head_size <= data.len() {
        slice_subrange(data, head_size, data.len())
    } else {
        slice_subrange(data, 0, 0)
    };
    assert(press@ =~= (if head_size <= data@.len() {
        data@.subrange(head_size as int, data@.len() as int)
    } else {
        Seq::<u8>::empty()
    }));
    let root: usize = nodes - 1;
    let mut out: Vec<u8> = Vec::new();
    let mut ps: usize = 0;
    let mut pc: u32 = 0;
    let mut pb: u32 = if press.len() > 0 {
        press[0] as u32
    } else {
        0
    };
    proof {
        lemma_shift_step(pb, 0);
    }
    let ghost mut q: int = 0;
    let mut k: u64 = 0;
    let ghost expected = match huff_symbols(t, press@, orig_size as nat) {
        None => None,
        Some((s, _)) => Some(s),
    };
    assert(huffman_decoded(data@) == expected);
    while k < orig_size
        invariant
            t == tree_of(_w@, _parent@, c0@, c1@, nodes as int),
            256 <= nodes <= 511,
            root == nodes - 1,
            c0@.len() == 511 && c1@.len() == 511,
            k <= orig_size,
            huffman_decoded(data@) == expected,
            expected == match huff_symbols(t, press@, orig_size as nat) {
                None => None,
                Some((s, _)) => Some(s),
            },
            huff_symbols(t, press@, k as nat) == Some((out@, q)),
            lsb_reader(press@, q, ps, pc, pb),
        decreases orig_size - k,
    {
        let mut ni: usize = root;
        let ghost q_start = q;
        while ni > 255
            invariant
                t == tree_of(_w@, _parent@, c0@, c1@, nodes as int),
                ni < 511,
                256 <= nodes <= 511,
                root == nodes - 1,
                k < orig_size,
                huffman_decoded(data@) == expected,
                expected == match huff_symbols(t, press@, orig_size as nat) {
                    None => None,
                    Some((s, _)) => Some(s),
                },
                huff_symbols(t, press@, k as nat) == Some((out@, q_start)),
                c0@.len() == 511 && c1@.len() == 511,
                huff_walk(t, press@, root as int, q_start) == huff_walk(t, press@, ni as int, q),
                lsb_reader(press@, q, ps, pc, pb),
            decreases ni,
        {
            let bit = next_lsb_bit(press, &mut ps, &mut pc, &mut pb, Ghost(q));
            let next: i32 = if bit == 0 {
                c0[ni]
            } else {
                c1[ni]
            };
            if next < 0 || next as usize >= ni {
                proof {
                    assert(huff_walk(t, press@, ni as int, q) is None);
                    assert(huff_symbols(t, press@, (k + 1) as nat) is None);
                    lemma_huff_symbols_none(t, press@, (k + 1) as nat, orig_size as nat);
                }
                return None;
            }
            ni = next as usize;
            proof {
                q = q + 1;
            }
        }
        out.push(ni as u8);
        k = k + 1;
    }
    Some(out)
}

// ---------------------------------------------------------------------------
// DXA v8: directories and per-file keys
// ---------------------------------------------------------------------------

/// `r` holds the bytes `s` describes, or the same error.
pub open spec fn bytes_result(r: Result<Vec<u8>, DecryptorError>, s: Result<Seq<u8>, DecryptorError>) -> bool {
    match s {
        Ok(b) => r matches Ok(v) && v@ == b,
        Err(e) => r matches Err(re) && re == e,
    }
}

/// One entry of the v8 directory table (32 bytes).
#[derive(Debug, Clone, Copy)]
pub struct DarcDir {
    pub dir_address: u64,
    pub parent_dir_address: u64,
    pub file_head_num: u64,
    pub file_head_address: u64,
}

pub open spec fn darc_dir_at(d: Seq<u8>, b: int) -> DarcDir {
    DarcDir {
        dir_address: u64_le_at(d, b),
        parent_dir_address: u64_le_at(d, b + 8),
        file_head_num: u64_le_at(d, b + 16),
        file_head_address: u64_le_at(d, b + 24),
    }
}

/// The directory table: whole 32-byte records from `dt` to the end of the
/// table of contents (none when `dt` lies at or past the end).
pub open spec fn darc_dirs(toc: Seq<u8>, dt: int) -> Seq<DarcDir> {
    if dt < 0 || dt >= toc.len() {
        Seq::empty()
    } else {
        let d = toc.subrange(dt, toc.len() as int);
        Seq::new(d.len() / 32, |i: int| darc_dir_at(d, 32 * i))
    }
}

fn parse_darc_dirs(toc: &[u8], dt_offset: usize) -> (dirs: Vec<DarcDir>)
    ensures
        dirs@ == darc_dirs(toc@, dt_offset as int),
{
    if dt_offset >= toc.len() {
        return Vec::new();
    }
    let dt = slice_subrange(toc, dt_offset, toc.len());
    let n = dt.len() / 32;
    let mut dirs: Vec<DarcDir> = Vec::new();
    let mut i: usize = 0;
    while i < n
        invariant
            n == dt@.len() / 32,
            n == dt.len() / 32,
            dt@ == toc@.subrange(dt_offset as int, toc@.len() as int),
            i <= n,
            dirs@.len() == i,
            forall|j: int| 0 <= j < i ==> dirs@[j] == darc_dir_at(dt@, 32 * j),
        decreases n - i,
    {
        let b = 32 * i;
        assert(b + 32 <= dt@.len());
        dirs.push(
            DarcDir {
                dir_address: read_u64_le_at(dt, b),
                parent_dir_address: read_u64_le_at(dt, b + 8),
                file_head_num: read_u64_le_at(dt, b + 16),
                file_head_address: read_u64_le_at(dt, b + 24),
            },
        );
        i = i + 1;
    }
    assert(dirs@ =~= darc_dirs(toc@, dt_offset as int));
    dirs
}

/// Directory `d` holds the file entry at `off` in the file table.
pub open spec fn dir_owns(d: DarcDir, off: int, entry_sz: int) -> bool {
    d.file_head_num > 0 && off >= d.file_head_address && off < d.file_head_address
        + d.file_head_num * entry_sz
}

/// The first directory, from index `i` on, that owns the entry at `off`;
/// 0 when none does.
pub open spec fn owning_dir(dirs: Seq<DarcDir>, off: int, entry_sz: int, i: int) -> int
    decreases dirs.len() - i,
{
    if i < 0 || i >= dirs.len() {
        0
    } else if dir_owns(dirs[i], off, entry_sz) {
        i
    } else {
        owning_dir(dirs, off, entry_sz, i + 1)
    }
}

fn find_parent_dir(dirs: &Vec<DarcDir>, entry_ft_offset: u64, entry_sz: u64) -> (r: usize)
    ensures
        r == owning_dir(dirs@, entry_ft_offset as int, entry_sz as int, 0),
        dirs@.len() > 0 ==> r < dirs@.len(),
{
    let mut i: usize = 0;
    while i < dirs.len()
        invariant
            i <= dirs@.len(),
            owning_dir(dirs@, entry_ft_offset as int, entry_sz as int, 0) == owning_dir(
                dirs@,
                entry_ft_offset as int,
                entry_sz as int,
                i as int,
            ),
        decreases dirs@.len() - i,
    {
        let d = dirs[i];
        let num = d.file_head_num as u128;
        let sz = entry_sz as u128;
        assert(num * sz <= 0xFFFF_FFFF_FFFF_FFFFu128 * 0xFFFF_FFFF_FFFF_FFFFu128) by (nonlinear_arith)
            requires
                num <= 0xFFFF_FFFF_FFFF_FFFFu128,
                sz <= 0xFFFF_FFFF_FFFF_FFFFu128,
        ;
        let end: u128 = d.file_head_address as u128 + num * sz;
        if d.file_head_num > 0 && entry_ft_offset >= d.file_head_address && (entry_ft_offset as u128)
            < end {
            return i;
        }
        i = i + 1;
    }
    0
}

/// The upper-case name stored at `name_address + 4` in the v8 name table
/// (up to its NUL); empty when that lies past the end.
pub open spec fn uppercase_name(toc: Seq<u8>, name_address: int) -> Seq<u8> {
    let start = name_address + 4;
    if start >= toc.len() {
        Seq::empty()
    } else {
        toc.subrange(start, cstr_end(toc, start))
    }
}

/// The original-case name of a v8 name-table record: after the 4-byte
/// head and `pack_num * 4` bytes of upper-case name, where `pack_num` is
/// the record's first `u16`; empty when the record lies past the end.
pub open spec fn original_name(toc: Seq<u8>, name_address: int) -> Seq<u8> {
    if name_address + 4 > toc.len() {
        Seq::empty()
    } else {
        let pack_num = toc[name_address] + toc[name_address + 1] * 256;
        let start = name_address + 4 + pack_num * 4;
        if start >= toc.len() {
            Seq::empty()
        } else {
            toc.subrange(start, cstr_end(toc, start))
        }
    }
}

fn read_uppercase_name(toc: &[u8], name_address: usize) -> (r: Vec<u8>)
    ensures
        r@ == uppercase_name(toc@, name_address as int),
{
    if name_address >= toc.len() || toc.len() - name_address <= 4 {
        return Vec::new();
    }
    let start = name_address + 4;
    let end = find_cstr_end(toc, start);
    proof {
        lemma_cstr_end_bounds(toc@, start as int);
    }
    vstd::slice::slice_to_vec(slice_subrange(toc, start, end))
}

fn read_original_name(toc: &[u8], name_address: usize) -> (r: Vec<u8>)
    ensures
        r@ == original_name(toc@, name_address as int),
{
    if name_address > toc.len() || toc.len() - name_address < 4 {
        return Vec::new();
    }
    let pack_num = toc[name_address] as usize + (toc[name_address + 1] as usize) * 256;
    let skip = 4 + pack_num * 4;
    if skip >= toc.len() - name_address {
        return Vec::new();
    }
    let start = name_address + skip;
    let end = find_cstr_end(toc, start);
    proof {
        lemma_cstr_end_bounds(toc@, start as int);
    }
    vstd::slice::slice_to_vec(slice_subrange(toc, start, end))
}

/// The upper-case names of the directory chain from `dirs[idx]` upward,
/// closest first, for at most `fuel` directories: each directory's name
/// record address is the `u64` at `ft + dir_address` in the table of
/// contents (skipped when that lies past the end); the walk stops at the
/// root (parent address `u64::MAX`) or at a parent index past the table.
pub open spec fn dir_chain_names(toc: Seq<u8>, dirs: Seq<DarcDir>, ft: int, idx: int, fuel: nat) -> Seq<u8>
    decreases fuel,
{
    if fuel == 0 || idx < 0 || idx >= dirs.len() {
        Seq::empty()
    } else {
        let d = dirs[idx];
        if d.parent_dir_address == u64::MAX {
            Seq::empty()
        } else {
            let off = ft + d.dir_address;
            let here = if off + 8 <= toc.len() {
                uppercase_name(toc, (u64_le_at(toc, off) as usize) as int)
            } else {
                Seq::empty()
            };
            let parent_idx = ((d.parent_dir_address / 32) as usize) as int;
            if parent_idx >= dirs.len() {
                here
            } else {
                here + dir_chain_names(toc, dirs, ft, parent_idx, (fuel - 1) as nat)
            }
        }
    }
}

/// DxLib `CreateKeyFileString`: the global key string, the file's
/// upper-case name, then the upper-case names of its non-root ancestor
/// directories, closest first. A well-formed directory table is a tree,
/// so the chain has fewer links than the table has directories; the walk
/// is cut off there.
pub open spec fn per_file_key_string(
    global_key_str: Seq<u8>,
    toc: Seq<u8>,
    name_addr: int,
    parent_dir_idx: int,
    dirs: Seq<DarcDir>,
    ft: int,
) -> Seq<u8> {
    global_key_str + uppercase_name(toc, name_addr) + dir_chain_names(
        toc,
        dirs,
        ft,
        parent_dir_idx,
        dirs.len(),
    )
}

fn build_per_file_key_str(
    global_key_str: &[u8],
    toc: &[u8],
    name_addr: usize,
    parent_dir_idx: usize,
    dirs: &Vec<DarcDir>,
    ft_offset: usize,
) -> (ks: Vec<u8>)
    ensures
        ks@ == per_file_key_string(
            global_key_str@,
            toc@,
            name_addr as int,
            parent_dir_idx as int,
            dirs@,
            ft_offset as int,
        ),
{
    let mut ks = vstd::slice::slice_to_vec(global_key_str);
    let mut upper = read_uppercase_name(toc, name_addr);
    ks.append(&mut upper);
    let ghost prefix = ks@;
    let mut idx: usize = parent_dir_idx;
    let mut fuel: usize = dirs.len();
    let ghost whole = dir_chain_names(toc@, dirs@, ft_offset as int, parent_dir_idx as int, dirs@.len());
    while fuel > 0 && idx < dirs.len() && dirs[idx].parent_dir_address != u64::MAX
        invariant
            ks@ + dir_chain_names(toc@, dirs@, ft_offset as int, idx as int, fuel as nat) == prefix + whole,
        decreases fuel,
    {
        let d = dirs[idx];
        let ghost before = ks@;
        let ghost rest = dir_chain_names(toc@, dirs@, ft_offset as int, idx as int, fuel as nat);
        if ft_offset as u64 <= toc.len() as u64 && d.dir_address <= toc.len() as u64 - ft_offset as u64
            && toc.len() - ft_offset - (d.dir_address as usize) >= 8 {
            let off = ft_offset + d.dir_address as usize;
            let dir_name_addr = read_u64_le_at(toc, off) as usize;
            let mut name = read_uppercase_name(toc, dir_name_addr);
            ks.append(&mut name);
        }
        let parent_idx = (d.parent_dir_address / 32) as usize;
        if parent_idx >= dirs.len() {
            assert(ks@ == prefix + whole) by {
                assert(before + rest == prefix + whole);
            }
            assert(ks@ + dir_chain_names(toc@, dirs@, ft_offset as int, idx as int, 0) == prefix + whole) by {
                assert(ks@ + Seq::<u8>::empty() =~= ks@);
            }
            fuel = 0;
        } else {
            assert(before + rest =~= ks@ + dir_chain_names(
                toc@,
                dirs@,
                ft_offset as int,
                parent_idx as int,
                (fuel - 1) as nat,
            ));
            idx = parent_idx;
            fuel = fuel - 1;
        }
    }
    assert(ks@ =~= prefix + whole);
    ks
}

// ---------------------------------------------------------------------------
// DXA v8: table of contents and file data
// ---------------------------------------------------------------------------

/// The decompressed v8 table of contents: `data[toc_offset..]`, XOR-ed
/// from key position 0 when the archive is keyed, then (unless the header
/// is stored unpacked) Huffman- and LZ-decoded; it must hold at least
/// `head_size` bytes.
pub open spec fn v8_toc(
    data: Seq<u8>,
    toc_offset: int,
    head_size: int,
    has_key: bool,
    no_head_press: bool,
    key: Seq<u8>,
) -> Result<Seq<u8>, DecryptorError> {
    let raw0 = data.subrange(toc_offset, data.len() as int);
    let raw = if has_key {
        xor_keyed(raw0, 0, key)
    } else {
        raw0
    };
    if no_head_press {
        if raw.len() < head_size {
            Err(DecryptorError::HeaderTooShort)
        } else {
            Ok(raw)
        }
    } else {
        match huffman_decoded(raw) {
            None => Err(DecryptorError::HeaderTooShort),
            Some(lz) => match lz_decoded(lz) {
                None => Err(DecryptorError::HeaderTooShort),
                Some(t) => if t.len() < head_size {
                    Err(DecryptorError::HeaderTooShort)
                } else {
                    Ok(t)
                },
            },
        }
    }
}

fn decompress_v8_toc(
    data: &[u8],
    toc_offset: usize,
    head_size: usize,
    has_key: bool,
    no_head_press: bool,
    key: &[u8; 7],
) -> (r: Result<Vec<u8>, DecryptorError>)
    requires
        toc_offset <= data.len(),
    ensures
        bytes_result(
            r,
            v8_toc(data@, toc_offset as int, head_size as int, has_key, no_head_press, key@),
        ),
{
    let mut raw = vstd::slice::slice_to_vec(slice_subrange(data, toc_offset, data.len()));
    if has_key {
        key_conv7(&mut raw, 0, key);
    }
    if no_head_press {
        if raw.len() < head_size {
            return Err(DecryptorError::HeaderTooShort);
        }
        return Ok(raw);
    }
    let lz_buf = match huffman_decode(&raw) {
        Some(b) => b,
        None => return Err(DecryptorError::HeaderTooShort),
    };
    let toc_raw = match lz_decode(&lz_buf) {
        Some(t) => t,
        None => return Err(DecryptorError::HeaderTooShort),
    };
    if toc_raw.len() < head_size {
        return Err(DecryptorError::HeaderTooShort);
    }
    Ok(toc_raw)
}

/// The known v8 key string (Wolf v2.225), from which `KeyCreate` derives
/// the global 7-byte key.
pub open spec fn v8_key_string() -> Seq<u8> {
    seq![
        0x57u8, 0x4C, 0x46, 0x52, 0x50, 0x72, 0x4F, 0x21, 0x70, 0x28, 0x3B, 0x73, 0x35, 0x28, 0x28,
        0x38, 0x50, 0x40, 0x28, 0x28, 0x55, 0x46, 0x57, 0x6C, 0x75, 0x24, 0x23, 0x35, 0x28, 0x3D,
    ]
}

fn v8_key_string_bytes() -> (r: Vec<u8>)
    ensures
        r@ == v8_key_string(),
{
    let r = vec![
        0x57u8, 0x4C, 0x46, 0x52, 0x50, 0x72, 0x4F, 0x21, 0x70, 0x28, 0x3B, 0x73, 0x35, 0x28, 0x28,
        0x38, 0x50, 0x40, 0x28, 0x28, 0x55, 0x46, 0x57, 0x6C, 0x75, 0x24, 0x23, 0x35, 0x28, 0x3D,
    ];
    assert(r@ =~= v8_key_string());
    r
}

/// The v8 global key and its key string: none needed (all zeros, empty
/// string) for an unkeyed archive, else the known key string's key when it
/// decompresses the table of contents; `PossibleWolfX` otherwise.
pub open spec fn v8_key(
    data: Seq<u8>,
    toc_offset: int,
    head_size: int,
    has_key: bool,
    no_head_press: bool,
) -> Result<(Seq<u8>, Seq<u8>), DecryptorError> {
    if !has_key {
        Ok((Seq::new(7, |i: int| 0u8), Seq::empty()))
    } else if v8_toc(data, toc_offset, head_size, has_key, no_head_press, key7_of(v8_key_string())) is Ok {
        Ok((key7_of(v8_key_string()), v8_key_string()))
    } else {
        Err(DecryptorError::PossibleWolfX)
    }
}

fn find_v8_key(data: &[u8], toc_offset: usize, head_size: usize, has_key: bool, no_head_press: bool) -> (r:
    Result<([u8; 7], Vec<u8>), DecryptorError>)
    requires
        toc_offset <= data.len(),
    ensures
        match v8_key(data@, toc_offset as int, head_size as int, has_key, no_head_press) {
            Ok((k, ks)) => r matches Ok((rk, rks)) && rk@ == k && rks@ == ks,
            Err(e) => r matches Err(re) && re == e,
        },
{
    if !has_key {
        let k: [u8; 7] = [0u8; 7];
        assert(k@ =~= Seq::new(7, |i: int| 0u8));
        return Ok((k, Vec::new()));
    }
    let key_str = v8_key_string_bytes();
    let global_key = key_create_7(&key_str);
    match decompress_v8_toc(data, toc_offset, head_size, has_key, no_head_press, &global_key) {
        Ok(_) => Ok((global_key, key_str)),
        Err(_) => Err(DecryptorError::PossibleWolfX),
    }
}

/// The bytes of a v8 file (or LZ stream) of `total` bytes whose first and
/// last `huff_kb` bytes are Huffman-encoded in `huff_sz` bytes at
/// `file_start`, the middle following raw; all XOR-ed with `key` from
/// `key_offset` when keyed (the middle from `key_offset + huff_sz`,
/// wrapping). Everything is encoded when it is at most `2 * huff_kb`
/// bytes or `huff_kb` is `usize::MAX`. `UnsupportedCompression` when the
/// Huffman part does not decode; `HeaderTooShort` when something lies past
/// the end or the parts do not add up.
pub open spec fn v8_huffman_parts(
    archive: Seq<u8>,
    file_start: int,
    total: int,
    huff_sz: int,
    huff_kb: int,
    key: Seq<u8>,
    has_key: bool,
    key_offset: u64,
) -> Result<Seq<u8>, DecryptorError> {
    if file_start + huff_sz > archive.len() {
        Err(DecryptorError::HeaderTooShort)
    } else {
        let raw = archive.subrange(file_start, file_start + huff_sz);
        let huff_buf = if has_key {
            xor_keyed(raw, key_offset as int, key)
        } else {
            raw
        };
        match huffman_decoded(huff_buf) {
            None => Err(DecryptorError::UnsupportedCompression),
            Some(decoded) => if huff_kb == usize::MAX || total <= huff_kb * 2 {
                if decoded.len() < total {
                    Err(DecryptorError::HeaderTooShort)
                } else {
                    Ok(decoded.take(total))
                }
            } else {
                let middle_sz = total - huff_kb * 2;
                let mid_start = file_start + huff_sz;
                if mid_start + middle_sz > archive.len() {
                    Err(DecryptorError::HeaderTooShort)
                } else if decoded.len() < huff_kb {
                    Err(DecryptorError::HeaderTooShort)
                } else {
                    let mid_raw = archive.subrange(mid_start, mid_start + middle_sz);
                    let mid = if has_key {
                        xor_keyed(
                            mid_raw,
                            vstd::wrapping::u64_specs::wrapping_add(key_offset, huff_sz as u64) as int,
                            key,
                        )
                    } else {
                        mid_raw
                    };
                    let out = decoded.take(huff_kb) + mid + decoded.skip(huff_kb);
                    if out.len() != total {
                        Err(DecryptorError::HeaderTooShort)
                    } else {
                        Ok(out)
                    }
                }
            },
        }
    }
}

/// Rebuilds a v8 file, or LZ stream, of `total` bytes from its Huffman
/// parts (see `v8_huffman_parts`).
fn join_v8_huffman_parts(
    archive: &[u8],
    file_start: usize,
    total: usize,
    huff_sz: usize,
    huff_kb: usize,
    key: &[u8; 7],
    has_key: bool,
    key_offset: u64,
) -> (r: Result<Vec<u8>, DecryptorError>)
    ensures
        bytes_result(
            r,
            v8_huffman_parts(
                archive@,
                file_start as int,
                total as int,
                huff_sz as int,
                huff_kb as int,
                key@,
                has_key,
                key_offset,
            ),
        ),
{
    if file_start > archive.len() || huff_sz > archive.len() - file_start {
        return Err(DecryptorError::HeaderTooShort);
    }
    let mut huff_buf = vstd::slice::slice_to_vec(
        slice_subrange(archive, file_start, file_start + huff_sz),
    );
    if has_key {
        key_conv7(&mut huff_buf, key_offset, key);
    }
    let decoded = match huffman_decode(&huff_buf) {
        Some(d) => d,
        None => return Err(DecryptorError::UnsupportedCompression),
    };
    if huff_kb == usize::MAX || total - total / 2 <= huff_kb {
        if decoded.len() < total {
            return Err(DecryptorError::HeaderTooShort);
        }
        return Ok(vstd::slice::slice_to_vec(slice_subrange(decoded.as_slice(), 0, total)));
    }
    let middle_sz = total - huff_kb * 2;
    let mid_start = file_start + huff_sz;
    if middle_sz > archive.len() - mid_start {
        return Err(DecryptorError::HeaderTooShort);
    }
    if decoded.len() < huff_kb {
        return Err(DecryptorError::HeaderTooShort);
    }
    let mut mid_buf = vstd::slice::slice_to_vec(
        slice_subrange(archive, mid_start, mid_start + middle_sz),
    );
    if has_key {
        key_conv7(&mut mid_buf, key_offset.wrapping_add(huff_sz as u64), key);
    }
    let mut out = vstd::slice::slice_to_vec(slice_subrange(decoded.as_slice(), 0, huff_kb));
    out.append(&mut mid_buf);
    let mut back = vstd::slice::slice_to_vec(slice_subrange(decoded.as_slice(), huff_kb, decoded.len()));
    out.append(&mut back);
    if out.len() != total {
        return Err(DecryptorError::HeaderTooShort);
    }
    Ok(out)
}

// ---------------------------------------------------------------------------
// DXA v8: whole-archive extraction
// ---------------------------------------------------------------------------

/// Size of a v8 file-table entry.
pub const V8_ENTRY_SIZE: usize = 0x48;

/// The global settings of a v8 archive that every entry needs.
pub struct V8Context {
    pub base_offset: int,
    pub huff_kb: int,
    pub has_key: bool,
    pub key_str: Seq<u8>,
    pub code_page: u32,
    pub ft: int,
}

/// The bytes of a v8 entry: stored raw (XOR only), Huffman only, LZ only,
/// or Huffman then LZ, as its Huffman size (`u64::MAX`: none) and packed
/// size (-1: none) say. Key position: the unpacked size.
pub open spec fn v8_entry_data(
    data: Seq<u8>,
    file_start: int,
    unpacked: u64,
    packed: i64,
    huff: u64,
    huff_kb: int,
    key: Seq<u8>,
    has_key: bool,
) -> Result<Seq<u8>, DecryptorError> {
    let unp = (unpacked as usize) as int;
    let pz = (packed as usize) as int;
    let hs = (huff as usize) as int;
    if file_start > data.len() {
        Err(DecryptorError::HeaderTooShort)
    } else if huff == u64::MAX && packed == -1 {
        if file_start + unp > data.len() {
            Err(DecryptorError::HeaderTooShort)
        } else {
            let raw = data.subrange(file_start, file_start + unp);
            Ok(
                if has_key {
                    xor_keyed(raw, unpacked as int, key)
                } else {
                    raw
                },
            )
        }
    } else if packed == -1 {
        v8_huffman_parts(data, file_start, unp, hs, huff_kb, key, has_key, unpacked)
    } else if huff == u64::MAX {
        if file_start + pz > data.len() {
            Err(DecryptorError::HeaderTooShort)
        } else {
            let raw = data.subrange(file_start, file_start + pz);
            let lz = if has_key {
                xor_keyed(raw, unpacked as int, key)
            } else {
                raw
            };
            match lz_decoded(lz) {
                None => Err(DecryptorError::UnsupportedCompression),
                Some(d) => Ok(d),
            }
        }
    } else {
        match v8_huffman_parts(data, file_start, pz, hs, huff_kb, key, has_key, unpacked) {
            Err(e) => Err(e),
            Ok(lz) => match lz_decoded(lz) {
                None => Err(DecryptorError::UnsupportedCompression),
                Some(d) => Ok(d),
            },
        }
    }
}

/// Entry `i` of the v8 file table, extracted; `None` for a directory.
/// Its key is `KeyCreate` of its key string (see `per_file_key_string`)
/// when the archive is keyed; its name is the original-case name.
pub open spec fn v8_entry_file(
    data: Seq<u8>,
    toc: Seq<u8>,
    dirs: Seq<DarcDir>,
    ctx: V8Context,
    i: int,
) -> Option<Result<WolfFileModel, DecryptorError>> {
    let b = ctx.ft + i * 0x48;
    let attributes = (u64_le_at(toc, b + 0x08) & 0xFFFF_FFFFu64) as u32;
    if attributes & 0x10 != 0 {
        None
    } else {
        let name_offset = (u64_le_at(toc, b) as usize) as int;
        let data_offset = u64_le_at(toc, b + 0x28);
        let unpacked = u64_le_at(toc, b + 0x30);
        let packed = u64_le_at(toc, b + 0x38) as i64;
        let huff = u64_le_at(toc, b + 0x40);
        let key = if ctx.has_key {
            key7_of(
                per_file_key_string(
                    ctx.key_str,
                    toc,
                    name_offset,
                    owning_dir(dirs, i * 0x48, 0x48, 0),
                    dirs,
                    ctx.ft,
                ),
            )
        } else {
            Seq::new(7, |j: int| 0u8)
        };
        let file_start = ctx.base_offset + (data_offset as usize) as int;
        match v8_entry_data(data, file_start, unpacked, packed, huff, ctx.huff_kb, key, ctx.has_key) {
            Err(e) => Some(Err(e)),
            Ok(d) => Some(
                Ok(
                    WolfFileModel {
                        name: decoded_name(original_name(toc, name_offset), ctx.code_page),
                        data: d,
                        unpacked_size: unpacked,
                    },
                ),
            ),
        }
    }
}

/// The files among the first `n` v8 entries, in table order; the first
/// failing entry's error.
pub open spec fn v8_files(
    data: Seq<u8>,
    toc: Seq<u8>,
    dirs: Seq<DarcDir>,
    ctx: V8Context,
    n: nat,
) -> Result<Seq<WolfFileModel>, DecryptorError>
    decreases n,
{
    if n == 0 {
        Ok(Seq::empty())
    } else {
        match v8_files(data, toc, dirs, ctx, (n - 1) as nat) {
            Err(e) => Err(e),
            Ok(prev) => match v8_entry_file(data, toc, dirs, ctx, n - 1) {
                None => Ok(prev),
                Some(Err(e)) => Err(e),
                Some(Ok(f)) => Ok(prev.push(f)),
            },
        }
    }
}

/// The contents of a DXA v8 archive. Its 64-byte header is plaintext:
/// table-of-contents size (`u32` at 4), data base (8), table offset (16),
/// file table (24) and directory table (32) inside the table, code page
/// (`u32` at 40), flags (`u32` at 44: bit 0 unkeyed, bit 1 table stored
/// unpacked) and the Huffman span in KiB (byte 48; 0xFF: whole files).
pub open spec fn archive_v8(data: Seq<u8>) -> Result<(u8, Option<u32>, Seq<WolfFileModel>), DecryptorError> {
    if data.len() < 64 {
        Err(DecryptorError::HeaderTooShort)
    } else {
        let head_size = (u32_le_at(data, 4) as usize) as int;
        let base_offset = (u64_le_at(data, 8) as usize) as int;
        let toc_offset = (u64_le_at(data, 16) as usize) as int;
        let ft = (u64_le_at(data, 24) as usize) as int;
        let dt = (u64_le_at(data, 32) as usize) as int;
        let code_page = u32_le_at(data, 40);
        let flags = u32_le_at(data, 44);
        let huff_kb: int = if data[48] == 0xFF {
            usize::MAX as int
        } else {
            data[48] * 1024
        };
        let has_key = flags & 1u32 == 0;
        let no_head_press = flags & 2u32 != 0;
        if toc_offset > data.len() {
            Err(DecryptorError::HeaderTooShort)
        } else {
            match v8_key(data, toc_offset, head_size, has_key, no_head_press) {
                Err(e) => Err(e),
                Ok((gk, ks)) => match v8_toc(data, toc_offset, head_size, has_key, no_head_press, gk) {
                    Err(e) => Err(e),
                    Ok(toc) => if dt <= ft || dt > toc.len() {
                        Ok((8u8, Some(code_page), Seq::empty()))
                    } else {
                        let ctx = V8Context {
                            base_offset,
                            huff_kb,
                            has_key,
                            key_str: ks,
                            code_page,
                            ft,
                        };
                        match v8_files(data, toc, darc_dirs(toc, dt), ctx, ((dt - ft) / 0x48) as nat) {
                            Err(e) => Err(e),
                            Ok(files) => Ok((8u8, Some(code_page), files)),
                        }
                    },
                },
            }
        }
    }
}

fn v8_entry_bytes(
    data: &[u8],
    file_start: usize,
    unpacked: u64,
    packed: i64,
    huff: u64,
    huff_kb: usize,
    key: &[u8; 7],
    has_key: bool,
) -> (r: Result<Vec<u8>, DecryptorError>)
    ensures
        bytes_result(
            r,
            v8_entry_data(
                data@,
                file_start as int,
                unpacked,
                packed,
                huff,
                huff_kb as int,
                key@,
                has_key,
            ),
        ),
{
    if file_start > data.len() {
        return Err(DecryptorError::HeaderTooShort);
    }
    let unp = unpacked as usize;
    let pz = packed as usize;
    let hs = huff as usize;
    if huff == u64::MAX && packed == -1 {
        if unp > data.len() - file_start {
            return Err(DecryptorError::HeaderTooShort);
        }
        let mut buf = vstd::slice::slice_to_vec(slice_subrange(data, file_start, file_start + unp));
        if has_key {
            key_conv7(&mut buf, unpacked, key);
        }
        Ok(buf)
    } else if packed == -1 {
        join_v8_huffman_parts(data, file_start, unp, hs, huff_kb, key, has_key, unpacked)
    } else if huff == u64::MAX {
        if pz > data.len() - file_start {
            return Err(DecryptorError::HeaderTooShort);
        }
        let mut lz_buf = vstd::slice::slice_to_vec(slice_subrange(data, file_start, file_start + pz));
        if has_key {
            key_conv7(&mut lz_buf, unpacked, key);
        }
        match lz_decode(&lz_buf) {
            Some(d) => Ok(d),
            None => Err(DecryptorError::UnsupportedCompression),
        }
    } else {
        let lz_stream = join_v8_huffman_parts(data, file_start, pz, hs, huff_kb, key, has_key, unpacked)?;
        match lz_decode(&lz_stream) {
            Some(d) => Ok(d),
            None => Err(DecryptorError::UnsupportedCompression),
        }
    }
}

proof fn lemma_v8_files_err_extends(
    data: Seq<u8>,
    toc: Seq<u8>,
    dirs: Seq<DarcDir>,
    ctx: V8Context,
    k: nat,
    n: nat,
)
    requires
        k <= n,
        v8_files(data, toc, dirs, ctx, k) is Err,
    ensures
        v8_files(data, toc, dirs, ctx, n) == v8_files(data, toc, dirs, ctx, k),
    decreases n - k,
{
    if k < n {
        lemma_v8_files_err_extends(data, toc, dirs, ctx, k, (n - 1) as nat);
    }
}

fn v8_extract_entry(
    data: &[u8],
    toc_data: &Vec<u8>,
    dirs: &Vec<DarcDir>,
    key_str: &Vec<u8>,
    base_offset: usize,
    huff_kb: usize,
    has_key: bool,
    code_page: u32,
    ft: usize,
    i: usize,
    base: usize,
) -> (r: Option<Result<WolfFile, DecryptorError>>)
    requires
        base == ft + i * V8_ENTRY_SIZE,
        base + V8_ENTRY_SIZE <= toc_data.len(),
    ensures
        ({
            let ctx = V8Context {
                base_offset: base_offset as int,
                huff_kb: huff_kb as int,
                has_key,
                key_str: key_str@,
                code_page,
                ft: ft as int,
            };
            match v8_entry_file(data@, toc_data@, dirs@, ctx, i as int) {
                None => r is None,
                Some(Err(e)) => r matches Some(Err(re)) && re == e,
                Some(Ok(m)) => r matches Some(Ok(f)) && wolf_file_model(f) == m,
            }
        }),
{
    let attributes = (read_u64_le_at(toc_data, base + 0x08) & 0xFFFF_FFFF) as u32;
    if attributes & 0x10 != 0 {
        return None;
    }
    let name_offset = read_u64_le_at(toc_data, base) as usize;
    let data_offset = read_u64_le_at(toc_data, base + 0x28);
    let unpacked_size = read_u64_le_at(toc_data, base + 0x30);
    let packed_size = read_u64_le_at(toc_data, base + 0x38) as i64;
    let huff_size = read_u64_le_at(toc_data, base + 0x40);
    assert(i * V8_ENTRY_SIZE <= base);
    let entry_ft_offset = (i * V8_ENTRY_SIZE) as u64;
    let file_key: [u8; 7] = if has_key {
        let parent_idx = find_parent_dir(dirs, entry_ft_offset, V8_ENTRY_SIZE as u64);
        let per_key_str = build_per_file_key_str(key_str, toc_data, name_offset, parent_idx, dirs, ft);
        key_create_7(&per_key_str)
    } else {
        let z = [0u8; 7];
        assert(z@ =~= Seq::new(7, |j: int| 0u8));
        z
    };
    let data_off = data_offset as usize;
    let bytes = if base_offset > data.len() || data_off > data.len() - base_offset {
        Err(DecryptorError::HeaderTooShort)
    } else {
        v8_entry_bytes(
            data,
            base_offset + data_off,
            unpacked_size,
            packed_size,
            huff_size,
            huff_kb,
            &file_key,
            has_key,
        )
    };
    match bytes {
        Err(e) => Some(Err(e)),
        Ok(file_data) => {
            let raw_name = read_original_name(toc_data, name_offset);
            let name = decode_name(&raw_name, code_page);
            Some(Ok(WolfFile { name, data: file_data, unpacked_size }))
        },
    }
}

/// Extracts all files from a DXA v8 archive (see `archive_v8`).
fn extract_all_v8(data: &[u8]) -> (r: Result<WolfArchive, DecryptorError>)
    ensures
        match archive_v8(data@) {
            Err(e) => r matches Err(re) && re == e,
            Ok((v, cp, files)) => r matches Ok(a) && a.version == v && a.code_page == cp
                && wolf_files_model(a.files@) == files,
        },
{
    if data.len() < 64 {
        return Err(DecryptorError::HeaderTooShort);
    }
    let head_size = read_u32_le_at(data, 4) as usize;
    let base_offset = read_u64_le_at(data, 8) as usize;
    let toc_offset = read_u64_le_at(data, 16) as usize;
    let file_table = read_u64_le_at(data, 24) as usize;
    let dir_table = read_u64_le_at(data, 32) as usize;
    let code_page = read_u32_le_at(data, 40);
    let flags = read_u32_le_at(data, 44);
    let huff_kb_raw = data[48] as usize;
    let huff_kb: usize = if huff_kb_raw == 0xFF {
        usize::MAX
    } else {
        huff_kb_raw * 1024
    };
    let has_key = flags & 1 == 0;
    let no_head_press = flags & 2 != 0;
    if toc_offset > data.len() {
        return Err(DecryptorError::HeaderTooShort);
    }
    let (global_key, key_str) = find_v8_key(data, toc_offset, head_size, has_key, no_head_press)?;
    let toc_data = decompress_v8_toc(data, toc_offset, head_size, has_key, no_head_press, &global_key)?;
    let dirs = parse_darc_dirs(&toc_data, dir_table);
    let ft = file_table;
    let dt = dir_table;
    if dt <= ft || dt > toc_data.len() {
        return Ok(WolfArchive { version: 8, code_page: Some(code_page), files: Vec::new() });
    }
    let ghost ctx = V8Context {
        base_offset: base_offset as int,
        huff_kb: huff_kb as int,
        has_key,
        key_str: key_str@,
        code_page,
        ft: ft as int,
    };
    let n_entries = (dt - ft) / V8_ENTRY_SIZE;
    let ghost whole = v8_files(data@, toc_data@, dirs@, ctx, n_entries as nat);
    assert(archive_v8(data@) == match whole {
        Err(e) => Err(e),
        Ok(files) => Ok((8u8, Some(code_page), files)),
    });
    let mut files: Vec<WolfFile> = Vec::new();
    let mut i: usize = 0;
    let mut base: usize = ft;
    assert(wolf_files_model(files@) =~= Seq::<WolfFileModel>::empty());
    while i < n_entries
        invariant
            ft < dt <= toc_data@.len(),
            n_entries == (dt - ft) / (V8_ENTRY_SIZE as int),
            i <= n_entries,
            base == ft + i * V8_ENTRY_SIZE,
            ctx == (V8Context {
                base_offset: base_offset as int,
                huff_kb: huff_kb as int,
                has_key,
                key_str: key_str@,
                code_page,
                ft: ft as int,
            }),
            dirs@ == darc_dirs(toc_data@, dt as int),
            whole == v8_files(data@, toc_data@, dirs@, ctx, n_entries as nat),
            archive_v8(data@) == match whole {
                Err(e) => Err(e),
                Ok(files) => Ok((8u8, Some(code_page), files)),
            },
            v8_files(data@, toc_data@, dirs@, ctx, i as nat) == Ok::<Seq<WolfFileModel>, DecryptorError>(
                wolf_files_model(files@),
            ),
        decreases n_entries - i,
    {
        proof {
            lemma_entry_fits(ft as int, dt as int, V8_ENTRY_SIZE as int, i as int);
        }
        match v8_extract_entry(data, &toc_data, &dirs, &key_str, base_offset, huff_kb, has_key, code_page, ft, i, base) {
            None => {},
            Some(Err(e)) => {
                proof {
                    lemma_v8_files_err_extends(data@, toc_data@, dirs@, ctx, (i + 1) as nat, n_entries as nat);
                }
                return Err(e);
            },
            Some(Ok(f)) => {
                let ghost old_files = files@;
                let ghost fm = wolf_file_model(f);
                files.push(f);
                assert(files@ == old_files.push(f));
                assert(wolf_files_model(files@) =~= wolf_files_model(old_files).push(fm));
            },
        }
        i = i + 1;
        base = base + V8_ENTRY_SIZE;
    }
    Ok(WolfArchive { version: 8, code_page: Some(code_page), files })
}

/// Extracts all files from a raw DXA archive (`.wolf` file bytes): checks
/// the signature, then for v5/v6 finds the key (known keys, then
/// `guess_key_v6`), decrypts the header and table of contents and each
/// file; v8 archives go through the v8 pipeline. Compressed v5/v6 entries
/// are not supported.
pub fn extract_all(data: &[u8]) -> (r: Result<WolfArchive, DecryptorError>)
    ensures
        match signature_version(data@) {
            Err(e) => r matches Err(re) && re == e,
            Ok(v) => match (if v == 8 { archive_v8(data@) } else { archive_v56(data@, v) }) {
                Err(e) => r matches Err(re) && re == e,
                Ok((rv, cp, files)) => r matches Ok(a) && a.version == rv && a.code_page == cp
                    && wolf_files_model(a.files@) == files,
            },
        },
{
    let version = read_signature(data)?;
    if version == 8 {
        return extract_all_v8(data);
    }
    extract_all_v56(data, version)
}

} // verus!
