//! Game engine detection: which engine made a game, and which Wolf RPG
//! generation (Shift-JIS or UTF-8) a Wolf game belongs to.

use vstd::prelude::*;
use vstd::bytes::{spec_u32_from_le_bytes, u32_from_le_bytes};
use vstd::slice::slice_subrange;

use crate::project::matches_at;
use crate::wolf::decryptor::{
    code_page_to_wolf_version, header_fields, read_header, read_signature, signature_version, str_equal,
    u32_le_at, wolf_key, wolf_key_spec, WOLF_KEY_COUNT,
};
use crate::wolf::injector::chars_of;

verus! {

/// A game engine supported by the editor.
#[derive(Debug, Clone, Copy, PartialEq, Eq, Structural)]
pub enum Engine {
    MvMz,
    VxAce,
    Wolf,
}

/// Why no engine could be identified.
#[derive(Debug)]
pub enum DetectionError {
    UnknownEngine,
    Io(String),
}

/// A Wolf RPG Editor version, as far as the text encoding needs it.
#[derive(Debug, Clone, Copy, PartialEq, Eq, Structural)]
pub struct WolfVersion {
    pub major: u8,
    pub minor: u8,
}

impl WolfVersion {
    /// Wolf RPG v3 and later store text as UTF-8; earlier versions use Shift-JIS.
    pub fn is_utf8(&self) -> (r: bool)
        ensures
            r == (self.major >= 3),
    {
        self.major >= 3
    }
}

// ---------------------------------------------------------------------------
// Game directory layout
// ---------------------------------------------------------------------------

/// What the detector looks at in a game directory: the paths that exist
/// (files and directories) and those that are directories, relative to the
/// game directory and separated by `/`. The caller lists the root, `Data/`
/// and `Data/MapData/`, and the `data` and `www/data` directories.
#[derive(Debug, Clone)]
pub struct GameDirListing {
    pub entries: Vec<String>,
    pub dirs: Vec<String>,
}

pub open spec fn strings_of(v: Seq<String>) -> Seq<Seq<char>> {
    v.map_values(|s: String| s@)
}

pub open spec fn listed(v: Seq<Seq<char>>, p: Seq<char>) -> bool {
    exists|i: int| 0 <= i < v.len() && #[trigger] v[i] == p
}

fn is_listed(v: &Vec<String>, p: &str) -> (r: bool)
    ensures
        r == listed(strings_of(v@), p@),
{
    let mut i: usize = 0;
    while i < v.len()
        invariant
            i <= v@.len(),
            forall|j: int| 0 <= j < i ==> strings_of(v@)[j] != p@,
        decreases v@.len() - i,
    {
        if str_equal(v[i].as_str(), p) {
            assert(strings_of(v@)[i as int] == p@);
            return true;
        }
        i = i + 1;
    }
    false
}

impl GameDirListing {
    pub open spec fn has_path(&self, p: Seq<char>) -> bool {
        listed(strings_of(self.entries@), p)
    }

    pub open spec fn is_dir(&self, p: Seq<char>) -> bool {
        listed(strings_of(self.dirs@), p)
    }
}

/// `p` is a file directly inside `dir` whose extension is `ext`: its name has
/// no `/`, ends with `.{ext}`, and has something before that dot.
pub open spec fn in_dir_with_ext(p: Seq<char>, dir: Seq<char>, ext: Seq<char>) -> bool {
    let name = p.skip(dir.len() + 1int);
    &&& p.len() > dir.len() + 1
    &&& p.take(dir.len() as int) == dir
    &&& p[dir.len() as int] == '/'
    &&& forall|i: int| 0 <= i < name.len() ==> #[trigger] name[i] != '/'
    &&& name.len() > ext.len() + 1
    &&& name[name.len() - ext.len() - 1] == '.'
    &&& name.skip(name.len() - ext.len()) == ext
}

fn is_in_dir_with_ext(p: &str, dir: &str, ext: &str) -> (r: bool)
    ensures
        r == in_dir_with_ext(p@, dir@, ext@),
{
    let s = chars_of(p);
    let d = dir.unicode_len();
    let e = ext.unicode_len();
    let n = s.len();
    let ghost name = p@.skip(d + 1);
    if n <= d || n - d - 1 <= e || n - d - 1 - e <= 1 {
        return false;
    }
    if !matches_at(&s, 0, dir) {
        assert(!(p@.take(d as int) == dir@)) by {
            assert(p@.take(d as int) =~= p@.subrange(0, d as int));
        }
        return false;
    }
    assert(p@.take(d as int) =~= p@.subrange(0, d as int));
    if s[d] != '/' {
        return false;
    }
    let mut i: usize = d + 1;
    while i < n
        invariant
            s@ == p@,
            n == s@.len(),
            d == dir@.len(),
            n > d + 1,
            d + 1 <= i <= n,
            name == p@.skip(d + 1),
            forall|j: int| 0 <= j < i - d - 1 ==> #[trigger] name[j] != '/',
        decreases n - i,
    {
        if s[i] == '/' {
            assert(name[i - d - 1] == '/');
            return false;
        }
        i = i + 1;
    }
    if s[n - e - 1] != '.' {
        assert(name[name.len() - e - 1] == s@[n - e - 1]);
        return false;
    }
    assert(name[name.len() - e - 1] == s@[n - e - 1]);
    let r = matches_at(&s, n - e, ext);
    assert(name.skip(name.len() - e) =~= s@.subrange(n - e, n as int));
    r
}

fn has_file_with_ext(entries: &Vec<String>, dir: &str, ext: &str) -> (r: bool)
    ensures
        r == exists|i: int| 0 <= i < entries@.len() && in_dir_with_ext(#[trigger] strings_of(entries@)[i], dir@, ext@),
{
    let mut i: usize = 0;
    while i < entries.len()
        invariant
            i <= entries@.len(),
            forall|j: int| 0 <= j < i ==> !in_dir_with_ext(#[trigger] strings_of(entries@)[j], dir@, ext@),
        decreases entries@.len() - i,
    {
        if is_in_dir_with_ext(entries[i].as_str(), dir, ext) {
            assert(in_dir_with_ext(strings_of(entries@)[i as int], dir@, ext@));
            return true;
        }
        i = i + 1;
    }
    false
}

/// The MV/MZ data directory: `data`, else `www/data`.
pub fn find_data_dir(listing: &GameDirListing) -> (r: Option<&'static str>)
    ensures
        listing.is_dir("data"@) ==> (r matches Some(d) && d@ == "data"@),
        !listing.is_dir("data"@) && listing.is_dir("www/data"@) ==> (r matches Some(d) && d@ == "www/data"@),
        !listing.is_dir("data"@) && !listing.is_dir("www/data"@) ==> r is None,
{
    if is_listed(&listing.dirs, "data") {
        Some("data")
    } else if is_listed(&listing.dirs, "www/data") {
        Some("www/data")
    } else {
        None
    }
}

/// The VX Ace data directory: `Data`, else `data` (for games unpacked on a
/// case-sensitive file system).
pub fn find_vx_ace_data_dir(listing: &GameDirListing) -> (r: Option<&'static str>)
    ensures
        listing.is_dir("Data"@) ==> (r matches Some(d) && d@ == "Data"@),
        !listing.is_dir("Data"@) && listing.is_dir("data"@) ==> (r matches Some(d) && d@ == "data"@),
        !listing.is_dir("Data"@) && !listing.is_dir("data"@) ==> r is None,
{
    if is_listed(&listing.dirs, "Data") {
        Some("Data")
    } else if is_listed(&listing.dirs, "data") {
        Some("data")
    } else {
        None
    }
}

/// A VX Ace data directory holds `System.rvdata2`.
pub fn is_vx_ace_data_dir(listing: &GameDirListing, dir: &str) -> (r: bool)
    ensures
        r == listing.has_path(dir@ + "/System.rvdata2"@),
{
    let p = String::from_str(dir).concat("/System.rvdata2");
    is_listed(&listing.entries, p.as_str())
}

/// The Wolf RPG data directory: `Data`, else `data`.
pub fn find_wolf_data_dir(listing: &GameDirListing) -> (r: Option<&'static str>)
    ensures
        listing.is_dir("Data"@) ==> (r matches Some(d) && d@ == "Data"@),
        !listing.is_dir("Data"@) && listing.is_dir("data"@) ==> (r matches Some(d) && d@ == "data"@),
        !listing.is_dir("Data"@) && !listing.is_dir("data"@) ==> r is None,
{
    if is_listed(&listing.dirs, "Data") {
        Some("Data")
    } else if is_listed(&listing.dirs, "data") {
        Some("data")
    } else {
        None
    }
}

pub open spec fn has_file_in(listing: &GameDirListing, dir: Seq<char>, ext: Seq<char>) -> bool {
    exists|i: int| 0 <= i < listing.entries@.len() && in_dir_with_ext(#[trigger] strings_of(listing.entries@)[i], dir, ext)
}

/// A Wolf RPG game root: `Game.exe` or `Game.ini`, and one of a `BasicData`
/// directory, a root `Data.wolf`, a `.wolf` archive in `Data`, or a `.mps`
/// map in `Data/MapData`.
pub open spec fn wolf_game_dir(l: &GameDirListing) -> bool {
    &&& (l.has_path("Game.exe"@) || l.has_path("Game.ini"@))
    &&& (l.is_dir("BasicData"@) || l.has_path("Data.wolf"@) || (l.is_dir("Data"@) && has_file_in(l, "Data"@, "wolf"@))
        || (l.is_dir("Data/MapData"@) && has_file_in(l, "Data/MapData"@, "mps"@)))
}

/// Whether the listed directory looks like a Wolf RPG game root (see
/// `wolf_game_dir`).
pub fn is_wolf_game_dir(listing: &GameDirListing) -> (r: bool)
    ensures
        r == wolf_game_dir(listing),
{
    if !(is_listed(&listing.entries, "Game.exe") || is_listed(&listing.entries, "Game.ini")) {
        return false;
    }
    is_listed(&listing.dirs, "BasicData") || is_listed(&listing.entries, "Data.wolf") || (is_listed(
        &listing.dirs,
        "Data",
    ) && has_file_with_ext(&listing.entries, "Data", "wolf")) || (is_listed(&listing.dirs, "Data/MapData")
        && has_file_with_ext(&listing.entries, "Data/MapData", "mps"))
}

// ---------------------------------------------------------------------------
// Engine
// ---------------------------------------------------------------------------

/// Whether `content` parses as JSON (by `serde_json`) into an object that
/// has the key `key`.
pub uninterp spec fn json_object_has_key(content: Seq<char>, key: Seq<char>) -> bool;

/// Parses `content` with `serde_json::from_str` into a `serde_json::Value`
/// and looks `key` up with `Value::get`, which finds it only in an object.
/// The claim is that the answer depends on `content` and `key` alone, as
/// named by `json_object_has_key`; a text that does not parse has no key.
#[verifier::external_body]
fn json_has_key_call(content: &str, key: &str) -> (r: bool)
    ensures
        r == json_object_has_key(content@, key@),
{
    match serde_json::from_str::<serde_json::Value>(content) {
        Ok(v) => v.get(key).is_some(),
        Err(_) => false,
    }
}

/// An RPG Maker MV/MZ `System.json` is a JSON object with a `gameTitle`
/// (an empty title counts).
pub open spec fn mv_mz_system(content: Seq<char>) -> bool {
    json_object_has_key(content, "gameTitle"@)
}

/// Whether `content`, the text of a `System.json`, belongs to an RPG Maker
/// MV/MZ game (see `mv_mz_system`).
pub fn is_mv_mz_system(content: &str) -> (r: bool)
    ensures
        r == mv_mz_system(content@),
{
    json_has_key_call(content, "gameTitle")
}

/// The engine of a game from its directory listing and, when the MV/MZ
/// data directory (see `find_data_dir`) holds a `System.json`, that file's
/// text: MV/MZ when the text carries a `gameTitle`, else Wolf RPG when the
/// directory is a Wolf game root, else unknown. VX Ace is not detected.
pub fn detect_engine(listing: &GameDirListing, system_json: Option<&str>) -> (r: Result<Engine, DetectionError>)
    ensures
        (system_json matches Some(c) && mv_mz_system(c@)) ==> r matches Ok(Engine::MvMz),
        !(system_json matches Some(c) && mv_mz_system(c@)) && wolf_game_dir(listing) ==> r matches Ok(
            Engine::Wolf,
        ),
        !(system_json matches Some(c) && mv_mz_system(c@)) && !wolf_game_dir(listing) ==> r matches Err(
            DetectionError::UnknownEngine,
        ),
{
    if let Some(content) = system_json {
        if is_mv_mz_system(content) {
            return Ok(Engine::MvMz);
        }
    }
    if is_wolf_game_dir(listing) {
        return Ok(Engine::Wolf);
    }
    Err(DetectionError::UnknownEngine)
}

// ---------------------------------------------------------------------------
// Wolf RPG generation
// ---------------------------------------------------------------------------

/// The code pages a Wolf archive header may carry: 0, 932 or 65001.
pub open spec fn plausible_code_page(cp: u32) -> bool {
    cp == 0 || cp == 932 || cp == 65001
}

pub open spec fn version_of_code_page(cp: u32) -> WolfVersion {
    if cp == 65001 {
        WolfVersion { major: 3, minor: 0 }
    } else {
        WolfVersion { major: 2, minor: 0 }
    }
}

/// The first plausible code page that the known keys `i..` read.
pub open spec fn keyed_code_page(data: Seq<u8>, i: int) -> Option<u32>
    decreases 5 - i,
{
    if i < 0 || i >= 5 {
        None
    } else {
        match header_fields(data, wolf_key_spec(i)) {
            Ok((_, _, _, _, _, Some(cp))) => if plausible_code_page(cp) {
                Some(cp)
            } else {
                keyed_code_page(data, i + 1)
            },
            _ => keyed_code_page(data, i + 1),
        }
    }
}

/// The Wolf generation an archive's header reveals: only v6+ headers carry
/// a code page; a plaintext one is read first, then one decrypted with each
/// known key.
pub open spec fn archive_wolf_version(data: Seq<u8>) -> Option<WolfVersion> {
    match signature_version(data) {
        Err(_) => None,
        Ok(v) => if v < 6 || data.len() < 0x2C {
            None
        } else if plausible_code_page(u32_le_at(data, 0x28)) {
            Some(version_of_code_page(u32_le_at(data, 0x28)))
        } else {
            match keyed_code_page(data, 0) {
                Some(cp) => Some(version_of_code_page(cp)),
                None => None,
            }
        },
    }
}

/// Reads the Wolf generation from the header of an archive (see
/// `archive_wolf_version`).
pub fn wolf_version_of_archive(data: &[u8]) -> (r: Option<WolfVersion>)
    ensures
        r == archive_wolf_version(data@),
{
    let version = match read_signature(data) {
        Ok(v) => v,
        Err(_) => {
            return None;
        },
    };
    if version < 6 || data.len() < 0x2C {
        return None;
    }
    let cp_raw = u32_from_le_bytes(slice_subrange(data, 0x28, 0x2C));
    if cp_raw == 0 || cp_raw == 932 || cp_raw == 65001 {
        return Some(code_page_to_wolf_version(cp_raw));
    }
    let mut i: usize = 0;
    while i < WOLF_KEY_COUNT
        invariant
            i <= WOLF_KEY_COUNT,
            archive_wolf_version(data@) == match keyed_code_page(data@, i as int) {
                Some(cp) => Some(version_of_code_page(cp)),
                None => None::<WolfVersion>,
            },
        decreases WOLF_KEY_COUNT - i,
    {
        let key = wolf_key(i);
        match read_header(data, &key) {
            Ok((_, _, _, _, _, Some(cp))) => {
                if cp == 0 || cp == 932 || cp == 65001 {
                    return Some(code_page_to_wolf_version(cp));
                }
            },
            _ => {},
        }
        i = i + 1;
    }
    None
}

/// The Wolf generation of a game, from its first `.wolf` archive (the root
/// `Data.wolf`, else the first one in `Data/`), which the caller reads;
/// v2.0 (Shift-JIS) when there is none or its header tells nothing.
pub fn guess_wolf_version_from_structure(first_archive: Option<&[u8]>) -> (v: WolfVersion)
    ensures
        v == match first_archive {
            Some(d) => match archive_wolf_version(d@) {
                Some(w) => w,
                None => WolfVersion { major: 2, minor: 0 },
            },
            None => WolfVersion { major: 2, minor: 0 },
        },
{
    match first_archive {
        Some(d) => match wolf_version_of_archive(d) {
            Some(w) => w,
            None => WolfVersion { major: 2, minor: 0 },
        },
        None => WolfVersion { major: 2, minor: 0 },
    }
}

} // verus!
