//! Wolf RPG database injection: apply translations to a parsed `.dat` and
//! write it back in its binary layout.

use vstd::bytes::*;
use vstd::prelude::*;

use crate::detector::WolfVersion;
use crate::wolf::dat_parser::{
    database_of, dat_type_separator, frames_view, dat_type_separator_bytes, db_magic_sjis, db_magic_sjis_bytes,
    db_magic_utf8, db_magic_utf8_bytes, entries_view, field_is_string, field_is_valid, fields_view,
    int_count, parse_database, str_count, types_view, DatEntry, DatEntryModel, DatField, DatFieldModel,
    DatFile, DatFileModel, DatType, DatTypeModel,
};
use crate::wolf::dat_laws::lemma_dat_write_back_identity;
use crate::wolf::decryptor::str_equal;
use crate::wolf::encoding::{encode_shiftjis, encoded_text, sjis_encode_error};
use crate::wolf::v3::command::{count_u32, len_as_u32, strings_view};
use crate::wolf::v3::V3FormatError;

verus! {

/// Why an injection failed.
#[derive(Debug)]
pub enum InjectorError {
    KeyNotFound(String),
    Encoding(String),
    Io(String),
    DatParse(String),
    MissingProject(String),
    V3Format(V3FormatError),
}

/// One (key, translated text) pair to inject.
pub struct WolfTranslation {
    pub key: String,
    pub text: String,
}

/// The result of injecting one file.
pub struct InjectionResult {
    pub file_path: String,
    pub updated_count: usize,
}

// ---------------------------------------------------------------------------
// Text encoding
// ---------------------------------------------------------------------------

/// The bytes a game of `version` stores for `text`: UTF-8 for v3+, else
/// Shift-JIS (`None` when a character has no Shift-JIS code).
pub open spec fn wolf_encoded(text: Seq<char>, version: WolfVersion) -> Option<Seq<u8>> {
    encoded_text(text, version.major >= 3)
}

/// Encodes `text` for a game of `version`: UTF-8 for v3+, Shift-JIS
/// before; a character with no Shift-JIS code is an `Encoding` error.
pub fn encode_for_wolf(text: &str, version: &WolfVersion) -> (r: Result<Vec<u8>, InjectorError>)
    ensures
        match wolf_encoded(text@, *version) {
            Some(b) => r matches Ok(v) && v@ == b,
            None => r matches Err(InjectorError::Encoding(m)) && m@ == sjis_encode_error(text@),
        },
{
    if version.is_utf8() {
        Ok(vstd::slice::slice_to_vec(text.as_bytes()))
    } else {
        match encode_shiftjis(text) {
            Ok(b) => Ok(b),
            Err(m) => Err(InjectorError::Encoding(m)),
        }
    }
}

/// A length-prefixed Wolf string: `u32` size (bytes plus the NUL), the
/// bytes, a NUL.
pub open spec fn wolf_string_bytes(encoded: Seq<u8>) -> Seq<u8> {
    spec_u32_to_le_bytes((encoded.len() + 1) as u32) + encoded + seq![0u8]
}

/// Appends a length-prefixed Wolf string to `buf`.
pub fn write_wolf_string(buf: &mut Vec<u8>, encoded: &[u8])
    ensures
        final(buf)@ == old(buf)@ + wolf_string_bytes(encoded@),
{
    let size = (encoded.len() as u128 + 1) as u32;
    let mut head = u32_to_le_bytes(size);
    buf.append(&mut head);
    let mut body = vstd::slice::slice_to_vec(encoded);
    buf.append(&mut body);
    buf.push(0);
    assert(buf@ =~= old(buf)@ + wolf_string_bytes(encoded@));
}

// ---------------------------------------------------------------------------
// Serialization
// ---------------------------------------------------------------------------

/// The integer values written for an entry: its first `n` values, 0 where
/// it has fewer.
pub open spec fn padded_ints(vs: Seq<u32>, n: nat) -> Seq<u32> {
    Seq::new(n, |i: int| if i < vs.len() { vs[i] } else { 0u32 })
}

/// The strings written for an entry: its first `n` strings, empty where it
/// has fewer.
pub open spec fn padded_strings(ss: Seq<Seq<char>>, n: nat) -> Seq<Seq<char>> {
    Seq::new(n, |i: int| if i < ss.len() { ss[i] } else { Seq::empty() })
}

pub open spec fn ints_bytes(vs: Seq<u32>) -> Seq<u8>
    decreases vs.len(),
{
    if vs.len() == 0 {
        Seq::empty()
    } else {
        ints_bytes(vs.drop_last()) + spec_u32_to_le_bytes(vs.last())
    }
}

/// The bytes written for string slot `i` of an entry: the frame it was
/// read from while it has one, else its text (empty past the end) encoded
/// for `version` and framed (`None` when it cannot be encoded).
pub open spec fn slot_bytes(e: DatEntryModel, i: int, version: WolfVersion) -> Option<Seq<u8>> {
    if 0 <= i < e.frames.len() && e.frames[i] is Some {
        Some(e.frames[i]->0)
    } else {
        match wolf_encoded(padded_strings(e.string_values, (i + 1) as nat)[i], version) {
            Some(b) => Some(wolf_string_bytes(b)),
            None => None,
        }
    }
}

/// The bytes of the first `n` string slots of an entry.
pub open spec fn slots_bytes(e: DatEntryModel, n: nat, version: WolfVersion) -> Option<Seq<u8>>
    decreases n,
{
    if n == 0 {
        Some(Seq::empty())
    } else {
        match (slots_bytes(e, (n - 1) as nat, version), slot_bytes(e, n - 1, version)) {
            (Some(a), Some(b)) => Some(a + b),
            _ => None,
        }
    }
}

/// An entry's bytes: `ic` integers, then `sc` string slots.
pub open spec fn entry_bytes(e: DatEntryModel, ic: nat, sc: nat, version: WolfVersion) -> Option<Seq<u8>> {
    match slots_bytes(e, sc, version) {
        None => None,
        Some(sb) => Some(ints_bytes(padded_ints(e.int_values, ic)) + sb),
    }
}

pub open spec fn entries_bytes(es: Seq<DatEntryModel>, ic: nat, sc: nat, version: WolfVersion) -> Option<
    Seq<u8>,
>
    decreases es.len(),
{
    if es.len() == 0 {
        Some(Seq::empty())
    } else {
        match (entries_bytes(es.drop_last(), ic, sc, version), entry_bytes(es.last(), ic, sc, version)) {
            (Some(a), Some(b)) => Some(a + b),
            _ => None,
        }
    }
}

pub open spec fn index_infos_bytes(fs: Seq<DatFieldModel>) -> Seq<u8>
    decreases fs.len(),
{
    if fs.len() == 0 {
        Seq::empty()
    } else {
        index_infos_bytes(fs.drop_last()) + spec_u32_to_le_bytes(fs.last().index_info)
    }
}

/// A type's bytes: separator, `unknown1`, field count, the extra string as
/// it was read, the fields' `indexInfo`s, entry count, entries.
pub open spec fn dat_type_bytes(t: DatTypeModel, version: WolfVersion) -> Option<Seq<u8>> {
    match entries_bytes(t.entries, int_count(t.fields), str_count(t.fields), version) {
        None => None,
        Some(eb) => Some(
            dat_type_separator() + spec_u32_to_le_bytes(t.unknown1) + spec_u32_to_le_bytes(
                count_u32(t.fields.len() as int),
            ) + t.extra + index_infos_bytes(t.fields) + spec_u32_to_le_bytes(count_u32(t.entries.len() as int))
                + eb,
        ),
    }
}

pub open spec fn dat_types_bytes(ts: Seq<DatTypeModel>, version: WolfVersion) -> Option<Seq<u8>>
    decreases ts.len(),
{
    if ts.len() == 0 {
        Some(Seq::empty())
    } else {
        match (dat_types_bytes(ts.drop_last(), version), dat_type_bytes(ts.last(), version)) {
            (Some(a), Some(b)) => Some(a + b),
            _ => None,
        }
    }
}

/// A whole `.dat`: the original indicator, the magic of the database's
/// encoding, the original version byte, the type count, the types, the
/// terminator and the bytes after it as read. Strings keep their stored
/// frames; replaced ones are encoded for `version` (see `slot_bytes`).
pub open spec fn dat_file_bytes(db: DatFileModel, indicator: u8, version_byte: u8, version: WolfVersion) -> Option<
    Seq<u8>,
> {
    match dat_types_bytes(db.types, version) {
        None => None,
        Some(tb) => Some(
            seq![indicator] + (if db.is_utf8 {
                db_magic_utf8()
            } else {
                db_magic_sjis()
            }) + seq![version_byte] + spec_u32_to_le_bytes(count_u32(db.types.len() as int)) + tb
                + seq![db.terminator] + db.trailing,
        ),
    }
}

fn write_u32(buf: &mut Vec<u8>, v: u32)
    ensures
        final(buf)@ == old(buf)@ + spec_u32_to_le_bytes(v),
{
    let mut b = u32_to_le_bytes(v);
    buf.append(&mut b);
}

fn write_entry(buf: &mut Vec<u8>, entry: &DatEntry, ic: usize, sc: usize, version: &WolfVersion) -> (r:
    Result<(), InjectorError>)
    ensures
        match entry_bytes(entry@, ic as nat, sc as nat, *version) {
            Some(b) => r is Ok && final(buf)@ == old(buf)@ + b,
            None => r matches Err(e) && e is Encoding,
        },
{
    let ghost ints = padded_ints(entry@.int_values, ic as nat);
    let mut i: usize = 0;
    while i < ic
        invariant
            ints == padded_ints(entry@.int_values, ic as nat),
            i <= ic,
            buf@ == old(buf)@ + ints_bytes(ints.take(i as int)),
        decreases ic - i,
    {
        let v: u32 = if i < entry.int_values.len() {
            entry.int_values[i]
        } else {
            0
        };
        assert(ints.take(i + 1).drop_last() =~= ints.take(i as int));
        write_u32(buf, v);
        assert(buf@ =~= old(buf)@ + ints_bytes(ints.take(i + 1)));
        i = i + 1;
    }
    assert(ints.take(ic as int) =~= ints);
    let ghost mid = buf@;
    let ghost ev = entry@;
    let mut j: usize = 0;
    while j < sc
        invariant
            ev == entry@,
            j <= sc,
            slots_bytes(ev, j as nat, *version) is Some,
            buf@ == mid + slots_bytes(ev, j as nat, *version)->0,
        decreases sc - j,
    {
        let stored = if j < entry.frames.len() {
            match &entry.frames[j] {
                Some(f) => Some(f),
                None => None,
            }
        } else {
            None
        };
        match stored {
            Some(f) => {
                assert(ev.frames[j as int] == Some(f@));
                let mut fv = f.clone();
                buf.append(&mut fv);
            },
            None => {
                let encoded = if j < entry.string_values.len() {
                    let text = entry.string_values[j].as_str();
                    assert(text@ == padded_strings(ev.string_values, (j + 1) as nat)[j as int]);
                    encode_for_wolf(text, version)
                } else {
                    proof {
                        reveal_strlit("");
                    }
                    assert(""@ =~= padded_strings(ev.string_values, (j + 1) as nat)[j as int]);
                    encode_for_wolf("", version)
                };
                match encoded {
                    Ok(enc) => {
                        write_wolf_string(buf, enc.as_slice());
                    },
                    Err(e) => {
                        proof {
                            lemma_slots_bytes_none_extends(ev, (j + 1) as nat, sc as nat, *version);
                        }
                        return Err(e);
                    },
                }
            },
        }
        assert(buf@ =~= mid + slots_bytes(ev, (j + 1) as nat, *version)->0);
        j = j + 1;
    }
    Ok(())
}

proof fn lemma_slots_bytes_none_extends(e: DatEntryModel, i: nat, n: nat, version: WolfVersion)
    requires
        i <= n,
        slots_bytes(e, i, version) is None,
    ensures
        slots_bytes(e, n, version) is None,
    decreases n - i,
{
    if i < n {
        lemma_slots_bytes_none_extends(e, i, (n - 1) as nat, version);
    }
}

proof fn lemma_entries_bytes_none_extends(es: Seq<DatEntryModel>, i: int, n: int, ic: nat, sc: nat, version: WolfVersion)
    requires
        0 <= i <= n <= es.len(),
        entries_bytes(es.take(i), ic, sc, version) is None,
    ensures
        entries_bytes(es.take(n), ic, sc, version) is None,
    decreases n - i,
{
    if i < n {
        lemma_entries_bytes_none_extends(es, i, n - 1, ic, sc, version);
        assert(es.take(n).drop_last() =~= es.take(n - 1));
    }
}

fn count_slots(fields: &Vec<DatField>) -> (r: (usize, usize))
    ensures
        r.0 == int_count(fields_view(fields@)),
        r.1 == str_count(fields_view(fields@)),
{
    let ghost fv = fields_view(fields@);
    let mut ic: usize = 0;
    let mut sc: usize = 0;
    let mut i: usize = 0;
    while i < fields.len()
        invariant
            fv == fields_view(fields@),
            i <= fields.len(),
            ic == int_count(fv.take(i as int)),
            sc == str_count(fv.take(i as int)),
            ic + sc <= i,
        decreases fields.len() - i,
    {
        assert(fv.take(i + 1).drop_last() =~= fv.take(i as int));
        assert(fv.take(i + 1).last() == fields@[i as int]@);
        if fields[i].is_valid() {
            if fields[i].is_string() {
                sc = sc + 1;
            } else {
                ic = ic + 1;
            }
        }
        i = i + 1;
    }
    assert(fv.take(fields.len() as int) =~= fv);
    (ic, sc)
}

/// Appends one database type (see `dat_type_bytes`).
pub fn serialize_dat_type(buf: &mut Vec<u8>, dat_type: &DatType, version: &WolfVersion, is_utf8: bool) -> (r:
    Result<(), InjectorError>)
    ensures
        match dat_type_bytes(dat_type@, *version) {
            Some(b) => r is Ok && final(buf)@ == old(buf)@ + b,
            None => r matches Err(e) && e is Encoding,
        },
{
    let sep = dat_type_separator_bytes();
    let mut sepv = vstd::slice::slice_to_vec(sep.as_slice());
    buf.append(&mut sepv);
    write_u32(buf, dat_type.unknown1);
    write_u32(buf, len_as_u32(dat_type.fields.len()));
    let mut extra = dat_type.extra.clone();
    buf.append(&mut extra);
    let ghost fv = fields_view(dat_type.fields@);
    let ghost b0 = buf@;
    let mut i: usize = 0;
    while i < dat_type.fields.len()
        invariant
            fv == fields_view(dat_type.fields@),
            i <= dat_type.fields.len(),
            buf@ == b0 + index_infos_bytes(fv.take(i as int)),
        decreases dat_type.fields.len() - i,
    {
        assert(fv.take(i + 1).drop_last() =~= fv.take(i as int));
        write_u32(buf, dat_type.fields[i].index_info);
        assert(buf@ =~= b0 + index_infos_bytes(fv.take(i + 1)));
        i = i + 1;
    }
    assert(fv.take(dat_type.fields.len() as int) =~= fv);
    write_u32(buf, len_as_u32(dat_type.entries.len()));
    let (ic, sc) = count_slots(&dat_type.fields);
    let ghost ev = entries_view(dat_type.entries@);
    let ghost b1 = buf@;
    let mut k: usize = 0;
    assert(ev.take(0) =~= Seq::<DatEntryModel>::empty());
    while k < dat_type.entries.len()
        invariant
            ev == entries_view(dat_type.entries@),
            fv == fields_view(dat_type.fields@),
            ic == int_count(fv),
            sc == str_count(fv),
            k <= dat_type.entries.len(),
            entries_bytes(ev.take(k as int), ic as nat, sc as nat, *version) is Some,
            buf@ == b1 + entries_bytes(ev.take(k as int), ic as nat, sc as nat, *version)->0,
        decreases dat_type.entries.len() - k,
    {
        assert(ev.take(k + 1).drop_last() =~= ev.take(k as int));
        assert(ev.take(k + 1).last() == dat_type.entries@[k as int]@);
        let ghost before = buf@;
        match write_entry(buf, &dat_type.entries[k], ic, sc, version) {
            Ok(()) => {},
            Err(e) => {
                proof {
                    lemma_entries_bytes_none_extends(ev, k + 1, dat_type.entries.len() as int, ic as nat, sc as nat, *version);
                    assert(ev.take(dat_type.entries.len() as int) =~= ev);
                }
                return Err(e);
            },
        }
        assert(buf@ =~= b1 + entries_bytes(ev.take(k + 1), ic as nat, sc as nat, *version)->0);
        k = k + 1;
    }
    assert(ev.take(dat_type.entries.len() as int) =~= ev);
    proof {
        let t = dat_type@;
        let eb = entries_bytes(t.entries, int_count(t.fields), str_count(t.fields), *version)->0;
        assert(buf@ =~= old(buf)@ + dat_type_bytes(t, *version)->0);
    }
    Ok(())
}

proof fn lemma_dat_types_bytes_none_extends(ts: Seq<DatTypeModel>, i: int, n: int, version: WolfVersion)
    requires
        0 <= i <= n <= ts.len(),
        dat_types_bytes(ts.take(i), version) is None,
    ensures
        dat_types_bytes(ts.take(n), version) is None,
    decreases n - i,
{
    if i < n {
        lemma_dat_types_bytes_none_extends(ts, i, n - 1, version);
        assert(ts.take(n).drop_last() =~= ts.take(n - 1));
    }
}

/// Writes a database back to `.dat` bytes (see `dat_file_bytes`), keeping the
/// indicator and version bytes of `dat_original_header`.
pub fn serialize_dat(dat: &DatFile, dat_original_header: &[u8], version: &WolfVersion) -> (r: Result<
    Vec<u8>,
    InjectorError,
>)
    requires
        dat_original_header@.len() >= 11,
    ensures
        match dat_file_bytes(dat@, dat_original_header@[0], dat_original_header@[10], *version) {
            Some(b) => r matches Ok(v) && v@ == b,
            None => r matches Err(e) && e is Encoding,
        },
{
    let indicator = dat_original_header[0];
    let version_byte = dat_original_header[10];
    let magic = if dat.is_utf8 {
        db_magic_utf8_bytes()
    } else {
        db_magic_sjis_bytes()
    };
    let mut buf: Vec<u8> = Vec::new();
    buf.push(indicator);
    let mut mv = vstd::slice::slice_to_vec(magic.as_slice());
    buf.append(&mut mv);
    buf.push(version_byte);
    write_u32(&mut buf, len_as_u32(dat.types.len()));
    let ghost tv = types_view(dat.types@);
    let ghost b0 = buf@;
    let mut i: usize = 0;
    assert(tv.take(0) =~= Seq::<DatTypeModel>::empty());
    while i < dat.types.len()
        invariant
            tv == types_view(dat.types@),
            i <= dat.types.len(),
            dat_types_bytes(tv.take(i as int), *version) is Some,
            buf@ == b0 + dat_types_bytes(tv.take(i as int), *version)->0,
        decreases dat.types.len() - i,
    {
        assert(tv.take(i + 1).drop_last() =~= tv.take(i as int));
        assert(tv.take(i + 1).last() == dat.types@[i as int]@);
        match serialize_dat_type(&mut buf, &dat.types[i], version, dat.is_utf8) {
            Ok(()) => {},
            Err(e) => {
                proof {
                    lemma_dat_types_bytes_none_extends(tv, i + 1, dat.types.len() as int, *version);
                    assert(tv.take(dat.types.len() as int) =~= tv);
                }
                return Err(e);
            },
        }
        assert(buf@ =~= b0 + dat_types_bytes(tv.take(i + 1), *version)->0);
        i = i + 1;
    }
    assert(tv.take(dat.types.len() as int) =~= tv);
    buf.push(dat.terminator);
    let mut trailing = dat.trailing.clone();
    buf.append(&mut trailing);
    assert(buf@ =~= dat_file_bytes(dat@, indicator, version_byte, *version)->0);
    Ok(buf)
}

// ---------------------------------------------------------------------------
// Translation keys
// ---------------------------------------------------------------------------

/// The index of the first `/` in `s` at or after `i`, or -1.
pub open spec fn first_slash(s: Seq<char>, i: int) -> int
    decreases s.len() - i,
{
    if i < 0 || i >= s.len() {
        -1
    } else if s[i] == '/' {
        i
    } else {
        first_slash(s, i + 1)
    }
}

/// `s` split at `/` into at most `n` parts, the last one holding the rest
/// (as `str::splitn`).
pub open spec fn split_n(s: Seq<char>, n: nat) -> Seq<Seq<char>>
    decreases n,
{
    if n <= 1 {
        seq![s]
    } else {
        let k = first_slash(s, 0);
        if k < 0 {
            seq![s]
        } else {
            seq![s.take(k)] + split_n(s.skip(k + 1), (n - 1) as nat)
        }
    }
}

pub open spec fn is_digit(c: char) -> bool {
    '0' <= c <= '9'
}

/// The number the decimal digits `d` stand for.
pub open spec fn digits_value(d: Seq<char>) -> int
    decreases d.len(),
{
    if d.len() == 0 {
        0
    } else {
        digits_value(d.drop_last()) * 10 + (d.last() as int - '0' as int)
    }
}

/// `usize`'s `FromStr`: an optional `+`, then at least one decimal digit,
/// the value fitting a `usize`.
pub open spec fn parsed_usize(s: Seq<char>) -> Option<usize> {
    let d = unsigned_digits(s);
    if d.len() == 0 || !all_digits(d) || digits_value(d) > usize::MAX {
        None
    } else {
        Some(digits_value(d) as usize)
    }
}

/// `s` without a leading `+`.
pub open spec fn unsigned_digits(s: Seq<char>) -> Seq<char> {
    if s.len() > 0 && s[0] == '+' {
        s.skip(1)
    } else {
        s
    }
}

pub open spec fn all_digits(d: Seq<char>) -> bool {
    forall|i: int| 0 <= i < d.len() ==> is_digit(#[trigger] d[i])
}

/// What a database key `Database/{db}/{type}/{entry}/{field}` points at:
/// type index, entry index and field name.
pub open spec fn key_target(key: Seq<char>) -> Option<(usize, usize, Seq<char>)> {
    let parts = split_n(key, 5);
    if parts.len() < 5 {
        None
    } else {
        match (parsed_usize(parts[2]), parsed_usize(parts[3])) {
            (Some(t), Some(e)) => Some((t, e, parts[4])),
            _ => None,
        }
    }
}

proof fn lemma_digits_value_nonneg(d: Seq<char>)
    requires
        forall|i: int| 0 <= i < d.len() ==> is_digit(#[trigger] d[i]),
    ensures
        digits_value(d) >= 0,
    decreases d.len(),
{
    if d.len() > 0 {
        assert(is_digit(d[d.len() - 1]));
        lemma_digits_value_nonneg(d.drop_last());
    }
}

proof fn lemma_digits_value_grows(d: Seq<char>, k: int)
    requires
        0 <= k <= d.len(),
        forall|i: int| 0 <= i < d.len() ==> is_digit(#[trigger] d[i]),
    ensures
        digits_value(d) >= digits_value(d.take(k)),
    decreases d.len() - k,
{
    if k < d.len() {
        assert(d.take(k + 1).drop_last() =~= d.take(k));
        assert(d.take(k + 1).last() == d[k]);
        assert(is_digit(d[k]));
        assert forall|i: int| 0 <= i < d.take(k).len() implies is_digit(#[trigger] d.take(k)[i]) by {
            assert(d.take(k)[i] == d[i]);
        }
        lemma_digits_value_nonneg(d.take(k));
        lemma_digits_value_grows(d, k + 1);
        assert(d[k] as int - '0' as int >= 0);
    } else {
        assert(d.take(k) =~= d);
    }
}

/// Parses a `usize` as `str::parse` does (see `parsed_usize`).
pub fn parse_usize(s: &Vec<char>) -> (r: Option<usize>)
    ensures
        r == parsed_usize(s@),
{
    let start: usize = if s.len() > 0 && s[0] == '+' {
        1
    } else {
        0
    };
    let ghost d = if s@.len() > 0 && s@[0] == '+' {
        s@.skip(1)
    } else {
        s@
    };
    if start >= s.len() {
        assert(d.len() == 0);
        return None;
    }
    assert(s@.skip(0) =~= s@);
    let mut value: usize = 0;
    let mut i: usize = start;
    while i < s.len()
        invariant
            start <= i <= s.len(),
            start < s.len(),
            d == s@.skip(start as int),
            d == unsigned_digits(s@),
            forall|j: int| 0 <= j < i - start ==> is_digit(#[trigger] d[j]),
            value == digits_value(d.take(i - start)),
        decreases s.len() - i,
    {
        let c = s[i];
        assert(d[i - start] == c);
        if !('0' <= c && c <= '9') {
            assert(!is_digit(d[i - start]));
            assert(!all_digits(d));
            return None;
        }
        let digit = (c as u32 - '0' as u32) as usize;
        assert(d.take(i - start + 1).drop_last() =~= d.take(i - start));
        assert(d.take(i - start + 1).last() == c);
        match value.checked_mul(10) {
            Some(v10) => match v10.checked_add(digit) {
                Some(v) => {
                    value = v;
                },
                None => {
                    proof {
                        assert forall|j: int| 0 <= j < i - start + 1 implies is_digit(#[trigger] d.take(i - start + 1)[j]) by {
                            assert(d.take(i - start + 1)[j] == d[j]);
                        }
                        if all_digits(d) {
                            lemma_digits_value_grows(d, i - start + 1);
                        }
                    }
                    return None;
                },
            },
            None => {
                proof {
                    assert forall|j: int| 0 <= j < i - start implies is_digit(#[trigger] d.take(i - start)[j]) by {
                        assert(d.take(i - start)[j] == d[j]);
                    }
                    lemma_digits_value_nonneg(d.take(i - start));
                    if all_digits(d) {
                        lemma_digits_value_grows(d, i - start + 1);
                    }
                }
                return None;
            },
        }
        i = i + 1;
    }
    assert(d.take(d.len() as int) =~= d);
    Some(value)
}

/// The characters of `s`.
pub fn chars_of(s: &str) -> (v: Vec<char>)
    ensures
        v@ == s@,
{
    let n = s.unicode_len();
    let mut v: Vec<char> = Vec::new();
    let mut i: usize = 0;
    while i < n
        invariant
            n == s@.len(),
            i <= n,
            v@ == s@.take(i as int),
        decreases n - i,
    {
        v.push(s.get_char(i));
        assert(v@ =~= s@.take(i + 1));
        i = i + 1;
    }
    assert(s@.take(n as int) =~= s@);
    v
}

fn find_slash(s: &Vec<char>) -> (k: Option<usize>)
    ensures
        match k {
            Some(i) => first_slash(s@, 0) == i && i < s@.len() && s@[i as int] == '/',
            None => first_slash(s@, 0) == -1,
        },
{
    let mut i: usize = 0;
    while i < s.len()
        invariant
            i <= s@.len(),
            first_slash(s@, 0) == first_slash(s@, i as int),
        decreases s@.len() - i,
    {
        if s[i] == '/' {
            return Some(i);
        }
        i = i + 1;
    }
    None
}

/// Splits `s` at `/` into at most `n` parts (see `split_n`).
pub fn split_chars(s: Vec<char>, n: usize) -> (parts: Vec<Vec<char>>)
    ensures
        parts@.map_values(|p: Vec<char>| p@) == split_n(s@, n as nat),
    decreases n,
{
    if n <= 1 {
        let v = vec![s];
        assert(v@.map_values(|p: Vec<char>| p@) =~= split_n(v@[0]@, n as nat));
        return v;
    }
    match find_slash(&s) {
        None => {
            let ghost sv = s@;
            let v = vec![s];
            assert(v@.map_values(|p: Vec<char>| p@) =~= split_n(sv, n as nat));
            v
        },
        Some(k) => {
            assert(k < s.len());
            let head = vstd::slice::slice_to_vec(vstd::slice::slice_subrange(s.as_slice(), 0, k));
            let tail = vstd::slice::slice_to_vec(vstd::slice::slice_subrange(s.as_slice(), k + 1, s.len()));
            assert(head@ =~= s@.take(k as int));
            assert(tail@ =~= s@.skip(k + 1));
            let rest = split_chars(tail, n - 1);
            let mut v = vec![head];
            let mut rest_mut = rest;
            let ghost rv = rest_mut@;
            v.append(&mut rest_mut);
            assert(v@.map_values(|p: Vec<char>| p@) =~= seq![s@.take(k as int)] + rv.map_values(
                |p: Vec<char>| p@,
            ));
            v
        },
    }
}

/// The translation target of a database key (see `key_target`).
pub fn parse_key(key: &str) -> (r: Option<(usize, usize, Vec<char>)>)
    ensures
        match key_target(key@) {
            None => r is None,
            Some((t, e, f)) => r matches Some((rt, re, rf)) && rt == t && re == e && rf@ == f,
        },
{
    let parts = split_chars(chars_of(key), 5);
    proof {
        assert(parts@.len() == parts@.map_values(|p: Vec<char>| p@).len());
    }
    if parts.len() < 5 {
        return None;
    }
    assert(parts@[2]@ == split_n(key@, 5)[2]);
    assert(parts@[3]@ == split_n(key@, 5)[3]);
    assert(parts@[4]@ == split_n(key@, 5)[4]);
    let t = match parse_usize(&parts[2]) {
        Some(t) => t,
        None => return None,
    };
    let e = match parse_usize(&parts[3]) {
        Some(e) => e,
        None => return None,
    };
    Some((t, e, parts[4].clone()))
}

/// The string slot of the field named `name`: its position among the valid
/// string fields (the first such field of that name), counting from
/// `slot` at field `i`.
pub open spec fn slot_from(fields: Seq<DatFieldModel>, name: Seq<char>, i: int, slot: int) -> Option<int>
    decreases fields.len() - i,
{
    if i < 0 || i >= fields.len() {
        None
    } else if !field_is_valid(fields[i]) || !field_is_string(fields[i]) {
        slot_from(fields, name, i + 1, slot)
    } else if fields[i].name == name {
        Some(slot)
    } else {
        slot_from(fields, name, i + 1, slot + 1)
    }
}

/// The database with one translation applied: the string of the named
/// field in the given entry of the given type replaced; `None` when the
/// key is malformed or points nowhere.
pub open spec fn translate_once(db: DatFileModel, key: Seq<char>, text: Seq<char>) -> Option<DatFileModel> {
    match key_target(key) {
        None => None,
        Some((t, e, fname)) => if t >= db.types.len() {
            None
        } else {
            let ty = db.types[t as int];
            match slot_from(ty.fields, fname, 0, 0) {
                None => None,
                Some(slot) => if e >= ty.entries.len() || slot >= ty.entries[e as int].string_values.len() {
                    None
                } else {
                    let en = ty.entries[e as int];
                    let en2 = DatEntryModel {
                        string_values: en.string_values.update(slot, text),
                        frames: if slot < en.frames.len() {
                            en.frames.update(slot, None)
                        } else {
                            en.frames
                        },
                        ..en
                    };
                    let ty2 = DatTypeModel { entries: ty.entries.update(e as int, en2), ..ty };
                    Some(DatFileModel { types: db.types.update(t as int, ty2), ..db })
                },
            }
        },
    }
}

/// All translations applied in order; the key of the first that fails.
pub open spec fn translate_all(db: DatFileModel, ts: Seq<(Seq<char>, Seq<char>)>) -> Result<
    DatFileModel,
    Seq<char>,
>
    decreases ts.len(),
{
    if ts.len() == 0 {
        Ok(db)
    } else {
        match translate_all(db, ts.drop_last()) {
            Err(k) => Err(k),
            Ok(d) => match translate_once(d, ts.last().0, ts.last().1) {
                None => Err(ts.last().0),
                Some(d2) => Ok(d2),
            },
        }
    }
}

pub open spec fn translations_view(ts: Seq<WolfTranslation>) -> Seq<(Seq<char>, Seq<char>)> {
    ts.map_values(|t: WolfTranslation| (t.key@, t.text@))
}

fn chars_equal(a: &Vec<char>, b: &Vec<char>) -> (r: bool)
    ensures
        r == (a@ == b@),
{
    if a.len() != b.len() {
        return false;
    }
    let mut i: usize = 0;
    while i < a.len()
        invariant
            a@.len() == b@.len(),
            i <= a@.len(),
            forall|j: int| 0 <= j < i ==> a@[j] == b@[j],
        decreases a@.len() - i,
    {
        if a[i] != b[i] {
            return false;
        }
        i = i + 1;
    }
    assert(a@ =~= b@);
    true
}

fn find_string_slot(fields: &Vec<DatField>, name: &Vec<char>) -> (r: Option<usize>)
    ensures
        match slot_from(fields_view(fields@), name@, 0, 0) {
            None => r is None,
            Some(s) => r matches Some(x) && x as int == s,
        },
{
    let ghost fv = fields_view(fields@);
    let mut i: usize = 0;
    let mut slot: usize = 0;
    while i < fields.len()
        invariant
            fv == fields_view(fields@),
            i <= fields.len(),
            slot <= i,
            slot_from(fv, name@, 0, 0) == slot_from(fv, name@, i as int, slot as int),
        decreases fields.len() - i,
    {
        assert(fv[i as int] == fields@[i as int]@);
        if fields[i].is_valid() && fields[i].is_string() {
            let fname = chars_of(fields[i].name.as_str());
            if chars_equal(&fname, name) {
                return Some(slot);
            }
            slot = slot + 1;
        }
        i = i + 1;
    }
    None
}

/// Applies one translation to `db` (see `translate_once`); `false`, with
/// `db` unchanged, when the key is malformed or points nowhere.
pub fn apply_translation(db: &mut DatFile, key: &str, text: &str) -> (ok: bool)
    ensures
        match translate_once(old(db)@, key@, text@) {
            None => !ok && final(db)@ == old(db)@,
            Some(d) => ok && final(db)@ == d,
        },
{
    let (t, e, fname) = match parse_key(key) {
        Some(x) => x,
        None => return false,
    };
    if t >= db.types.len() {
        return false;
    }
    assert(db@.types[t as int] == db.types@[t as int]@);
    let slot = match find_string_slot(&db.types[t].fields, &fname) {
        Some(s) => s,
        None => return false,
    };
    if e >= db.types[t].entries.len() {
        return false;
    }
    assert(db@.types[t as int].entries[e as int] == db.types@[t as int].entries@[e as int]@);
    assert(db@.types[t as int].entries[e as int].string_values.len()
        == db.types@[t as int].entries@[e as int].string_values@.len());
    if slot >= db.types[t].entries[e].string_values.len() {
        return false;
    }
    let ghost old_db = db@;
    assert(key_target(key@) == Some((t, e, fname@)));
    assert(slot_from(old_db.types[t as int].fields, fname@, 0, 0) == Some(slot as int));
    let mut ty = db.types.remove(t);
    let mut en = ty.entries.remove(e);
    en.string_values.set(slot, String::from_str(text));
    if slot < en.frames.len() {
        en.frames.set(slot, None);
    }
    ty.entries.insert(e, en);
    db.types.insert(t, ty);
    proof {
        let d = translate_once(old_db, key@, text@)->0;
        assert(strings_view(en.string_values@) =~= old_db.types[t as int].entries[e as int].string_values.update(
            slot as int,
            text@,
        ));
        assert(entries_view(ty.entries@) =~= old_db.types[t as int].entries.update(e as int, en@));
        assert(types_view(db.types@) =~= old_db.types.update(t as int, ty@));
        let oty = old_db.types[t as int];
        let oen = oty.entries[e as int];
        assert(frames_view(en.frames@) =~= if (slot as int) < oen.frames.len() {
            oen.frames.update(slot as int, None)
        } else {
            oen.frames
        });
        assert(en@ == (DatEntryModel {
            string_values: oen.string_values.update(slot as int, text@),
            frames: if (slot as int) < oen.frames.len() {
                oen.frames.update(slot as int, None)
            } else {
                oen.frames
            },
            ..oen
        }));
        assert(ty@ == (DatTypeModel { entries: oty.entries.update(e as int, en@), ..oty }));
        assert(db@ == d);
    }
    true
}

/// Applies translations in order (see `translate_all`); on the first key
/// that fails, its key.
pub fn apply_translations(db: &mut DatFile, translations: &Vec<WolfTranslation>) -> (r: Result<(), String>)
    ensures
        match translate_all(old(db)@, translations_view(translations@)) {
            Err(k) => r matches Err(rk) && rk@ == k,
            Ok(d) => r is Ok && final(db)@ == d,
        },
{
    let ghost tv = translations_view(translations@);
    let ghost start = db@;
    let mut i: usize = 0;
    while i < translations.len()
        invariant
            tv == translations_view(translations@),
            start == old(db)@,
            i <= translations.len(),
            translate_all(start, tv.take(i as int)) == Ok::<DatFileModel, Seq<char>>(db@),
        decreases translations.len() - i,
    {
        assert(tv.take(i + 1).drop_last() =~= tv.take(i as int));
        assert(tv.take(i + 1).last() == (translations@[i as int].key@, translations@[i as int].text@));
        let ok = apply_translation(db, translations[i].key.as_str(), translations[i].text.as_str());
        if !ok {
            proof {
                lemma_translate_all_err_extends(start, tv, i + 1);
            }
            return Err(translations[i].key.clone());
        }
        i = i + 1;
    }
    assert(tv.take(translations.len() as int) =~= tv);
    Ok(())
}

proof fn lemma_translate_all_err_extends(db: DatFileModel, ts: Seq<(Seq<char>, Seq<char>)>, k: int)
    requires
        0 <= k <= ts.len(),
        translate_all(db, ts.take(k)) is Err,
    ensures
        translate_all(db, ts) == translate_all(db, ts.take(k)),
    decreases ts.len() - k,
{
    if k < ts.len() {
        assert(ts.take(k + 1).drop_last() =~= ts.take(k));
        lemma_translate_all_err_extends(db, ts, k + 1);
    } else {
        assert(ts.take(k) =~= ts);
    }
}

/// What `inject_dat` gives: the database read from the schema and values
/// (else `DatParse`), every translation applied in order (else
/// `KeyNotFound` with the first failing key), written back with the
/// original indicator and version bytes, each string in the frame it was
/// stored with unless a translation replaced it, a replaced one encoded
/// for `version` (else `Encoding`). Every applied translation counts as an
/// update; with none, the output is `dat_bytes` itself.
pub fn inject_dat(
    project_bytes: &[u8],
    dat_bytes: &[u8],
    translations: &Vec<WolfTranslation>,
    version: &WolfVersion,
) -> (r: Result<(Vec<u8>, InjectionResult), InjectorError>)
    ensures
        match database_of(project_bytes@, dat_bytes@) {
            None => r matches Err(e) && e is DatParse,
            Some(db) => match translate_all(db, translations_view(translations@)) {
                Err(k) => r matches Err(InjectorError::KeyNotFound(rk)) && rk@ == k,
                Ok(db2) => match dat_file_bytes(db2, dat_bytes@[0], dat_bytes@[10], *version) {
                    None => r matches Err(e) && e is Encoding,
                    Some(b) => r matches Ok((v, res)) && v@ == b && res.updated_count
                        == translations@.len(),
                },
            },
        },
        translations@.len() == 0 && database_of(project_bytes@, dat_bytes@) is Some ==> (r matches Ok((v, res))
            && v@ == dat_bytes@ && res.updated_count == 0),
{
    proof {
        if database_of(project_bytes@, dat_bytes@) is Some && translations@.len() == 0 {
            lemma_dat_write_back_identity(project_bytes@, dat_bytes@, *version);
            assert(translations_view(translations@) =~= Seq::<(Seq<char>, Seq<char>)>::empty());
        }
    }
    let mut db = match parse_database(project_bytes, dat_bytes) {
        Ok(db) => db,
        Err(e) => return Err(InjectorError::DatParse(e.message())),
    };
    proof {
        reveal_strlit("");
    }
    match apply_translations(&mut db, translations) {
        Ok(()) => {},
        Err(k) => return Err(InjectorError::KeyNotFound(k)),
    }
    assert(dat_bytes@.len() >= 11);
    let new_bytes = serialize_dat(&db, dat_bytes, version)?;
    Ok((new_bytes, InjectionResult { file_path: String::new(), updated_count: translations.len() }))
}

} // verus!
