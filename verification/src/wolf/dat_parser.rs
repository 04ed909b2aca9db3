//! Wolf RPG database parser: a `.project` schema (type, field and entry
//! names) plus a `.dat` file (the values).
//!
//! `.dat` layout: indicator byte (0x00: not encrypted), 9-byte magic (byte
//! 5: 0x55 UTF-8, 0x00 Shift-JIS), version byte (0xC4: LZ4, unsupported),
//! type count, then per type: separator `FE FF FF FF`, `unknown1`, field
//! count, an extra string when `unknown1` is 0x1D4C0, one `indexInfo` per
//! field, entry count, and per entry its integer values then its string
//! values; a terminator byte ends the file.

use vstd::bytes::*;
use vstd::prelude::*;
use vstd::slice::slice_subrange;

use super::v3::coder::{take_bytes, take_string, take_u32, take_u8, ByteReader};
use super::v3::command::{read_strings, read_u32s, strings_view, take_strings, take_u32s};
use super::v3::common_events::{
    read_string_lists, read_u32_lists, take_string_lists, take_u32_lists,
};
use super::v3::V3FormatError;

verus! {

/// The Shift-JIS database magic.
pub open spec fn db_magic_sjis() -> Seq<u8> {
    seq![0x57u8, 0x00, 0x00, 0x4F, 0x4C, 0x00, 0x46, 0x4D, 0x00]
}

/// The UTF-8 database magic.
pub open spec fn db_magic_utf8() -> Seq<u8> {
    seq![0x57u8, 0x00, 0x00, 0x4F, 0x4C, 0x55, 0x46, 0x4D, 0x00]
}

/// The bytes before each type's data.
pub open spec fn dat_type_separator() -> Seq<u8> {
    seq![0xFEu8, 0xFF, 0xFF, 0xFF]
}

/// `indexInfo` values from this one on are string fields.
pub const STRING_FIELD_START: u32 = 0x07D0;

/// `indexInfo` values from this one on are real fields.
pub const VALID_FIELD_START: u32 = 0x03E8;

/// An `unknown1` of this value announces an extra string.
pub const STRING_INDICATOR: u32 = 0x0001_D4C0;

/// The Shift-JIS database magic.
pub fn db_magic_sjis_bytes() -> (m: [u8; 9])
    ensures
        m@ == db_magic_sjis(),
{
    let m: [u8; 9] = [0x57, 0x00, 0x00, 0x4F, 0x4C, 0x00, 0x46, 0x4D, 0x00];
    proof {
        broadcast use vstd::array::lemma_array_index;

        assert(m@ =~= db_magic_sjis());
    }
    m
}

/// The UTF-8 database magic.
pub fn db_magic_utf8_bytes() -> (m: [u8; 9])
    ensures
        m@ == db_magic_utf8(),
{
    let m: [u8; 9] = [0x57, 0x00, 0x00, 0x4F, 0x4C, 0x55, 0x46, 0x4D, 0x00];
    proof {
        broadcast use vstd::array::lemma_array_index;

        assert(m@ =~= db_magic_utf8());
    }
    m
}

/// The type separator.
pub fn dat_type_separator_bytes() -> (m: [u8; 4])
    ensures
        m@ == dat_type_separator(),
{
    let m: [u8; 4] = [0xFE, 0xFF, 0xFF, 0xFF];
    proof {
        broadcast use vstd::array::lemma_array_index;

        assert(m@ =~= dat_type_separator());
    }
    m
}

/// Why a database could not be read.
#[derive(Debug)]
pub enum DatParseError {
    /// A read past the end of a file.
    Io(String),
    Encoding(String),
    InvalidMagic,
    Unsupported(String),
    TypeCountMismatch { project: usize, dat: usize },
    SeparatorMismatch(usize),
    ZeroLengthString,
}

// ---------------------------------------------------------------------------
// Decimal names
// ---------------------------------------------------------------------------

pub open spec fn digit_char(d: int) -> char {
    if d == 0 {
        '0'
    } else if d == 1 {
        '1'
    } else if d == 2 {
        '2'
    } else if d == 3 {
        '3'
    } else if d == 4 {
        '4'
    } else if d == 5 {
        '5'
    } else if d == 6 {
        '6'
    } else if d == 7 {
        '7'
    } else if d == 8 {
        '8'
    } else {
        '9'
    }
}

/// The decimal digits of `n`.
pub open spec fn decimal(n: nat) -> Seq<char>
    decreases n,
{
    if n < 10 {
        seq![digit_char(n as int)]
    } else {
        decimal(n / 10).push(digit_char((n % 10) as int))
    }
}

fn digit_str(d: usize) -> (s: &'static str)
    requires
        d < 10,
    ensures
        s@ == seq![digit_char(d as int)],
{
    if d == 0 {
        proof {
            reveal_strlit("0");
        }
        "0"
    } else if d == 1 {
        proof {
            reveal_strlit("1");
        }
        "1"
    } else if d == 2 {
        proof {
            reveal_strlit("2");
        }
        "2"
    } else if d == 3 {
        proof {
            reveal_strlit("3");
        }
        "3"
    } else if d == 4 {
        proof {
            reveal_strlit("4");
        }
        "4"
    } else if d == 5 {
        proof {
            reveal_strlit("5");
        }
        "5"
    } else if d == 6 {
        proof {
            reveal_strlit("6");
        }
        "6"
    } else if d == 7 {
        proof {
            reveal_strlit("7");
        }
        "7"
    } else if d == 8 {
        proof {
            reveal_strlit("8");
        }
        "8"
    } else {
        proof {
            reveal_strlit("9");
        }
        "9"
    }
}

/// `prefix` followed by the decimal digits of `n`.
pub fn append_decimal(prefix: String, n: usize) -> (s: String)
    ensures
        s@ == prefix@ + decimal(n as nat),
    decreases n,
{
    if n < 10 {
        prefix.concat(digit_str(n))
    } else {
        let head = append_decimal(prefix, n / 10);
        let s = head.concat(digit_str(n % 10));
        assert(s@ =~= prefix@ + decimal(n as nat));
        s
    }
}

/// The name given to field `i` when the schema has none: `field_{i}`.
pub open spec fn default_field_name(i: nat) -> Seq<char> {
    seq!['f', 'i', 'e', 'l', 'd', '_'] + decimal(i)
}

/// The name given to entry `i` when the schema has none: `entry_{i}`.
pub open spec fn default_entry_name(i: nat) -> Seq<char> {
    seq!['e', 'n', 't', 'r', 'y', '_'] + decimal(i)
}

fn field_name_or_default(names: &Vec<String>, i: usize) -> (s: String)
    ensures
        s@ == (if i < names@.len() { names@[i as int]@ } else { default_field_name(i as nat) }),
{
    if i < names.len() {
        names[i].clone()
    } else {
        proof {
            reveal_strlit("field_");
        }
        let prefix = String::from_str("field_");
        assert(prefix@ =~= seq!['f', 'i', 'e', 'l', 'd', '_']);
        append_decimal(prefix, i)
    }
}

fn entry_name_or_default(names: &Vec<String>, i: usize) -> (s: String)
    ensures
        s@ == (if i < names@.len() { names@[i as int]@ } else { default_entry_name(i as nat) }),
{
    if i < names.len() {
        names[i].clone()
    } else {
        proof {
            reveal_strlit("entry_");
        }
        let prefix = String::from_str("entry_");
        assert(prefix@ =~= seq!['e', 'n', 't', 'r', 'y', '_']);
        append_decimal(prefix, i)
    }
}

// ---------------------------------------------------------------------------
// The .project schema
// ---------------------------------------------------------------------------

/// The names one type of the schema gives.
pub struct ProjectTypeModel {
    pub name: Seq<char>,
    pub field_names: Seq<Seq<char>>,
    pub data_names: Seq<Seq<char>>,
}

/// A schema type's names: type name, field names (count, then strings),
/// entry names (count, then strings), and a description.
pub open spec fn take_project_names(s: Seq<u8>, is_utf8: bool) -> Option<(ProjectTypeModel, Seq<u8>)> {
    match take_string(s, is_utf8) {
        None => None,
        Some((name, r1)) => match take_u32(r1) {
            None => None,
            Some((fc, r2)) => match take_strings(r2, fc as nat, is_utf8) {
                None => None,
                Some((fields, r3)) => match take_u32(r3) {
                    None => None,
                    Some((dc, r4)) => match take_strings(r4, dc as nat, is_utf8) {
                        None => None,
                        Some((datas, r5)) => match take_string(r5, is_utf8) {
                            None => None,
                            Some((_, r6)) => Some(
                                (ProjectTypeModel { name, field_names: fields, data_names: datas }, r6),
                            ),
                        },
                    },
                },
            },
        },
    }
}

/// The rest of a schema type, skipped: the field type list (its size, then
/// that many bytes), a count and that many strings, a count and that many
/// string lists, a count and that many integer lists, a count and that
/// many integers.
pub open spec fn take_project_extra(s: Seq<u8>, is_utf8: bool) -> Option<Seq<u8>> {
    match take_u32(s) {
        None => None,
        Some((ftls, r1)) => match take_bytes(r1, ftls as int) {
            None => None,
            Some((_, r2)) => match take_u32(r2) {
                None => None,
                Some((c1, r3)) => match take_strings(r3, c1 as nat, is_utf8) {
                    None => None,
                    Some((_, r4)) => match take_u32(r4) {
                        None => None,
                        Some((c2, r5)) => match take_string_lists(r5, c2 as nat, is_utf8) {
                            None => None,
                            Some((_, r6)) => match take_u32(r6) {
                                None => None,
                                Some((c3, r7)) => match take_u32_lists(r7, c3 as nat) {
                                    None => None,
                                    Some((_, r8)) => match take_u32(r8) {
                                        None => None,
                                        Some((c4, r9)) => match take_bytes(r9, c4 * 4) {
                                            None => None,
                                            Some((_, r10)) => Some(r10),
                                        },
                                    },
                                },
                            },
                        },
                    },
                },
            },
        },
    }
}

/// `n` schema types.
pub open spec fn take_project_types(s: Seq<u8>, n: nat, is_utf8: bool) -> Option<
    (Seq<ProjectTypeModel>, Seq<u8>),
>
    decreases n,
{
    if n == 0 {
        Some((Seq::empty(), s))
    } else {
        match take_project_types(s, (n - 1) as nat, is_utf8) {
            None => None,
            Some((ts, r)) => match take_project_names(r, is_utf8) {
                None => None,
                Some((t, r1)) => match take_project_extra(r1, is_utf8) {
                    None => None,
                    Some(r2) => Some((ts.push(t), r2)),
                },
            },
        }
    }
}

/// The schema: a type count, then the types (what follows is ignored).
pub open spec fn project_of(s: Seq<u8>, is_utf8: bool) -> Option<Seq<ProjectTypeModel>> {
    match take_u32(s) {
        None => None,
        Some((n, r)) => match take_project_types(r, n as nat, is_utf8) {
            None => None,
            Some((ts, _)) => Some(ts),
        },
    }
}

/// One type of the schema.
#[derive(Debug, Clone)]
pub struct ProjectTypeInfo {
    pub name: String,
    pub field_names: Vec<String>,
    pub data_names: Vec<String>,
}

impl View for ProjectTypeInfo {
    type V = ProjectTypeModel;

    open spec fn view(&self) -> ProjectTypeModel {
        ProjectTypeModel {
            name: self.name@,
            field_names: strings_view(self.field_names@),
            data_names: strings_view(self.data_names@),
        }
    }
}

pub open spec fn project_view(ts: Seq<ProjectTypeInfo>) -> Seq<ProjectTypeModel> {
    ts.map_values(|t: ProjectTypeInfo| t@)
}

/// Any read failure of the data reader, as a database error.
pub fn dat_error(e: V3FormatError) -> (r: DatParseError)
    ensures
        match e {
            V3FormatError::ZeroLengthString { .. } => r == DatParseError::ZeroLengthString,
            V3FormatError::InvalidEncoding { message, .. } => r == DatParseError::Encoding(message),
            _ => r matches DatParseError::Io(m) && m@ == "unexpected end of file"@,
        },
{
    match e {
        V3FormatError::ZeroLengthString { .. } => DatParseError::ZeroLengthString,
        V3FormatError::InvalidEncoding { message, .. } => DatParseError::Encoding(message),
        _ => DatParseError::Io(String::from_str("unexpected end of file")),
    }
}

fn read_project_names(reader: &mut ByteReader, is_utf8: bool) -> (res: Result<ProjectTypeInfo, V3FormatError>)
    requires
        old(reader).wf(),
    ensures
        final(reader).wf(),
        final(reader).input() == old(reader).input(),
        match take_project_names(old(reader).rest(), is_utf8) {
            Some((t, r)) => res matches Ok(v) && v@ == t && final(reader).rest() == r,
            None => res is Err,
        },
{
    let name = reader.read_string(is_utf8)?;
    let fc = reader.read_u32_le()?;
    let field_names = read_strings(reader, fc as usize, is_utf8)?;
    let dc = reader.read_u32_le()?;
    let data_names = read_strings(reader, dc as usize, is_utf8)?;
    let _description = reader.read_string(is_utf8)?;
    Ok(ProjectTypeInfo { name, field_names, data_names })
}

fn skip_u32_block(reader: &mut ByteReader, count: u32) -> (res: Result<(), V3FormatError>)
    requires
        old(reader).wf(),
    ensures
        final(reader).wf(),
        final(reader).input() == old(reader).input(),
        match take_bytes(old(reader).rest(), count * 4) {
            Some((_, r)) => res is Ok && final(reader).rest() == r,
            None => res is Err,
        },
{
    let n: u64 = (count as u64) * 4;
    if n > reader.remaining() as u64 {
        return Err(
            V3FormatError::UnexpectedEof {
                offset: reader.position(),
                needed: count as usize,
                available: reader.remaining(),
            },
        );
    }
    reader.read_bytes(n as usize)?;
    Ok(())
}

fn skip_project_extra(reader: &mut ByteReader, is_utf8: bool) -> (res: Result<(), V3FormatError>)
    requires
        old(reader).wf(),
    ensures
        final(reader).wf(),
        final(reader).input() == old(reader).input(),
        match take_project_extra(old(reader).rest(), is_utf8) {
            Some(r) => res is Ok && final(reader).rest() == r,
            None => res is Err,
        },
{
    let ftls = reader.read_u32_le()?;
    reader.read_bytes(ftls as usize)?;
    let c1 = reader.read_u32_le()?;
    read_strings(reader, c1 as usize, is_utf8)?;
    let c2 = reader.read_u32_le()?;
    read_string_lists(reader, c2 as usize, is_utf8)?;
    let c3 = reader.read_u32_le()?;
    read_u32_lists(reader, c3 as usize)?;
    let c4 = reader.read_u32_le()?;
    skip_u32_block(reader, c4)?;
    Ok(())
}

proof fn lemma_take_project_types_none_extends(s: Seq<u8>, i: nat, n: nat, is_utf8: bool)
    requires
        i <= n,
        take_project_types(s, i, is_utf8) is None,
    ensures
        take_project_types(s, n, is_utf8) is None,
    decreases n - i,
{
    if i < n {
        lemma_take_project_types_none_extends(s, i, (n - 1) as nat, is_utf8);
    }
}

/// Parses a `.project` schema: the type count, then for each type its
/// names (see `project_of`).
pub fn parse_project(bytes: &[u8], is_utf8: bool) -> (res: Result<Vec<ProjectTypeInfo>, DatParseError>)
    ensures
        match project_of(bytes@, is_utf8) {
            Some(ts) => res matches Ok(v) && project_view(v@) == ts,
            None => res is Err,
        },
{
    let mut reader = ByteReader::new(bytes);
    let type_count = match reader.read_u32_le() {
        Ok(n) => n,
        Err(e) => return Err(dat_error(e)),
    };
    let ghost start = reader.rest();
    let mut types: Vec<ProjectTypeInfo> = Vec::new();
    let mut i: u32 = 0;
    while i < type_count
        invariant
            reader.wf(),
            reader.input() == bytes@,
            i <= type_count,
            project_of(bytes@, is_utf8) == match take_project_types(start, type_count as nat, is_utf8) {
                None => None,
                Some((ts, _)) => Some(ts),
            },
            take_project_types(start, i as nat, is_utf8) == Some((project_view(types@), reader.rest())),
        decreases type_count - i,
    {
        let step = match read_project_names(&mut reader, is_utf8) {
            Ok(t) => match skip_project_extra(&mut reader, is_utf8) {
                Ok(()) => Ok(t),
                Err(e) => Err(e),
            },
            Err(e) => Err(e),
        };
        match step {
            Ok(t) => {
                let ghost before = types@;
                types.push(t);
                assert(project_view(types@) =~= project_view(before).push(t@));
            },
            Err(e) => {
                proof {
                    lemma_take_project_types_none_extends(start, (i + 1) as nat, type_count as nat, is_utf8);
                }
                return Err(dat_error(e));
            },
        }
        i = i + 1;
    }
    Ok(types)
}

// ---------------------------------------------------------------------------
// The .dat values
// ---------------------------------------------------------------------------

pub struct DatFieldModel {
    pub name: Seq<char>,
    pub index_info: u32,
}

pub struct DatEntryModel {
    pub name: Seq<char>,
    pub int_values: Seq<u32>,
    pub string_values: Seq<Seq<char>>,
    /// The stored frame (size, bytes, `0x00`) of each string as read;
    /// `None` once the string has been replaced.
    pub frames: Seq<Option<Seq<u8>>>,
}

pub struct DatTypeModel {
    pub name: Seq<char>,
    pub unknown1: u32,
    /// The framed extra string that follows the field count when
    /// `unknown1` is `STRING_INDICATOR`, as read (empty otherwise).
    pub extra: Seq<u8>,
    pub fields: Seq<DatFieldModel>,
    pub entries: Seq<DatEntryModel>,
}

pub struct DatFileModel {
    pub types: Seq<DatTypeModel>,
    pub is_utf8: bool,
    /// The byte after the last type.
    pub terminator: u8,
    /// Whatever follows the terminator.
    pub trailing: Seq<u8>,
}

pub open spec fn field_is_valid(f: DatFieldModel) -> bool {
    f.index_info >= VALID_FIELD_START
}

pub open spec fn field_is_string(f: DatFieldModel) -> bool {
    f.index_info >= STRING_FIELD_START
}

/// The number of integer values each entry holds: the valid fields that
/// are not strings.
pub open spec fn int_count(fs: Seq<DatFieldModel>) -> nat
    decreases fs.len(),
{
    if fs.len() == 0 {
        0
    } else {
        int_count(fs.drop_last()) + if field_is_valid(fs.last()) && !field_is_string(fs.last()) {
            1nat
        } else {
            0nat
        }
    }
}

/// The number of string values each entry holds: the valid string fields.
pub open spec fn str_count(fs: Seq<DatFieldModel>) -> nat
    decreases fs.len(),
{
    if fs.len() == 0 {
        0
    } else {
        str_count(fs.drop_last()) + if field_is_valid(fs.last()) && field_is_string(fs.last()) {
            1nat
        } else {
            0nat
        }
    }
}

/// The first `n` fields: one `indexInfo` each, named from the schema (or
/// `field_{i}` past its end).
pub open spec fn take_dat_fields(s: Seq<u8>, n: nat, names: Seq<Seq<char>>) -> Option<
    (Seq<DatFieldModel>, Seq<u8>),
>
    decreases n,
{
    if n == 0 {
        Some((Seq::empty(), s))
    } else {
        match take_dat_fields(s, (n - 1) as nat, names) {
            None => None,
            Some((fs, r)) => match take_u32(r) {
                None => None,
                Some((ii, r1)) => {
                    let i = (n - 1) as nat;
                    let name = if i < names.len() {
                        names[i as int]
                    } else {
                        default_field_name(i)
                    };
                    Some((fs.push(DatFieldModel { name, index_info: ii }), r1))
                },
            },
        }
    }
}

/// `n` strings, each with the frame it was read from.
pub open spec fn take_framed_strings(s: Seq<u8>, n: nat, is_utf8: bool) -> Option<
    (Seq<Seq<char>>, Seq<Option<Seq<u8>>>, Seq<u8>),
>
    decreases n,
{
    if n == 0 {
        Some((Seq::empty(), Seq::empty(), s))
    } else {
        match take_framed_strings(s, (n - 1) as nat, is_utf8) {
            None => None,
            Some((ts, fs, r)) => match take_string(r, is_utf8) {
                None => None,
                Some((t, r2)) => Some((ts.push(t), fs.push(Some(consumed(r, r2))), r2)),
            },
        }
    }
}

/// The first `n` entries: `ic` integers then `sc` strings each, named from
/// the schema (or `entry_{i}` past its end).
pub open spec fn take_dat_entries(
    s: Seq<u8>,
    n: nat,
    ic: nat,
    sc: nat,
    names: Seq<Seq<char>>,
    is_utf8: bool,
) -> Option<(Seq<DatEntryModel>, Seq<u8>)>
    decreases n,
{
    if n == 0 {
        Some((Seq::empty(), s))
    } else {
        match take_dat_entries(s, (n - 1) as nat, ic, sc, names, is_utf8) {
            None => None,
            Some((es, r)) => match take_u32s(r, ic) {
                None => None,
                Some((ints, r1)) => match take_framed_strings(r1, sc, is_utf8) {
                    None => None,
                    Some((strs, frames, r2)) => {
                        let i = (n - 1) as nat;
                        let name = if i < names.len() {
                            names[i as int]
                        } else {
                            default_entry_name(i)
                        };
                        Some(
                            (
                                es.push(
                                    DatEntryModel { name, int_values: ints, string_values: strs, frames },
                                ),
                                r2,
                            ),
                        )
                    },
                },
            },
        }
    }
}

/// The bytes that a read took from `s` when `r` is left.
pub open spec fn consumed(s: Seq<u8>, r: Seq<u8>) -> Seq<u8> {
    s.take(s.len() - r.len())
}

/// A type's head: separator, `unknown1`, field count, and the extra string
/// when `unknown1` asks for one (kept as the bytes read). `None` also when
/// the separator is wrong.
pub open spec fn take_dat_type_head(s: Seq<u8>, is_utf8: bool) -> Option<((u32, Seq<u8>, u32), Seq<u8>)> {
    match take_bytes(s, 4) {
        None => None,
        Some((sep, r1)) => if sep != dat_type_separator() {
            None
        } else {
            match take_u32(r1) {
                None => None,
                Some((u1, r2)) => match take_u32(r2) {
                    None => None,
                    Some((fs, r3)) => if u1 == STRING_INDICATOR {
                        match take_string(r3, is_utf8) {
                            None => None,
                            Some((_, r4)) => Some(((u1, consumed(r3, r4), fs), r4)),
                        }
                    } else {
                        Some(((u1, Seq::empty(), fs), r3))
                    },
                },
            }
        },
    }
}

/// One type's data, named and labelled from its schema type.
pub open spec fn take_dat_type(s: Seq<u8>, proj: ProjectTypeModel, is_utf8: bool) -> Option<
    (DatTypeModel, Seq<u8>),
> {
    match take_dat_type_head(s, is_utf8) {
        None => None,
        Some(((u1, extra, fs), r1)) => match take_dat_fields(r1, fs as nat, proj.field_names) {
            None => None,
            Some((fields, r2)) => match take_u32(r2) {
                None => None,
                Some((dc, r3)) => match take_dat_entries(
                    r3,
                    dc as nat,
                    int_count(fields),
                    str_count(fields),
                    proj.data_names,
                    is_utf8,
                ) {
                    None => None,
                    Some((entries, r4)) => Some(
                        (DatTypeModel { name: proj.name, unknown1: u1, extra, fields, entries }, r4),
                    ),
                },
            },
        },
    }
}

/// The data of the first `k` schema types, in order.
pub open spec fn take_dat_types(s: Seq<u8>, projs: Seq<ProjectTypeModel>, k: nat, is_utf8: bool) -> Option<
    (Seq<DatTypeModel>, Seq<u8>),
>
    decreases k,
{
    if k == 0 {
        Some((Seq::empty(), s))
    } else {
        match take_dat_types(s, projs, (k - 1) as nat, is_utf8) {
            None => None,
            Some((ts, r)) => match take_dat_type(r, projs[k - 1], is_utf8) {
                None => None,
                Some((t, r1)) => Some((ts.push(t), r1)),
            },
        }
    }
}

/// The `.dat` types after the 11-byte header: a type count that must match
/// the schema's, the types, a terminator byte, and what follows it.
pub open spec fn dat_types_of(dat: Seq<u8>, projs: Seq<ProjectTypeModel>, is_utf8: bool) -> Option<
    (Seq<DatTypeModel>, u8, Seq<u8>),
> {
    match take_bytes(dat, 11) {
        None => None,
        Some((_, r0)) => match take_u32(r0) {
            None => None,
            Some((n, r1)) => if n != projs.len() {
                None
            } else {
                match take_dat_types(r1, projs, projs.len(), is_utf8) {
                    None => None,
                    Some((ts, r2)) => match take_u8(r2) {
                        None => None,
                        Some((t, r3)) => Some((ts, t, r3)),
                    },
                }
            },
        },
    }
}

/// One field of a database type.
#[derive(Debug, Clone)]
pub struct DatField {
    pub name: String,
    pub index_info: u32,
}

impl View for DatField {
    type V = DatFieldModel;

    open spec fn view(&self) -> DatFieldModel {
        DatFieldModel { name: self.name@, index_info: self.index_info }
    }
}

impl DatField {
    /// The field holds strings (`indexInfo >= 0x07D0`).
    pub fn is_string(&self) -> (r: bool)
        ensures
            r == field_is_string(self@),
    {
        self.index_info >= STRING_FIELD_START
    }

    /// The field is a real one, not padding (`indexInfo >= 0x03E8`).
    pub fn is_valid(&self) -> (r: bool)
        ensures
            r == field_is_valid(self@),
    {
        self.index_info >= VALID_FIELD_START
    }
}

/// One entry (row) of a database type.
#[derive(Debug, Clone)]
pub struct DatEntry {
    pub name: String,
    pub int_values: Vec<u32>,
    pub string_values: Vec<String>,
    /// The stored frame of each string as read; `None` once replaced.
    pub frames: Vec<Option<Vec<u8>>>,
}

pub open spec fn frames_view(fs: Seq<Option<Vec<u8>>>) -> Seq<Option<Seq<u8>>> {
    fs.map_values(|f: Option<Vec<u8>>| match f {
        Some(v) => Some(v@),
        None => None,
    })
}

impl View for DatEntry {
    type V = DatEntryModel;

    open spec fn view(&self) -> DatEntryModel {
        DatEntryModel {
            name: self.name@,
            int_values: self.int_values@,
            string_values: strings_view(self.string_values@),
            frames: frames_view(self.frames@),
        }
    }
}

/// One database type: its fields and entries.
#[derive(Debug, Clone)]
pub struct DatType {
    pub name: String,
    pub unknown1: u32,
    /// The framed extra string read when `unknown1` is `STRING_INDICATOR`.
    pub extra: Vec<u8>,
    pub fields: Vec<DatField>,
    pub entries: Vec<DatEntry>,
}

pub open spec fn fields_view(fs: Seq<DatField>) -> Seq<DatFieldModel> {
    fs.map_values(|f: DatField| f@)
}

pub open spec fn entries_view(es: Seq<DatEntry>) -> Seq<DatEntryModel> {
    es.map_values(|e: DatEntry| e@)
}

impl View for DatType {
    type V = DatTypeModel;

    open spec fn view(&self) -> DatTypeModel {
        DatTypeModel {
            name: self.name@,
            unknown1: self.unknown1,
            extra: self.extra@,
            fields: fields_view(self.fields@),
            entries: entries_view(self.entries@),
        }
    }
}

pub open spec fn types_view(ts: Seq<DatType>) -> Seq<DatTypeModel> {
    ts.map_values(|t: DatType| t@)
}

/// A parsed database.
#[derive(Debug, Clone)]
pub struct DatFile {
    pub types: Vec<DatType>,
    /// The text encoding, which a writer needs for the magic.
    pub is_utf8: bool,
    /// The byte after the last type.
    pub terminator: u8,
    /// Whatever follows the terminator.
    pub trailing: Vec<u8>,
}

impl View for DatFile {
    type V = DatFileModel;

    open spec fn view(&self) -> DatFileModel {
        DatFileModel {
            types: types_view(self.types@),
            is_utf8: self.is_utf8,
            terminator: self.terminator,
            trailing: self.trailing@,
        }
    }
}

proof fn lemma_take_dat_fields_none_extends(s: Seq<u8>, i: nat, n: nat, names: Seq<Seq<char>>)
    requires
        i <= n,
        take_dat_fields(s, i, names) is None,
    ensures
        take_dat_fields(s, n, names) is None,
    decreases n - i,
{
    if i < n {
        lemma_take_dat_fields_none_extends(s, i, (n - 1) as nat, names);
    }
}

proof fn lemma_take_dat_entries_none_extends(
    s: Seq<u8>,
    i: nat,
    n: nat,
    ic: nat,
    sc: nat,
    names: Seq<Seq<char>>,
    is_utf8: bool,
)
    requires
        i <= n,
        take_dat_entries(s, i, ic, sc, names, is_utf8) is None,
    ensures
        take_dat_entries(s, n, ic, sc, names, is_utf8) is None,
    decreases n - i,
{
    if i < n {
        lemma_take_dat_entries_none_extends(s, i, (n - 1) as nat, ic, sc, names, is_utf8);
    }
}

fn read_dat_fields(reader: &mut ByteReader, n: u32, names: &Vec<String>) -> (res: Result<
    Vec<DatField>,
    V3FormatError,
>)
    requires
        old(reader).wf(),
    ensures
        final(reader).wf(),
        final(reader).input() == old(reader).input(),
        match take_dat_fields(old(reader).rest(), n as nat, strings_view(names@)) {
            Some((fs, r)) => res matches Ok(v) && fields_view(v@) == fs && final(reader).rest() == r,
            None => res is Err,
        },
{
    let mut fields: Vec<DatField> = Vec::new();
    let mut i: u32 = 0;
    while i < n
        invariant
            reader.wf(),
            reader.input() == old(reader).input(),
            i <= n,
            take_dat_fields(old(reader).rest(), i as nat, strings_view(names@)) == Some(
                (fields_view(fields@), reader.rest()),
            ),
        decreases n - i,
    {
        match reader.read_u32_le() {
            Ok(index_info) => {
                let name = field_name_or_default(names, i as usize);
                let f = DatField { name, index_info };
                let ghost before = fields@;
                fields.push(f);
                assert(fields_view(fields@) =~= fields_view(before).push(f@));
            },
            Err(e) => {
                proof {
                    lemma_take_dat_fields_none_extends(old(reader).rest(), (i + 1) as nat, n as nat, strings_view(names@));
                }
                return Err(e);
            },
        }
        i = i + 1;
    }
    Ok(fields)
}

fn count_slots(fields: &Vec<DatField>) -> (r: (usize, usize))
    ensures
        r.0 == int_count(fields_view(fields@)),
        r.1 == str_count(fields_view(fields@)),
{
    let ghost fv = fields_view(fields@);
    let mut ic: usize = 0;
    let mut sc: usize = 0;
    let mut i: usize = 0;
    while i < fields.len()
        invariant
            fv == fields_view(fields@),
            i <= fields.len(),
            ic == int_count(fv.take(i as int)),
            sc == str_count(fv.take(i as int)),
            ic + sc <= i,
        decreases fields.len() - i,
    {
        assert(fv.take(i + 1).drop_last() =~= fv.take(i as int));
        assert(fv.take(i + 1).last() == fields@[i as int]@);
        if fields[i].is_valid() {
            if fields[i].is_string() {
                sc = sc + 1;
            } else {
                ic = ic + 1;
            }
        }
        i = i + 1;
    }
    assert(fv.take(fields.len() as int) =~= fv);
    (ic, sc)
}

fn read_framed_strings(reader: &mut ByteReader, n: usize, is_utf8: bool) -> (res: Result<
    (Vec<String>, Vec<Option<Vec<u8>>>),
    V3FormatError,
>)
    requires
        old(reader).wf(),
    ensures
        final(reader).wf(),
        final(reader).input() == old(reader).input(),
        match take_framed_strings(old(reader).rest(), n as nat, is_utf8) {
            Some((ts, fs, r)) => res matches Ok((v, f)) && strings_view(v@) == ts && frames_view(f@) == fs
                && final(reader).rest() == r,
            None => res is Err,
        },
{
    let mut strs: Vec<String> = Vec::new();
    let mut frames: Vec<Option<Vec<u8>>> = Vec::new();
    let mut i: usize = 0;
    while i < n
        invariant
            reader.wf(),
            reader.input() == old(reader).input(),
            i <= n,
            take_framed_strings(old(reader).rest(), i as nat, is_utf8) == Some(
                (strings_view(strs@), frames_view(frames@), reader.rest()),
            ),
        decreases n - i,
    {
        let start = reader.position();
        let ghost r = reader.rest();
        match reader.read_string(is_utf8) {
            Ok(t) => {
                let ghost r2 = reader.rest();
                assert(r2.len() <= r.len());
                let b = reader.consumed_since(start);
                assert(b@ =~= consumed(r, r2));
                let ghost s0 = strs@;
                let ghost f0 = frames@;
                strs.push(t);
                frames.push(Some(vstd::slice::slice_to_vec(b)));
                assert(strings_view(strs@) =~= strings_view(s0).push(t@));
                assert(frames_view(frames@) =~= frames_view(f0).push(Some(b@)));
            },
            Err(e) => {
                proof {
                    lemma_take_framed_strings_none_extends(old(reader).rest(), (i + 1) as nat, n as nat, is_utf8);
                }
                return Err(e);
            },
        }
        i = i + 1;
    }
    Ok((strs, frames))
}

proof fn lemma_take_framed_strings_none_extends(s: Seq<u8>, i: nat, n: nat, is_utf8: bool)
    requires
        i <= n,
        take_framed_strings(s, i, is_utf8) is None,
    ensures
        take_framed_strings(s, n, is_utf8) is None,
    decreases n - i,
{
    if i < n {
        lemma_take_framed_strings_none_extends(s, i, (n - 1) as nat, is_utf8);
    }
}

fn read_dat_entries(
    reader: &mut ByteReader,
    n: u32,
    ic: usize,
    sc: usize,
    names: &Vec<String>,
    is_utf8: bool,
) -> (res: Result<Vec<DatEntry>, V3FormatError>)
    requires
        old(reader).wf(),
    ensures
        final(reader).wf(),
        final(reader).input() == old(reader).input(),
        match take_dat_entries(old(reader).rest(), n as nat, ic as nat, sc as nat, strings_view(names@), is_utf8) {
            Some((es, r)) => res matches Ok(v) && entries_view(v@) == es && final(reader).rest() == r,
            None => res is Err,
        },
{
    let mut entries: Vec<DatEntry> = Vec::new();
    let mut i: u32 = 0;
    while i < n
        invariant
            reader.wf(),
            reader.input() == old(reader).input(),
            i <= n,
            take_dat_entries(old(reader).rest(), i as nat, ic as nat, sc as nat, strings_view(names@), is_utf8)
                == Some((entries_view(entries@), reader.rest())),
        decreases n - i,
    {
        let step = match read_u32s(reader, ic) {
            Ok(ints) => match read_framed_strings(reader, sc, is_utf8) {
                Ok((strs, frames)) => Ok((ints, strs, frames)),
                Err(e) => Err(e),
            },
            Err(e) => Err(e),
        };
        match step {
            Ok((int_values, string_values, frames)) => {
                let name = entry_name_or_default(names, i as usize);
                let e = DatEntry { name, int_values, string_values, frames };
                let ghost before = entries@;
                entries.push(e);
                assert(entries_view(entries@) =~= entries_view(before).push(e@));
            },
            Err(err) => {
                proof {
                    lemma_take_dat_entries_none_extends(
                        old(reader).rest(),
                        (i + 1) as nat,
                        n as nat,
                        ic as nat,
                        sc as nat,
                        strings_view(names@),
                        is_utf8,
                    );
                }
                return Err(err);
            },
        }
        i = i + 1;
    }
    Ok(entries)
}

/// Why reading one type failed: a wrong separator, or a read error.
pub enum TypeReadError {
    Separator,
    Read(V3FormatError),
}

fn read_dat_type(reader: &mut ByteReader, proj: &ProjectTypeInfo, is_utf8: bool) -> (res: Result<
    DatType,
    TypeReadError,
>)
    requires
        old(reader).wf(),
    ensures
        final(reader).wf(),
        final(reader).input() == old(reader).input(),
        match take_dat_type(old(reader).rest(), proj@, is_utf8) {
            Some((t, r)) => res matches Ok(v) && v@ == t && final(reader).rest() == r,
            None => res is Err,
        },
{
    let separator = dat_type_separator_bytes();
    let sep = match reader.read_bytes(4) {
        Ok(b) => b,
        Err(e) => return Err(TypeReadError::Read(e)),
    };
    if !(sep[0] == separator[0] && sep[1] == separator[1] && sep[2] == separator[2] && sep[3]
        == separator[3]) {
        assert(sep@ != dat_type_separator()) by {
            assert(sep@[0] != separator@[0] || sep@[1] != separator@[1] || sep@[2] != separator@[2]
                || sep@[3] != separator@[3]);
        }
        return Err(TypeReadError::Separator);
    }
    assert(sep@ =~= dat_type_separator());
    let unknown1 = match reader.read_u32_le() {
        Ok(u) => u,
        Err(e) => return Err(TypeReadError::Read(e)),
    };
    let fields_size = match reader.read_u32_le() {
        Ok(f) => f,
        Err(e) => return Err(TypeReadError::Read(e)),
    };
    let extra: Vec<u8> = if unknown1 == STRING_INDICATOR {
        let start = reader.position();
        let ghost r3 = reader.rest();
        match reader.read_string(is_utf8) {
            Ok(_) => {},
            Err(e) => return Err(TypeReadError::Read(e)),
        }
        let ghost r4 = reader.rest();
        assert(r4.len() <= r3.len());
        let b = reader.consumed_since(start);
        assert(b@ =~= consumed(r3, r4));
        vstd::slice::slice_to_vec(b)
    } else {
        Vec::new()
    };
    let fields = match read_dat_fields(reader, fields_size, &proj.field_names) {
        Ok(f) => f,
        Err(e) => return Err(TypeReadError::Read(e)),
    };
    let (ic, sc) = count_slots(&fields);
    let data_count = match reader.read_u32_le() {
        Ok(n) => n,
        Err(e) => return Err(TypeReadError::Read(e)),
    };
    let entries = match read_dat_entries(reader, data_count, ic, sc, &proj.data_names, is_utf8) {
        Ok(es) => es,
        Err(e) => return Err(TypeReadError::Read(e)),
    };
    Ok(DatType { name: proj.name.clone(), unknown1, extra, fields, entries })
}

proof fn lemma_take_dat_types_none_extends(
    s: Seq<u8>,
    projs: Seq<ProjectTypeModel>,
    i: nat,
    n: nat,
    is_utf8: bool,
)
    requires
        i <= n,
        take_dat_types(s, projs, i, is_utf8) is None,
    ensures
        take_dat_types(s, projs, n, is_utf8) is None,
    decreases n - i,
{
    if i < n {
        lemma_take_dat_types_none_extends(s, projs, i, (n - 1) as nat, is_utf8);
    }
}

/// Reads the `.dat` types after the 11-byte header (see `dat_types_of`);
/// a type count other than the schema's is `TypeCountMismatch`, a wrong
/// separator before type `i` is `SeparatorMismatch(i)`.
pub fn parse_dat_types(bytes: &[u8], project_types: &Vec<ProjectTypeInfo>, is_utf8: bool) -> (res: Result<
    (Vec<DatType>, u8, Vec<u8>),
    DatParseError,
>)
    ensures
        match dat_types_of(bytes@, project_view(project_types@), is_utf8) {
            Some((ts, t, tr)) => res matches Ok((v, vt, vtr)) && types_view(v@) == ts && vt == t && vtr@
                == tr,
            None => res is Err,
        },
        bytes@.len() >= 15 && spec_u32_from_le_bytes(bytes@.subrange(11, 15)) != project_types@.len()
            ==> (res matches Err(DatParseError::TypeCountMismatch { project, dat }) && project
            == project_types@.len() && dat == spec_u32_from_le_bytes(bytes@.subrange(11, 15))),
{
    let mut reader = ByteReader::new(bytes);
    if let Err(e) = reader.read_bytes(11) {
        return Err(dat_error(e));
    }
    proof {
        if bytes@.len() >= 15 {
            assert(bytes@.skip(11).take(4) =~= bytes@.subrange(11, 15));
        }
    }
    let type_count = match reader.read_u32_le() {
        Ok(n) => n,
        Err(e) => return Err(dat_error(e)),
    };
    if type_count as usize != project_types.len() {
        return Err(
            DatParseError::TypeCountMismatch { project: project_types.len(), dat: type_count as usize },
        );
    }
    let ghost projs = project_view(project_types@);
    let ghost start = reader.rest();
    let mut types: Vec<DatType> = Vec::new();
    let mut ti: usize = 0;
    while ti < project_types.len()
        invariant
            reader.wf(),
            reader.input() == bytes@,
            projs == project_view(project_types@),
            ti <= project_types.len(),
            bytes@.len() >= 15 ==> spec_u32_from_le_bytes(bytes@.subrange(11, 15)) == project_types@.len(),
            dat_types_of(bytes@, projs, is_utf8) == match take_dat_types(start, projs, projs.len(), is_utf8) {
                None => None,
                Some((ts, r2)) => match take_u8(r2) {
                    None => None,
                    Some((t, r3)) => Some((ts, t, r3)),
                },
            },
            take_dat_types(start, projs, ti as nat, is_utf8) == Some((types_view(types@), reader.rest())),
        decreases project_types.len() - ti,
    {
        match read_dat_type(&mut reader, &project_types[ti], is_utf8) {
            Ok(t) => {
                let ghost before = types@;
                types.push(t);
                assert(types_view(types@) =~= types_view(before).push(t@));
            },
            Err(e) => {
                proof {
                    lemma_take_dat_types_none_extends(start, projs, (ti + 1) as nat, projs.len(), is_utf8);
                }
                return Err(
                    match e {
                        TypeReadError::Separator => DatParseError::SeparatorMismatch(ti),
                        TypeReadError::Read(e) => dat_error(e),
                    },
                );
            },
        }
        ti = ti + 1;
    }
    let terminator = match reader.read_u8() {
        Ok(t) => t,
        Err(e) => return Err(dat_error(e)),
    };
    let trailing = vstd::slice::slice_to_vec(reader.unread());
    Ok((types, terminator, trailing))
}

/// What `parse_database` decides before it reads the schema and values.
pub open spec fn dat_header_check(dat: Seq<u8>) -> Option<bool> {
    if dat.len() < 11 || dat[0] != 0 || dat[10] == 0xC4 {
        None
    } else if dat.subrange(1, 10) == db_magic_utf8() {
        Some(true)
    } else if dat.subrange(1, 10) == db_magic_sjis() {
        Some(false)
    } else {
        None
    }
}

/// The database read from a `.project` schema and `.dat` values.
pub open spec fn database_of(project: Seq<u8>, dat: Seq<u8>) -> Option<DatFileModel> {
    match dat_header_check(dat) {
        None => None,
        Some(is_utf8) => match project_of(project, is_utf8) {
            None => None,
            Some(projs) => match dat_types_of(dat, projs, is_utf8) {
                None => None,
                Some((types, terminator, trailing)) => Some(DatFileModel { types, is_utf8, terminator, trailing }),
            },
        },
    }
}

fn nine_bytes_equal(a: &[u8], b: &[u8; 9]) -> (r: bool)
    requires
        a@.len() == 9,
    ensures
        r == (a@ == b@),
{
    let mut i: usize = 0;
    while i < 9
        invariant
            a@.len() == 9,
            b@.len() == 9,
            i <= 9,
            forall|j: int| 0 <= j < i ==> a@[j] == b@[j],
        decreases 9 - i,
    {
        if a[i] != b[i] {
            return false;
        }
        i = i + 1;
    }
    assert(a@ =~= b@);
    true
}

/// Parses a Wolf RPG database from its `.project` schema and `.dat` values.
/// A `.dat` shorter than its 11-byte header is an I/O error, an encrypted
/// one (indicator not 0) or an LZ4 one (version 0xC4) is unsupported, an
/// unknown magic is `InvalidMagic`; the encoding comes from the magic.
pub fn parse_database(project_bytes: &[u8], dat_bytes: &[u8]) -> (res: Result<DatFile, DatParseError>)
    ensures
        dat_bytes@.len() < 11 ==> (res matches Err(e) && e is Io),
        dat_bytes@.len() >= 11 && dat_bytes@[0] != 0 ==> (res matches Err(e) && e is Unsupported),
        dat_bytes@.len() >= 11 && dat_bytes@[0] == 0 && dat_bytes@.subrange(1, 10) != db_magic_utf8()
            && dat_bytes@.subrange(1, 10) != db_magic_sjis() ==> (res matches Err(e) && e is InvalidMagic),
        dat_bytes@.len() >= 11 && dat_bytes@[0] == 0 && dat_bytes@[10] == 0xC4 && (dat_bytes@.subrange(
            1,
            10,
        ) == db_magic_utf8() || dat_bytes@.subrange(1, 10) == db_magic_sjis()) ==> (res matches Err(e)
            && e is Unsupported),
        match database_of(project_bytes@, dat_bytes@) {
            Some(db) => res matches Ok(v) && v@ == db,
            None => res is Err,
        },
{
    if dat_bytes.len() < 11 {
        return Err(DatParseError::Io(".dat file is too short".to_owned()));
    }
    if dat_bytes[0] != 0x00 {
        return Err(DatParseError::Unsupported("encrypted database not supported".to_owned()));
    }
    let magic = slice_subrange(dat_bytes, 1, 10);
    let utf8_magic = db_magic_utf8_bytes();
    let sjis_magic = db_magic_sjis_bytes();
    let is_utf8 = if nine_bytes_equal(magic, &utf8_magic) {
        true
    } else if nine_bytes_equal(magic, &sjis_magic) {
        false
    } else {
        return Err(DatParseError::InvalidMagic);
    };
    if dat_bytes[10] == 0xC4 {
        return Err(DatParseError::Unsupported("LZ4-compressed database not supported".to_owned()));
    }
    let project_types = parse_project(project_bytes, is_utf8)?;
    let (types, terminator, trailing) = parse_dat_types(dat_bytes, &project_types, is_utf8)?;
    Ok(DatFile { types, is_utf8, terminator, trailing })
}

impl DatParseError {
    /// A human-readable description of the error.
    pub fn message(&self) -> (m: String)
        ensures
            m@ == match self {
                DatParseError::Io(x) => "I/O error: "@ + x@,
                DatParseError::Encoding(x) => "encoding error: "@ + x@,
                DatParseError::InvalidMagic => "invalid magic number"@,
                DatParseError::Unsupported(x) => "unsupported format: "@ + x@,
                DatParseError::TypeCountMismatch { project, dat } => "type count mismatch: project="@
                    + decimal(*project as nat) + ", dat="@ + decimal(*dat as nat),
                DatParseError::SeparatorMismatch(i) => "type separator mismatch at type index "@
                    + decimal(*i as nat),
                DatParseError::ZeroLengthString => "zero-length string (corrupted file)"@,
            },
    {
        match self {
            DatParseError::Io(m) => String::from_str("I/O error: ").concat(m.as_str()),
            DatParseError::Encoding(m) => String::from_str("encoding error: ").concat(m.as_str()),
            DatParseError::InvalidMagic => String::from_str("invalid magic number"),
            DatParseError::Unsupported(m) => String::from_str("unsupported format: ").concat(m.as_str()),
            DatParseError::TypeCountMismatch { project, dat } => {
                let a = append_decimal(String::from_str("type count mismatch: project="), *project);
                append_decimal(a.concat(", dat="), *dat)
            },
            DatParseError::SeparatorMismatch(i) => append_decimal(
                String::from_str("type separator mismatch at type index "),
                *i,
            ),
            DatParseError::ZeroLengthString => String::from_str("zero-length string (corrupted file)"),
        }
    }
}

} // verus!
