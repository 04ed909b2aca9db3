//! What a database read gives back of a database write.
use vstd::bytes::*;
use vstd::prelude::*;

use crate::detector::WolfVersion;
use crate::wolf::dat_parser::{
    consumed, database_of, dat_header_check, field_is_string, field_is_valid, dat_type_separator, dat_types_of, db_magic_sjis, db_magic_utf8,
    default_entry_name, default_field_name, int_count, project_of, str_count, take_dat_entries,
    take_dat_fields, take_dat_type, take_dat_type_head, take_dat_types, take_framed_strings, DatEntryModel,
    DatFieldModel,
    DatFileModel, DatTypeModel, ProjectTypeModel, STRING_INDICATOR,
};
use crate::json::{array_index, lemma_decimal_index, plain_token};
use crate::wolf::dat_parser::decimal;
use crate::wolf::extractor::{database_key, database_segments_of, entry_segments, string_slot, type_segments, KindView, SegmentView};
use crate::wolf::injector::{
    first_slash, parsed_usize, split_n,
    dat_file_bytes, dat_type_bytes, dat_types_bytes, entries_bytes, entry_bytes, index_infos_bytes, ints_bytes,
    key_target, padded_ints, padded_strings, slot_bytes, slot_from, slots_bytes, translate_all, translate_once,
    wolf_encoded, wolf_string_bytes,
};
use crate::wolf::v3::coder::{
    lemma_take_string_of_written, lemma_take_u32_of_written, lemma_take_u8_of_written, string_bytes,
    string_frame, string_writable, take_bytes, take_string, take_u32, take_u8,
};
use crate::wolf::v3::command::{count_u32, lemma_u32s_round_trip, take_u32s, u32s_bytes};

verus! {

// ---------------------------------------------------------------------------
// Which databases can be written and read back
// ---------------------------------------------------------------------------

/// Each field bears the schema's name for its position (or `field_{i}`
/// past the end of the schema's names).
pub open spec fn fields_named(fs: Seq<DatFieldModel>, names: Seq<Seq<char>>) -> bool {
    forall|i: int|
        0 <= i < fs.len() ==> (#[trigger] fs[i]).name == if i < names.len() {
            names[i]
        } else {
            default_field_name(i as nat)
        }
}

/// Each entry bears the schema's name for its position (or `entry_{i}`).
pub open spec fn entries_named(es: Seq<DatEntryModel>, names: Seq<Seq<char>>) -> bool {
    forall|i: int|
        0 <= i < es.len() ==> (#[trigger] es[i]).name == if i < names.len() {
            names[i]
        } else {
            default_entry_name(i as nat)
        }
}

/// An entry holds exactly `ic` integers and `sc` strings, with a frame
/// slot for each string, and each stored frame reads as exactly the
/// string it stands for.
pub open spec fn entry_shaped(e: DatEntryModel, ic: nat, sc: nat, is_utf8: bool) -> bool {
    &&& e.int_values.len() == ic
    &&& e.string_values.len() == sc
    &&& e.frames.len() == sc
    &&& forall|j: int|
        0 <= j < e.frames.len() ==> match #[trigger] e.frames[j] {
            Some(f) => take_string(f, is_utf8) matches Some((t, r)) && t == e.string_values[j] && r.len() == 0,
            None => true,
        }
}

/// Every string of the entry that has lost its stored frame survives a
/// write and a read.
pub open spec fn entry_strings_writable(e: DatEntryModel, is_utf8: bool) -> bool {
    forall|j: int|
        0 <= j < e.frames.len() && j < e.string_values.len() && (#[trigger] e.frames[j]) is None ==> string_writable(
            e.string_values[j],
            is_utf8,
        )
}

/// The frame a string is written with: the stored one, or its text framed
/// anew.
pub open spec fn settled_frame(e: DatEntryModel, j: int, is_utf8: bool) -> Seq<u8> {
    match e.frames[j] {
        Some(f) => f,
        None => string_bytes(e.string_values[j], is_utf8)->0,
    }
}

/// An entry as it reads back once written: every string with the frame it
/// was written with.
pub open spec fn settled_entry(e: DatEntryModel, is_utf8: bool) -> DatEntryModel {
    DatEntryModel { frames: Seq::new(e.frames.len(), |j: int| Some(settled_frame(e, j, is_utf8))), ..e }
}

pub open spec fn settled_entries(es: Seq<DatEntryModel>, is_utf8: bool) -> Seq<DatEntryModel> {
    Seq::new(es.len(), |k: int| settled_entry(es[k], is_utf8))
}

pub open spec fn settled_type(t: DatTypeModel, is_utf8: bool) -> DatTypeModel {
    DatTypeModel { entries: settled_entries(t.entries, is_utf8), ..t }
}

pub open spec fn settled_types(ts: Seq<DatTypeModel>, is_utf8: bool) -> Seq<DatTypeModel> {
    Seq::new(ts.len(), |k: int| settled_type(ts[k], is_utf8))
}

/// A database as it reads back once written: the same values, each
/// replaced string with the frame it was written with.
pub open spec fn settled(db: DatFileModel) -> DatFileModel {
    DatFileModel { types: settled_types(db.types, db.is_utf8), ..db }
}

/// The extra string is one whole string frame when `unknown1` asks for it,
/// and absent otherwise.
pub open spec fn extra_fits(t: DatTypeModel, is_utf8: bool) -> bool {
    if t.unknown1 == STRING_INDICATOR {
        take_string(t.extra, is_utf8) matches Some((_, r)) && r.len() == 0
    } else {
        t.extra.len() == 0
    }
}

/// A type as a read of schema type `proj` gives it: its name, field and
/// entry names from the schema, each entry with one value per slot, and
/// counts that fit in 32 bits.
pub open spec fn dat_type_fits(t: DatTypeModel, proj: ProjectTypeModel, is_utf8: bool) -> bool {
    &&& t.name == proj.name
    &&& extra_fits(t, is_utf8)
    &&& t.fields.len() < 0x1_0000_0000
    &&& t.entries.len() < 0x1_0000_0000
    &&& fields_named(t.fields, proj.field_names)
    &&& entries_named(t.entries, proj.data_names)
    &&& forall|k: int|
        0 <= k < t.entries.len() ==> entry_shaped(
            #[trigger] t.entries[k],
            int_count(t.fields),
            str_count(t.fields),
            is_utf8,
        )
}

/// A database as a read with schema `projs` gives it.
pub open spec fn dat_file_fits(db: DatFileModel, projs: Seq<ProjectTypeModel>) -> bool {
    &&& db.types.len() == projs.len()
    &&& projs.len() < 0x1_0000_0000
    &&& forall|k: int| 0 <= k < db.types.len() ==> dat_type_fits(#[trigger] db.types[k], projs[k], db.is_utf8)
}

/// Every string of every entry that has lost its stored frame survives a
/// write and a read.
pub open spec fn dat_strings_writable(db: DatFileModel) -> bool {
    forall|t: int, k: int|
        0 <= t < db.types.len() && 0 <= k < db.types[t].entries.len() ==> entry_strings_writable(
            #[trigger] db.types[t].entries[k],
            db.is_utf8,
        )
}

// ---------------------------------------------------------------------------
// The writers in terms of the frame writers
// ---------------------------------------------------------------------------

proof fn lemma_ints_bytes(vs: Seq<u32>)
    ensures
        ints_bytes(vs) == u32s_bytes(vs),
    decreases vs.len(),
{
    if vs.len() > 0 {
        lemma_ints_bytes(vs.drop_last());
    }
}

/// A whole frame followed by anything reads as the frame alone.
proof fn lemma_take_string_framed(f: Seq<u8>, rest: Seq<u8>, is_utf8: bool)
    requires
        take_string(f, is_utf8) matches Some((_, r)) && r.len() == 0,
    ensures
        take_string(f, is_utf8) matches Some((t, _)) && take_string(f + rest, is_utf8) == Some((t, rest)),
{
    let (size, _) = take_u32(f)->0;
    assert((f + rest).take(4) =~= f.take(4));
    let r = f.skip(4);
    assert((f + rest).skip(4) =~= r + rest);
    assert((r + rest).take(size as int) =~= r.take(size as int));
    assert(r.skip(size as int).len() == 0);
    assert((r + rest).skip(size as int) =~= rest);
}

/// What a string read takes is one whole frame.
proof fn lemma_consumed_frame(s: Seq<u8>, is_utf8: bool)
    requires
        take_string(s, is_utf8) is Some,
    ensures
        take_string(s, is_utf8) matches Some((t0, r0)) && take_string(consumed(s, r0), is_utf8) matches Some((
            t,
            r,
        )) && r.len() == 0 && t == t0,
{
    let (size, _) = take_u32(s)->0;
    let n = 4 + size as int;
    let (_, r0) = take_string(s, is_utf8)->0;
    let f = consumed(s, r0);
    assert(f =~= s.take(n));
    assert(f.take(4) =~= s.take(4));
    assert(f.skip(4) =~= s.skip(4).take(size as int));
    assert(f.skip(4).take(size as int) =~= s.skip(4).take(size as int));
    assert(f.skip(4).skip(size as int).len() == 0);
}

// ---------------------------------------------------------------------------
// Round trips, part by part
// ---------------------------------------------------------------------------

proof fn lemma_fields_round_trip(fs: Seq<DatFieldModel>, names: Seq<Seq<char>>, rest: Seq<u8>)
    requires
        fields_named(fs, names),
    ensures
        take_dat_fields(index_infos_bytes(fs) + rest, fs.len(), names) == Some((fs, rest)),
    decreases fs.len(),
{
    if fs.len() > 0 {
        let dl = fs.drop_last();
        let tail = spec_u32_to_le_bytes(fs.last().index_info) + rest;
        assert(index_infos_bytes(fs) + rest =~= index_infos_bytes(dl) + tail);
        assert forall|i: int| 0 <= i < dl.len() implies (#[trigger] dl[i]).name == if i < names.len() {
            names[i]
        } else {
            default_field_name(i as nat)
        } by {
            assert(dl[i] == fs[i]);
        }
        lemma_fields_round_trip(dl, names, tail);
        lemma_take_u32_of_written(fs.last().index_info, rest);
        let i = fs.len() - 1;
        assert(fs[i].name == fs.last().name);
        assert(dl.push(fs.last()) =~= fs);
    } else {
        assert(index_infos_bytes(fs) + rest =~= rest);
        assert(fs =~= Seq::<DatFieldModel>::empty());
    }
}

proof fn lemma_slot_frame(e: DatEntryModel, j: int, version: WolfVersion, rest: Seq<u8>)
    requires
        0 <= j < e.frames.len(),
        e.string_values.len() == e.frames.len(),
        match e.frames[j] {
            Some(f) => take_string(f, version.major >= 3) matches Some((t, r)) && t == e.string_values[j] && r.len()
                == 0,
            None => string_writable(e.string_values[j], version.major >= 3),
        },
    ensures
        slot_bytes(e, j, version) == Some(settled_frame(e, j, version.major >= 3)),
        take_string(settled_frame(e, j, version.major >= 3) + rest, version.major >= 3) == Some(
            (e.string_values[j], rest),
        ),
{
    let is_utf8 = version.major >= 3;
    match e.frames[j] {
        Some(f) => {
            lemma_take_string_framed(f, rest, is_utf8);
        },
        None => {
            assert(padded_strings(e.string_values, (j + 1) as nat)[j] == e.string_values[j]);
            lemma_take_string_of_written(e.string_values[j], is_utf8, rest);
            let enc = wolf_encoded(e.string_values[j], version)->0;
            assert(wolf_string_bytes(enc) =~= string_frame(enc));
        },
    }
}

proof fn lemma_slots_round_trip(e: DatEntryModel, n: nat, version: WolfVersion, rest: Seq<u8>)
    requires
        n <= e.frames.len(),
        entry_shaped(e, e.int_values.len(), e.frames.len(), version.major >= 3),
        entry_strings_writable(e, version.major >= 3),
    ensures
        slots_bytes(e, n, version) matches Some(b) && take_framed_strings(b + rest, n, version.major >= 3) == Some(
            (
                e.string_values.take(n as int),
                settled_entry(e, version.major >= 3).frames.take(n as int),
                rest,
            ),
        ),
    decreases n,
{
    let is_utf8 = version.major >= 3;
    if n == 0 {
        assert(Seq::<u8>::empty() + rest =~= rest);
        assert(e.string_values.take(0) =~= Seq::<Seq<char>>::empty());
        assert(settled_entry(e, is_utf8).frames.take(0) =~= Seq::<Option<Seq<u8>>>::empty());
    } else {
        let j = n - 1;
        let ej = e.frames[j];
        assert(match ej {
            Some(f) => take_string(f, is_utf8) matches Some((t, r)) && t == e.string_values[j] && r.len() == 0,
            None => true,
        });
        if ej is None {
            assert(string_writable(e.string_values[j], is_utf8));
        }
        lemma_slot_frame(e, j, version, rest);
        let sb = settled_frame(e, j, is_utf8);
        lemma_slots_round_trip(e, (n - 1) as nat, version, sb + rest);
        let a = slots_bytes(e, (n - 1) as nat, version)->0;
        assert(slots_bytes(e, n, version)->0 + rest =~= a + (sb + rest));
        assert(consumed(sb + rest, rest) =~= sb);
        assert(e.string_values.take(n as int) =~= e.string_values.take(j).push(e.string_values[j]));
        let sf = settled_entry(e, is_utf8).frames;
        assert(sf.take(n as int) =~= sf.take(j).push(Some(sb)));
    }
}

proof fn lemma_entry_round_trip(e: DatEntryModel, ic: nat, sc: nat, version: WolfVersion, rest: Seq<u8>)
    requires
        entry_shaped(e, ic, sc, version.major >= 3),
        entry_strings_writable(e, version.major >= 3),
    ensures
        entry_bytes(e, ic, sc, version) matches Some(b) && take_u32s(b + rest, ic) matches Some((ints, r1))
            && ints == e.int_values && take_framed_strings(r1, sc, version.major >= 3) == Some(
            (e.string_values, settled_entry(e, version.major >= 3).frames, rest),
        ),
{
    let is_utf8 = version.major >= 3;
    assert(padded_ints(e.int_values, ic) =~= e.int_values);
    lemma_ints_bytes(e.int_values);
    lemma_slots_round_trip(e, sc, version, rest);
    assert(e.string_values.take(sc as int) =~= e.string_values);
    assert(settled_entry(e, is_utf8).frames.take(sc as int) =~= settled_entry(e, is_utf8).frames);
    let sb = slots_bytes(e, sc, version)->0;
    lemma_u32s_round_trip(e.int_values, sb + rest);
    assert(u32s_bytes(e.int_values) + sb + rest =~= u32s_bytes(e.int_values) + (sb + rest));
}

proof fn lemma_entries_round_trip(
    es: Seq<DatEntryModel>,
    ic: nat,
    sc: nat,
    names: Seq<Seq<char>>,
    version: WolfVersion,
    rest: Seq<u8>,
)
    requires
        entries_named(es, names),
        forall|k: int| 0 <= k < es.len() ==> entry_shaped(#[trigger] es[k], ic, sc, version.major >= 3),
        forall|k: int| 0 <= k < es.len() ==> entry_strings_writable(#[trigger] es[k], version.major >= 3),
    ensures
        entries_bytes(es, ic, sc, version) matches Some(b) && take_dat_entries(
            b + rest,
            es.len(),
            ic,
            sc,
            names,
            version.major >= 3,
        ) == Some((settled_entries(es, version.major >= 3), rest)),
    decreases es.len(),
{
    let is_utf8 = version.major >= 3;
    if es.len() > 0 {
        let dl = es.drop_last();
        let last = es.last();
        let i = es.len() - 1;
        assert(es[i] == last);
        lemma_entry_round_trip(last, ic, sc, version, rest);
        let eb = entry_bytes(last, ic, sc, version)->0;
        let tail = eb + rest;
        assert forall|k: int| 0 <= k < dl.len() implies (#[trigger] dl[k]).name == if k < names.len() {
            names[k]
        } else {
            default_entry_name(k as nat)
        } by {
            assert(dl[k] == es[k]);
        }
        assert forall|k: int| 0 <= k < dl.len() implies entry_shaped(#[trigger] dl[k], ic, sc, is_utf8)
            && entry_strings_writable(dl[k], is_utf8) by {
            assert(dl[k] == es[k]);
        }
        lemma_entries_round_trip(dl, ic, sc, names, version, tail);
        let ab = entries_bytes(dl, ic, sc, version)->0;
        assert(entries_bytes(es, ic, sc, version)->0 + rest =~= ab + tail);
        let se = settled_entry(last, is_utf8);
        assert(last.name == se.name && last.int_values == se.int_values && last.string_values
            == se.string_values);
        assert(se == DatEntryModel {
            name: if i < names.len() {
                names[i]
            } else {
                default_entry_name(i as nat)
            },
            int_values: last.int_values,
            string_values: last.string_values,
            frames: se.frames,
        });
        assert(settled_entries(dl, is_utf8).push(se) =~= settled_entries(es, is_utf8));
    } else {
        assert(Seq::<u8>::empty() + rest =~= rest);
        assert(settled_entries(es, is_utf8) =~= Seq::<DatEntryModel>::empty());
    }
}

proof fn lemma_dat_type_head_round_trip(t: DatTypeModel, nf: u32, is_utf8: bool, r4: Seq<u8>)
    requires
        extra_fits(t, is_utf8),
    ensures
        take_dat_type_head(
            dat_type_separator() + (spec_u32_to_le_bytes(t.unknown1) + (spec_u32_to_le_bytes(nf) + (t.extra
                + r4))),
            is_utf8,
        ) == Some(((t.unknown1, t.extra, nf), r4)),
{
    let r3 = t.extra + r4;
    let r2 = spec_u32_to_le_bytes(nf) + r3;
    let r1 = spec_u32_to_le_bytes(t.unknown1) + r2;
    let all = dat_type_separator() + r1;
    assert(all.take(4) =~= dat_type_separator());
    assert(all.skip(4) =~= r1);
    lemma_take_u32_of_written(t.unknown1, r2);
    lemma_take_u32_of_written(nf, r3);
    if t.unknown1 == STRING_INDICATOR {
        lemma_take_string_framed(t.extra, r4, is_utf8);
        assert(consumed(r3, r4) =~= t.extra);
    } else {
        assert(r3 =~= r4);
        assert(t.extra =~= Seq::<u8>::empty());
    }
}

proof fn lemma_take_dat_type_parts(
    proj: ProjectTypeModel,
    is_utf8: bool,
    s: Seq<u8>,
    head: (u32, Seq<u8>, u32),
    r1: Seq<u8>,
    fields: Seq<DatFieldModel>,
    r2: Seq<u8>,
    r3: Seq<u8>,
    entries: Seq<DatEntryModel>,
    r4: Seq<u8>,
)
    requires
        take_dat_type_head(s, is_utf8) == Some((head, r1)),
        take_dat_fields(r1, head.2 as nat, proj.field_names) == Some((fields, r2)),
        take_u32(r2) == Some((entries.len() as u32, r3)),
        entries.len() < 0x1_0000_0000,
        take_dat_entries(r3, entries.len(), int_count(fields), str_count(fields), proj.data_names, is_utf8)
            == Some((entries, r4)),
    ensures
        take_dat_type(s, proj, is_utf8) == Some(
            (DatTypeModel { name: proj.name, unknown1: head.0, extra: head.1, fields, entries }, r4),
        ),
{
}

proof fn lemma_dat_type_bytes_shape(t: DatTypeModel, version: WolfVersion, rest: Seq<u8>)
    requires
        entries_bytes(t.entries, int_count(t.fields), str_count(t.fields), version) is Some,
    ensures
        dat_type_bytes(t, version) matches Some(b) && b + rest == dat_type_separator() + (spec_u32_to_le_bytes(
            t.unknown1,
        ) + (spec_u32_to_le_bytes(count_u32(t.fields.len() as int)) + (t.extra + (index_infos_bytes(t.fields)
            + (spec_u32_to_le_bytes(count_u32(t.entries.len() as int)) + (entries_bytes(
            t.entries,
            int_count(t.fields),
            str_count(t.fields),
            version,
        )->0 + rest)))))),
{
    let eb = entries_bytes(t.entries, int_count(t.fields), str_count(t.fields), version)->0;
    let b = dat_type_bytes(t, version)->0;
    assert(b + rest =~= dat_type_separator() + (spec_u32_to_le_bytes(t.unknown1) + (spec_u32_to_le_bytes(
        count_u32(t.fields.len() as int),
    ) + (t.extra + (index_infos_bytes(t.fields) + (spec_u32_to_le_bytes(count_u32(t.entries.len() as int))
        + (eb + rest)))))));
}

proof fn lemma_dat_type_round_trip(t: DatTypeModel, proj: ProjectTypeModel, version: WolfVersion, rest: Seq<u8>)
    requires
        dat_type_fits(t, proj, version.major >= 3),
        forall|k: int| 0 <= k < t.entries.len() ==> entry_strings_writable(#[trigger] t.entries[k], version.major >= 3),
    ensures
        dat_type_bytes(t, version) matches Some(b) && take_dat_type(b + rest, proj, version.major >= 3) == Some(
            (settled_type(t, version.major >= 3), rest),
        ),
{
    let is_utf8 = version.major >= 3;
    let ic = int_count(t.fields);
    let sc = str_count(t.fields);
    lemma_entries_round_trip(t.entries, ic, sc, proj.data_names, version, rest);
    let eb = entries_bytes(t.entries, ic, sc, version)->0;
    let nf = count_u32(t.fields.len() as int);
    let ne = count_u32(t.entries.len() as int);
    assert(nf == t.fields.len());
    assert(ne == t.entries.len());
    let r5 = spec_u32_to_le_bytes(ne) + (eb + rest);
    let r4 = index_infos_bytes(t.fields) + r5;
    let all = dat_type_separator() + (spec_u32_to_le_bytes(t.unknown1) + (spec_u32_to_le_bytes(nf) + (t.extra
        + r4)));
    lemma_dat_type_bytes_shape(t, version, rest);
    lemma_dat_type_head_round_trip(t, nf, is_utf8, r4);
    lemma_fields_round_trip(t.fields, proj.field_names, r5);
    lemma_take_u32_of_written(ne, eb + rest);
    lemma_take_dat_type_parts(
        proj,
        is_utf8,
        all,
        (t.unknown1, t.extra, nf),
        r4,
        t.fields,
        r5,
        eb + rest,
        settled_entries(t.entries, is_utf8),
        rest,
    );
}

proof fn lemma_dat_types_round_trip(
    ts: Seq<DatTypeModel>,
    projs: Seq<ProjectTypeModel>,
    version: WolfVersion,
    rest: Seq<u8>,
)
    requires
        ts.len() <= projs.len(),
        forall|k: int| 0 <= k < ts.len() ==> dat_type_fits(#[trigger] ts[k], projs[k], version.major >= 3),
        forall|k: int, j: int|
            0 <= k < ts.len() && 0 <= j < ts[k].entries.len() ==> entry_strings_writable(
                #[trigger] ts[k].entries[j],
                version.major >= 3,
            ),
    ensures
        dat_types_bytes(ts, version) matches Some(b) && take_dat_types(
            b + rest,
            projs,
            ts.len(),
            version.major >= 3,
        ) == Some((settled_types(ts, version.major >= 3), rest)),
    decreases ts.len(),
{
    if ts.len() > 0 {
        let i = ts.len() - 1;
        let dl = ts.drop_last();
        let last = ts.last();
        assert(ts[i] == last);
        assert forall|j: int| 0 <= j < last.entries.len() implies entry_strings_writable(
            #[trigger] last.entries[j],
            version.major >= 3,
        ) by {
            assert(ts[i].entries[j] == last.entries[j]);
        }
        lemma_dat_type_round_trip(last, projs[i], version, rest);
        let tb = dat_type_bytes(last, version)->0;
        assert forall|k: int| 0 <= k < dl.len() implies dat_type_fits(#[trigger] dl[k], projs[k], version.major >= 3) by {
            assert(dl[k] == ts[k]);
        }
        assert forall|k: int, j: int| 0 <= k < dl.len() && 0 <= j < dl[k].entries.len() implies entry_strings_writable(
            #[trigger] dl[k].entries[j],
            version.major >= 3,
        ) by {
            assert(dl[k] == ts[k]);
        }
        lemma_dat_types_round_trip(dl, projs, version, tb + rest);
        let ab = dat_types_bytes(dl, version)->0;
        assert(dat_types_bytes(ts, version)->0 + rest =~= ab + (tb + rest));
        assert(settled_types(dl, version.major >= 3).push(settled_type(last, version.major >= 3)) =~= settled_types(
            ts,
            version.major >= 3,
        ));
    } else {
        assert(Seq::<u8>::empty() + rest =~= rest);
        assert(settled_types(ts, version.major >= 3) =~= Seq::<DatTypeModel>::empty());
    }
}

proof fn lemma_dat_header_of_written(indicator: u8, is_utf8: bool, version_byte: u8, r0: Seq<u8>)
    requires
        indicator == 0,
        version_byte != 0xC4,
    ensures
        dat_header_check(
            seq![indicator] + (if is_utf8 {
                db_magic_utf8()
            } else {
                db_magic_sjis()
            }) + seq![version_byte] + r0,
        ) == Some(is_utf8),
        take_bytes(
            seq![indicator] + (if is_utf8 {
                db_magic_utf8()
            } else {
                db_magic_sjis()
            }) + seq![version_byte] + r0,
            11,
        ) matches Some((_, r)) && r == r0,
{
    let magic = if is_utf8 {
        db_magic_utf8()
    } else {
        db_magic_sjis()
    };
    let head = seq![indicator] + magic + seq![version_byte];
    let b = head + r0;
    assert(head.len() == 11);
    assert(b.subrange(1, 10) =~= magic);
    assert(b[0] == indicator);
    assert(b[10] == version_byte);
    if !is_utf8 {
        assert(db_magic_sjis()[5] != db_magic_utf8()[5]);
        assert(b.subrange(1, 10) != db_magic_utf8());
    }
    assert(b.take(11) =~= head);
    assert(b.skip(11) =~= r0);
}

proof fn lemma_dat_types_of_parts(
    b: Seq<u8>,
    projs: Seq<ProjectTypeModel>,
    is_utf8: bool,
    r0: Seq<u8>,
    r1: Seq<u8>,
    ts: Seq<DatTypeModel>,
    terminator: u8,
    trailing: Seq<u8>,
)
    requires
        take_bytes(b, 11) matches Some((_, r)) && r == r0,
        take_u32(r0) == Some((projs.len() as u32, r1)),
        projs.len() < 0x1_0000_0000,
        take_dat_types(r1, projs, projs.len(), is_utf8) == Some((ts, seq![terminator] + trailing)),
    ensures
        dat_types_of(b, projs, is_utf8) == Some((ts, terminator, trailing)),
{
    lemma_take_u8_of_written(terminator, trailing);
}

proof fn lemma_database_of_parts(
    project: Seq<u8>,
    b: Seq<u8>,
    projs: Seq<ProjectTypeModel>,
    db: DatFileModel,
)
    requires
        dat_header_check(b) == Some(db.is_utf8),
        project_of(project, db.is_utf8) == Some(projs),
        dat_types_of(b, projs, db.is_utf8) == Some((db.types, db.terminator, db.trailing)),
    ensures
        database_of(project, b) == Some(db),
{
}

proof fn lemma_dat_bytes_parts(db: DatFileModel, indicator: u8, version_byte: u8, version: WolfVersion)
    requires
        dat_types_bytes(db.types, version) is Some,
    ensures
        dat_file_bytes(db, indicator, version_byte, version) matches Some(b) && b == seq![indicator] + (if db.is_utf8 {
            db_magic_utf8()
        } else {
            db_magic_sjis()
        }) + seq![version_byte] + (spec_u32_to_le_bytes(count_u32(db.types.len() as int)) + (dat_types_bytes(
            db.types,
            version,
        )->0 + (seq![db.terminator] + db.trailing))),
{
    let b = dat_file_bytes(db, indicator, version_byte, version)->0;
    assert(b =~= seq![indicator] + (if db.is_utf8 {
        db_magic_utf8()
    } else {
        db_magic_sjis()
    }) + seq![version_byte] + (spec_u32_to_le_bytes(count_u32(db.types.len() as int)) + (dat_types_bytes(
        db.types,
        version,
    )->0 + (seq![db.terminator] + db.trailing))));
}

/// A database that fits its schema, with every replaced string writable in
/// its own encoding, reads back from its bytes with the same values, each
/// replaced string with the frame it was written with (`settled`): the
/// indicator must be the one a read accepts (0) and the version byte must
/// not mark LZ4 (`0xC4`).
pub proof fn lemma_dat_file_round_trip(
    project: Seq<u8>,
    db: DatFileModel,
    projs: Seq<ProjectTypeModel>,
    indicator: u8,
    version_byte: u8,
    version: WolfVersion,
)
    requires
        project_of(project, db.is_utf8) == Some(projs),
        dat_file_fits(db, projs),
        dat_strings_writable(db),
        (version.major >= 3) == db.is_utf8,
        indicator == 0,
        version_byte != 0xC4,
    ensures
        dat_file_bytes(db, indicator, version_byte, version) matches Some(b) && database_of(project, b) == Some(
            settled(db),
        ),
{
    let is_utf8 = db.is_utf8;
    let tail = seq![db.terminator] + db.trailing;
    lemma_dat_types_round_trip(db.types, projs, version, tail);
    let tb = dat_types_bytes(db.types, version)->0;
    let n = count_u32(db.types.len() as int);
    assert(n == projs.len());
    let r1 = tb + tail;
    let r0 = spec_u32_to_le_bytes(n) + r1;
    lemma_dat_bytes_parts(db, indicator, version_byte, version);
    let b = dat_file_bytes(db, indicator, version_byte, version)->0;
    lemma_dat_header_of_written(indicator, is_utf8, version_byte, r0);
    lemma_take_u32_of_written(n, r1);
    let sdb = settled(db);
    lemma_dat_types_of_parts(b, projs, is_utf8, r0, r1, sdb.types, db.terminator, db.trailing);
    lemma_database_of_parts(project, b, projs, sdb);
}

// ---------------------------------------------------------------------------
// What a read gives fits its schema
// ---------------------------------------------------------------------------

proof fn lemma_take_u32s_len(s: Seq<u8>, n: nat)
    ensures
        take_u32s(s, n) matches Some((vs, _)) ==> vs.len() == n,
    decreases n,
{
    if n > 0 {
        lemma_take_u32s_len(s, (n - 1) as nat);
    }
}

proof fn lemma_read_framed_fit(s: Seq<u8>, n: nat, is_utf8: bool)
    ensures
        take_framed_strings(s, n, is_utf8) matches Some((ts, fs, _)) ==> {
            &&& ts.len() == n
            &&& fs.len() == n
            &&& forall|j: int|
                0 <= j < n ==> ((#[trigger] fs[j]) matches Some(f) && take_string(f, is_utf8) matches Some((t, r))
                    && t == ts[j] && r.len() == 0)
        },
    decreases n,
{
    if n > 0 {
        lemma_read_framed_fit(s, (n - 1) as nat, is_utf8);
        if let Some((ts, fs, _)) = take_framed_strings(s, n, is_utf8) {
            let (ts0, fs0, r) = take_framed_strings(s, (n - 1) as nat, is_utf8)->0;
            lemma_consumed_frame(r, is_utf8);
            assert forall|j: int| 0 <= j < n implies ((#[trigger] fs[j]) matches Some(f) && take_string(
                f,
                is_utf8,
            ) matches Some((t, r)) && t == ts[j] && r.len() == 0) by {
                if j < n - 1 {
                    assert(fs[j] == fs0[j]);
                    assert(ts[j] == ts0[j]);
                }
            }
        }
    }
}

proof fn lemma_read_fields_fit(s: Seq<u8>, n: nat, names: Seq<Seq<char>>)
    ensures
        take_dat_fields(s, n, names) matches Some((fs, _)) ==> fs.len() == n && fields_named(fs, names),
    decreases n,
{
    if n > 0 {
        lemma_read_fields_fit(s, (n - 1) as nat, names);
        if let Some((fs, _)) = take_dat_fields(s, n, names) {
            let (fs0, _) = take_dat_fields(s, (n - 1) as nat, names)->0;
            assert forall|i: int| 0 <= i < fs.len() implies (#[trigger] fs[i]).name == if i < names.len() {
                names[i]
            } else {
                default_field_name(i as nat)
            } by {
                if i < fs0.len() {
                    assert(fs[i] == fs0[i]);
                }
            }
        }
    }
}

proof fn lemma_read_entries_fit(s: Seq<u8>, n: nat, ic: nat, sc: nat, names: Seq<Seq<char>>, is_utf8: bool)
    ensures
        take_dat_entries(s, n, ic, sc, names, is_utf8) matches Some((es, _)) ==> {
            &&& es.len() == n
            &&& entries_named(es, names)
            &&& forall|k: int| 0 <= k < es.len() ==> entry_shaped(#[trigger] es[k], ic, sc, is_utf8)
            &&& forall|k: int| 0 <= k < es.len() ==> entry_strings_writable(#[trigger] es[k], is_utf8)
        },
    decreases n,
{
    if n > 0 {
        lemma_read_entries_fit(s, (n - 1) as nat, ic, sc, names, is_utf8);
        if let Some((es, _)) = take_dat_entries(s, n, ic, sc, names, is_utf8) {
            let (es0, r) = take_dat_entries(s, (n - 1) as nat, ic, sc, names, is_utf8)->0;
            lemma_take_u32s_len(r, ic);
            let (_, r1) = take_u32s(r, ic)->0;
            lemma_read_framed_fit(r1, sc, is_utf8);
            let last = es[n - 1];
            assert forall|j: int| 0 <= j < last.frames.len() implies match #[trigger] last.frames[j] {
                Some(f) => take_string(f, is_utf8) matches Some((t, r)) && t == last.string_values[j] && r.len()
                    == 0,
                None => true,
            } by {}
            assert forall|i: int| 0 <= i < es.len() implies (#[trigger] es[i]).name == if i < names.len() {
                names[i]
            } else {
                default_entry_name(i as nat)
            } && entry_shaped(es[i], ic, sc, is_utf8) && entry_strings_writable(es[i], is_utf8) by {
                if i < es0.len() {
                    assert(es[i] == es0[i]);
                }
            }
        }
    }
}

proof fn lemma_read_dat_type_fits(s: Seq<u8>, proj: ProjectTypeModel, is_utf8: bool)
    ensures
        take_dat_type(s, proj, is_utf8) matches Some((t, _)) ==> dat_type_fits(t, proj, is_utf8) && forall|k: int|
            0 <= k < t.entries.len() ==> entry_strings_writable(#[trigger] t.entries[k], is_utf8),
{
    if let Some((t, _)) = take_dat_type(s, proj, is_utf8) {
        let ((u1, extra, nf), r1) = take_dat_type_head(s, is_utf8)->0;
        lemma_read_fields_fit(r1, nf as nat, proj.field_names);
        let (fields, r2) = take_dat_fields(r1, nf as nat, proj.field_names)->0;
        let (dc, r3) = take_u32(r2)->0;
        lemma_read_entries_fit(r3, dc as nat, int_count(fields), str_count(fields), proj.data_names, is_utf8);
        if u1 == STRING_INDICATOR {
            let r = s.skip(4).skip(4).skip(4);
            assert(take_u32(s.skip(4)) is Some);
            lemma_consumed_frame(r, is_utf8);
        }
    }
}

proof fn lemma_read_dat_types_fit(s: Seq<u8>, projs: Seq<ProjectTypeModel>, k: nat, is_utf8: bool)
    requires
        k <= projs.len(),
    ensures
        take_dat_types(s, projs, k, is_utf8) matches Some((ts, _)) ==> ts.len() == k && (forall|i: int|
            0 <= i < ts.len() ==> dat_type_fits(#[trigger] ts[i], projs[i], is_utf8)) && (forall|i: int, j: int|
            0 <= i < ts.len() && 0 <= j < ts[i].entries.len() ==> entry_strings_writable(
                #[trigger] ts[i].entries[j],
                is_utf8,
            )),
    decreases k,
{
    if k > 0 {
        lemma_read_dat_types_fit(s, projs, (k - 1) as nat, is_utf8);
        if let Some((ts, _)) = take_dat_types(s, projs, k, is_utf8) {
            let (ts0, r) = take_dat_types(s, projs, (k - 1) as nat, is_utf8)->0;
            lemma_read_dat_type_fits(r, projs[k - 1], is_utf8);
            assert forall|i: int| 0 <= i < ts.len() implies dat_type_fits(#[trigger] ts[i], projs[i], is_utf8) by {
                if i < ts0.len() {
                    assert(ts[i] == ts0[i]);
                }
            }
            assert forall|i: int, j: int| 0 <= i < ts.len() && 0 <= j < ts[i].entries.len() implies entry_strings_writable(
                #[trigger] ts[i].entries[j],
                is_utf8,
            ) by {
                if i < ts0.len() {
                    assert(ts[i] == ts0[i]);
                }
            }
        }
    }
}

/// What a read gives fits the schema it was read with.
pub proof fn lemma_database_fits(project: Seq<u8>, dat: Seq<u8>)
    requires
        database_of(project, dat) is Some,
    ensures
        database_of(project, dat) matches Some(db) && project_of(project, db.is_utf8) matches Some(projs)
            && dat_file_fits(db, projs) && dat_strings_writable(db),
{
    let db = database_of(project, dat)->0;
    let projs = project_of(project, db.is_utf8)->0;
    let (_, r0) = take_bytes(dat, 11)->0;
    let (_, r1) = take_u32(r0)->0;
    lemma_read_dat_types_fit(r1, projs, projs.len(), db.is_utf8);
}

// ---------------------------------------------------------------------------
// Translations keep the shape
// ---------------------------------------------------------------------------

proof fn lemma_slot_from_at_least(fields: Seq<DatFieldModel>, name: Seq<char>, i: int, slot: int)
    ensures
        slot_from(fields, name, i, slot) matches Some(r) ==> r >= slot,
    decreases fields.len() - i,
{
    if 0 <= i < fields.len() {
        lemma_slot_from_at_least(fields, name, i + 1, slot);
        lemma_slot_from_at_least(fields, name, i + 1, slot + 1);
    }
}

/// Every translation's text survives a write and a read in the given
/// encoding.
pub open spec fn texts_writable(ts: Seq<(Seq<char>, Seq<char>)>, is_utf8: bool) -> bool {
    forall|i: int| 0 <= i < ts.len() ==> string_writable(#[trigger] ts[i].1, is_utf8)
}

proof fn lemma_translate_once_fits(db: DatFileModel, projs: Seq<ProjectTypeModel>, key: Seq<char>, text: Seq<char>)
    requires
        dat_file_fits(db, projs),
        dat_strings_writable(db),
        string_writable(text, db.is_utf8),
        translate_once(db, key, text) is Some,
    ensures
        translate_once(db, key, text) matches Some(db2) && dat_file_fits(db2, projs) && dat_strings_writable(db2)
            && db2.is_utf8 == db.is_utf8 && db2.terminator == db.terminator && db2.trailing == db.trailing,
{
    let u = db.is_utf8;
    let db2 = translate_once(db, key, text)->0;
    let (tt, e, fname) = key_target(key)->0;
    let slot = slot_from(db.types[tt as int].fields, fname, 0, 0)->0;
    lemma_slot_from_at_least(db.types[tt as int].fields, fname, 0, 0);
    assert forall|k: int| 0 <= k < db2.types.len() implies dat_type_fits(#[trigger] db2.types[k], projs[k], u) by {
        assert(dat_type_fits(db.types[k], projs[k], u));
        let t = db.types[k];
        let t2 = db2.types[k];
        assert forall|i: int| 0 <= i < t2.entries.len() implies (#[trigger] t2.entries[i]).name == if i
            < projs[k].data_names.len() {
            projs[k].data_names[i]
        } else {
            default_entry_name(i as nat)
        } && entry_shaped(t2.entries[i], int_count(t2.fields), str_count(t2.fields), u) by {
            assert(t.entries[i].name == if i < projs[k].data_names.len() {
                projs[k].data_names[i]
            } else {
                default_entry_name(i as nat)
            });
            let en = t.entries[i];
            let en2 = t2.entries[i];
            assert(entry_shaped(en, int_count(t.fields), str_count(t.fields), u));
            if k == tt && i == e {
                assert(en2.string_values =~= en.string_values.update(slot, text));
                assert(en2.frames =~= en.frames.update(slot, None));
                assert forall|j: int| 0 <= j < en2.frames.len() implies match #[trigger] en2.frames[j] {
                    Some(f) => take_string(f, u) matches Some((x, r)) && x == en2.string_values[j] && r.len() == 0,
                    None => true,
                } by {
                    if j != slot {
                        assert(en2.frames[j] == en.frames[j]);
                        assert(en.frames[j] == en.frames[j]);
                    }
                }
            }
        }
    }
    assert forall|k: int, i: int|
        0 <= k < db2.types.len() && 0 <= i < db2.types[k].entries.len() implies entry_strings_writable(
        #[trigger] db2.types[k].entries[i],
        u,
    ) by {
        let en = db.types[k].entries[i];
        let en2 = db2.types[k].entries[i];
        assert(entry_strings_writable(en, u));
        if k == tt && i == e {
            assert(entry_shaped(en, int_count(db.types[k].fields), str_count(db.types[k].fields), u));
            assert forall|j: int|
                0 <= j < en2.frames.len() && j < en2.string_values.len() && (#[trigger] en2.frames[j]) is None implies string_writable(
                en2.string_values[j],
                u,
            ) by {
                if j != slot {
                    assert(en2.frames[j] == en.frames[j]);
                    assert(en2.string_values[j] == en.string_values[j]);
                }
            }
        }
    }
}

proof fn lemma_translate_all_fits(db: DatFileModel, projs: Seq<ProjectTypeModel>, ts: Seq<(Seq<char>, Seq<char>)>)
    requires
        dat_file_fits(db, projs),
        dat_strings_writable(db),
        texts_writable(ts, db.is_utf8),
    ensures
        translate_all(db, ts) matches Ok(db2) ==> dat_file_fits(db2, projs) && dat_strings_writable(db2)
            && db2.is_utf8 == db.is_utf8,
    decreases ts.len(),
{
    if ts.len() > 0 {
        assert forall|i: int| 0 <= i < ts.drop_last().len() implies string_writable(
            #[trigger] ts.drop_last()[i].1,
            db.is_utf8,
        ) by {
            assert(ts.drop_last()[i] == ts[i]);
        }
        lemma_translate_all_fits(db, projs, ts.drop_last());
        if let Ok(d) = translate_all(db, ts.drop_last()) {
            if translate_once(d, ts.last().0, ts.last().1) is Some {
                assert(string_writable(ts[ts.len() - 1].1, db.is_utf8));
                lemma_translate_once_fits(d, projs, ts.last().0, ts.last().1);
            }
        }
    }
}

/// What a database write gives reads back: when `inject_dat` applies
/// `translations` to the database read from `project` and `dat` and writes
/// it for a game whose encoding is the database's, the bytes written read
/// back, with the same schema, as the translated database (`settled`: the
/// same names, integers and strings; each translated string with the frame
/// it was written with). Each translation's text must survive a write and
/// a read in that encoding.
pub proof fn lemma_inject_dat_reads_back(
    project: Seq<u8>,
    dat: Seq<u8>,
    translations: Seq<(Seq<char>, Seq<char>)>,
    version: WolfVersion,
)
    requires
        database_of(project, dat) is Some,
        (version.major >= 3) == database_of(project, dat)->0.is_utf8,
        translate_all(database_of(project, dat)->0, translations) is Ok,
        texts_writable(translations, version.major >= 3),
    ensures
        database_of(project, dat) matches Some(db) && translate_all(db, translations) matches Ok(db2)
            && dat_file_bytes(db2, dat[0], dat[10], version) matches Some(b) && database_of(project, b) == Some(
            settled(db2),
        ),
{
    let db = database_of(project, dat)->0;
    lemma_database_fits(project, dat);
    let projs = project_of(project, db.is_utf8)->0;
    lemma_translate_all_fits(db, projs, translations);
    let db2 = translate_all(db, translations)->Ok_0;
    assert(dat_header_check(dat) is Some);
    lemma_dat_file_round_trip(project, db2, projs, dat[0], dat[10], version);
}

// ---------------------------------------------------------------------------
// Writing back what was read
// ---------------------------------------------------------------------------

proof fn lemma_u32_of_read(s: Seq<u8>)
    requires
        take_u32(s) is Some,
    ensures
        take_u32(s) matches Some((v, r)) && spec_u32_to_le_bytes(v) + r == s,
{
    lemma_auto_spec_u32_to_from_le_bytes();
    assert(s.take(4) + s.skip(4) =~= s);
}

proof fn lemma_u32s_of_read(s: Seq<u8>, n: nat)
    requires
        take_u32s(s, n) is Some,
    ensures
        take_u32s(s, n) matches Some((vs, r)) && u32s_bytes(vs) + r == s,
    decreases n,
{
    if n == 0 {
        assert(Seq::<u8>::empty() + s =~= s);
    } else {
        lemma_u32s_of_read(s, (n - 1) as nat);
        let (vs0, r0) = take_u32s(s, (n - 1) as nat)->0;
        lemma_u32_of_read(r0);
        let (vs, r) = take_u32s(s, n)->0;
        assert(vs.drop_last() =~= vs0);
        assert(u32s_bytes(vs) + r =~= u32s_bytes(vs0) + (spec_u32_to_le_bytes(vs.last()) + r));
    }
}

proof fn lemma_string_suffix(s: Seq<u8>, is_utf8: bool)
    requires
        take_string(s, is_utf8) is Some,
    ensures
        take_string(s, is_utf8) matches Some((_, r)) && r.len() <= s.len() && consumed(s, r) + r == s,
{
    let (size, _) = take_u32(s)->0;
    let (_, r) = take_string(s, is_utf8)->0;
    assert(r =~= s.skip(4 + size as int));
    assert(consumed(s, r) + r =~= s);
}

proof fn lemma_fields_of_read(s: Seq<u8>, n: nat, names: Seq<Seq<char>>)
    requires
        take_dat_fields(s, n, names) is Some,
    ensures
        take_dat_fields(s, n, names) matches Some((fs, r)) && index_infos_bytes(fs) + r == s,
    decreases n,
{
    if n == 0 {
        assert(Seq::<u8>::empty() + s =~= s);
    } else {
        lemma_fields_of_read(s, (n - 1) as nat, names);
        let (fs0, r0) = take_dat_fields(s, (n - 1) as nat, names)->0;
        lemma_u32_of_read(r0);
        let (fs, r) = take_dat_fields(s, n, names)->0;
        assert(fs.drop_last() =~= fs0);
        assert(index_infos_bytes(fs) + r =~= index_infos_bytes(fs0) + (spec_u32_to_le_bytes(fs.last().index_info)
            + r));
    }
}

proof fn lemma_dat_reassembled(dat: Seq<u8>, is_utf8: bool, n: u32, r1: Seq<u8>)
    requires
        dat_header_check(dat) == Some(is_utf8),
        take_bytes(dat, 11) matches Some((_, r0)) && take_u32(r0) == Some((n, r1)),
    ensures
        dat == seq![dat[0]] + (if is_utf8 {
            db_magic_utf8()
        } else {
            db_magic_sjis()
        }) + seq![dat[10]] + (spec_u32_to_le_bytes(n) + r1),
{
    let (_, r0) = take_bytes(dat, 11)->0;
    lemma_u32_of_read(r0);
    let magic = if is_utf8 {
        db_magic_utf8()
    } else {
        db_magic_sjis()
    };
    assert(dat.subrange(1, 10) == magic);
    assert(dat =~= seq![dat[0]] + magic + seq![dat[10]] + r0);
}

proof fn lemma_database_parts(project: Seq<u8>, dat: Seq<u8>)
    requires
        database_of(project, dat) is Some,
    ensures
        ({
            let db = database_of(project, dat)->0;
            let projs = project_of(project, db.is_utf8)->0;
            &&& dat_header_check(dat) == Some(db.is_utf8)
            &&& project_of(project, db.is_utf8) is Some
            &&& take_bytes(dat, 11) matches Some((_, r0)) && take_u32(r0) matches Some((n, r1)) && n == projs.len()
                && take_dat_types(r1, projs, projs.len(), db.is_utf8) == Some(
                (db.types, seq![db.terminator] + db.trailing),
            )
        }),
{
    let db = database_of(project, dat)->0;
    let projs = project_of(project, db.is_utf8)->0;
    let (_, r0) = take_bytes(dat, 11)->0;
    let (_, r1) = take_u32(r0)->0;
    let (_, r2) = take_dat_types(r1, projs, projs.len(), db.is_utf8)->0;
    assert(r2 =~= seq![r2[0]] + r2.skip(1));
}

/// The frames of `n` strings read from `s`.
pub open spec fn framed_frames(s: Seq<u8>, n: nat, is_utf8: bool) -> Seq<Option<Seq<u8>>> {
    match take_framed_strings(s, n, is_utf8) {
        Some((_, fs, _)) => fs,
        None => Seq::empty(),
    }
}

proof fn lemma_slots_of_read(e: DatEntryModel, s: Seq<u8>, n: nat, is_utf8: bool, version: WolfVersion)
    requires
        take_framed_strings(s, n, is_utf8) is Some,
        n <= e.frames.len(),
        forall|j: int| 0 <= j < n ==> e.frames[j] == framed_frames(s, n, is_utf8)[j],
    ensures
        take_framed_strings(s, n, is_utf8) matches Some((_, _, r)) && slots_bytes(e, n, version) matches Some(b)
            && b + r == s,
    decreases n,
{
    if n == 0 {
        assert(Seq::<u8>::empty() + s =~= s);
    } else {
        let (ts0, fs0, r0) = take_framed_strings(s, (n - 1) as nat, is_utf8)->0;
        let (t, r) = take_string(r0, is_utf8)->0;
        lemma_read_framed_fit(s, (n - 1) as nat, is_utf8);
        assert(take_framed_strings(s, n, is_utf8) == Some((ts0.push(t), fs0.push(Some(consumed(r0, r))), r)));
        let fs = fs0.push(Some(consumed(r0, r)));
        assert(framed_frames(s, n, is_utf8) == fs);
        assert(framed_frames(s, (n - 1) as nat, is_utf8) == fs0);
        assert forall|j: int| 0 <= j < n - 1 implies e.frames[j] == framed_frames(s, (n - 1) as nat, is_utf8)[j] by {
            assert(fs[j] == fs0[j]);
        }
        lemma_slots_of_read(e, s, (n - 1) as nat, is_utf8, version);
        lemma_string_suffix(r0, is_utf8);
        assert(e.frames[n - 1] == fs[n - 1]);
        let a = slots_bytes(e, (n - 1) as nat, version)->0;
        assert(slots_bytes(e, n, version)->0 + r =~= a + (consumed(r0, r) + r));
    }
}

proof fn lemma_entries_of_read(
    s: Seq<u8>,
    n: nat,
    ic: nat,
    sc: nat,
    names: Seq<Seq<char>>,
    is_utf8: bool,
    version: WolfVersion,
)
    requires
        take_dat_entries(s, n, ic, sc, names, is_utf8) is Some,
    ensures
        take_dat_entries(s, n, ic, sc, names, is_utf8) matches Some((es, r)) && entries_bytes(
            es,
            ic,
            sc,
            version,
        ) matches Some(b) && b + r == s,
    decreases n,
{
    if n == 0 {
        assert(Seq::<u8>::empty() + s =~= s);
    } else {
        lemma_entries_of_read(s, (n - 1) as nat, ic, sc, names, is_utf8, version);
        let (es0, r0) = take_dat_entries(s, (n - 1) as nat, ic, sc, names, is_utf8)->0;
        lemma_u32s_of_read(r0, ic);
        let (ints, r1) = take_u32s(r0, ic)->0;
        lemma_take_u32s_len(r0, ic);
        lemma_read_framed_fit(r1, sc, is_utf8);
        let (strs, frames, r) = take_framed_strings(r1, sc, is_utf8)->0;
        let (es, _) = take_dat_entries(s, n, ic, sc, names, is_utf8)->0;
        let e = es.last();
        assert(e.frames == frames);
        lemma_slots_of_read(e, r1, sc, is_utf8, version);
        assert(es.drop_last() =~= es0);
        assert(padded_ints(e.int_values, ic) =~= ints);
        lemma_ints_bytes(ints);
        let b0 = entries_bytes(es0, ic, sc, version)->0;
        let sb = slots_bytes(e, sc, version)->0;
        assert(entry_bytes(e, ic, sc, version) == Some(u32s_bytes(ints) + sb));
        assert(entries_bytes(es, ic, sc, version)->0 + r =~= b0 + (u32s_bytes(ints) + (sb + r)));
    }
}

proof fn lemma_dat_type_of_read(s: Seq<u8>, proj: ProjectTypeModel, is_utf8: bool, version: WolfVersion)
    requires
        take_dat_type(s, proj, is_utf8) is Some,
    ensures
        take_dat_type(s, proj, is_utf8) matches Some((t, r)) && dat_type_bytes(t, version) matches Some(b) && b + r
            == s,
{
    let ((u1, extra, nf), r1) = take_dat_type_head(s, is_utf8)->0;
    let (fields, r2) = take_dat_fields(r1, nf as nat, proj.field_names)->0;
    let (dc, r3) = take_u32(r2)->0;
    let ic = int_count(fields);
    let sc = str_count(fields);
    lemma_read_fields_fit(r1, nf as nat, proj.field_names);
    lemma_read_entries_fit(r3, dc as nat, ic, sc, proj.data_names, is_utf8);
    lemma_fields_of_read(r1, nf as nat, proj.field_names);
    lemma_u32_of_read(r2);
    lemma_entries_of_read(r3, dc as nat, ic, sc, proj.data_names, is_utf8, version);
    let (t, r) = take_dat_type(s, proj, is_utf8)->0;
    assert(count_u32(fields.len() as int) == nf);
    assert(count_u32(t.entries.len() as int) == dc);
    let sa = s.skip(4);
    lemma_u32_of_read(sa);
    let sb = sa.skip(4);
    lemma_u32_of_read(sb);
    let r3h = sb.skip(4);
    if u1 == STRING_INDICATOR {
        lemma_string_suffix(r3h, is_utf8);
        assert(extra + r1 == r3h);
    } else {
        assert(extra + r1 =~= r3h);
    }
    assert(s.take(4) == dat_type_separator());
    assert(s =~= dat_type_separator() + (spec_u32_to_le_bytes(u1) + (spec_u32_to_le_bytes(nf) + (extra + r1))));
    lemma_dat_type_bytes_shape(t, version, r);
}

proof fn lemma_dat_types_of_read(
    s: Seq<u8>,
    projs: Seq<ProjectTypeModel>,
    k: nat,
    is_utf8: bool,
    version: WolfVersion,
)
    requires
        k <= projs.len(),
        take_dat_types(s, projs, k, is_utf8) is Some,
    ensures
        take_dat_types(s, projs, k, is_utf8) matches Some((ts, r)) && dat_types_bytes(ts, version) matches Some(b)
            && b + r == s,
    decreases k,
{
    if k == 0 {
        assert(Seq::<u8>::empty() + s =~= s);
    } else {
        lemma_dat_types_of_read(s, projs, (k - 1) as nat, is_utf8, version);
        let (ts0, r0) = take_dat_types(s, projs, (k - 1) as nat, is_utf8)->0;
        lemma_dat_type_of_read(r0, projs[k - 1], is_utf8, version);
        let (ts, r) = take_dat_types(s, projs, k, is_utf8)->0;
        assert(ts.drop_last() =~= ts0);
        let b0 = dat_types_bytes(ts0, version)->0;
        let tb = dat_type_bytes(ts.last(), version)->0;
        assert(dat_types_bytes(ts, version)->0 + r =~= b0 + (tb + r));
    }
}

proof fn lemma_identity_core(
    dat: Seq<u8>,
    db: DatFileModel,
    projs: Seq<ProjectTypeModel>,
    n: u32,
    r1: Seq<u8>,
    version: WolfVersion,
)
    requires
        dat_header_check(dat) == Some(db.is_utf8),
        take_bytes(dat, 11) matches Some((_, r0)) && take_u32(r0) == Some((n, r1)),
        n == projs.len(),
        take_dat_types(r1, projs, projs.len(), db.is_utf8) == Some((db.types, seq![db.terminator] + db.trailing)),
    ensures
        dat_file_bytes(db, dat[0], dat[10], version) == Some(dat),
{
    lemma_read_dat_types_fit(r1, projs, projs.len(), db.is_utf8);
    lemma_dat_types_of_read(r1, projs, projs.len(), db.is_utf8, version);
    let tb = dat_types_bytes(db.types, version)->0;
    assert(count_u32(db.types.len() as int) == n);
    lemma_dat_bytes_parts(db, dat[0], dat[10], version);
    lemma_dat_reassembled(dat, db.is_utf8, n, r1);
    assert(tb + (seq![db.terminator] + db.trailing) == r1);
}

/// Writing back the database read from `project` and `dat`, with no
/// translation applied, gives `dat` again, byte for byte, whatever the
/// game's version: every string keeps the frame it was stored with.
pub proof fn lemma_dat_write_back_identity(project: Seq<u8>, dat: Seq<u8>, version: WolfVersion)
    requires
        database_of(project, dat) is Some,
    ensures
        dat_file_bytes(database_of(project, dat)->0, dat[0], dat[10], version) == Some(dat),
        translate_all(database_of(project, dat)->0, Seq::empty()) == Ok::<DatFileModel, Seq<char>>(
            database_of(project, dat)->0,
        ),
{
    let db = database_of(project, dat)->0;
    let projs = project_of(project, db.is_utf8)->0;
    lemma_database_parts(project, dat);
    let (_, r0) = take_bytes(dat, 11)->0;
    let (n, r1) = take_u32(r0)->0;
    lemma_identity_core(dat, db, projs, n, r1, version);
}

// ---------------------------------------------------------------------------
// An extracted database key leads back to its field
// ---------------------------------------------------------------------------

/// `s` holds no `/`.
pub open spec fn slash_free(s: Seq<char>) -> bool {
    forall|i: int| 0 <= i < s.len() ==> s[i] != '/'
}

proof fn lemma_first_slash_after(a: Seq<char>, b: Seq<char>, i: int)
    requires
        slash_free(a),
        0 <= i <= a.len(),
    ensures
        first_slash(a + seq!['/'] + b, i) == a.len(),
    decreases a.len() - i,
{
    let s = a + seq!['/'] + b;
    if i < a.len() {
        assert(s[i] == a[i]);
        lemma_first_slash_after(a, b, i + 1);
    } else {
        assert(s[i] == '/');
    }
}

proof fn lemma_split_head(a: Seq<char>, b: Seq<char>, n: nat)
    requires
        slash_free(a),
        n >= 2,
    ensures
        split_n(a + seq!['/'] + b, n) == seq![a] + split_n(b, (n - 1) as nat),
{
    let s = a + seq!['/'] + b;
    lemma_first_slash_after(a, b, 0);
    assert(s.take(a.len() as int) =~= a);
    assert(s.skip(a.len() as int + 1) =~= b);
}

proof fn lemma_decimal_parses(n: nat)
    requires
        n <= usize::MAX,
    ensures
        parsed_usize(decimal(n)) == Some(n as usize),
        slash_free(decimal(n)),
{
    lemma_decimal_index(n);
    let d = decimal(n);
    assert(plain_token(d));
    assert forall|i: int| 0 <= i < d.len() implies d[i] != '/' by {
        assert(d[i] != '/' && d[i] != '~');
    }
}

/// The key of a database field, for a database name without `/`, names
/// that very field again.
pub proof fn lemma_key_target_of_database_key(db: Seq<char>, ti: nat, ei: nat, field: Seq<char>)
    requires
        slash_free(db),
        ti <= usize::MAX,
        ei <= usize::MAX,
    ensures
        key_target(database_key(db, ti, ei, field)) == Some((ti as usize, ei as usize, field)),
{
    lemma_decimal_parses(ti);
    lemma_decimal_parses(ei);
    let dt = decimal(ti);
    let de = decimal(ei);
    let r3 = de + seq!['/'] + field;
    let r2 = dt + seq!['/'] + r3;
    let r1 = db + seq!['/'] + r2;
    let head = "Database"@;
    reveal_strlit("Database/");
    reveal_strlit("Database");
    reveal_strlit("/");
    assert(slash_free(head));
    assert(database_key(db, ti, ei, field) =~= head + seq!['/'] + r1);
    lemma_split_head(head, r1, 5);
    lemma_split_head(db, r2, 4);
    lemma_split_head(dt, r3, 3);
    lemma_split_head(de, field, 2);
    assert(split_n(field, 1) == seq![field]);
    let parts = split_n(database_key(db, ti, ei, field), 5);
    assert(parts =~= seq![head, db, dt, de, field]);
}

/// The valid string fields of a type carry distinct names.
pub open spec fn string_fields_distinct(fields: Seq<DatFieldModel>) -> bool {
    forall|a: int, b: int|
        0 <= a < b < fields.len() && field_is_valid(#[trigger] fields[a]) && field_is_string(fields[a])
            && field_is_valid(#[trigger] fields[b]) && field_is_string(fields[b]) ==> fields[a].name != fields[b].name
}

proof fn lemma_slot_from_reaches(fields: Seq<DatFieldModel>, f: Seq<char>, i: int, k: int)
    requires
        0 <= i <= k < fields.len(),
        field_is_valid(fields[k]) && field_is_string(fields[k]),
        fields[k].name == f,
        forall|j: int|
            i <= j < k && field_is_valid(#[trigger] fields[j]) && field_is_string(fields[j]) ==> fields[j].name != f,
    ensures
        slot_from(fields, f, i, string_slot(fields, i) as int) == Some(string_slot(fields, k) as int),
    decreases k - i,
{
    if i < k {
        assert(string_slot(fields, i + 1) == string_slot(fields, i) + if field_is_valid(fields[i]) && field_is_string(
            fields[i],
        ) {
            1nat
        } else {
            0nat
        });
        lemma_slot_from_reaches(fields, f, i + 1, k);
    }
}

/// Where segment `m` of an entry's extraction comes from: its field.
proof fn lemma_entry_origin(
    db: Seq<char>,
    ti: nat,
    ei: nat,
    fields: Seq<DatFieldModel>,
    values: Seq<Seq<char>>,
    n: int,
    m: int,
) -> (k: int)
    requires
        0 <= m < entry_segments(db, ti, ei, fields, values, n).len(),
    ensures
        0 <= k < n,
        k < fields.len(),
        field_is_valid(fields[k]) && field_is_string(fields[k]),
        string_slot(fields, k) < values.len(),
        entry_segments(db, ti, ei, fields, values, n)[m] == (SegmentView {
            key: database_key(db, ti, ei, fields[k].name),
            source_text: values[string_slot(fields, k) as int],
            kind: KindView::DatabaseField { db_name: db, type_idx: ti, entry_idx: ei, field_name: fields[k].name },
        }),
    decreases n,
{
    let prev = entry_segments(db, ti, ei, fields, values, n - 1);
    if m < prev.len() {
        lemma_entry_origin(db, ti, ei, fields, values, n - 1, m)
    } else {
        n - 1
    }
}

/// Where segment `m` of a type's extraction comes from: its entry and field.
proof fn lemma_type_origin(db: Seq<char>, ti: nat, fields: Seq<DatFieldModel>, es: Seq<DatEntryModel>, m: int) -> (r: (
    int,
    int,
))
    requires
        0 <= m < type_segments(db, ti, fields, es).len(),
    ensures
        0 <= r.0 < es.len(),
        0 <= r.1 < fields.len(),
        field_is_valid(fields[r.1]) && field_is_string(fields[r.1]),
        string_slot(fields, r.1) < es[r.0].string_values.len(),
        type_segments(db, ti, fields, es)[m] == (SegmentView {
            key: database_key(db, ti, r.0 as nat, fields[r.1].name),
            source_text: es[r.0].string_values[string_slot(fields, r.1) as int],
            kind: KindView::DatabaseField {
                db_name: db,
                type_idx: ti,
                entry_idx: r.0 as nat,
                field_name: fields[r.1].name,
            },
        }),
    decreases es.len(),
{
    let prev = type_segments(db, ti, fields, es.drop_last());
    if m < prev.len() {
        let (ei, k) = lemma_type_origin(db, ti, fields, es.drop_last(), m);
        assert(es.drop_last()[ei] == es[ei]);
        (ei, k)
    } else {
        let ei = es.len() - 1;
        let k = lemma_entry_origin(
            db,
            ti,
            ei as nat,
            fields,
            es.last().string_values,
            fields.len() as int,
            m - prev.len(),
        );
        (ei, k)
    }
}

/// Where segment `m` of a database's extraction comes from: its type,
/// entry and field.
proof fn lemma_database_origin(db: Seq<char>, ts: Seq<DatTypeModel>, m: int) -> (r: (int, int, int))
    requires
        0 <= m < database_segments_of(db, ts).len(),
    ensures
        0 <= r.0 < ts.len(),
        0 <= r.1 < ts[r.0].entries.len(),
        0 <= r.2 < ts[r.0].fields.len(),
        field_is_valid(ts[r.0].fields[r.2]) && field_is_string(ts[r.0].fields[r.2]),
        string_slot(ts[r.0].fields, r.2) < ts[r.0].entries[r.1].string_values.len(),
        database_segments_of(db, ts)[m] == (SegmentView {
            key: database_key(db, r.0 as nat, r.1 as nat, ts[r.0].fields[r.2].name),
            source_text: ts[r.0].entries[r.1].string_values[string_slot(ts[r.0].fields, r.2) as int],
            kind: KindView::DatabaseField {
                db_name: db,
                type_idx: r.0 as nat,
                entry_idx: r.1 as nat,
                field_name: ts[r.0].fields[r.2].name,
            },
        }),
    decreases ts.len(),
{
    let prev = database_segments_of(db, ts.drop_last());
    if m < prev.len() {
        let (ti, ei, k) = lemma_database_origin(db, ts.drop_last(), m);
        assert(ts.drop_last()[ti] == ts[ti]);
        (ti, ei, k)
    } else {
        let ti = ts.len() - 1;
        let (ei, k) = lemma_type_origin(db, ti as nat, ts.last().fields, ts.last().entries, m - prev.len());
        (ti, ei, k)
    }
}

/// What injecting the translation of an extracted database segment gives:
/// when the database name holds no `/` and each type's valid string fields
/// have distinct names, the segment's key names the type, entry and field
/// it was extracted from; translating it replaces that one string (the
/// segment's source text) and nothing else; and, for a game in the
/// database's encoding and a text that survives a write and a read there,
/// the bytes written read back as the translated database.
pub proof fn lemma_extracted_segment_injects(
    project: Seq<u8>,
    dat: Seq<u8>,
    db_name: Seq<char>,
    m: int,
    text: Seq<char>,
    version: WolfVersion,
)
    requires
        database_of(project, dat) is Some,
        slash_free(db_name),
        forall|t: int|
            0 <= t < database_of(project, dat)->0.types.len() ==> string_fields_distinct(
                #[trigger] database_of(project, dat)->0.types[t].fields,
            ),
        0 <= m < database_segments_of(db_name, database_of(project, dat)->0.types).len(),
        (version.major >= 3) == database_of(project, dat)->0.is_utf8,
        string_writable(text, version.major >= 3),
    ensures
        ({
            let db = database_of(project, dat)->0;
            let s = database_segments_of(db_name, db.types)[m];
            s.kind matches KindView::DatabaseField { type_idx, entry_idx, field_name, .. } && {
                let slot = slot_from(db.types[type_idx as int].fields, field_name, 0, 0);
                &&& key_target(s.key) == Some((type_idx as usize, entry_idx as usize, field_name))
                &&& slot is Some
                &&& s.source_text == db.types[type_idx as int].entries[entry_idx as int].string_values[slot->0]
                &&& translate_once(db, s.key, text) is Some
                &&& translate_all(db, seq![(s.key, text)]) == Ok::<DatFileModel, Seq<char>>(
                    translate_once(db, s.key, text)->0,
                )
                &&& dat_file_bytes(translate_once(db, s.key, text)->0, dat[0], dat[10], version) matches Some(b)
                    && database_of(project, b) == Some(settled(translate_once(db, s.key, text)->0))
            }
        }),
{
    let db = database_of(project, dat)->0;
    lemma_database_fits(project, dat);
    let projs = project_of(project, db.is_utf8)->0;
    let (ti, ei, k) = lemma_database_origin(db_name, db.types, m);
    let t = db.types[ti];
    assert(dat_type_fits(t, projs[ti], db.is_utf8));
    let f = t.fields[k].name;
    lemma_key_target_of_database_key(db_name, ti as nat, ei as nat, f);
    assert(string_fields_distinct(t.fields));
    assert forall|j: int| 0 <= j < k && field_is_valid(#[trigger] t.fields[j]) && field_is_string(t.fields[j]) implies t.fields[j].name
        != f by {
        assert(field_is_valid(t.fields[k]));
    }
    lemma_slot_from_reaches(t.fields, f, 0, k);
    let s = database_segments_of(db_name, db.types)[m];
    assert(translate_once(db, s.key, text) is Some);
    let ts = seq![(s.key, text)];
    assert(ts.drop_last() =~= Seq::<(Seq<char>, Seq<char>)>::empty());
    assert(translate_all(db, ts.drop_last()) == Ok::<DatFileModel, Seq<char>>(db));
    assert(ts.last() == (s.key, text));
    assert(translate_all(db, ts) == Ok::<DatFileModel, Seq<char>>(translate_once(db, s.key, text)->0));
    assert(texts_writable(ts, version.major >= 3));
    lemma_inject_dat_reads_back(project, dat, ts, version);
}

} // verus!
