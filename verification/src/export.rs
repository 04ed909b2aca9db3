//! Font-size codes put in front of translated lines on export.
use vstd::prelude::*;

use crate::wolf::dat_parser::{append_decimal, decimal};
use crate::wolf::decryptor::str_equal;
use crate::wolf::injector::{first_slash, WolfTranslation};
use crate::wolf::text_filter::{
    regex_is_match, regex_match_result, regex_replace_first, regex_replace_first_result,
};

verus! {

pub open spec fn is_wolf_engine(engine: Seq<char>) -> bool {
    engine == "wolf"@
}

/// `\f[n]` for Wolf RPG, `\FS[n]` for RPG Maker.
pub open spec fn font_code(engine: Seq<char>, n: u32) -> Seq<char> {
    if is_wolf_engine(engine) {
        "\\f["@ + decimal(n as nat) + "]"@
    } else {
        "\\FS["@ + decimal(n as nat) + "]"@
    }
}

/// The engine's font-size code at the start of a text.
pub open spec fn font_pattern(engine: Seq<char>) -> Seq<char> {
    if is_wolf_engine(engine) {
        "^\\\\f\\[\\d+\\]"@
    } else {
        "^\\\\FS\\[\\d+\\]"@
    }
}

fn font_pattern_str(engine: &str) -> (p: &'static str)
    ensures
        p@ == font_pattern(engine@),
{
    if str_equal(engine, "wolf") {
        "^\\\\f\\[\\d+\\]"
    } else {
        "^\\\\FS\\[\\d+\\]"
    }
}

/// The font-size code of `engine` for size `n`.
pub fn font_prefix_code(engine: &str, n: u32) -> (code: String)
    ensures
        code@ == font_code(engine@, n),
{
    if str_equal(engine, "wolf") {
        append_decimal(String::from_str("\\f["), n as usize).concat("]")
    } else {
        append_decimal(String::from_str("\\FS["), n as usize).concat("]")
    }
}

/// `text` with the font code for size `n` in front; where a code is there
/// already, it is replaced when `replace_existing` holds and kept
/// otherwise. A pattern that does not compile matches nothing.
pub open spec fn font_prefixed(text: Seq<char>, n: u32, replace_existing: bool, engine: Seq<char>) -> Seq<
    char,
> {
    let code = font_code(engine, n);
    if regex_match_result(font_pattern(engine), text) == Some(true) {
        if replace_existing {
            match regex_replace_first_result(font_pattern(engine), text, code) {
                Some(t) => t,
                None => text,
            }
        } else {
            text
        }
    } else {
        code + text
    }
}

/// Puts the engine's font-size code in front of `text` (see `font_prefixed`).
pub fn apply_font_prefix(text: &str, n: u32, replace_existing: bool, engine: &str) -> (r: String)
    ensures
        r@ == font_prefixed(text@, n, replace_existing, engine@),
{
    let pattern = font_pattern_str(engine);
    let code = font_prefix_code(engine, n);
    match regex_is_match(pattern, text) {
        Some(true) => {
            if replace_existing {
                match regex_replace_first(pattern, text, code.as_str()) {
                    Some(t) => t,
                    None => String::from_str(text),
                }
            } else {
                String::from_str(text)
            }
        },
        _ => code.concat(text),
    }
}

/// `text` without a leading Wolf `\f[n]` code and then without a leading
/// RPG Maker `\FS[n]` code.
pub open spec fn font_stripped(text: Seq<char>) -> Seq<char> {
    let a = match regex_replace_first_result(font_pattern("wolf"@), text, Seq::empty()) {
        Some(t) => t,
        None => text,
    };
    match regex_replace_first_result(font_pattern("mv_mz"@), a, Seq::empty()) {
        Some(t) => t,
        None => a,
    }
}

/// Removes a leading font-size code of either engine (see `font_stripped`).
pub fn strip_font_prefix(text: &str) -> (r: String)
    ensures
        r@ == font_stripped(text@),
{
    let empty = "";
    proof {
        reveal_strlit("");
        assert(empty@ =~= Seq::<char>::empty());
    }
    let wolf_pattern = font_pattern_str("wolf");
    let a = match regex_replace_first(wolf_pattern, text, empty) {
        Some(t) => t,
        None => String::from_str(text),
    };
    let mvmz_pattern = font_pattern_str("mv_mz");
    match regex_replace_first(mvmz_pattern, a.as_str(), empty) {
        Some(t) => t,
        None => a,
    }
}

// ---------------------------------------------------------------------------
// Scanning and clearing the codes of a project
// ---------------------------------------------------------------------------

/// How many translated segments already carry a font-size code.
#[derive(Debug, Clone)]
pub struct FontScanResult {
    /// Segments whose translation starts with a font-size code of either
    /// engine.
    pub existing_font_count: i64,
    /// Translated segments looked at.
    pub total_translated: i64,
    /// The project's engine.
    pub engine: String,
}

/// Whether a segment of a file of type `file_type` is looked at: for
/// RPG Maker MV/MZ only map text takes a code.
pub open spec fn scanned(engine: Seq<char>, file_type: Seq<char>) -> bool {
    engine != "mv_mz"@ || file_type == "map"@
}

/// `text` starts with a font-size code of either engine.
pub open spec fn has_font_code(text: Seq<char>) -> bool {
    regex_match_result(font_pattern("wolf"@), text) == Some(true) || regex_match_result(font_pattern("mv_mz"@), text)
        == Some(true)
}

/// The segments looked at and those with a code, over `(file_type,
/// translation)` rows.
pub open spec fn scan_counts(engine: Seq<char>, rows: Seq<(Seq<char>, Seq<char>)>) -> (nat, nat)
    decreases rows.len(),
{
    if rows.len() == 0 {
        (0, 0)
    } else {
        let (t, e) = scan_counts(engine, rows.drop_last());
        let (ft, text) = rows.last();
        if scanned(engine, ft) {
            (t + 1, if has_font_code(text) { e + 1 } else { e })
        } else {
            (t, e)
        }
    }
}

pub open spec fn rows_view(rows: Seq<(String, String)>) -> Seq<(Seq<char>, Seq<char>)> {
    rows.map_values(|r: (String, String)| (r.0@, r.1@))
}

proof fn lemma_scan_counts_bound(engine: Seq<char>, rows: Seq<(Seq<char>, Seq<char>)>)
    ensures
        scan_counts(engine, rows).1 <= scan_counts(engine, rows).0 <= rows.len(),
    decreases rows.len(),
{
    if rows.len() > 0 {
        lemma_scan_counts_bound(engine, rows.drop_last());
    }
}

/// Counts, over the `(file_type, translation)` rows of a project's
/// translated segments, those looked at (see `scanned`) and those among
/// them that start with a font-size code of either engine.
pub fn scan_font_status(engine: &str, rows: &Vec<(String, String)>) -> (r: FontScanResult)
    requires
        rows@.len() <= i64::MAX,
    ensures
        r.engine@ == engine@,
        r.total_translated == scan_counts(engine@, rows_view(rows@)).0,
        r.existing_font_count == scan_counts(engine@, rows_view(rows@)).1,
{
    let ghost rv = rows_view(rows@);
    let is_mv_mz = str_equal(engine, "mv_mz");
    let wolf_pattern = font_pattern_str("wolf");
    let mvmz_pattern = font_pattern_str("mv_mz");
    let mut total: i64 = 0;
    let mut existing: i64 = 0;
    let mut i: usize = 0;
    assert(rv.take(0) =~= Seq::<(Seq<char>, Seq<char>)>::empty());
    while i < rows.len()
        invariant
            i <= rows@.len(),
            rows@.len() <= i64::MAX,
            rv == rows_view(rows@),
            is_mv_mz == (engine@ == "mv_mz"@),
            wolf_pattern@ == font_pattern("wolf"@),
            mvmz_pattern@ == font_pattern("mv_mz"@),
            total as int == scan_counts(engine@, rv.take(i as int)).0,
            existing as int == scan_counts(engine@, rv.take(i as int)).1,
        decreases rows@.len() - i,
    {
        proof {
            lemma_scan_counts_bound(engine@, rv.take(i as int));
            let t = rv.take(i + 1);
            assert(t.drop_last() =~= rv.take(i as int));
            assert(t.last() == (rows@[i as int].0@, rows@[i as int].1@));
        }
        let (ft, text) = (&rows[i].0, &rows[i].1);
        if !is_mv_mz || str_equal(ft.as_str(), "map") {
            total = total + 1;
            let w = regex_is_match(wolf_pattern, text.as_str());
            let m = regex_is_match(mvmz_pattern, text.as_str());
            if w == Some(true) || m == Some(true) {
                existing = existing + 1;
            }
        }
        i = i + 1;
    }
    assert(rv.take(i as int) =~= rv);
    FontScanResult { existing_font_count: existing, total_translated: total, engine: String::from_str(engine) }
}

/// The `(id, translation)` rows whose translation loses a font-size code
/// when stripped, with the stripped text, in order.
pub open spec fn strip_updates(rows: Seq<(Seq<char>, Seq<char>)>) -> Seq<(Seq<char>, Seq<char>)>
    decreases rows.len(),
{
    if rows.len() == 0 {
        Seq::empty()
    } else {
        let (id, text) = rows.last();
        strip_updates(rows.drop_last()) + if font_stripped(text) != text {
            seq![(id, font_stripped(text))]
        } else {
            Seq::empty()
        }
    }
}

/// The updates that clear the font-size codes of a project's translated
/// segments, given as `(id, translation)` rows: each changed segment with
/// its text stripped (see `strip_font_prefix`); unchanged ones are left
/// out.
pub fn strip_font_prefixes(rows: &Vec<(String, String)>) -> (updates: Vec<(String, String)>)
    ensures
        rows_view(updates@) == strip_updates(rows_view(rows@)),
{
    let ghost rv = rows_view(rows@);
    let mut out: Vec<(String, String)> = Vec::new();
    let mut i: usize = 0;
    assert(rv.take(0) =~= Seq::<(Seq<char>, Seq<char>)>::empty());
    assert(rows_view(out@) =~= Seq::<(Seq<char>, Seq<char>)>::empty());
    while i < rows.len()
        invariant
            i <= rows@.len(),
            rv == rows_view(rows@),
            rows_view(out@) == strip_updates(rv.take(i as int)),
        decreases rows@.len() - i,
    {
        let ghost before = rows_view(out@);
        let clean = strip_font_prefix(rows[i].1.as_str());
        if !str_equal(clean.as_str(), rows[i].1.as_str()) {
            out.push((rows[i].0.clone(), clean));
        }
        proof {
            let t = rv.take(i + 1);
            assert(t.drop_last() =~= rv.take(i as int));
            assert(t.last() == (rows@[i as int].0@, rows@[i as int].1@));
            assert(rows_view(out@) =~= strip_updates(t));
        }
        i = i + 1;
    }
    assert(rv.take(i as int) =~= rv);
    out
}

// ---------------------------------------------------------------------------
// Preparing translations for a file's export
// ---------------------------------------------------------------------------

/// Whether an export writes font-size codes into a file's texts: for every
/// engine but MV/MZ, whose files take them in maps only.
pub open spec fn takes_font_prefix(engine: Seq<char>, file_type: Seq<char>) -> bool {
    engine != "mv_mz"@ || file_type == "map"@
}

/// The (key, text) rows an export writes: with a font size given and a
/// file that takes codes, each text with the code put in front (see
/// `font_prefixed`); else the rows as they are.
pub open spec fn export_rows(
    rows: Seq<(Seq<char>, Seq<char>)>,
    font_size: Option<u32>,
    replace_existing: bool,
    engine: Seq<char>,
    file_type: Seq<char>,
) -> Seq<(Seq<char>, Seq<char>)> {
    match font_size {
        Some(n) => if takes_font_prefix(engine, file_type) {
            Seq::new(rows.len(), |i: int| (rows[i].0, font_prefixed(rows[i].1, n, replace_existing, engine)))
        } else {
            rows
        },
        None => rows,
    }
}

/// The rows an export writes for a file (see `export_rows`).
pub fn prefix_export_rows(
    rows: &Vec<(String, String)>,
    font_size: Option<u32>,
    replace_existing: bool,
    engine: &str,
    file_type: &str,
) -> (out: Vec<(String, String)>)
    ensures
        rows_view(out@) == export_rows(rows_view(rows@), font_size, replace_existing, engine@, file_type@),
{
    proof {
        reveal_strlit("mv_mz");
        reveal_strlit("map");
    }
    let takes = !str_equal(engine, "mv_mz") || str_equal(file_type, "map");
    let mut out: Vec<(String, String)> = Vec::new();
    let ghost rv = rows_view(rows@);
    let mut i: usize = 0;
    while i < rows.len()
        invariant
            rv == rows_view(rows@),
            takes == takes_font_prefix(engine@, file_type@),
            i <= rows@.len(),
            out@.len() == i,
            forall|k: int|
                0 <= k < i ==> (#[trigger] rows_view(out@)[k]) == export_rows(
                    rv,
                    font_size,
                    replace_existing,
                    engine@,
                    file_type@,
                )[k],
        decreases rows@.len() - i,
    {
        let key = rows[i].0.clone();
        let text = match font_size {
            Some(n) => if takes {
                apply_font_prefix(rows[i].1.as_str(), n, replace_existing, engine)
            } else {
                rows[i].1.clone()
            },
            None => rows[i].1.clone(),
        };
        let ghost before = out@;
        out.push((key, text));
        assert forall|k: int| 0 <= k < i + 1 implies (#[trigger] rows_view(out@)[k]) == export_rows(
            rv,
            font_size,
            replace_existing,
            engine@,
            file_type@,
        )[k] by {
            if k < i {
                assert(rows_view(out@)[k] == rows_view(before)[k]);
            }
        }
        i = i + 1;
    }
    assert(rows_view(out@) =~= export_rows(rv, font_size, replace_existing, engine@, file_type@));
    out
}

/// The file a Wolf translation key belongs to: the key up to its second
/// `/` (its first two parts), or the whole key when it has one `/` only;
/// `None` when it has none.
pub open spec fn wolf_file_key(key: Seq<char>) -> Option<Seq<char>> {
    let k1 = first_slash(key, 0);
    if k1 < 0 {
        None
    } else {
        let k2 = first_slash(key, k1 + 1);
        Some(key.take(if k2 < 0 { key.len() as int } else { k2 }))
    }
}

/// The index of the group for `f`, if there is one.
pub open spec fn group_index(groups: Seq<(Seq<char>, Seq<(Seq<char>, Seq<char>)>)>, f: Seq<char>) -> Option<int>
    decreases groups.len(),
{
    if groups.len() == 0 {
        None
    } else {
        match group_index(groups.drop_last(), f) {
            Some(i) => Some(i),
            None => if groups.last().0 == f {
                Some(groups.len() - 1)
            } else {
                None
            },
        }
    }
}

/// Translations grouped by the file their key belongs to (see
/// `wolf_file_key`): groups in the order their files first appear, each
/// with its translations in order; keys with no `/` are left out.
pub open spec fn wolf_groups(rows: Seq<(Seq<char>, Seq<char>)>) -> Seq<(Seq<char>, Seq<(Seq<char>, Seq<char>)>)>
    decreases rows.len(),
{
    if rows.len() == 0 {
        Seq::empty()
    } else {
        let g = wolf_groups(rows.drop_last());
        let row = rows.last();
        match wolf_file_key(row.0) {
            None => g,
            Some(f) => match group_index(g, f) {
                Some(i) => g.update(i, (f, g[i].1.push(row))),
                None => g.push((f, seq![row])),
            },
        }
    }
}

pub open spec fn groups_view(gs: Seq<(String, Vec<WolfTranslation>)>) -> Seq<(Seq<char>, Seq<(Seq<char>, Seq<char>)>)> {
    gs.map_values(
        |g: (String, Vec<WolfTranslation>)| (g.0@, g.1@.map_values(|t: WolfTranslation| (t.key@, t.text@))),
    )
}

proof fn lemma_group_index(groups: Seq<(Seq<char>, Seq<(Seq<char>, Seq<char>)>)>, f: Seq<char>)
    ensures
        match group_index(groups, f) {
            Some(i) => 0 <= i < groups.len() && groups[i].0 == f && forall|j: int| 0 <= j < i ==> groups[j].0 != f,
            None => forall|j: int| 0 <= j < groups.len() ==> groups[j].0 != f,
        },
    decreases groups.len(),
{
    if groups.len() > 0 {
        let d = groups.drop_last();
        lemma_group_index(d, f);
        assert(forall|j: int| 0 <= j < d.len() ==> d[j] == groups[j]);
    }
}

proof fn lemma_first_slash_bounds(s: Seq<char>, i: int)
    requires
        0 <= i,
    ensures
        first_slash(s, i) == -1 || (i <= first_slash(s, i) < s.len()),
    decreases s.len() - i,
{
    if i < s.len() && s[i] != '/' {
        lemma_first_slash_bounds(s, i + 1);
    }
}

fn slash_from(key: &str, start: usize) -> (k: usize)
    requires
        start <= key@.len(),
    ensures
        k <= key@.len(),
        k == if first_slash(key@, start as int) < 0 {
            key@.len() as int
        } else {
            first_slash(key@, start as int)
        },
{
    let n = key.unicode_len();
    let mut i: usize = start;
    while i < n
        invariant
            n == key@.len(),
            start <= i <= n,
            first_slash(key@, start as int) == first_slash(key@, i as int),
        decreases n - i,
    {
        if key.get_char(i) == '/' {
            return i;
        }
        i = i + 1;
    }
    n
}

fn find_group(groups: &Vec<(String, Vec<WolfTranslation>)>, f: &str) -> (r: Option<usize>)
    ensures
        match group_index(groups_view(groups@), f@) {
            Some(i) => r == Some(i as usize),
            None => r is None,
        },
{
    let ghost g0 = groups_view(groups@);
    proof {
        lemma_group_index(g0, f@);
    }
    let mut k: usize = 0;
    while k < groups.len()
        invariant
            k <= groups@.len(),
            g0 == groups_view(groups@),
            forall|q: int| 0 <= q < k ==> g0[q].0 != f@,
            match group_index(g0, f@) {
                Some(i) => 0 <= i < g0.len() && g0[i].0 == f@ && forall|j: int| 0 <= j < i ==> g0[j].0 != f@,
                None => forall|j: int| 0 <= j < g0.len() ==> g0[j].0 != f@,
            },
        decreases groups@.len() - k,
    {
        if crate::wolf::decryptor::str_equal(groups[k].0.as_str(), f) {
            assert(g0[k as int].0 == f@);
            return Some(k);
        }
        k = k + 1;
    }
    None
}

fn file_key_of(key: &str) -> (r: Option<String>)
    ensures
        match wolf_file_key(key@) {
            Some(f) => r matches Some(x) && x@ == f,
            None => r is None,
        },
{
    let n = key.unicode_len();
    proof {
        lemma_first_slash_bounds(key@, 0);
    }
    let i = slash_from(key, 0);
    if i == n {
        return None;
    }
    let j = slash_from(key, i + 1);
    let f = key.substring_char(0, j);
    assert(f@ =~= key@.take(j as int));
    Some(String::from_str(f))
}

/// Groups translations by the file their key belongs to (see
/// `wolf_groups`).
pub fn group_wolf_translations(rows: &Vec<(String, String)>) -> (groups: Vec<(String, Vec<WolfTranslation>)>)
    ensures
        groups_view(groups@) == wolf_groups(rows_view(rows@)),
{
    let ghost rv = rows_view(rows@);
    let mut groups: Vec<(String, Vec<WolfTranslation>)> = Vec::new();
    let mut i: usize = 0;
    while i < rows.len()
        invariant
            rv == rows_view(rows@),
            i <= rows@.len(),
            groups_view(groups@) == wolf_groups(rv.take(i as int)),
        decreases rows@.len() - i,
    {
        assert(rv.take(i + 1).drop_last() =~= rv.take(i as int));
        assert(rv.take(i + 1).last() == (rows@[i as int].0@, rows@[i as int].1@));
        let ghost g0 = groups_view(groups@);
        match file_key_of(rows[i].0.as_str()) {
            None => {},
            Some(f) => {
                let t = WolfTranslation { key: rows[i].0.clone(), text: rows[i].1.clone() };
                proof {
                    lemma_group_index(g0, f@);
                }
                assert((t.key@, t.text@) == rv[i as int]);
                if let Some(k) = find_group(&groups, f.as_str()) {
                    let ghost gv = groups@;
                    let glen = groups.len();
                    assert(g0.len() == glen);
                    assert(group_index(g0, f@) == Some(k as int));
                    assert(g0[k as int].0 == f@);
                    assert(gv[k as int].0@ == g0[k as int].0);
                    let (name, mut list) = groups.remove(k);
                    assert(name@ == f@);
                    let ghost l0 = list@;
                    list.push(t);
                    assert(list@.map_values(|x: WolfTranslation| (x.key@, x.text@)) =~= l0.map_values(
                        |x: WolfTranslation| (x.key@, x.text@),
                    ).push(rv[i as int]));
                    groups.insert(k, (name, list));
                    assert(groups@ =~= gv.update(k as int, (name, list)));
                    assert(groups_view(groups@) =~= g0.update(k as int, (f@, g0[k as int].1.push(rv[i as int]))));
                } else {
                    assert(group_index(g0, f@) is None);
                    let mut list: Vec<WolfTranslation> = Vec::new();
                    list.push(t);
                    assert(list@.map_values(|x: WolfTranslation| (x.key@, x.text@)) =~= seq![rv[i as int]]);
                    let ghost gv = groups@;
                    groups.push((f, list));
                    assert(groups@ =~= gv.push((f, list)));
                    assert(groups_view(groups@) =~= g0.push((f@, seq![rv[i as int]])));
                }
            },
        }
        i = i + 1;
    }
    assert(rv.take(rows.len() as int) =~= rv);
    groups
}

} // verus!
