//! Quality checks on translations: character widths, a byte-order mark
//! at the start of a translation, glossary terms the translation misses,
//! and the score the findings leave.
use vstd::prelude::*;

use crate::glossary::{contains_text, occurs_in};
use crate::game_title::{lemma_line_end_bounds, line_end};
use crate::tm::{lowercase_call, lowercased};
use crate::wolf::decryptor::str_equal;
use crate::wolf::text_filter::{trim_str, trimmed};

verus! {

/// One QA finding on a translated segment.
#[derive(Debug, Clone, PartialEq, Eq)]
pub enum QaError {
    /// A placeholder of the source that the translation lacks.
    MissingPlaceholder { placeholder: String },
    /// A line (counted from 1) wider than the message box, with its width
    /// in half-width units (a full-width character counts two) and its
    /// length in characters.
    LineTooLong { line: usize, units: u64, char_count: usize },
    /// The translation starts with a byte-order mark.
    BomDetected,
    /// A glossary term of the source whose target the translation lacks.
    GlossaryMismatch { source_term: String, expected_target: String },
}

pub enum QaErrorView {
    MissingPlaceholder { placeholder: Seq<char> },
    LineTooLong { line: nat, units: nat, char_count: nat },
    BomDetected,
    GlossaryMismatch { source_term: Seq<char>, expected_target: Seq<char> },
}

impl View for QaError {
    type V = QaErrorView;

    open spec fn view(&self) -> QaErrorView {
        match self {
            QaError::MissingPlaceholder { placeholder } => QaErrorView::MissingPlaceholder {
                placeholder: placeholder@,
            },
            QaError::LineTooLong { line, units, char_count } => QaErrorView::LineTooLong {
                line: *line as nat,
                units: *units as nat,
                char_count: *char_count as nat,
            },
            QaError::BomDetected => QaErrorView::BomDetected,
            QaError::GlossaryMismatch { source_term, expected_target } => QaErrorView::GlossaryMismatch {
                source_term: source_term@,
                expected_target: expected_target@,
            },
        }
    }
}


/// CJK ideographs (U+4E00–U+9FFF, U+3400–U+4DBF, U+F900–U+FAFF), kana
/// (U+3040–U+30FF), CJK symbols (U+3000–U+303F) and the half- and
/// full-width forms (U+FF00–U+FFEF): the characters two units wide.
pub open spec fn fullwidth(c: char) -> bool {
    let n = c as u32;
    (0x4E00 <= n && n <= 0x9FFF) || (0x3040 <= n && n <= 0x309F) || (0x30A0 <= n && n <= 0x30FF) || (
    0xFF00 <= n && n <= 0xFFEF) || (0xF900 <= n && n <= 0xFAFF) || (0x3400 <= n && n <= 0x4DBF) || (0x3000
        <= n && n <= 0x303F)
}

/// Whether `c` is a full-width character (see `fullwidth`).
pub fn is_fullwidth(c: char) -> (r: bool)
    ensures
        r == fullwidth(c),
{
    let n = c as u32;
    (0x4E00 <= n && n <= 0x9FFF) || (0x3040 <= n && n <= 0x309F) || (0x30A0 <= n && n <= 0x30FF) || (
    0xFF00 <= n && n <= 0xFFEF) || (0xF900 <= n && n <= 0xFAFF) || (0x3400 <= n && n <= 0x4DBF) || (0x3000
        <= n && n <= 0x303F)
}

/// The translation starts with a byte-order mark (U+FEFF).
pub open spec fn has_bom(target: Seq<char>) -> bool {
    target.len() > 0 && target[0] == '\u{FEFF}'
}

/// Whether `target` starts with a byte-order mark (see `has_bom`).
pub fn bom_detected(target: &str) -> (r: bool)
    ensures
        r == has_bom(target@),
{
    target.unicode_len() > 0 && target.get_char(0) == '\u{FEFF}'
}

/// The glossary terms a translation misses: those whose source text
/// occurs in `source` while their target text, in lowercase, does not
/// occur in the lowercased translation; in glossary order.
pub open spec fn glossary_misses(
    source: Seq<char>,
    target: Seq<char>,
    terms: Seq<(Seq<char>, Seq<char>)>,
) -> Seq<(Seq<char>, Seq<char>)>
    decreases terms.len(),
{
    if terms.len() == 0 {
        Seq::empty()
    } else {
        let m = glossary_misses(source, target, terms.drop_last());
        let t = terms.last();
        if occurs_in(source, t.0) && !occurs_in(lowercased(target), lowercased(t.1)) {
            m.push(t)
        } else {
            m
        }
    }
}

pub open spec fn terms_view(v: Seq<(String, String)>) -> Seq<(Seq<char>, Seq<char>)> {
    v.map_values(|p: (String, String)| (p.0@, p.1@))
}

/// The glossary terms the translation `target` of `source` misses (see
/// `glossary_misses`).
pub fn check_glossary(source: &str, target: &str, terms: &Vec<(String, String)>) -> (misses: Vec<(String, String)>)
    ensures
        terms_view(misses@) == glossary_misses(source@, target@, terms_view(terms@)),
{
    let ghost tv = terms_view(terms@);
    let target_lower = lowercase_call(target);
    let mut out: Vec<(String, String)> = Vec::new();
    let mut i: usize = 0;
    while i < terms.len()
        invariant
            tv == terms_view(terms@),
            target_lower@ == lowercased(target@),
            i <= terms@.len(),
            terms_view(out@) == glossary_misses(source@, target@, tv.take(i as int)),
        decreases terms@.len() - i,
    {
        assert(tv.take(i + 1).drop_last() =~= tv.take(i as int));
        assert(tv.take(i + 1).last() == (terms@[i as int].0@, terms@[i as int].1@));
        let term_lower = lowercase_call(terms[i].1.as_str());
        if contains_text(source, terms[i].0.as_str()) && !contains_text(target_lower.as_str(), term_lower.as_str()) {
            let ghost before = out@;
            out.push((terms[i].0.clone(), terms[i].1.clone()));
            assert(terms_view(out@) =~= terms_view(before).push(tv.take(i + 1).last()));
        }
        i = i + 1;
    }
    assert(tv.take(terms.len() as int) =~= tv);
    out
}

/// The score a translation keeps out of 100: 25 off for each missing
/// placeholder, 10 for each line too long, 15 for a byte-order mark and 15
/// for each glossary term missed; never below 0.
pub open spec fn qa_score(missing: nat, long_lines: nat, bom: bool, misses: nat) -> int {
    let penalty = 25 * missing + 10 * long_lines + (if bom {
        15int
    } else {
        0int
    }) + 15 * misses;
    if penalty >= 100 {
        0
    } else {
        100 - penalty
    }
}

/// The score left by the counts of findings on a text (see `qa_score`).
pub fn score(missing_placeholders: usize, long_lines: usize, bom: bool, glossary_misses: usize) -> (s: u8)
    ensures
        s as int == qa_score(missing_placeholders as nat, long_lines as nat, bom, glossary_misses as nat),
{
    let penalty: u128 = 25 * (missing_placeholders as u128) + 10 * (long_lines as u128) + (if bom {
        15u128
    } else {
        0u128
    }) + 15 * (glossary_misses as u128);
    if penalty >= 100 {
        0
    } else {
        (100 - penalty) as u8
    }
}

// ---------------------------------------------------------------------------
// Line widths
// ---------------------------------------------------------------------------

/// The width of a character in half-width units.
pub open spec fn char_units(c: char) -> nat {
    if fullwidth(c) {
        2
    } else {
        1
    }
}

/// The width of a line in half-width units.
pub open spec fn line_units(s: Seq<char>) -> nat
    decreases s.len(),
{
    if s.len() == 0 {
        0
    } else {
        line_units(s.drop_last()) + char_units(s.last())
    }
}

/// The width of `line` in half-width units (see `line_units`).
pub fn measure_line_units(line: &str) -> (u: u64)
    requires
        line@.len() <= u64::MAX / 2,
    ensures
        u == line_units(line@),
{
    let n = line.unicode_len();
    let mut u: u64 = 0;
    let mut i: usize = 0;
    while i < n
        invariant
            n == line@.len(),
            n <= u64::MAX / 2,
            i <= n,
            u == line_units(line@.take(i as int)),
            u <= 2 * i,
        decreases n - i,
    {
        assert(line@.take(i + 1).drop_last() =~= line@.take(i as int));
        u = u + if is_fullwidth(line.get_char(i)) {
            2
        } else {
            1
        };
        i = i + 1;
    }
    assert(line@.take(n as int) =~= line@);
    u
}

/// The lines of a text from index `i` on, as `str::lines` gives them:
/// split at `\n`, a `\r` before the `\n` dropped, no empty line after a
/// final `\n`.
pub open spec fn lines_from(t: Seq<char>, i: int) -> Seq<Seq<char>>
    decreases t.len() + 1 - i,
{
    if i < 0 || i >= t.len() {
        Seq::empty()
    } else {
        let e = line_end(t, i);
        if i <= e <= t.len() {
            let raw = t.subrange(i, e);
            let line = if e < t.len() && raw.len() > 0 && raw.last() == '\r' {
                raw.drop_last()
            } else {
                raw
            };
            seq![line] + lines_from(t, e + 1)
        } else {
            Seq::empty()
        }
    }
}

/// At most 4 lines are checked, the rest of a message box being out of
/// view.
pub open spec fn max_lines() -> nat {
    4
}

/// A line is too long when its width exceeds the box's 720 px at 13 px per
/// half-width unit, that is when `13 * units > 720`.
pub open spec fn too_long(units: nat) -> bool {
    13 * units > 720
}

/// The long-line findings among `lines[k..]` (line numbers from 1), for the
/// first `max_lines()` lines; blank lines are skipped.
pub open spec fn long_lines_from(lines: Seq<Seq<char>>, k: int) -> Seq<QaErrorView>
    decreases lines.len() - k,
{
    if k < 0 || k >= lines.len() || k >= max_lines() {
        Seq::empty()
    } else {
        let line = lines[k];
        let rest = long_lines_from(lines, k + 1);
        if trimmed(line).len() > 0 && too_long(line_units(line)) {
            seq![QaErrorView::LineTooLong { line: (k + 1) as nat, units: line_units(line), char_count: line.len() }]
                + rest
        } else {
            rest
        }
    }
}

/// The long-line findings of a translation.
pub open spec fn long_lines(target: Seq<char>) -> Seq<QaErrorView> {
    long_lines_from(lines_from(target, 0), 0)
}

pub open spec fn errors_view(es: Seq<QaError>) -> Seq<QaErrorView> {
    es.map_values(|e: QaError| e@)
}

/// The line of `t` that starts at `i` (see `lines_from`), and where the
/// next one starts.
fn line_at(t: &str, i: usize) -> (r: (&str, usize))
    requires
        i < t@.len(),
    ensures
        ({
            let e = line_end(t@, i as int);
            let raw = t@.subrange(i as int, e);
            &&& i <= e <= t@.len()
            &&& r.1 == e
            &&& r.0@ == if e < t@.len() && raw.len() > 0 && raw.last() == '\r' {
                raw.drop_last()
            } else {
                raw
            }
        }),
{
    proof {
        lemma_line_end_bounds(t@, i as int);
    }
    let n = t.unicode_len();
    let mut e = i;
    while e < n && t.get_char(e) != '\n'
        invariant
            n == t@.len(),
            i <= e <= n,
            line_end(t@, i as int) == line_end(t@, e as int),
        decreases n - e,
    {
        e = e + 1;
    }
    assert(e == line_end(t@, e as int));
    let line = if e < n && e > i && t.get_char(e - 1) == '\r' {
        t.substring_char(i, e - 1)
    } else {
        t.substring_char(i, e)
    };
    proof {
        let raw = t@.subrange(i as int, e as int);
        if e < n && e > i && t@[e - 1] == '\r' {
            assert(line@ =~= raw.drop_last());
        } else {
            assert(line@ =~= raw);
        }
    }
    (line, e)
}

/// The long-line findings of a translation (see `long_lines`).
pub fn check_line_length(target: &str) -> (errors: Vec<QaError>)
    requires
        target@.len() <= u64::MAX / 2,
    ensures
        errors_view(errors@) == long_lines(target@),
{
    let n = target.unicode_len();
    let mut found: Vec<QaError> = Vec::new();
    let mut i: usize = 0;
    let mut k: usize = 0;
    let ghost ls = lines_from(target@, 0);
    while i < n && k < 4
        invariant
            n == target@.len(),
            n <= u64::MAX / 2,
            i <= n,
            ls == lines_from(target@, 0),
            k <= 4,
            ls.len() >= k,
            ls.skip(k as int) == lines_from(target@, i as int),
            errors_view(found@) + long_lines_from(ls, k as int) == long_lines(target@),
        decreases n + 1 - i,
    {
        let (line, e) = line_at(target, i);
        let next = if e < n {
            e + 1
        } else {
            n
        };
        assert(lines_from(target@, i as int) == seq![line@] + lines_from(target@, e + 1));
        assert(lines_from(target@, next as int) == lines_from(target@, e + 1));
        assert(ls[k as int] == line@) by {
            assert(ls.skip(k as int)[0] == line@);
        }
        assert(ls.skip(k + 1) =~= lines_from(target@, next as int)) by {
            assert(ls.skip(k + 1) =~= ls.skip(k as int).skip(1));
        }
        let units = measure_line_units(line);
        let ghost before = found@;
        if trim_str(line).unicode_len() > 0 && 13 * (units as u128) > 720 {
            found.push(QaError::LineTooLong { line: k + 1, units, char_count: line.unicode_len() });
            assert(errors_view(found@) =~= errors_view(before).push(ls_finding(ls, k as int)));
            assert(errors_view(found@) + long_lines_from(ls, k + 1) =~= errors_view(before) + long_lines_from(
                ls,
                k as int,
            ));
        }
        i = next;
        k = k + 1;
    }
    proof {
        if k < 4 {
            assert(lines_from(target@, i as int) =~= Seq::<Seq<char>>::empty());
            assert(ls.len() == k);
        }
        assert(long_lines_from(ls, k as int) =~= Seq::<QaErrorView>::empty());
    }
    assert(errors_view(found@) =~= long_lines(target@));
    found
}

/// The finding for line `k` of `lines`.
pub open spec fn ls_finding(lines: Seq<Seq<char>>, k: int) -> QaErrorView {
    QaErrorView::LineTooLong { line: (k + 1) as nat, units: line_units(lines[k]), char_count: lines[k].len() }
}

// ---------------------------------------------------------------------------
// The whole check
// ---------------------------------------------------------------------------

/// The placeholders of `ps` (those the source holds), each at its first
/// occurrence, that `target` lacks.
pub open spec fn missing_placeholders(ps: Seq<Seq<char>>, target: Seq<char>) -> Seq<Seq<char>>
    decreases ps.len(),
{
    if ps.len() == 0 {
        Seq::empty()
    } else {
        let m = missing_placeholders(ps.drop_last(), target);
        let p = ps.last();
        if ps.drop_last().contains(p) || occurs_in(target, p) {
            m
        } else {
            m.push(p)
        }
    }
}

/// The findings on the translation `target` of `source`, whose
/// placeholders are `ps`: a byte-order mark first, then each missing
/// placeholder, each line too long, and each glossary term missed.
pub open spec fn qa_errors(
    source: Seq<char>,
    target: Seq<char>,
    terms: Seq<(Seq<char>, Seq<char>)>,
    ps: Seq<Seq<char>>,
) -> Seq<QaErrorView> {
    (if has_bom(target) {
        seq![QaErrorView::BomDetected]
    } else {
        Seq::empty()
    }) + missing_placeholders(ps, target).map_values(|p: Seq<char>| QaErrorView::MissingPlaceholder { placeholder: p })
        + long_lines(target) + glossary_misses(source, target, terms).map_values(
        |t: (Seq<char>, Seq<char>)| QaErrorView::GlossaryMismatch { source_term: t.0, expected_target: t.1 },
    )
}

/// The score and findings of one translation.
#[derive(Debug, Clone)]
pub struct QaResult {
    pub score: u8,
    pub errors: Vec<QaError>,
}

/// Checks the translation `target` of `source`: `source_placeholders` are
/// the placeholders the source holds, in order, and `glossary_terms` the
/// glossary (see `qa_errors` and `qa_score`).
pub fn check(
    source: &str,
    target: &str,
    glossary_terms: &Vec<(String, String)>,
    source_placeholders: &Vec<String>,
) -> (r: QaResult)
    requires
        target@.len() <= u64::MAX / 2,
    ensures
        errors_view(r.errors@) == qa_errors(
            source@,
            target@,
            terms_view(glossary_terms@),
            source_placeholders@.map_values(|p: String| p@),
        ),
        r.score as int == qa_score(
            missing_placeholders(source_placeholders@.map_values(|p: String| p@), target@).len(),
            long_lines(target@).len(),
            has_bom(target@),
            glossary_misses(source@, target@, terms_view(glossary_terms@)).len(),
        ),
{
    let ghost pv = source_placeholders@.map_values(|p: String| p@);
    let mut errors: Vec<QaError> = Vec::new();
    let bom = bom_detected(target);
    if bom {
        errors.push(QaError::BomDetected);
    }
    let ghost e0 = errors_view(errors@);
    assert(e0 =~= if has_bom(target@) {
        seq![QaErrorView::BomDetected]
    } else {
        Seq::<QaErrorView>::empty()
    });
    let mut missing: usize = 0;
    let mut i: usize = 0;
    while i < source_placeholders.len()
        invariant
            pv == source_placeholders@.map_values(|p: String| p@),
            i <= source_placeholders@.len(),
            missing <= i,
            missing == missing_placeholders(pv.take(i as int), target@).len(),
            errors_view(errors@) == e0 + missing_placeholders(pv.take(i as int), target@).map_values(
                |p: Seq<char>| QaErrorView::MissingPlaceholder { placeholder: p },
            ),
        decreases source_placeholders@.len() - i,
    {
        let p = source_placeholders[i].as_str();
        assert(pv.take(i + 1).drop_last() =~= pv.take(i as int));
        assert(pv.take(i + 1).last() == p@);
        let mut seen = false;
        let mut q: usize = 0;
        while q < i
            invariant
                pv == source_placeholders@.map_values(|p: String| p@),
                i < source_placeholders@.len(),
                q <= i,
                seen == (exists|x: int| 0 <= x < q && pv[x] == p@),
            decreases i - q,
        {
            assert(pv[q as int] == source_placeholders@[q as int]@);
            if str_equal(source_placeholders[q].as_str(), p) {
                seen = true;
            }
            q = q + 1;
        }
        assert(seen == pv.take(i as int).contains(p@)) by {
            if seen {
                let x = choose|x: int| 0 <= x < i && pv[x] == p@;
                assert(pv.take(i as int)[x] == p@);
            }
            if pv.take(i as int).contains(p@) {
                let x = choose|x: int| 0 <= x < i && pv.take(i as int)[x] == p@;
                assert(pv[x] == p@);
            }
        }
        if !seen && !contains_text(target, p) {
            let ghost before = errors@;
            let ghost mb = missing_placeholders(pv.take(i as int), target@);
            errors.push(QaError::MissingPlaceholder { placeholder: source_placeholders[i].clone() });
            assert(mb.push(p@).map_values(|p: Seq<char>| QaErrorView::MissingPlaceholder { placeholder: p }) =~= mb.map_values(
                |p: Seq<char>| QaErrorView::MissingPlaceholder { placeholder: p },
            ).push(QaErrorView::MissingPlaceholder { placeholder: p@ }));
            assert(errors_view(errors@) =~= errors_view(before).push(QaErrorView::MissingPlaceholder { placeholder: p@ }));
            missing = missing + 1;
        }
        i = i + 1;
    }
    assert(pv.take(source_placeholders.len() as int) =~= pv);
    let long = check_line_length(target);
    let nlong = long.len();
    let ghost e1 = errors_view(errors@);
    let mut long_mut = long;
    errors.append(&mut long_mut);
    assert(errors_view(errors@) =~= e1 + long_lines(target@));
    let misses = check_glossary(source, target, glossary_terms);
    let ghost mv = terms_view(misses@);
    let ghost e2 = errors_view(errors@);
    let mut j: usize = 0;
    while j < misses.len()
        invariant
            mv == terms_view(misses@),
            j <= misses@.len(),
            errors_view(errors@) == e2 + mv.take(j as int).map_values(
                |t: (Seq<char>, Seq<char>)| QaErrorView::GlossaryMismatch { source_term: t.0, expected_target: t.1 },
            ),
        decreases misses@.len() - j,
    {
        let ghost before = errors@;
        errors.push(
            QaError::GlossaryMismatch { source_term: misses[j].0.clone(), expected_target: misses[j].1.clone() },
        );
        assert(mv.take(j + 1) =~= mv.take(j as int).push(mv[j as int]));
        assert(errors_view(errors@) =~= errors_view(before).push(
            QaErrorView::GlossaryMismatch { source_term: mv[j as int].0, expected_target: mv[j as int].1 },
        ));
        assert(errors_view(errors@) =~= e2 + mv.take(j + 1).map_values(
            |t: (Seq<char>, Seq<char>)| QaErrorView::GlossaryMismatch { source_term: t.0, expected_target: t.1 },
        ));
        j = j + 1;
    }
    assert(mv.take(misses.len() as int) =~= mv);
    let score = score(missing, nlong, bom, misses.len());
    QaResult { score, errors }
}

} // verus!
