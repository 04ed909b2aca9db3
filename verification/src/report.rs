//! QA reports: a standalone HTML page listing the translated segments
//! that have QA findings, with counts by kind, filters and the findings of
//! each segment; and the UTC time stamp such a page carries.
use vstd::prelude::*;

use crate::qa::{QaError, QaErrorView};
use crate::wolf::dat_parser::{append_decimal, decimal};
use crate::wolf::decryptor::str_equal;

verus! {

// ---------------------------------------------------------------------------
// Findings and report rows
// ---------------------------------------------------------------------------

/// A translated segment with its QA score and findings, as a report
/// lists it.
#[derive(Debug, Clone)]
pub struct QaSegmentDetail {
    pub segment_id: String,
    pub file_name: String,
    pub segment_number: u32,
    pub source_text: String,
    pub target_text: String,
    pub qa_score: u8,
    pub errors: Vec<QaError>,
}

pub struct DetailView {
    pub segment_id: Seq<char>,
    pub file_name: Seq<char>,
    pub segment_number: u32,
    pub source_text: Seq<char>,
    pub target_text: Seq<char>,
    pub qa_score: u8,
    pub errors: Seq<QaErrorView>,
}

impl View for QaSegmentDetail {
    type V = DetailView;

    open spec fn view(&self) -> DetailView {
        DetailView {
            segment_id: self.segment_id@,
            file_name: self.file_name@,
            segment_number: self.segment_number,
            source_text: self.source_text@,
            target_text: self.target_text@,
            qa_score: self.qa_score,
            errors: self.errors@.map_values(|e: QaError| e@),
        }
    }
}

pub open spec fn details_view(ds: Seq<QaSegmentDetail>) -> Seq<DetailView> {
    ds.map_values(|d: QaSegmentDetail| d@)
}

/// The kind of a finding, as a number: 0 missing placeholder, 1 line too
/// long, 2 byte-order mark, 3 glossary.
pub open spec fn error_kind(e: QaErrorView) -> int {
    match e {
        QaErrorView::MissingPlaceholder { .. } => 0,
        QaErrorView::LineTooLong { .. } => 1,
        QaErrorView::BomDetected => 2,
        QaErrorView::GlossaryMismatch { .. } => 3,
    }
}

/// The key of a finding's kind in the report's markup.
pub open spec fn error_key(e: QaErrorView) -> Seq<char> {
    match e {
        QaErrorView::MissingPlaceholder { .. } => "missing_placeholder"@,
        QaErrorView::LineTooLong { .. } => "line_too_long"@,
        QaErrorView::BomDetected => "bom_detected"@,
        QaErrorView::GlossaryMismatch { .. } => "glossary_mismatch"@,
    }
}

/// The key of a finding's kind (see `error_key`).
pub fn error_type_key(e: &QaError) -> (k: &'static str)
    ensures
        k@ == error_key(e@),
{
    match e {
        QaError::MissingPlaceholder { .. } => "missing_placeholder",
        QaError::LineTooLong { .. } => "line_too_long",
        QaError::BomDetected => "bom_detected",
        QaError::GlossaryMismatch { .. } => "glossary_mismatch",
    }
}

/// How a finding reads in the report, in French when `fr` holds.
pub open spec fn error_label(e: QaErrorView, fr: bool) -> Seq<char> {
    match e {
        QaErrorView::MissingPlaceholder { placeholder } => (if fr {
            "Placeholder manquant : "@
        } else {
            "Missing placeholder: "@
        }) + placeholder,
        QaErrorView::LineTooLong { line, units, .. } => (if fr {
            "Ligne "@
        } else {
            "Line "@
        }) + decimal(line) + (if fr {
            " trop longue ("@
        } else {
            " too long ("@
        }) + decimal(units) + (if fr {
            " unités)"@
        } else {
            " units)"@
        }),
        QaErrorView::BomDetected => if fr {
            "BOM UTF-8"@
        } else {
            "BOM detected"@
        },
        QaErrorView::GlossaryMismatch { source_term, expected_target } => (if fr {
            "Glossaire : "@
        } else {
            "Glossary: "@
        }) + source_term + " → "@ + expected_target,
    }
}

/// How a finding reads in the report (see `error_label`).
pub fn label(e: &QaError, fr: bool) -> (s: String)
    ensures
        s@ == error_label(e@, fr),
{
    match e {
        QaError::MissingPlaceholder { placeholder } => {
            let head = if fr {
                "Placeholder manquant : "
            } else {
                "Missing placeholder: "
            };
            String::from_str(head).concat(placeholder.as_str())
        },
        QaError::LineTooLong { line, units, .. } => {
            let s = String::from_str(if fr {
                "Ligne "
            } else {
                "Line "
            });
            let s = append_decimal(s, *line).concat(if fr {
                " trop longue ("
            } else {
                " too long ("
            });
            append_decimal_u64(s, *units).concat(if fr {
                " unités)"
            } else {
                " units)"
            })
        },
        QaError::BomDetected => String::from_str(if fr {
            "BOM UTF-8"
        } else {
            "BOM detected"
        }),
        QaError::GlossaryMismatch { source_term, expected_target } => {
            let head = if fr {
                "Glossaire : "
            } else {
                "Glossary: "
            };
            String::from_str(head).concat(source_term.as_str()).concat(" → ").concat(expected_target.as_str())
        },
    }
}

// ---------------------------------------------------------------------------
// Escaping
// ---------------------------------------------------------------------------

/// A character as it stands in HTML text or an attribute.
pub open spec fn xml_char(c: char) -> Seq<char> {
    if c == '&' {
        "&amp;"@
    } else if c == '<' {
        "&lt;"@
    } else if c == '>' {
        "&gt;"@
    } else if c == '"' {
        "&quot;"@
    } else if c == '\'' {
        "&apos;"@
    } else {
        seq![c]
    }
}

/// `s` with `& < > " '` replaced by their entities.
pub open spec fn xml_escaped(s: Seq<char>) -> Seq<char>
    decreases s.len(),
{
    if s.len() == 0 {
        Seq::empty()
    } else {
        xml_escaped(s.drop_last()) + xml_char(s.last())
    }
}

/// Escapes `s` for HTML text and attributes (see `xml_escaped`).
pub fn escape_xml(s: &str) -> (r: String)
    ensures
        r@ == xml_escaped(s@),
{
    proof {
        reveal_strlit("&amp;");
        reveal_strlit("&lt;");
        reveal_strlit("&gt;");
        reveal_strlit("&quot;");
        reveal_strlit("&apos;");
    }
    let n = s.unicode_len();
    let mut out = String::new();
    let mut i: usize = 0;
    while i < n
        invariant
            n == s@.len(),
            i <= n,
            out@ == xml_escaped(s@.take(i as int)),
        decreases n - i,
    {
        let c = s.get_char(i);
        let piece: &str = if c == '&' {
            "&amp;"
        } else if c == '<' {
            "&lt;"
        } else if c == '>' {
            "&gt;"
        } else if c == '"' {
            "&quot;"
        } else if c == '\'' {
            "&apos;"
        } else {
            s.substring_char(i, i + 1)
        };
        assert(piece@ =~= xml_char(c));
        out.append(piece);
        assert(s@.take(i + 1).drop_last() =~= s@.take(i as int));
        i = i + 1;
    }
    assert(s@.take(n as int) =~= s@);
    out
}

// ---------------------------------------------------------------------------
// Counts, files and rows
// ---------------------------------------------------------------------------

/// How many of the findings are of kind `k`.
pub open spec fn kind_count(es: Seq<QaErrorView>, k: int) -> nat
    decreases es.len(),
{
    if es.len() == 0 {
        0
    } else {
        kind_count(es.drop_last(), k) + if error_kind(es.last()) == k {
            1nat
        } else {
            0nat
        }
    }
}

/// How many findings of kind `k` the segments hold in all.
pub open spec fn report_count(ds: Seq<DetailView>, k: int) -> nat
    decreases ds.len(),
{
    if ds.len() == 0 {
        0
    } else {
        report_count(ds.drop_last(), k) + kind_count(ds.last().errors, k)
    }
}

/// The file names of the segments, each once, in the order they first
/// come.
pub open spec fn report_files(ds: Seq<DetailView>) -> Seq<Seq<char>>
    decreases ds.len(),
{
    if ds.len() == 0 {
        Seq::empty()
    } else {
        let f = report_files(ds.drop_last());
        if f.contains(ds.last().file_name) {
            f
        } else {
            f.push(ds.last().file_name)
        }
    }
}

/// The options of the file filter, one per file.
pub open spec fn file_options(files: Seq<Seq<char>>) -> Seq<char>
    decreases files.len(),
{
    if files.len() == 0 {
        Seq::empty()
    } else {
        file_options(files.drop_last()) + "<option value=\""@ + xml_escaped(files.last()) + "\">"@ + xml_escaped(
            files.last(),
        ) + "</option>\n"@
    }
}

/// The keys of the findings with runs of the same key kept once.
pub open spec fn dedup_keys(ks: Seq<Seq<char>>) -> Seq<Seq<char>>
    decreases ks.len(),
{
    if ks.len() == 0 {
        Seq::empty()
    } else {
        let d = dedup_keys(ks.drop_last());
        if d.len() > 0 && d.last() == ks.last() {
            d
        } else {
            d.push(ks.last())
        }
    }
}

/// Texts joined with commas.
pub open spec fn comma_joined(ks: Seq<Seq<char>>) -> Seq<char>
    decreases ks.len(),
{
    if ks.len() == 0 {
        Seq::empty()
    } else if ks.len() == 1 {
        ks[0]
    } else {
        comma_joined(ks.drop_last()) + ","@ + ks.last()
    }
}

/// The `data-errors` value of a row: the keys of its findings, runs of
/// the same key once, joined with commas.
pub open spec fn row_error_keys(es: Seq<QaErrorView>) -> Seq<char> {
    comma_joined(dedup_keys(es.map_values(|e: QaErrorView| error_key(e))))
}

/// The findings of a row as a list.
pub open spec fn error_items(es: Seq<QaErrorView>, fr: bool) -> Seq<char>
    decreases es.len(),
{
    if es.len() == 0 {
        Seq::empty()
    } else {
        error_items(es.drop_last(), fr) + "<div class=\"err-item\"><span class=\"err-dot "@ + error_key(es.last())
            + "\"></span><span>"@ + xml_escaped(error_label(es.last(), fr)) + "</span></div>\n"@
    }
}

/// One row of the table: critical below a score of 70, a warning
/// otherwise.
pub open spec fn report_row(d: DetailView, fr: bool) -> Seq<char> {
    row_open(d) + row_texts(d) + row_badge(d) + "<td><div class=\"err-list\">\n"@ + error_items(d.errors, fr)
        + "</div></td>\n</tr>\n"@
}

/// A row's opening tag (class, file, score, error keys), its file cell
/// and its segment-number cell.
pub open spec fn row_open(d: DetailView) -> Seq<char> {
    let file = xml_escaped(d.file_name);
    "<tr class=\""@ + (if d.qa_score < 70 {
        "score-crit"@
    } else {
        "score-warn"@
    }) + "\" data-file=\""@ + file + "\" data-score=\""@ + decimal(d.qa_score as nat) + "\" data-errors=\""@
        + xml_escaped(row_error_keys(d.errors)) + "\">\n"@ + "<td class=\"file-col\" title=\""@ + file + "\">"@
        + file + "</td>\n"@ + "<td>"@ + decimal(d.segment_number as nat) + "</td>\n"@
}

/// A row's source and target cells.
pub open spec fn row_texts(d: DetailView) -> Seq<char> {
    "<td><span class=\"source-text\">"@ + xml_escaped(d.source_text) + "</span></td>\n"@
        + "<td><span class=\"target-text\">"@ + xml_escaped(d.target_text) + "</span></td>\n"@
}

/// A row's score badge: critical below 70, a warning otherwise.
pub open spec fn row_badge(d: DetailView) -> Seq<char> {
    "<td><span class=\"score-badge "@ + (if d.qa_score < 70 {
        "crit"@
    } else {
        "warn"@
    }) + "\">"@ + decimal(d.qa_score as nat) + "</span></td>\n"@
}

/// The rows of the table, one per segment in order.
pub open spec fn report_rows(ds: Seq<DetailView>, fr: bool) -> Seq<char>
    decreases ds.len(),
{
    if ds.len() == 0 {
        Seq::empty()
    } else {
        report_rows(ds.drop_last(), fr) + report_row(ds.last(), fr)
    }
}

/// A standalone HTML QA report on `details`, in French when `lang` is
/// `"fr"` (English otherwise), stamped with `generated_at`: the head, the
/// counts of findings by kind, then either the message that every segment
/// passes (no segments) or the filters (one option per file), the table
/// (one row per segment) and the script that filters it.
pub open spec fn qa_report_html(
    project_title: Seq<char>,
    details: Seq<DetailView>,
    lang: Seq<char>,
    generated_at: Seq<char>,
) -> Seq<char> {
    let l = labels_for(lang == "fr"@);
    let head = report_head(project_title, lang, l, generated_at, details.len()) + report_stats(
        l,
        report_count(details, 0),
        report_count(details, 1),
        report_count(details, 2),
        report_count(details, 3),
    );
    if details.len() == 0 {
        head + report_all_pass(l)
    } else {
        head + report_filters_head(l) + file_options(report_files(details)) + report_filters_tail(l)
            + report_table_head(l) + report_rows(details, lang == "fr"@) + report_script()
    }
}

// ---------------------------------------------------------------------------
// Texts
// ---------------------------------------------------------------------------


/// The fixed texts of a report in one language.
pub struct LabelsView {
    pub title: Seq<char>,
    pub generated: Seq<char>,
    pub segments_with_errors: Seq<char>,
    pub checked: Seq<char>,
    pub missing_ph: Seq<char>,
    pub line_long: Seq<char>,
    pub bom: Seq<char>,
    pub glossary: Seq<char>,
    pub filter_file: Seq<char>,
    pub filter_all_files: Seq<char>,
    pub filter_score: Seq<char>,
    pub filter_all_errors: Seq<char>,
    pub filter_lt90: Seq<char>,
    pub filter_lt70: Seq<char>,
    pub col_file: Seq<char>,
    pub col_num: Seq<char>,
    pub col_source: Seq<char>,
    pub col_target: Seq<char>,
    pub col_score: Seq<char>,
    pub col_errors: Seq<char>,
    pub all_pass: Seq<char>,
    pub no_rows: Seq<char>,
    pub err_missing_ph: Seq<char>,
    pub err_line_long: Seq<char>,
    pub err_bom: Seq<char>,
    pub err_glossary: Seq<char>,
}

/// The fixed texts of a report in one language.
pub struct Labels {
    pub title: &'static str,
    pub generated: &'static str,
    pub segments_with_errors: &'static str,
    pub checked: &'static str,
    pub missing_ph: &'static str,
    pub line_long: &'static str,
    pub bom: &'static str,
    pub glossary: &'static str,
    pub filter_file: &'static str,
    pub filter_all_files: &'static str,
    pub filter_score: &'static str,
    pub filter_all_errors: &'static str,
    pub filter_lt90: &'static str,
    pub filter_lt70: &'static str,
    pub col_file: &'static str,
    pub col_num: &'static str,
    pub col_source: &'static str,
    pub col_target: &'static str,
    pub col_score: &'static str,
    pub col_errors: &'static str,
    pub all_pass: &'static str,
    pub no_rows: &'static str,
    pub err_missing_ph: &'static str,
    pub err_line_long: &'static str,
    pub err_bom: &'static str,
    pub err_glossary: &'static str,
}

impl View for Labels {
    type V = LabelsView;

    open spec fn view(&self) -> LabelsView {
        LabelsView {
            title: self.title@,
            generated: self.generated@,
            segments_with_errors: self.segments_with_errors@,
            checked: self.checked@,
            missing_ph: self.missing_ph@,
            line_long: self.line_long@,
            bom: self.bom@,
            glossary: self.glossary@,
            filter_file: self.filter_file@,
            filter_all_files: self.filter_all_files@,
            filter_score: self.filter_score@,
            filter_all_errors: self.filter_all_errors@,
            filter_lt90: self.filter_lt90@,
            filter_lt70: self.filter_lt70@,
            col_file: self.col_file@,
            col_num: self.col_num@,
            col_source: self.col_source@,
            col_target: self.col_target@,
            col_score: self.col_score@,
            col_errors: self.col_errors@,
            all_pass: self.all_pass@,
            no_rows: self.no_rows@,
            err_missing_ph: self.err_missing_ph@,
            err_line_long: self.err_line_long@,
            err_bom: self.err_bom@,
            err_glossary: self.err_glossary@,
        }
    }
}

/// The French texts when `fr` holds, else the English ones.
pub open spec fn labels_for(fr: bool) -> LabelsView {
    if fr {
        LabelsView {
            title: "Rapport QA"@,
            generated: "Généré le"@,
            segments_with_errors: "segments avec erreurs"@,
            checked: "vérifiés"@,
            missing_ph: "Placeholder manquant"@,
            line_long: "Ligne trop longue"@,
            bom: "BOM UTF-8"@,
            glossary: "Terme glossaire non respecté"@,
            filter_file: "Fichier :"@,
            filter_all_files: "Tous les fichiers"@,
            filter_score: "Score :"@,
            filter_all_errors: "Toutes les erreurs"@,
            filter_lt90: "Score &lt; 90"@,
            filter_lt70: "Score &lt; 70 (critique)"@,
            col_file: "Fichier"@,
            col_num: "#"@,
            col_source: "Source"@,
            col_target: "Cible"@,
            col_score: "Score"@,
            col_errors: "Erreurs"@,
            all_pass: "✅ Tous les segments passent le QA — aucune erreur détectée."@,
            no_rows: "Aucune ligne ne correspond aux filtres actifs."@,
            err_missing_ph: "Placeholder manquant"@,
            err_line_long: "Ligne trop longue"@,
            err_bom: "BOM UTF-8"@,
            err_glossary: "Glossaire"@,
        }
    } else {
        LabelsView {
            title: "QA Report"@,
            generated: "Generated"@,
            segments_with_errors: "segments with errors"@,
            checked: "checked"@,
            missing_ph: "Missing placeholder"@,
            line_long: "Line too long"@,
            bom: "BOM detected"@,
            glossary: "Glossary mismatch"@,
            filter_file: "File:"@,
            filter_all_files: "All files"@,
            filter_score: "Score:"@,
            filter_all_errors: "All errors"@,
            filter_lt90: "Score &lt; 90"@,
            filter_lt70: "Score &lt; 70 (critical)"@,
            col_file: "File"@,
            col_num: "#"@,
            col_source: "Source"@,
            col_target: "Target"@,
            col_score: "Score"@,
            col_errors: "Errors"@,
            all_pass: "✅ All segments pass QA — no errors found."@,
            no_rows: "No rows match the current filters."@,
            err_missing_ph: "Missing placeholder"@,
            err_line_long: "Line too long"@,
            err_bom: "BOM detected"@,
            err_glossary: "Glossary mismatch"@,
        }
    }
}

/// The texts for `lang`: French for `"fr"`, English otherwise.
pub fn labels(lang: &str) -> (l: Labels)
    ensures
        l@ == labels_for(lang@ == "fr"@),
{
    if str_equal(lang, "fr") {
        Labels {
            title: "Rapport QA",
            generated: "Généré le",
            segments_with_errors: "segments avec erreurs",
            checked: "vérifiés",
            missing_ph: "Placeholder manquant",
            line_long: "Ligne trop longue",
            bom: "BOM UTF-8",
            glossary: "Terme glossaire non respecté",
            filter_file: "Fichier :",
            filter_all_files: "Tous les fichiers",
            filter_score: "Score :",
            filter_all_errors: "Toutes les erreurs",
            filter_lt90: "Score &lt; 90",
            filter_lt70: "Score &lt; 70 (critique)",
            col_file: "Fichier",
            col_num: "#",
            col_source: "Source",
            col_target: "Cible",
            col_score: "Score",
            col_errors: "Erreurs",
            all_pass: "✅ Tous les segments passent le QA — aucune erreur détectée.",
            no_rows: "Aucune ligne ne correspond aux filtres actifs.",
            err_missing_ph: "Placeholder manquant",
            err_line_long: "Ligne trop longue",
            err_bom: "BOM UTF-8",
            err_glossary: "Glossaire",
        }
    } else {
        Labels {
            title: "QA Report",
            generated: "Generated",
            segments_with_errors: "segments with errors",
            checked: "checked",
            missing_ph: "Missing placeholder",
            line_long: "Line too long",
            bom: "BOM detected",
            glossary: "Glossary mismatch",
            filter_file: "File:",
            filter_all_files: "All files",
            filter_score: "Score:",
            filter_all_errors: "All errors",
            filter_lt90: "Score &lt; 90",
            filter_lt70: "Score &lt; 70 (critical)",
            col_file: "File",
            col_num: "#",
            col_source: "Source",
            col_target: "Target",
            col_score: "Score",
            col_errors: "Errors",
            all_pass: "✅ All segments pass QA — no errors found.",
            no_rows: "No rows match the current filters.",
            err_missing_ph: "Missing placeholder",
            err_line_long: "Line too long",
            err_bom: "BOM detected",
            err_glossary: "Glossary mismatch",
        }
    }
}

/// The head of a report: language, title, and the line with the time it was made and the number of segments listed.
pub open spec fn report_head(title: Seq<char>, lang: Seq<char>, l: LabelsView, now: Seq<char>, n: nat) -> Seq<char> {
    "<!DOCTYPE html>\n<html lang=\""@ + xml_escaped(lang) + "\">\n<head>\n<meta charset=\"UTF-8\">\n<meta name=\"viewport\" content=\"width=device-width, initial-scale=1\">\n<title>"@ + l.title + " — "@ + xml_escaped(title) + "</title>\n<style>\n*{box-sizing:border-box;margin:0;padding:0}\nbody{background:#1a1a1a;color:#e0e0e0;font-family:system-ui,sans-serif;font-size:13px;line-height:1.5;padding:24px}\nh1{font-size:18px;font-weight:600;margin-bottom:4px}\n.meta{color:#888;font-size:12px;margin-bottom:16px}\n.stats{display:flex;gap:16px;flex-wrap:wrap;margin-bottom:20px;background:#222;border:1px solid #333;border-radius:6px;padding:12px 16px}\n.stat{display:flex;flex-direction:column}\n.stat-label{font-size:11px;color:#888;text-transform:uppercase;letter-spacing:.05em}\n.stat-value{font-size:20px;font-weight:700}\n.stat-value.green{color:#22c55e}.stat-value.orange{color:#f59e0b}.stat-value.red{color:#ef4444}.stat-value.blue{color:#60a5fa}\n.filters{display:flex;gap:12px;flex-wrap:wrap;align-items:center;margin-bottom:16px;background:#222;border:1px solid #333;border-radius:6px;padding:10px 14px}\n.filters label{display:flex;align-items:center;gap:6px;font-size:12px;color:#ccc;cursor:pointer}\n.filters select{background:#2a2a2a;color:#e0e0e0;border:1px solid #444;border-radius:4px;padding:4px 8px;font-size:12px;cursor:pointer}\n.filters input[type=checkbox]{accent-color:#60a5fa}\n.filter-group{display:flex;align-items:center;gap:8px}\n.filter-sep{width:1px;height:20px;background:#444;margin:0 4px}\ntable{width:100%;border-collapse:collapse;font-size:12px}\nthead th{background:#2a2a2a;color:#aaa;text-align:left;padding:8px 10px;border-bottom:2px solid #333;font-weight:600;text-transform:uppercase;letter-spacing:.04em;font-size:11px}\ntbody tr{border-bottom:1px solid #2a2a2a}\ntbody tr:nth-child(even){background:#1e1e1e}\ntbody tr.score-ok{}\ntbody tr.score-warn{border-left:3px solid #f59e0b}\ntbody tr.score-crit{border-left:3px solid #ef4444}\ntd{padding:7px 10px;vertical-align:top}\n.score-badge{display:inline-block;padding:1px 6px;border-radius:3px;font-weight:700;font-size:11px}\n.score-badge.ok{background:#22c55e22;color:#22c55e}\n.score-badge.warn{background:#f59e0b22;color:#f59e0b}\n.score-badge.crit{background:#ef444422;color:#ef4444}\n.err-list{display:flex;flex-direction:column;gap:3px}\n.err-item{display:flex;align-items:flex-start;gap:4px;font-size:11px;color:#ccc}\n.err-dot{width:6px;height:6px;border-radius:50%;flex-shrink:0;margin-top:4px}\n.err-dot.missing_placeholder{background:#ef4444}\n.err-dot.line_too_long{background:#f59e0b}\n.err-dot.bom_detected{background:#f59e0b}\n.err-dot.glossary_mismatch{background:#a78bfa}\n.source-text,.target-text{max-width:280px;word-break:break-word;white-space:pre-wrap;font-family:monospace;font-size:11px;color:#ddd}\n.source-text{color:#94a3b8}\n.no-data{text-align:center;padding:40px;color:#666;font-size:14px}\n.file-col{color:#60a5fa;font-size:11px;max-width:120px;overflow:hidden;text-overflow:ellipsis;white-space:nowrap}\n#no-rows-msg{display:none}\n</style>\n</head>\n<body>\n<h1>"@ + l.title + " — "@ + xml_escaped(title) + "</h1>\n<p class=\"meta\">"@ + l.generated + ": "@ + now + " &nbsp;·&nbsp; "@ + decimal(n) + " "@ + l.segments_with_errors + " / "@ + decimal(n) + " "@ + l.checked + "</p>\n"@
}

/// The counts of errors by kind.
pub open spec fn report_stats(l: LabelsView, c0: nat, c1: nat, c2: nat, c3: nat) -> Seq<char> {
    "<div class=\"stats\">\n<div class=\"stat\"><span class=\"stat-label\">"@ + l.missing_ph + "</span><span class=\"stat-value red\">"@ + decimal(c0) + "</span></div>\n<div class=\"stat\"><span class=\"stat-label\">"@ + l.line_long + "</span><span class=\"stat-value orange\">"@ + decimal(c1) + "</span></div>\n<div class=\"stat\"><span class=\"stat-label\">"@ + l.bom + "</span><span class=\"stat-value orange\">"@ + decimal(c2) + "</span></div>\n<div class=\"stat\"><span class=\"stat-label\">"@ + l.glossary + "</span><span class=\"stat-value blue\">"@ + decimal(c3) + "</span></div>\n</div>\n"@
}

/// The message of a report with no segment listed, and its end.
pub open spec fn report_all_pass(l: LabelsView) -> Seq<char> {
    "<p class=\"no-data\">"@ + l.all_pass + "</p>"@ + "\n</body>\n</html>"@
}

/// The start of the filters: the file filter up to its first option.
pub open spec fn report_filters_head(l: LabelsView) -> Seq<char> {
    "<div class=\"filters\">\n<div class=\"filter-group\">\n<span style=\"color:#888;font-size:12px\">"@ + l.filter_file + "</span>\n<select id=\"fileFilter\">\n<option value=\"all\">"@ + l.filter_all_files + "</option>\n"@
}

/// The end of the filters: the score filter and the error-kind boxes.
pub open spec fn report_filters_tail(l: LabelsView) -> Seq<char> {
    "</select>\n</div>\n<div class=\"filter-sep\"></div>\n<div class=\"filter-group\">\n<span style=\"color:#888;font-size:12px\">"@ + l.filter_score + "</span>\n<select id=\"scoreFilter\">\n<option value=\"all\">"@ + l.filter_all_errors + "</option>\n<option value=\"lt90\">"@ + l.filter_lt90 + "</option>\n<option value=\"lt70\">"@ + l.filter_lt70 + "</option>\n</select>\n</div>\n<div class=\"filter-sep\"></div>\n<div class=\"filter-group\" style=\"gap:12px\">\n<label><input type=\"checkbox\" class=\"err-filter\" value=\"missing_placeholder\" checked> "@ + l.err_missing_ph + "</label>\n<label><input type=\"checkbox\" class=\"err-filter\" value=\"line_too_long\" checked> "@ + l.err_line_long + "</label>\n<label><input type=\"checkbox\" class=\"err-filter\" value=\"bom_detected\" checked> "@ + l.err_bom + "</label>\n<label><input type=\"checkbox\" class=\"err-filter\" value=\"glossary_mismatch\" checked> "@ + l.err_glossary + "</label>\n</div>\n</div>\n"@
}

/// The start of the table: the no-rows message and the column heads.
pub open spec fn report_table_head(l: LabelsView) -> Seq<char> {
    "<p id=\"no-rows-msg\" style=\"color:#666;padding:20px 0\">"@ + l.no_rows + "</p>\n<table id=\"qaTable\">\n<thead><tr>\n<th>"@ + l.col_file + "</th><th>"@ + l.col_num + "</th><th>"@ + l.col_source + "</th>\n<th>"@ + l.col_target + "</th><th>"@ + l.col_score + "</th><th>"@ + l.col_errors + "</th>\n</tr></thead>\n<tbody>\n"@
}

/// The end of the table and the script that filters its rows.
pub open spec fn report_script() -> Seq<char> {
    "</tbody>\n</table>\n"@ + "<script>\n(function(){\n  function applyFilters(){\n    var file=document.getElementById('fileFilter').value;\n    var score=document.getElementById('scoreFilter').value;\n    var checked=[].slice.call(document.querySelectorAll('.err-filter:checked')).map(function(cb){return cb.value;});\n    var rows=[].slice.call(document.querySelectorAll('#qaTable tbody tr'));\n    var visible=0;\n    rows.forEach(function(row){\n      var rowFile=row.getAttribute('data-file');\n      var rowScore=parseInt(row.getAttribute('data-score'),10);\n      var rowErrors=row.getAttribute('data-errors').split(',');\n      var fileOk=(file==='all'||rowFile===file);\n      var scoreOk=(score==='all'||(score==='lt90'&&rowScore<90)||(score==='lt70'&&rowScore<70));\n      var errOk=checked.length===0||rowErrors.some(function(e){return checked.indexOf(e)>=0;});\n      var show=fileOk&&scoreOk&&errOk;\n      row.style.display=show?'':'none';\n      if(show)visible++;\n    });\n    document.getElementById('no-rows-msg').style.display=visible===0?'block':'none';\n  }\n  document.getElementById('fileFilter').addEventListener('change',applyFilters);\n  document.getElementById('scoreFilter').addEventListener('change',applyFilters);\n  [].slice.call(document.querySelectorAll('.err-filter')).forEach(function(cb){\n    cb.addEventListener('change',applyFilters);\n  });\n})();\n</script>\n</body>\n</html>\n"@
}

#[verifier::rlimit(40)]
fn write_report_head(out: &mut String, title: &str, lang: &str, l: &Labels, now: &str, n: usize)
    ensures
        final(out)@ == old(out)@ + report_head(title@, lang@, l@, now@, n as nat),
{
    let lang_e = escape_xml(lang);
    let title_e = escape_xml(title);
    let nd = append_decimal(String::new(), n);
    out.append("<!DOCTYPE html>\n<html lang=\"");
    out.append(lang_e.as_str());
    out.append("\">\n<head>\n<meta charset=\"UTF-8\">\n<meta name=\"viewport\" content=\"width=device-width, initial-scale=1\">\n<title>");
    out.append(l.title);
    out.append(" — ");
    out.append(title_e.as_str());
    out.append("</title>\n<style>\n*{box-sizing:border-box;margin:0;padding:0}\nbody{background:#1a1a1a;color:#e0e0e0;font-family:system-ui,sans-serif;font-size:13px;line-height:1.5;padding:24px}\nh1{font-size:18px;font-weight:600;margin-bottom:4px}\n.meta{color:#888;font-size:12px;margin-bottom:16px}\n.stats{display:flex;gap:16px;flex-wrap:wrap;margin-bottom:20px;background:#222;border:1px solid #333;border-radius:6px;padding:12px 16px}\n.stat{display:flex;flex-direction:column}\n.stat-label{font-size:11px;color:#888;text-transform:uppercase;letter-spacing:.05em}\n.stat-value{font-size:20px;font-weight:700}\n.stat-value.green{color:#22c55e}.stat-value.orange{color:#f59e0b}.stat-value.red{color:#ef4444}.stat-value.blue{color:#60a5fa}\n.filters{display:flex;gap:12px;flex-wrap:wrap;align-items:center;margin-bottom:16px;background:#222;border:1px solid #333;border-radius:6px;padding:10px 14px}\n.filters label{display:flex;align-items:center;gap:6px;font-size:12px;color:#ccc;cursor:pointer}\n.filters select{background:#2a2a2a;color:#e0e0e0;border:1px solid #444;border-radius:4px;padding:4px 8px;font-size:12px;cursor:pointer}\n.filters input[type=checkbox]{accent-color:#60a5fa}\n.filter-group{display:flex;align-items:center;gap:8px}\n.filter-sep{width:1px;height:20px;background:#444;margin:0 4px}\ntable{width:100%;border-collapse:collapse;font-size:12px}\nthead th{background:#2a2a2a;color:#aaa;text-align:left;padding:8px 10px;border-bottom:2px solid #333;font-weight:600;text-transform:uppercase;letter-spacing:.04em;font-size:11px}\ntbody tr{border-bottom:1px solid #2a2a2a}\ntbody tr:nth-child(even){background:#1e1e1e}\ntbody tr.score-ok{}\ntbody tr.score-warn{border-left:3px solid #f59e0b}\ntbody tr.score-crit{border-left:3px solid #ef4444}\ntd{padding:7px 10px;vertical-align:top}\n.score-badge{display:inline-block;padding:1px 6px;border-radius:3px;font-weight:700;font-size:11px}\n.score-badge.ok{background:#22c55e22;color:#22c55e}\n.score-badge.warn{background:#f59e0b22;color:#f59e0b}\n.score-badge.crit{background:#ef444422;color:#ef4444}\n.err-list{display:flex;flex-direction:column;gap:3px}\n.err-item{display:flex;align-items:flex-start;gap:4px;font-size:11px;color:#ccc}\n.err-dot{width:6px;height:6px;border-radius:50%;flex-shrink:0;margin-top:4px}\n.err-dot.missing_placeholder{background:#ef4444}\n.err-dot.line_too_long{background:#f59e0b}\n.err-dot.bom_detected{background:#f59e0b}\n.err-dot.glossary_mismatch{background:#a78bfa}\n.source-text,.target-text{max-width:280px;word-break:break-word;white-space:pre-wrap;font-family:monospace;font-size:11px;color:#ddd}\n.source-text{color:#94a3b8}\n.no-data{text-align:center;padding:40px;color:#666;font-size:14px}\n.file-col{color:#60a5fa;font-size:11px;max-width:120px;overflow:hidden;text-overflow:ellipsis;white-space:nowrap}\n#no-rows-msg{display:none}\n</style>\n</head>\n<body>\n<h1>");
    out.append(l.title);
    out.append(" — ");
    out.append(title_e.as_str());
    out.append("</h1>\n<p class=\"meta\">");
    out.append(l.generated);
    out.append(": ");
    out.append(now);
    out.append(" &nbsp;·&nbsp; ");
    out.append(nd.as_str());
    out.append(" ");
    out.append(l.segments_with_errors);
    out.append(" / ");
    out.append(nd.as_str());
    out.append(" ");
    out.append(l.checked);
    out.append("</p>\n");
    assert(out@ =~= old(out)@ + report_head(title@, lang@, l@, now@, n as nat));
}

fn write_report_stats(out: &mut String, l: &Labels, c0: usize, c1: usize, c2: usize, c3: usize)
    ensures
        final(out)@ == old(out)@ + report_stats(l@, c0 as nat, c1 as nat, c2 as nat, c3 as nat),
{
    let d0 = append_decimal(String::new(), c0);
    let d1 = append_decimal(String::new(), c1);
    let d2 = append_decimal(String::new(), c2);
    let d3 = append_decimal(String::new(), c3);
    out.append("<div class=\"stats\">\n<div class=\"stat\"><span class=\"stat-label\">");
    out.append(l.missing_ph);
    out.append("</span><span class=\"stat-value red\">");
    out.append(d0.as_str());
    out.append("</span></div>\n<div class=\"stat\"><span class=\"stat-label\">");
    out.append(l.line_long);
    out.append("</span><span class=\"stat-value orange\">");
    out.append(d1.as_str());
    out.append("</span></div>\n<div class=\"stat\"><span class=\"stat-label\">");
    out.append(l.bom);
    out.append("</span><span class=\"stat-value orange\">");
    out.append(d2.as_str());
    out.append("</span></div>\n<div class=\"stat\"><span class=\"stat-label\">");
    out.append(l.glossary);
    out.append("</span><span class=\"stat-value blue\">");
    out.append(d3.as_str());
    out.append("</span></div>\n</div>\n");
    assert(out@ =~= old(out)@ + report_stats(l@, c0 as nat, c1 as nat, c2 as nat, c3 as nat));
}

fn write_report_all_pass(out: &mut String, l: &Labels)
    ensures
        final(out)@ == old(out)@ + report_all_pass(l@),
{
    out.append("<p class=\"no-data\">");
    out.append(l.all_pass);
    out.append("</p>");
    out.append("\n</body>\n</html>");
    assert(out@ =~= old(out)@ + report_all_pass(l@));
}

fn write_report_filters_head(out: &mut String, l: &Labels)
    ensures
        final(out)@ == old(out)@ + report_filters_head(l@),
{
    out.append("<div class=\"filters\">\n<div class=\"filter-group\">\n<span style=\"color:#888;font-size:12px\">");
    out.append(l.filter_file);
    out.append("</span>\n<select id=\"fileFilter\">\n<option value=\"all\">");
    out.append(l.filter_all_files);
    out.append("</option>\n");
    assert(out@ =~= old(out)@ + report_filters_head(l@));
}

fn write_report_filters_tail(out: &mut String, l: &Labels)
    ensures
        final(out)@ == old(out)@ + report_filters_tail(l@),
{
    out.append("</select>\n</div>\n<div class=\"filter-sep\"></div>\n<div class=\"filter-group\">\n<span style=\"color:#888;font-size:12px\">");
    out.append(l.filter_score);
    out.append("</span>\n<select id=\"scoreFilter\">\n<option value=\"all\">");
    out.append(l.filter_all_errors);
    out.append("</option>\n<option value=\"lt90\">");
    out.append(l.filter_lt90);
    out.append("</option>\n<option value=\"lt70\">");
    out.append(l.filter_lt70);
    out.append("</option>\n</select>\n</div>\n<div class=\"filter-sep\"></div>\n<div class=\"filter-group\" style=\"gap:12px\">\n<label><input type=\"checkbox\" class=\"err-filter\" value=\"missing_placeholder\" checked> ");
    out.append(l.err_missing_ph);
    out.append("</label>\n<label><input type=\"checkbox\" class=\"err-filter\" value=\"line_too_long\" checked> ");
    out.append(l.err_line_long);
    out.append("</label>\n<label><input type=\"checkbox\" class=\"err-filter\" value=\"bom_detected\" checked> ");
    out.append(l.err_bom);
    out.append("</label>\n<label><input type=\"checkbox\" class=\"err-filter\" value=\"glossary_mismatch\" checked> ");
    out.append(l.err_glossary);
    out.append("</label>\n</div>\n</div>\n");
    assert(out@ =~= old(out)@ + report_filters_tail(l@));
}

fn write_report_table_head(out: &mut String, l: &Labels)
    ensures
        final(out)@ == old(out)@ + report_table_head(l@),
{
    out.append("<p id=\"no-rows-msg\" style=\"color:#666;padding:20px 0\">");
    out.append(l.no_rows);
    out.append("</p>\n<table id=\"qaTable\">\n<thead><tr>\n<th>");
    out.append(l.col_file);
    out.append("</th><th>");
    out.append(l.col_num);
    out.append("</th><th>");
    out.append(l.col_source);
    out.append("</th>\n<th>");
    out.append(l.col_target);
    out.append("</th><th>");
    out.append(l.col_score);
    out.append("</th><th>");
    out.append(l.col_errors);
    out.append("</th>\n</tr></thead>\n<tbody>\n");
    assert(out@ =~= old(out)@ + report_table_head(l@));
}

fn write_report_script(out: &mut String)
    ensures
        final(out)@ == old(out)@ + report_script(),
{
    out.append("</tbody>\n</table>\n");
    out.append("<script>\n(function(){\n  function applyFilters(){\n    var file=document.getElementById('fileFilter').value;\n    var score=document.getElementById('scoreFilter').value;\n    var checked=[].slice.call(document.querySelectorAll('.err-filter:checked')).map(function(cb){return cb.value;});\n    var rows=[].slice.call(document.querySelectorAll('#qaTable tbody tr'));\n    var visible=0;\n    rows.forEach(function(row){\n      var rowFile=row.getAttribute('data-file');\n      var rowScore=parseInt(row.getAttribute('data-score'),10);\n      var rowErrors=row.getAttribute('data-errors').split(',');\n      var fileOk=(file==='all'||rowFile===file);\n      var scoreOk=(score==='all'||(score==='lt90'&&rowScore<90)||(score==='lt70'&&rowScore<70));\n      var errOk=checked.length===0||rowErrors.some(function(e){return checked.indexOf(e)>=0;});\n      var show=fileOk&&scoreOk&&errOk;\n      row.style.display=show?'':'none';\n      if(show)visible++;\n    });\n    document.getElementById('no-rows-msg').style.display=visible===0?'block':'none';\n  }\n  document.getElementById('fileFilter').addEventListener('change',applyFilters);\n  document.getElementById('scoreFilter').addEventListener('change',applyFilters);\n  [].slice.call(document.querySelectorAll('.err-filter')).forEach(function(cb){\n    cb.addEventListener('change',applyFilters);\n  });\n})();\n</script>\n</body>\n</html>\n");
    assert(out@ =~= old(out)@ + report_script());
}

proof fn lemma_dedup_last(ks: Seq<Seq<char>>)
    ensures
        (dedup_keys(ks).len() > 0) == (ks.len() > 0),
        ks.len() > 0 ==> dedup_keys(ks).last() == ks.last(),
    decreases ks.len(),
{
    if ks.len() > 0 {
        lemma_dedup_last(ks.drop_last());
    }
}

fn row_keys_text(errors: &Vec<QaError>) -> (s: String)
    ensures
        s@ == row_error_keys(errors@.map_values(|e: QaError| e@)),
{
    proof {
        reveal_strlit(",");
    }
    let ghost ev = errors@.map_values(|e: QaError| e@);
    let ghost ks = ev.map_values(|e: QaErrorView| error_key(e));
    let mut s = String::new();
    let mut prev: &str = "";
    let mut j: usize = 0;
    while j < errors.len()
        invariant
            ev == errors@.map_values(|e: QaError| e@),
            ks == ev.map_values(|e: QaErrorView| error_key(e)),
            j <= errors@.len(),
            s@ == comma_joined(dedup_keys(ks.take(j as int))),
            j > 0 ==> prev@ == ks[j - 1],
        decreases errors@.len() - j,
    {
        let k = error_type_key(&errors[j]);
        assert(ks[j as int] == k@);
        let ghost before = ks.take(j as int);
        assert(ks.take(j + 1).drop_last() =~= before);
        assert(ks.take(j + 1).last() == k@);
        proof {
            lemma_dedup_last(before);
        }
        if j > 0 && str_equal(prev, k) {
        } else {
            let ghost d = dedup_keys(before);
            assert(dedup_keys(ks.take(j + 1)) == d.push(k@));
            if j > 0 {
                s.append(",");
                assert(d.push(k@).drop_last() =~= d);
            } else {
                assert(d.len() == 0);
                assert(d.push(k@) =~= seq![k@]);
            }
            s.append(k);
        }
        prev = k;
        j = j + 1;
    }
    assert(ks.take(errors.len() as int) =~= ks);
    s
}

fn write_error_items(out: &mut String, errors: &Vec<QaError>, fr: bool)
    ensures
        final(out)@ == old(out)@ + error_items(errors@.map_values(|e: QaError| e@), fr),
{
    let ghost ev = errors@.map_values(|e: QaError| e@);
    let mut j: usize = 0;
    while j < errors.len()
        invariant
            ev == errors@.map_values(|e: QaError| e@),
            j <= errors@.len(),
            out@ == old(out)@ + error_items(ev.take(j as int), fr),
        decreases errors@.len() - j,
    {
        assert(ev.take(j + 1).drop_last() =~= ev.take(j as int));
        assert(ev.take(j + 1).last() == errors@[j as int]@);
        let key = error_type_key(&errors[j]);
        let lab = escape_xml(label(&errors[j], fr).as_str());
        out.append("<div class=\"err-item\"><span class=\"err-dot ");
        out.append(key);
        out.append("\"></span><span>");
        out.append(lab.as_str());
        out.append("</span></div>\n");
        assert(out@ =~= old(out)@ + error_items(ev.take(j + 1), fr));
        j = j + 1;
    }
    assert(ev.take(errors.len() as int) =~= ev);
}

fn write_row_open(out: &mut String, d: &QaSegmentDetail)
    ensures
        final(out)@ == old(out)@ + row_open(d@),
{
    let crit = d.qa_score < 70;
    let file = escape_xml(d.file_name.as_str());
    let score = append_decimal(String::new(), d.qa_score as usize);
    let num = append_decimal(String::new(), d.segment_number as usize);
    let keys = row_keys_text(&d.errors);
    let keys_e = escape_xml(keys.as_str());
    out.append("<tr class=\"");
    out.append(if crit {
        "score-crit"
    } else {
        "score-warn"
    });
    out.append("\" data-file=\"");
    out.append(file.as_str());
    out.append("\" data-score=\"");
    out.append(score.as_str());
    out.append("\" data-errors=\"");
    out.append(keys_e.as_str());
    out.append("\">\n");
    out.append("<td class=\"file-col\" title=\"");
    out.append(file.as_str());
    out.append("\">");
    out.append(file.as_str());
    out.append("</td>\n");
    out.append("<td>");
    out.append(num.as_str());
    out.append("</td>\n");
    assert(out@ =~= old(out)@ + row_open(d@));
}

fn write_row_texts(out: &mut String, d: &QaSegmentDetail)
    ensures
        final(out)@ == old(out)@ + row_texts(d@),
{
    let src = escape_xml(d.source_text.as_str());
    let tgt = escape_xml(d.target_text.as_str());
    out.append("<td><span class=\"source-text\">");
    out.append(src.as_str());
    out.append("</span></td>\n");
    out.append("<td><span class=\"target-text\">");
    out.append(tgt.as_str());
    out.append("</span></td>\n");
    assert(out@ =~= old(out)@ + row_texts(d@));
}

fn write_row_badge(out: &mut String, d: &QaSegmentDetail)
    ensures
        final(out)@ == old(out)@ + row_badge(d@),
{
    let score = append_decimal(String::new(), d.qa_score as usize);
    out.append("<td><span class=\"score-badge ");
    out.append(if d.qa_score < 70 {
        "crit"
    } else {
        "warn"
    });
    out.append("\">");
    out.append(score.as_str());
    out.append("</span></td>\n");
    assert(out@ =~= old(out)@ + row_badge(d@));
}

fn write_row(out: &mut String, d: &QaSegmentDetail, fr: bool)
    ensures
        final(out)@ == old(out)@ + report_row(d@, fr),
{
    write_row_open(out, d);
    write_row_texts(out, d);
    write_row_badge(out, d);
    out.append("<td><div class=\"err-list\">\n");
    write_error_items(out, &d.errors, fr);
    out.append("</div></td>\n</tr>\n");
    assert(out@ =~= old(out)@ + report_row(d@, fr));
}

fn count_kinds(details: &Vec<QaSegmentDetail>) -> (c: (usize, usize, usize, usize))
    requires
        forall|k: int| 0 <= k < 4 ==> report_count(details_view(details@), k) <= usize::MAX,
    ensures
        c.0 == report_count(details_view(details@), 0),
        c.1 == report_count(details_view(details@), 1),
        c.2 == report_count(details_view(details@), 2),
        c.3 == report_count(details_view(details@), 3),
{
    let ghost dv = details_view(details@);
    let mut c: [usize; 4] = [0, 0, 0, 0];
    let mut i: usize = 0;
    while i < details.len()
        invariant
            dv == details_view(details@),
            i <= details@.len(),
            forall|k: int| 0 <= k < 4 ==> report_count(dv, k) <= usize::MAX,
            forall|k: int| 0 <= k < 4 ==> c@[k] == report_count(dv.take(i as int), k),
        decreases details@.len() - i,
    {
        assert(dv.take(i + 1).drop_last() =~= dv.take(i as int));
        assert(dv.take(i + 1).last() == details@[i as int]@);
        proof {
            assert forall|k: int| 0 <= k < 4 implies report_count(dv.take(i + 1), k) <= report_count(dv, k) by {
                lemma_report_count_prefix(dv, i + 1, k);
            }
        }
        let errors = &details[i].errors;
        let ghost ev = errors@.map_values(|e: QaError| e@);
        let ghost base = c@;
        assert(ev == dv[i as int].errors);
        assert forall|k: int| 0 <= k < 4 implies base[k] + kind_count(ev, k) <= usize::MAX by {
            assert(report_count(dv.take(i + 1), k) == base[k] + kind_count(ev, k));
            lemma_report_count_prefix(dv, i + 1, k);
        }
        let mut j: usize = 0;
        while j < errors.len()
            invariant
                ev == errors@.map_values(|e: QaError| e@),
                j <= errors@.len(),
                forall|k: int| 0 <= k < 4 ==> base[k] + kind_count(ev, k) <= usize::MAX,
                forall|k: int| 0 <= k < 4 ==> c@[k] == base[k] + kind_count(ev.take(j as int), k),
            decreases errors@.len() - j,
        {
            assert(ev.take(j + 1).drop_last() =~= ev.take(j as int));
            assert(ev.take(j + 1).last() == errors@[j as int]@);
            proof {
                assert forall|k: int| 0 <= k < 4 implies kind_count(ev.take(j + 1), k) <= kind_count(ev, k) by {
                    lemma_kind_count_prefix(ev, j + 1, k);
                }
            }
            let k: usize = match &errors[j] {
                QaError::MissingPlaceholder { .. } => 0,
                QaError::LineTooLong { .. } => 1,
                QaError::BomDetected => 2,
                QaError::GlossaryMismatch { .. } => 3,
            };
            assert(k as int == error_kind(errors@[j as int]@));
            c.set(k, c[k] + 1);
            j = j + 1;
        }
        assert(ev.take(errors.len() as int) =~= ev);
        i = i + 1;
    }
    assert(dv.take(details.len() as int) =~= dv);
    (c[0], c[1], c[2], c[3])
}

proof fn lemma_kind_count_prefix(es: Seq<QaErrorView>, j: int, k: int)
    requires
        0 <= j <= es.len(),
    ensures
        kind_count(es.take(j), k) <= kind_count(es, k),
    decreases es.len() - j,
{
    if j < es.len() {
        lemma_kind_count_prefix(es, j + 1, k);
        assert(es.take(j + 1).drop_last() =~= es.take(j));
    } else {
        assert(es.take(j) =~= es);
    }
}

proof fn lemma_report_count_prefix(ds: Seq<DetailView>, i: int, k: int)
    requires
        0 <= i <= ds.len(),
    ensures
        report_count(ds.take(i), k) <= report_count(ds, k),
    decreases ds.len() - i,
{
    if i < ds.len() {
        lemma_report_count_prefix(ds, i + 1, k);
        assert(ds.take(i + 1).drop_last() =~= ds.take(i));
    } else {
        assert(ds.take(i) =~= ds);
    }
}

fn write_file_options(out: &mut String, details: &Vec<QaSegmentDetail>)
    ensures
        final(out)@ == old(out)@ + file_options(report_files(details_view(details@))),
{
    let ghost dv = details_view(details@);
    let mut files: Vec<&str> = Vec::new();
    let mut i: usize = 0;
    while i < details.len()
        invariant
            dv == details_view(details@),
            i <= details@.len(),
            files@.map_values(|f: &str| f@) == report_files(dv.take(i as int)),
        decreases details@.len() - i,
    {
        assert(dv.take(i + 1).drop_last() =~= dv.take(i as int));
        assert(dv.take(i + 1).last() == details@[i as int]@);
        let name = details[i].file_name.as_str();
        let ghost fv = files@.map_values(|f: &str| f@);
        let mut found = false;
        let mut k: usize = 0;
        while k < files.len()
            invariant
                fv == files@.map_values(|f: &str| f@),
                k <= files@.len(),
                found == (exists|q: int| 0 <= q < k && fv[q] == name@),
            decreases files@.len() - k,
        {
            assert(fv[k as int] == files@[k as int]@);
            if str_equal(files[k], name) {
                found = true;
            }
            k = k + 1;
        }
        assert(found == fv.contains(name@));
        if !found {
            files.push(name);
            assert(files@.map_values(|f: &str| f@) =~= fv.push(name@));
        }
        i = i + 1;
    }
    assert(dv.take(details.len() as int) =~= dv);
    let ghost fs = report_files(dv);
    let mut k: usize = 0;
    while k < files.len()
        invariant
            fs == files@.map_values(|f: &str| f@),
            k <= files@.len(),
            out@ == old(out)@ + file_options(fs.take(k as int)),
        decreases files@.len() - k,
    {
        assert(fs.take(k + 1).drop_last() =~= fs.take(k as int));
        assert(fs.take(k + 1).last() == files@[k as int]@);
        let e = escape_xml(files[k]);
        out.append("<option value=\"");
        out.append(e.as_str());
        out.append("\">");
        out.append(e.as_str());
        out.append("</option>\n");
        assert(out@ =~= old(out)@ + file_options(fs.take(k + 1)));
        k = k + 1;
    }
    assert(fs.take(files.len() as int) =~= fs);
}

fn write_rows(out: &mut String, details: &Vec<QaSegmentDetail>, fr: bool)
    ensures
        final(out)@ == old(out)@ + report_rows(details_view(details@), fr),
{
    let ghost dv = details_view(details@);
    let mut i: usize = 0;
    while i < details.len()
        invariant
            dv == details_view(details@),
            i <= details@.len(),
            out@ == old(out)@ + report_rows(dv.take(i as int), fr),
        decreases details@.len() - i,
    {
        assert(dv.take(i + 1).drop_last() =~= dv.take(i as int));
        assert(dv.take(i + 1).last() == details@[i as int]@);
        write_row(out, &details[i], fr);
        assert(out@ =~= old(out)@ + report_rows(dv.take(i + 1), fr));
        i = i + 1;
    }
    assert(dv.take(details.len() as int) =~= dv);
}

/// A standalone HTML QA report (see `qa_report_html`); `generated_at` is
/// the time to stamp it with (see `utc_date_text`). The counts of findings
/// by kind must fit in `usize`.
pub fn generate_qa_html(
    project_title: &str,
    details: &Vec<QaSegmentDetail>,
    lang: &str,
    generated_at: &str,
) -> (html: String)
    requires
        forall|k: int| 0 <= k < 4 ==> report_count(details_view(details@), k) <= usize::MAX,
    ensures
        html@ == qa_report_html(project_title@, details_view(details@), lang@, generated_at@),
{
    proof {
        reveal_strlit("fr");
    }
    let fr = str_equal(lang, "fr");
    let l = labels(lang);
    let (c0, c1, c2, c3) = count_kinds(details);
    let mut out = String::new();
    write_report_head(&mut out, project_title, lang, &l, generated_at, details.len());
    write_report_stats(&mut out, &l, c0, c1, c2, c3);
    if details.len() == 0 {
        write_report_all_pass(&mut out, &l);
        return out;
    }
    write_report_filters_head(&mut out, &l);
    write_file_options(&mut out, details);
    write_report_filters_tail(&mut out, &l);
    write_report_table_head(&mut out, &l);
    write_rows(&mut out, details, fr);
    write_report_script(&mut out);
    out
}

// ---------------------------------------------------------------------------
// The time stamp
// ---------------------------------------------------------------------------

/// `n` in decimal, with zeros in front up to `w` digits.
pub open spec fn padded_decimal(n: nat, w: nat) -> Seq<char> {
    let d = decimal(n);
    if d.len() < w {
        Seq::new((w - d.len()) as nat, |i: int| '0') + d
    } else {
        d
    }
}

/// The proleptic Gregorian (year, month, day) of the day `days` after
/// 1970-01-01, by the days-from-civil inverse over 400-year eras.
pub open spec fn civil_from_days(days: nat) -> (nat, nat, nat) {
    let z = days + 719468;
    let era = z / 146097;
    let doe = z % 146097;
    let yoe = (doe - doe / 1460 + doe / 36524 - doe / 146096) / 365;
    let y = yoe + era * 400;
    let doy = doe - (365 * yoe + yoe / 4 - yoe / 100);
    let mp = (5 * doy + 2) / 153;
    let d = doy - (153 * mp + 2) / 5 + 1;
    let mon = if mp < 10 {
        mp + 3
    } else {
        mp - 9
    };
    let yr = if mon <= 2 {
        y + 1
    } else {
        y
    };
    (yr as nat, mon as nat, d as nat)
}

/// The UTC date and time of `secs` seconds after the Unix epoch, as
/// `YYYY-MM-DD HH:MM:SS UTC`.
pub open spec fn date_text(secs: nat) -> Seq<char> {
    let (y, m, d) = civil_from_days(secs / 86400);
    padded_decimal(y, 4) + "-"@ + padded_decimal(m, 2) + "-"@ + padded_decimal(d, 2) + " "@ + padded_decimal(
        (secs / 3600) % 24,
        2,
    ) + ":"@ + padded_decimal((secs / 60) % 60, 2) + ":"@ + padded_decimal(secs % 60, 2) + " UTC"@
}

fn digit_text(d: u64) -> (s: &'static str)
    requires
        d < 10,
    ensures
        s@ == seq![crate::wolf::dat_parser::digit_char(d as int)],
{
    proof {
        reveal_strlit("0");
        reveal_strlit("1");
        reveal_strlit("2");
        reveal_strlit("3");
        reveal_strlit("4");
        reveal_strlit("5");
        reveal_strlit("6");
        reveal_strlit("7");
        reveal_strlit("8");
        reveal_strlit("9");
    }
    if d == 0 {
        "0"
    } else if d == 1 {
        "1"
    } else if d == 2 {
        "2"
    } else if d == 3 {
        "3"
    } else if d == 4 {
        "4"
    } else if d == 5 {
        "5"
    } else if d == 6 {
        "6"
    } else if d == 7 {
        "7"
    } else if d == 8 {
        "8"
    } else {
        "9"
    }
}

fn append_decimal_u64(prefix: String, n: u64) -> (s: String)
    ensures
        s@ == prefix@ + decimal(n as nat),
    decreases n,
{
    if n < 10 {
        prefix.concat(digit_text(n))
    } else {
        let head = append_decimal_u64(prefix, n / 10);
        let s = head.concat(digit_text(n % 10));
        assert(s@ =~= prefix@ + decimal(n as nat));
        s
    }
}

fn append_padded(out: &mut String, n: u64, w: usize)
    ensures
        final(out)@ == old(out)@ + padded_decimal(n as nat, w as nat),
{
    let d = append_decimal_u64(String::new(), n);
    let len = d.unicode_len();
    let mut k: usize = len;
    let ghost start = out@;
    while k < w
        invariant
            len == d@.len(),
            len <= k,
            k <= w || len >= w,
            len >= w ==> k == len,
            out@ == start + Seq::new((k - len) as nat, |i: int| '0'),
        decreases w - k,
    {
        out.append("0");
        proof {
            reveal_strlit("0");
        }
        assert(out@ =~= start + Seq::new((k + 1 - len) as nat, |i: int| '0'));
        k = k + 1;
    }
    out.append(d.as_str());
    proof {
        if len < w {
            assert(k == w);
        } else {
            assert(k == len);
        }
    }
    assert(out@ =~= old(out)@ + padded_decimal(n as nat, w as nat));
}

/// The UTC date and time of `secs` seconds after the Unix epoch (see
/// `date_text`).
pub fn utc_date_text(secs: u64) -> (s: String)
    ensures
        s@ == date_text(secs as nat),
{
    let sec = secs % 60;
    let min = (secs / 60) % 60;
    let hour = (secs / 3600) % 24;
    let days = secs / 86400;
    let z = days + 719468;
    let era = z / 146097;
    let doe = z % 146097;
    assert(doe / 1460 <= doe);
    assert(doe - doe / 1460 + doe / 36524 >= doe / 146096);
    let yoe = (doe - doe / 1460 + doe / 36524 - doe / 146096) / 365;
    assert(365 * yoe + yoe / 4 - yoe / 100 <= doe) by (nonlinear_arith)
        requires
            doe < 146097,
            yoe == (doe - doe / 1460 + doe / 36524 - doe / 146096) / 365,
    ;
    let y = yoe + era * 400;
    let doy = doe - (365 * yoe + yoe / 4 - yoe / 100);
    let mp = (5 * doy + 2) / 153;
    assert((153 * mp + 2) / 5 <= doy) by (nonlinear_arith)
        requires
            mp == (5 * doy + 2) / 153,
    ;
    let d = doy - (153 * mp + 2) / 5 + 1;
    let mon = if mp < 10 {
        mp + 3
    } else {
        mp - 9
    };
    let yr = if mon <= 2 {
        y + 1
    } else {
        y
    };
    let mut out = String::new();
    append_padded(&mut out, yr, 4);
    out.append("-");
    append_padded(&mut out, mon, 2);
    out.append("-");
    append_padded(&mut out, d, 2);
    out.append(" ");
    append_padded(&mut out, hour, 2);
    out.append(":");
    append_padded(&mut out, min, 2);
    out.append(":");
    append_padded(&mut out, sec, 2);
    out.append(" UTC");
    assert(out@ =~= date_text(secs as nat));
    out
}

} // verus!
