use hoshi2star::qa::{check, check_line_length, measure_line_units, QaError};
use hoshi2star::report::{escape_xml, generate_qa_html, utc_date_text, QaSegmentDetail};

fn make_detail(file: &str, num: u32, source: &str, target: &str, score: u8, errors: Vec<QaError>) -> QaSegmentDetail {
    QaSegmentDetail {
        segment_id: "id-1".to_string(),
        file_name: file.to_string(),
        segment_number: num,
        source_text: source.to_string(),
        target_text: target.to_string(),
        qa_score: score,
        errors,
    }
}

fn ph(list: &[&str]) -> Vec<String> {
    list.iter().map(|s| s.to_string()).collect()
}

fn terms(pairs: &[(&str, &str)]) -> Vec<(String, String)> {
    pairs.iter().map(|(s, t)| (s.to_string(), t.to_string())).collect()
}

// --- report ---

#[test]
fn test_escape_xml_special_chars() {
    assert_eq!(escape_xml("a & <b>"), "a &amp; &lt;b&gt;");
    assert_eq!(escape_xml("\"quoted\""), "&quot;quoted&quot;");
    assert_eq!(escape_xml("こんにちは"), "こんにちは");
}

#[test]
fn test_generate_qa_html_structure() {
    let details = vec![
        make_detail(
            "Map001.json",
            1,
            r"\V[12] ゴールド",
            "coins",
            75,
            vec![QaError::MissingPlaceholder { placeholder: r"\V[12]".to_string() }],
        ),
        make_detail(
            "Map002.json",
            3,
            "こんにちは",
            &"A".repeat(56),
            90,
            vec![QaError::LineTooLong { line: 1, units: 56, char_count: 56 }],
        ),
    ];

    let html = generate_qa_html("MyGame", &details, "en", "2024-01-01 00:00:00 UTC");

    assert!(html.contains("<html"), "missing <html");
    assert!(html.contains("<table"), "missing <table");
    assert!(html.contains("MyGame"), "missing project title");
    assert!(html.contains("Map001.json"), "missing file name");
    assert!(html.contains(r"\V[12]"), "missing placeholder text");
    assert!(html.contains("coins"), "missing target text");
    assert!(html.contains("75"), "missing score");
    assert!(html.contains("QA Report"), "missing report title");
    assert!(html.contains("applyFilters"), "missing JS filter");
    assert!(!html.contains("All segments pass"), "should not show all-pass msg");
}

#[test]
fn test_generate_qa_html_empty_details() {
    let html = generate_qa_html("EmptyProject", &vec![], "en", "2024-01-01 00:00:00 UTC");
    assert!(html.contains("All segments pass QA"));
    assert!(!html.contains("<table"), "should not emit table for empty details");
}

#[test]
fn test_generate_qa_html_fr_labels() {
    let details = vec![make_detail("Map001.json", 1, "source", "cible", 85, vec![QaError::BomDetected])];
    let html = generate_qa_html("MonJeu", &details, "fr", "2024-01-01 00:00:00 UTC");
    assert!(html.contains("Rapport QA"), "missing FR title");
    assert!(html.contains("Généré le"), "missing FR generated label");
    assert!(html.contains("BOM UTF-8"), "missing FR bom label");
}

#[test]
fn report_counts_files_and_escapes() {
    let details = vec![
        make_detail("A<1>.json", 1, "s", "t & u", 60, vec![QaError::BomDetected, QaError::BomDetected]),
        make_detail("B.json", 2, "s", "t", 80, vec![QaError::GlossaryMismatch {
            source_term: "勇者".to_string(),
            expected_target: "Hero".to_string(),
        }]),
        make_detail("A<1>.json", 3, "s", "t", 90, vec![]),
    ];
    let html = generate_qa_html("T", &details, "en", "NOW");
    assert!(html.contains("<p class=\"meta\">Generated: NOW &nbsp;·&nbsp; 3 segments with errors / 3 checked</p>"));
    assert!(html.contains("<span class=\"stat-label\">BOM detected</span><span class=\"stat-value orange\">2</span>"));
    assert!(html.contains("<span class=\"stat-label\">Glossary mismatch</span><span class=\"stat-value blue\">1</span>"));
    assert_eq!(html.matches("<option value=\"A&lt;1&gt;.json\">").count(), 1);
    assert!(html.contains("data-errors=\"bom_detected\""));
    assert!(html.contains("<tr class=\"score-crit\""));
    assert!(html.contains("t &amp; u"));
    assert!(html.contains("Glossary: 勇者 → Hero"));
    assert!(html.ends_with("</script>\n</body>\n</html>\n"));
}

#[test]
fn utc_dates() {
    assert_eq!(utc_date_text(0), "1970-01-01 00:00:00 UTC");
    assert_eq!(utc_date_text(951_782_400), "2000-02-29 00:00:00 UTC");
    assert_eq!(utc_date_text(1_700_000_000), "2023-11-14 22:13:20 UTC");
    assert_eq!(utc_date_text(253_402_300_799), "9999-12-31 23:59:59 UTC");
}

// --- line widths ---

#[test]
fn test_measure_line_units_ascii() {
    assert_eq!(measure_line_units("ABC"), 3);
}

#[test]
fn test_measure_line_units_japanese() {
    assert_eq!(measure_line_units("日本語"), 6);
}

#[test]
fn test_measure_line_units_mixed() {
    assert_eq!(measure_line_units("AB日"), 4);
}

#[test]
fn test_check_line_length_empty_lines_ignored() {
    let errors = check_line_length("\n   \n");
    assert!(errors.is_empty());
}

#[test]
fn test_check_line_length_jp_long_triggers_error() {
    let line = "日".repeat(28);
    let errors = check_line_length(&line);
    assert_eq!(errors.len(), 1);
    match &errors[0] {
        QaError::LineTooLong { line: n, units, char_count } => {
            assert_eq!(*n, 1);
            assert_eq!(*char_count, 28);
            assert!(*units * 13 > 720, "units={units} should exceed the box");
        },
        _ => panic!("expected LineTooLong"),
    }
}

#[test]
fn test_check_line_length_en_within_limit() {
    let line = "A".repeat(55);
    assert!(check_line_length(&line).is_empty());
}

// --- check ---

#[test]
fn test_clean_segment_score_100() {
    let result = check(r"\V[12] pièces", r"\V[12] coins", &vec![], &ph(&[r"\V[12]"]));
    assert_eq!(result.score, 100);
    assert!(result.errors.is_empty());
}

#[test]
fn test_missing_placeholder() {
    let result = check(r"\V[12] pièces", "coins", &vec![], &ph(&[r"\V[12]"]));
    assert_eq!(result.errors.len(), 1);
    assert!(matches!(&result.errors[0], QaError::MissingPlaceholder { placeholder } if placeholder == r"\V[12]"));
    assert_eq!(result.score, 75);
}

#[test]
fn test_multiple_missing_placeholders() {
    let result = check(r"\V[12] et \N[1]", "coins", &vec![], &ph(&[r"\V[12]", r"\N[1]"]));
    assert_eq!(result.errors.len(), 2);
    assert_eq!(result.score, 50);
}

#[test]
fn test_line_too_long() {
    let long_line = "A".repeat(56);
    let result = check("hello", &long_line, &vec![], &vec![]);
    assert_eq!(result.errors.len(), 1);
    match &result.errors[0] {
        QaError::LineTooLong { line, units, char_count } => {
            assert_eq!(*line, 1);
            assert_eq!(*char_count, 56);
            assert!(*units * 13 > 720);
        },
        _ => panic!("expected LineTooLong"),
    }
    assert_eq!(result.score, 90);
}

#[test]
fn test_bom_detected() {
    let result = check("hello", "\u{FEFF}hello", &vec![], &vec![]);
    assert_eq!(result.errors.len(), 1);
    assert!(matches!(&result.errors[0], QaError::BomDetected));
    assert_eq!(result.score, 85);
}

#[test]
fn test_cumulative_score() {
    let long_line = format!("\u{FEFF}{}", "A".repeat(56));
    let result = check(r"\V[12]", &long_line, &vec![], &ph(&[r"\V[12]"]));
    assert_eq!(result.score, 50);
    assert_eq!(result.errors.len(), 3);
}

#[test]
fn test_score_floor_zero() {
    let result = check(
        r"\V[1]\V[2]\V[3]\V[4]",
        "no placeholders here",
        &vec![],
        &ph(&[r"\V[1]", r"\V[2]", r"\V[3]", r"\V[4]"]),
    );
    assert_eq!(result.score, 0);
}

#[test]
fn test_no_source_placeholders_passes() {
    let result = check("こんにちは", "Hello", &vec![], &vec![]);
    assert_eq!(result.score, 100);
    assert!(result.errors.is_empty());
}

#[test]
fn test_lines_beyond_max_ignored() {
    let lines: Vec<String> = (0..5).map(|_| "A".repeat(56)).collect();
    let text = lines.join("\n");
    let result = check("hello", &text, &vec![], &vec![]);
    let long_errors: Vec<_> = result.errors.iter().filter(|e| matches!(e, QaError::LineTooLong { .. })).collect();
    assert_eq!(long_errors.len(), 4);
}

#[test]
fn test_glossary_mismatch_detected() {
    let t = terms(&[("魔法使い", "Mage")]);
    let result = check("魔法使い が現れた！", "A sorcerer appeared!", &t, &vec![]);
    assert_eq!(result.errors.len(), 1);
    assert!(matches!(
        &result.errors[0],
        QaError::GlossaryMismatch { source_term, expected_target }
            if source_term == "魔法使い" && expected_target == "Mage"
    ));
    assert_eq!(result.score, 85);
}

#[test]
fn test_glossary_term_present_no_error() {
    let t = terms(&[("魔法使い", "Mage")]);
    let result = check("魔法使い が現れた！", "A mage appeared!", &t, &vec![]);
    assert!(result.errors.is_empty());
    assert_eq!(result.score, 100);
}

#[test]
fn test_glossary_no_source_term_no_error() {
    let t = terms(&[("魔法使い", "Mage")]);
    let result = check("戦士 が現れた！", "A warrior appeared!", &t, &vec![]);
    assert!(result.errors.is_empty());
    assert_eq!(result.score, 100);
}

#[test]
fn test_glossary_empty_terms_no_error() {
    let result = check("魔法使い", "something else", &vec![], &vec![]);
    assert!(result.errors.is_empty());
    assert_eq!(result.score, 100);
}

#[test]
fn test_glossary_multiple_mismatches_floor_zero() {
    let t = terms(&[
        ("term1", "T1"),
        ("term2", "T2"),
        ("term3", "T3"),
        ("term4", "T4"),
        ("term5", "T5"),
        ("term6", "T6"),
        ("term7", "T7"),
    ]);
    let source = "term1 term2 term3 term4 term5 term6 term7";
    let result = check(source, "wrong translation", &t, &vec![]);
    assert_eq!(result.score, 0);
}

#[test]
fn check_counts_a_repeated_placeholder_once_and_keeps_crlf_lines() {
    let result = check(r"\V[1]\V[1]", "x", &vec![], &ph(&[r"\V[1]", r"\V[1]"]));
    assert_eq!(result.errors.len(), 1);
    let crlf = format!("{}\r\nok", "A".repeat(55));
    assert!(check_line_length(&crlf).is_empty());
}
