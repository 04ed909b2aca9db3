use hoshi2star::qa::{bom_detected, check_glossary, score};

fn terms(list: &[(&str, &str)]) -> Vec<(String, String)> {
    list.iter().map(|(a, b)| (a.to_string(), b.to_string())).collect()
}

#[test]
fn bom_is_found_at_the_start_only() {
    assert!(bom_detected("\u{FEFF}hello"));
    assert!(!bom_detected("hello\u{FEFF}"));
    assert!(!bom_detected(""));
    assert_eq!(score(0, 0, true, 0), 85);
}

#[test]
fn glossary_mismatch_found() {
    let t = terms(&[("魔法使い", "Mage")]);
    let misses = check_glossary("魔法使い が現れた！", "A sorcerer appeared!", &t);
    assert_eq!(misses, t);
    assert_eq!(score(0, 0, false, misses.len()), 85);
}

#[test]
fn glossary_term_present_ignoring_case() {
    let t = terms(&[("魔法使い", "Mage")]);
    assert!(check_glossary("魔法使い が現れた！", "A mage appeared!", &t).is_empty());
    assert!(check_glossary("戦士 が現れた！", "A warrior appeared!", &t).is_empty());
    assert!(check_glossary("魔法使い", "something else", &vec![]).is_empty());
}

#[test]
fn glossary_many_misses_floor_at_zero() {
    let t = terms(&[
        ("term1", "T1"),
        ("term2", "T2"),
        ("term3", "T3"),
        ("term4", "T4"),
        ("term5", "T5"),
        ("term6", "T6"),
        ("term7", "T7"),
    ]);
    let misses = check_glossary("term1 term2 term3 term4 term5 term6 term7", "nothing", &t);
    assert_eq!(misses.len(), 7);
    assert_eq!(score(0, 0, false, misses.len()), 0);
}

#[test]
fn score_adds_penalties() {
    assert_eq!(score(0, 0, false, 0), 100);
    assert_eq!(score(1, 1, true, 0), 50);
    assert_eq!(score(4, 0, false, 0), 0);
    assert_eq!(score(usize::MAX, usize::MAX, true, usize::MAX), 0);
}
