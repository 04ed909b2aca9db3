use hoshi2star::glossary::{contains_text, select_glossary_terms};

fn terms(list: &[(&str, &str)]) -> Vec<(String, String)> {
    list.iter().map(|(a, b)| (a.to_string(), b.to_string())).collect()
}

fn texts(list: &[&str]) -> Vec<String> {
    list.iter().map(|s| s.to_string()).collect()
}

#[test]
fn found_terms_keep_glossary_order() {
    let t = terms(&[("勇者", "Hero"), ("魔王", "Demon King"), ("村", "Village")]);
    let out = select_glossary_terms(&t, &texts(&["村の勇者が来た"]));
    assert_eq!(out, terms(&[("勇者", "Hero"), ("村", "Village")]));
}

#[test]
fn found_terms_are_capped_at_twenty() {
    let many: Vec<(String, String)> = (0..30).map(|i| (format!("w{i:02}"), format!("t{i}"))).collect();
    let text: String = (0..30).map(|i| format!("w{i:02} ")).collect();
    let out = select_glossary_terms(&many, &vec![text]);
    assert_eq!(out.len(), 20);
    assert_eq!(out[0].0, "w00");
    assert_eq!(out[19].0, "w19");
}

#[test]
fn shortest_terms_when_none_found() {
    let mut list: Vec<(String, String)> = Vec::new();
    for (i, w) in ["abcdef", "ab", "勇", "abcd", "a", "xy", "abc", "zz", "qqqq", "rrrrr", "s", "tttttt"].iter().enumerate() {
        list.push((w.to_string(), format!("t{i}")));
    }
    let out = select_glossary_terms(&list, &texts(&["。"]));
    let picked: Vec<&str> = out.iter().map(|p| p.0.as_str()).collect();
    // by UTF-8 byte length, ties in glossary order; "勇" is 3 bytes
    assert_eq!(picked, ["a", "s", "ab", "xy", "zz", "勇", "abc", "abcd", "qqqq", "rrrrr"]);
}

#[test]
fn empty_glossary_gives_nothing() {
    assert!(select_glossary_terms(&vec![], &texts(&["x"])).is_empty());
}

#[test]
fn contains_text_matches_runs() {
    assert!(contains_text("勇者の村", "者の"));
    assert!(contains_text("abc", ""));
    assert!(!contains_text("abc", "abcd"));
    assert!(!contains_text("abc", "ac"));
}
