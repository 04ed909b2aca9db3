use hoshi2star::filter::mv_mz_placeholder_pattern_str;
use hoshi2star::wolf::text_filter::{placeholders_in, wolf_placeholder_pattern_str};

fn wolf(text: &str) -> Vec<String> {
    placeholders_in(text, wolf_placeholder_pattern_str())
}

#[test]
fn test_wolf_ruby_opaque() {
    assert_eq!(wolf(r"\r[魔法,まほう]"), [r"\r[魔法,まほう]"]);
}

#[test]
fn test_wolf_ruby_with_text() {
    let original = r"\r[魔法,まほう]が使えます";
    let ps = wolf(original);
    assert_eq!(ps.len(), 1);
    assert_eq!(original.replacen(&ps[0], "", 1), "が使えます");
}

#[test]
fn test_wolf_db_refs() {
    assert_eq!(wolf(r"\udb[0:1:2] \cdb[3:4:5] \sdb[6:7:8]"), [r"\udb[0:1:2]", r"\cdb[3:4:5]", r"\sdb[6:7:8]"]);
}

#[test]
fn test_wolf_sysS_before_sys() {
    assert_eq!(wolf(r"\sysS[10]"), [r"\sysS[10]"]);
}

#[test]
fn test_wolf_cself_before_self() {
    assert_eq!(wolf(r"\cself[99]"), [r"\cself[99]"]);
}

#[test]
fn test_wolf_reserve_variable() {
    assert_eq!(wolf(r"\v?[30]"), [r"\v?[30]"]);
}

#[test]
fn test_wolf_alignment_tags() {
    let original = r"<L>テキスト<R>";
    let ps = wolf(original);
    assert_eq!(ps, ["<L>", "<R>"]);
    assert!(original.contains("テキスト"));
}

#[test]
fn test_wolf_standard_codes() {
    assert_eq!(wolf(r"\v[5]\c[3]\s[10]"), [r"\v[5]", r"\c[3]", r"\s[10]"]);
}

#[test]
fn test_wolf_no_arg_codes() {
    assert_eq!(wolf(r"\E\N\A+\A-"), [r"\E", r"\N", r"\A+", r"\A-"]);
}

#[test]
fn test_wolf_multiline() {
    assert_eq!(wolf("テキスト\nつぎの行"), ["\n"]);
}

#[test]
fn test_wolf_no_interference_with_mvmz() {
    assert_eq!(placeholders_in(r"\V[12]", mv_mz_placeholder_pattern_str()), [r"\V[12]"]);
}

#[test]
fn test_wolf_v3_speaker_prefix_round_trip() {
    let original = "@2\n「ねえ、今日はどこ行く？」";
    let ps = wolf(original);
    assert_eq!(ps, ["@2\n"], "only the speaker prefix must be a placeholder");
    assert_eq!(&original[ps[0].len()..], "「ねえ、今日はどこ行く？」");
}

#[test]
fn test_wolf_v3_speaker_prefix_two_digit() {
    let ps = wolf("@10\nテキスト");
    assert_eq!(ps[0], "@10\n");
}

#[test]
fn test_wolf_v3_speaker_prefix_not_mid_text() {
    let ps = wolf("テスト@2\nつぎ");
    assert!(ps.iter().any(|v| v == "\n"), "bare \\n must still be a placeholder");
    assert!(!ps.iter().any(|v| v.starts_with('@')), "@2 mid-text must not be a speaker placeholder");
}

#[test]
fn placeholders_of_a_bad_pattern_are_none() {
    assert!(placeholders_in("abc", "(").is_empty());
}
