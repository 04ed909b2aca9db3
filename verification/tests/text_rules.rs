use hoshi2star::export::{
    apply_font_prefix, font_prefix_code, group_wolf_translations, prefix_export_rows, scan_font_status,
    strip_font_prefix, strip_font_prefixes,
};
use hoshi2star::filter::{is_pure_number, is_pure_symbol, mv_mz_placeholder_pattern_str, needs_translation};
use hoshi2star::project::{classify_mv_mz_file, classify_vx_ace_file};
use hoshi2star::wolf::encoding::sjis_round_trips;
use hoshi2star::qa::is_fullwidth;
use hoshi2star::tm::{hash_source, hex_encode, levenshtein};
use hoshi2star::wolf::text_filter::{
    contains_japanese, is_known_translatable_field, is_resource_path, is_translatable, is_wolf_placeholder_only,
    trim_str, wolf_placeholder_pattern_str,
};

// --- Wolf text filters ---

#[test]
fn test_is_resource_path() {
    for path in ["Picture/title.png", "title.PNG", "se001.ogg", "bgm.mp3", "voice.WAV", "MS Gothic.ttf", "movie.webm"] {
        assert!(is_resource_path(path), "{path:?} should be a resource path");
    }

    for text in ["こんにちは", "Hello, world!", "Lv.5", "Mr. Smith"] {
        assert!(!is_resource_path(text), "{text:?} should not be a resource path");
    }
}

#[test]
fn test_is_translatable_skips_resource_paths() {
    assert!(!is_translatable("Picture/title.png"));
    assert!(!is_translatable("se001.ogg"));
    assert!(is_translatable("こんにちは"));
}

#[test]
fn translatable_skips_blank_and_placeholders() {
    assert!(!is_translatable(""));
    assert!(!is_translatable(" \u{3000}\n"));
    assert!(!is_translatable("\\v[1]"));
    assert!(!is_translatable("\\E\\N\\A+"));
    assert!(is_translatable("\\c[2]勇者"));
}

#[test]
fn placeholder_only_detection() {
    assert!(is_wolf_placeholder_only("\\v[1]"));
    assert!(is_wolf_placeholder_only("<L>\\c[3] \n"));
    assert!(is_wolf_placeholder_only("@2\n"));
    assert!(!is_wolf_placeholder_only("@2\nこんにちは"));
    assert!(!is_wolf_placeholder_only("plain text"));
    assert!(!is_wolf_placeholder_only(""));
    assert!(!is_wolf_placeholder_only("\\r[魔法,まほう]を使う"));
    assert!(is_wolf_placeholder_only("\\r[魔法,まほう]"));
}

#[test]
fn trim_follows_unicode_whitespace() {
    assert_eq!(trim_str("  abc \t"), "abc");
    assert_eq!(trim_str("\u{3000}全角\u{3000}"), "全角");
    assert_eq!(trim_str("   "), "");
    assert_eq!(trim_str("a b"), "a b");
}

#[test]
fn japanese_detection() {
    assert!(contains_japanese("abcあ"));
    assert!(contains_japanese("カ"));
    assert!(contains_japanese("漢"));
    assert!(!contains_japanese("Hello, world!"));
    assert!(!contains_japanese("ＡＢＣ"));
}

#[test]
fn known_translatable_fields() {
    for name in ["name", "名前", "description", "説明", "note", "備考", "message", "text"] {
        assert!(is_known_translatable_field(name));
    }
    assert!(!is_known_translatable_field("Name"));
    assert!(!is_known_translatable_field("hp"));
}

// --- filter ---

#[test]
fn test_is_pure_number() {
    assert!(!is_pure_number(""));
    assert!(is_pure_number("5"));
    assert!(is_pure_number("100"));
    assert!(is_pure_number("０"));
    assert!(is_pure_number("１２３"));
    assert!(!is_pure_number("5a"));
    assert!(!is_pure_number("レベル5"));
    assert!(!is_pure_number("HP"));
}

#[test]
fn test_is_pure_symbol() {
    assert!(!is_pure_symbol(""));
    assert!(is_pure_symbol("…"));
    assert!(is_pure_symbol("・・・"));
    assert!(is_pure_symbol("-"));
    assert!(is_pure_symbol("？？？"));
    assert!(is_pure_symbol("！！！！"));
    assert!(is_pure_symbol("…？"));
    assert!(is_pure_symbol("………"));
    assert!(!is_pure_symbol("反応なし…"));
    assert!(!is_pure_symbol("やった！！"));
    assert!(!is_pure_symbol("HP"));
}

#[test]
fn test_needs_translation_placeholders_wolf() {
    assert!(!needs_translation(r"\cdb[0:1:0]", wolf_placeholder_pattern_str()));
    assert!(needs_translation("勇者の村", wolf_placeholder_pattern_str()));
}

/// RPG Maker MV/MZ escape codes as the extractors tokenize them: a
/// backslash, a code letter or name, and an optional bracketed argument.
const MV_MZ_CODES: &str = r"\\[A-Za-z]+(\[[^\]]*\])?";

#[test]
fn test_needs_translation_empty_and_trivial() {
    assert!(!needs_translation("", MV_MZ_CODES));
    assert!(!needs_translation("   ", MV_MZ_CODES));
    assert!(!needs_translation("5", MV_MZ_CODES));
    assert!(!needs_translation("100", MV_MZ_CODES));
    assert!(!needs_translation("…", MV_MZ_CODES));
    assert!(!needs_translation("-", MV_MZ_CODES));
    assert!(!needs_translation("？？？", MV_MZ_CODES));
    assert!(!needs_translation("！！！！", MV_MZ_CODES));
    assert!(!needs_translation("・・・", MV_MZ_CODES));
}

#[test]
fn test_needs_translation_placeholders_mvmz() {
    assert!(!needs_translation(r"\V[12]", MV_MZ_CODES));
    assert!(!needs_translation(r"\C[2]\N[4]", MV_MZ_CODES));
    assert!(needs_translation(r"\C[2]勇者", MV_MZ_CODES));
}

#[test]
fn test_needs_translation_real_content() {
    assert!(needs_translation("反応なし…", MV_MZ_CODES));
    assert!(needs_translation("こんにちは！", MV_MZ_CODES));
    assert!(needs_translation("HP", MV_MZ_CODES)); // abbreviation, not pure symbol
}

#[test]
fn needs_translation_trivial_texts_with_wolf_placeholders() {
    let wolf = wolf_placeholder_pattern_str();
    for text in ["", "   ", "5", "100", "…", "-", "？？？", "！！！！", "・・・"] {
        assert!(!needs_translation(text, wolf), "{text:?}");
    }
    for text in ["反応なし…", "こんにちは！", "HP"] {
        assert!(needs_translation(text, wolf), "{text:?}");
    }
}

#[test]
fn needs_translation_with_an_invalid_pattern_sees_no_placeholder() {
    assert!(needs_translation("\\v[1]", "("));
}

// --- file classification ---

#[test]
fn test_classify_map_files() {
    assert_eq!(classify_mv_mz_file("Map001.json"), "map");
    assert_eq!(classify_mv_mz_file("Map999.json"), "map");
    assert_eq!(classify_mv_mz_file("MapInfos.json"), "map_infos");
    assert_eq!(classify_mv_mz_file("MapBoss.json"), "unknown");
}

#[test]
fn test_classify_data_files() {
    assert_eq!(classify_mv_mz_file("Actors.json"), "actors");
    assert_eq!(classify_mv_mz_file("System.json"), "system");
    assert_eq!(classify_mv_mz_file("Plugins.json"), "unknown");
    assert_eq!(classify_mv_mz_file("Unknown.json"), "unknown");
}

#[test]
fn test_classify_vx_ace_map_files() {
    assert_eq!(classify_vx_ace_file("Map001.rvdata2"), "vx_map");
    assert_eq!(classify_vx_ace_file("Map999.rvdata2"), "vx_map");
    assert_eq!(classify_vx_ace_file("MapInfos.rvdata2"), "vx_map_infos");
    assert_eq!(classify_vx_ace_file("MapBoss.rvdata2"), "unknown");
}

#[test]
fn test_classify_vx_ace_data_files() {
    assert_eq!(classify_vx_ace_file("Actors.rvdata2"), "vx_actors");
    assert_eq!(classify_vx_ace_file("Armors.rvdata2"), "vx_armors");
    assert_eq!(classify_vx_ace_file("Classes.rvdata2"), "vx_classes");
    assert_eq!(classify_vx_ace_file("CommonEvents.rvdata2"), "vx_common_events");
    assert_eq!(classify_vx_ace_file("Enemies.rvdata2"), "vx_enemies");
    assert_eq!(classify_vx_ace_file("Items.rvdata2"), "vx_items");
    assert_eq!(classify_vx_ace_file("Skills.rvdata2"), "vx_skills");
    assert_eq!(classify_vx_ace_file("States.rvdata2"), "vx_states");
    assert_eq!(classify_vx_ace_file("System.rvdata2"), "vx_system");
    assert_eq!(classify_vx_ace_file("Troops.rvdata2"), "vx_troops");
    assert_eq!(classify_vx_ace_file("Weapons.rvdata2"), "vx_weapons");
    assert_eq!(classify_vx_ace_file("Scripts.rvdata2"), "unknown");
}

#[test]
fn classify_map_number_edge_cases() {
    // Leading `Map` runs and trailing extension runs are trimmed before parsing.
    assert_eq!(classify_mv_mz_file("MapMap7.json.json"), "map");
    assert_eq!(classify_mv_mz_file("Map+7.json"), "map");
    assert_eq!(classify_mv_mz_file("Map.json"), "unknown");
    assert_eq!(classify_mv_mz_file("Map4294967295.json"), "map");
    assert_eq!(classify_mv_mz_file("Map4294967296.json"), "unknown");
    assert_eq!(classify_mv_mz_file("map001.json"), "unknown");
}

// --- QA and translation memory ---

#[test]
fn test_is_fullwidth_kanji() {
    assert!(is_fullwidth('日'));
    assert!(is_fullwidth('本'));
    assert!(is_fullwidth('語'));
}

#[test]
fn test_is_fullwidth_hiragana() {
    assert!(is_fullwidth('あ'));
    assert!(is_fullwidth('い'));
    assert!(is_fullwidth('う'));
}

#[test]
fn test_is_fullwidth_katakana() {
    assert!(is_fullwidth('ア'));
    assert!(is_fullwidth('カ'));
}

#[test]
fn test_is_fullwidth_ascii_halfwidth() {
    assert!(!is_fullwidth('A'));
    assert!(!is_fullwidth('1'));
    assert!(!is_fullwidth(' '));
    assert!(!is_fullwidth('!'));
}

#[test]
fn fullwidth_forms_and_punctuation() {
    assert!(is_fullwidth('Ａ'));
    assert!(is_fullwidth('。'));
    assert!(is_fullwidth('\u{3000}'));
    assert!(!is_fullwidth('é'));
}

#[test]
fn test_levenshtein_known_values() {
    assert_eq!(levenshtein("kitten", "sitting"), 3);
    assert_eq!(levenshtein("", "abc"), 3);
    assert_eq!(levenshtein("abc", ""), 3);
    assert_eq!(levenshtein("abc", "abc"), 0);
    assert_eq!(levenshtein("", ""), 0);
}

#[test]
fn levenshtein_counts_characters_not_bytes() {
    assert_eq!(levenshtein("こんにちは", "こんにちわ"), 1);
    assert_eq!(levenshtein("flaw", "lawn"), 2);
    assert_eq!(levenshtein("ab", "ba"), levenshtein("ba", "ab"));
}

// --- font-size prefixes ---

#[test]
fn font_prefix_codes() {
    assert_eq!(font_prefix_code("wolf", 24), "\\f[24]");
    assert_eq!(font_prefix_code("mv_mz", 7), "\\FS[7]");
}

#[test]
fn apply_font_prefix_prepends_or_replaces() {
    assert_eq!(apply_font_prefix("Hello", 20, false, "wolf"), "\\f[20]Hello");
    assert_eq!(apply_font_prefix("\\f[12]Hello", 20, false, "wolf"), "\\f[12]Hello");
    assert_eq!(apply_font_prefix("\\f[12]Hello", 20, true, "wolf"), "\\f[20]Hello");
    assert_eq!(apply_font_prefix("\\FS[30]Hi", 18, true, "mv_mz"), "\\FS[18]Hi");
    assert_eq!(apply_font_prefix("Hi\\FS[30]", 18, true, "mv_mz"), "\\FS[18]Hi\\FS[30]");
}

#[test]
fn strip_font_prefix_removes_either_engine_code() {
    assert_eq!(strip_font_prefix("\\f[20]Hello"), "Hello");
    assert_eq!(strip_font_prefix("\\FS[18]Hi"), "Hi");
    assert_eq!(strip_font_prefix("\\f[20]\\FS[18]Both"), "Both");
    assert_eq!(strip_font_prefix("plain"), "plain");
}

// --- translation memory keys ---

#[test]
fn test_hash_normalisation() {
    // Trim + lowercase → same hash
    assert_eq!(hash_source("  Hello  "), hash_source("hello"));
    assert_eq!(hash_source("ABC"), hash_source("abc"));
    // Different content → different hash
    assert_ne!(hash_source("hello"), hash_source("world"));
}

#[test]
fn test_hash_deterministic() {
    let h1 = hash_source("主人公");
    let h2 = hash_source("主人公");
    assert_eq!(h1, h2);
    assert_eq!(h1.len(), 64); // SHA-256 hex string
}

#[test]
fn hash_source_is_the_sha256_of_the_normalised_text() {
    assert_eq!(hash_source("\tHELLO\n"), "2cf24dba5fb0a30e26e83b2ac5b9e29e1b161e5c1fa7425e73043362938b9824");
    assert_eq!(hash_source(""), "e3b0c44298fc1c149afbf4c8996fb92427ae41e4649b934ca495991b7852b855");
}

// --- font codes over a project ---

fn rows(pairs: &[(&str, &str)]) -> Vec<(String, String)> {
    pairs.iter().map(|(a, b)| (a.to_string(), b.to_string())).collect()
}

#[test]
fn font_scan_counts_map_text_only_for_rpg_maker() {
    let r = rows(&[("map", r"\FS[20]こんにちは"), ("actors", r"\FS[2]名前"), ("map", "plain"), ("map", r"\f[3]y")]);
    let scan = scan_font_status("mv_mz", &r);
    assert_eq!(scan.total_translated, 3);
    assert_eq!(scan.existing_font_count, 2);
    assert_eq!(scan.engine, "mv_mz");
    let scan = scan_font_status("wolf", &r);
    assert_eq!(scan.total_translated, 4);
    assert_eq!(scan.existing_font_count, 3);
}

#[test]
fn strip_font_prefixes_lists_only_changed_segments() {
    let r = rows(&[("a", r"\f[3]Hello"), ("b", "Hello"), ("c", r"\FS[10]Bye"), ("d", r"x\f[3]")]);
    let updates = strip_font_prefixes(&r);
    assert_eq!(updates, rows(&[("a", "Hello"), ("c", "Bye")]));
}

#[test]
fn levenshtein_is_symmetric_and_zero_on_equal_texts() {
    assert_eq!(levenshtein("kitten", "sitting"), 3);
    assert_eq!(levenshtein("sitting", "kitten"), 3);
    assert_eq!(levenshtein("勇者の村", "勇者の村"), 0);
    assert!(levenshtein("abc", "xyzw") <= 4);
}

#[test]
fn wolf_placeholder_pattern_covers_each_code() {
    for code in [
        "\\r[漢字,かんじ]",
        "\\udb[1:2:3]",
        "\\cdb[0:1:0]",
        "\\sdb[4:5:6]",
        "\\sysS[12]",
        "\\cself[10]",
        "\\self[3]",
        "\\sys[7]",
        "\\space[2]",
        "\\v?[5]",
        "\\sp[1]",
        "\\mx[2]",
        "\\my[3]",
        "\\ax[4]",
        "\\ay[5]",
        "\\-[6]",
        "\\font[1]",
        "\\v[1]",
        "\\C[2]",
        "\\s[3]",
        "\\f[4]",
        "\\i[5]",
        "\\m[6]",
        "<L>",
        "<C>",
        "<R>",
        "\\A+",
        "\\A-",
        "\\E",
        "\\N",
        "\\\\",
        "\\!",
        "\\.",
        "\\^",
        "\\>",
        "\\<",
        "@12\n",
        "\n",
    ] {
        assert!(is_wolf_placeholder_only(code), "{code:?} should be a placeholder");
        if !code.starts_with('@') {
            assert!(!needs_translation(code, wolf_placeholder_pattern_str()), "{code:?}");
        }
        let with_text = format!("{code}勇者");
        assert!(needs_translation(&with_text, wolf_placeholder_pattern_str()), "{with_text:?}");
    }
}

#[test]
fn wolf_placeholder_pattern_rejects_near_misses() {
    for text in ["\\q[1]", "\\cself[123]", "\\font[12]", "<X>", "\\v[]", "@a\n", "\\r[,x]"] {
        assert!(!is_wolf_placeholder_only(text), "{text:?} should not be a placeholder");
    }
}

#[test]
fn mv_mz_placeholder_pattern_codes() {
    let p = mv_mz_placeholder_pattern_str();
    assert!(!needs_translation("\\V[1]", p));
    assert!(!needs_translation("\\C[2]\\G \\N[1]", p));
    assert!(needs_translation("\\C[2]Hero", p));
    assert!(needs_translation("Potion", p));
}

#[test]
fn needs_translation_ignores_surrounding_whitespace() {
    let p = wolf_placeholder_pattern_str();
    for core in ["勇者", "\\v[1]", "123", "", "a b"] {
        let padded = format!(" \u{3000}\t{core}\n ");
        assert_eq!(needs_translation(&padded, p), needs_translation(core, p), "{core:?}");
    }
}

#[test]
fn export_rows_prefix_only_where_the_file_takes_codes() {
    let rows = vec![("/1/name".to_owned(), "Hero".to_owned())];
    assert_eq!(prefix_export_rows(&rows, Some(24), false, "mv_mz", "actors"), rows);
    assert_eq!(prefix_export_rows(&rows, None, false, "mv_mz", "map"), rows);
    let out = prefix_export_rows(&rows, Some(24), false, "mv_mz", "map");
    assert_eq!(out[0].1, apply_font_prefix("Hero", 24, false, "mv_mz"));
    assert_ne!(out[0].1, "Hero");
    let wolf = prefix_export_rows(&rows, Some(18), true, "wolf", "wolf_map");
    assert_eq!(wolf[0].1, apply_font_prefix("Hero", 18, true, "wolf"));
}

#[test]
fn wolf_translations_group_by_file() {
    let rows: Vec<(String, String)> = [
        ("MapData/Map001/events/0/pages/0/3", "a"),
        ("Database/DataBase/0/1/name", "b"),
        ("MapData/Map001/events/1/pages/0/0", "c"),
        ("nokey", "d"),
        ("CommonEvents/x", "e"),
    ]
    .iter()
    .map(|(k, t)| (k.to_string(), t.to_string()))
    .collect();
    let groups = group_wolf_translations(&rows);
    let names: Vec<&str> = groups.iter().map(|g| g.0.as_str()).collect();
    assert_eq!(names, ["MapData/Map001", "Database/DataBase", "CommonEvents/x"]);
    let texts: Vec<&str> = groups[0].1.iter().map(|t| t.text.as_str()).collect();
    assert_eq!(texts, ["a", "c"]);
    assert_eq!(groups[2].1[0].key, "CommonEvents/x");
}

#[test]
fn hex_encode_matches_the_hex_crate() {
    let bytes: Vec<u8> = (0u8..=255).collect();
    assert_eq!(hex_encode(&bytes), hex::encode(&bytes));
    assert_eq!(hex_encode(&[0x00, 0xAB, 0xFF]), "00abff");
}

#[test]
fn shift_jis_round_trip_of_ascii_and_others() {
    assert!(sjis_round_trips("Hello, world ~\\"));
    assert!(sjis_round_trips("勇者の村"));
    assert!(!sjis_round_trips("😀"));
}
