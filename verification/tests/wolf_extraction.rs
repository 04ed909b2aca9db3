use hoshi2star::wolf::extractor::{common_events_v2_segments, map_segments, WolfSegmentKind};
use hoshi2star::wolf::v3::command::{Command, CID_CHOICES, CID_MESSAGE};

fn message(text: &str) -> Command {
    Command { cid: CID_MESSAGE, args: vec![], indent: 0, string_args: vec![text.to_owned()], move_data: None, v35_unknown: vec![] }
}

fn choices(options: &[&str]) -> Command {
    Command {
        cid: CID_CHOICES,
        args: vec![],
        indent: 0,
        string_args: options.iter().map(|s| s.to_string()).collect(),
        move_data: None,
        v35_unknown: vec![],
    }
}

/// One event with one page holding `commands`.
fn single_page(commands: Vec<Command>) -> Vec<Vec<Vec<Command>>> {
    vec![vec![commands]]
}

#[test]
fn test_extract_map_empty() {
    let segments = map_segments("TestMap", &vec![]);
    assert!(segments.is_empty());
}

#[test]
fn test_extract_map_single_message() {
    let segments = map_segments("Map001", &single_page(vec![message("テスト")]));
    assert_eq!(segments.len(), 1);
    assert_eq!(segments[0].source_text, "テスト");
    assert_eq!(segments[0].key, "MapData/Map001/events/0/pages/0/0");
}

#[test]
fn test_extract_map_placeholder_only() {
    let segments = map_segments("Map001", &single_page(vec![message("\\v[1]")]));
    assert!(segments.is_empty(), "placeholder-only segment must be filtered");
}

#[test]
fn test_key_uniqueness_single_mps() {
    let segs = map_segments("Map001", &single_page(vec![message("こんにちは"), message("さようなら")]));
    assert_eq!(segs.len(), 2);
    assert_ne!(segs[0].key, segs[1].key, "two distinct commands must have distinct keys");
}

#[test]
fn test_key_format_mps() {
    let segs = map_segments("TitleMap", &single_page(vec![message("テスト")]));
    assert_eq!(segs.len(), 1);
    assert!(segs[0].key.starts_with("MapData/TitleMap/events/"), "key must follow MapData/{{map}}/events/... format");
}

#[test]
fn test_extract_common_events_empty() {
    let segs = common_events_v2_segments(&vec![]);
    assert!(segs.is_empty(), "zero events must yield no segments");
}

#[test]
fn map_choices_get_their_own_keys() {
    let segs = map_segments("M", &vec![vec![vec![], vec![message("a"), choices(&["はい", "", "いいえ"])]]]);
    let keys: Vec<&str> = segs.iter().map(|s| s.key.as_str()).collect();
    assert_eq!(
        keys,
        vec!["MapData/M/events/0/pages/1/0", "MapData/M/events/0/pages/1/1/choices/0", "MapData/M/events/0/pages/1/1/choices/2"]
    );
    assert!(matches!(
        &segs[2].kind,
        WolfSegmentKind::MapMessage { map_name, event_idx: 0, page_idx: 1, cmd_idx: 1 } if map_name == "M"
    ));
}

#[test]
fn v2_common_events_are_keyed_by_name_and_index() {
    let events = vec![
        ("Intro".to_owned(), vec![message("ようこそ"), message("   ")]),
        ("Shop".to_owned(), vec![Command { cid: 0, ..message("ignored") }, message("いらっしゃい")]),
    ];
    let segs = common_events_v2_segments(&events);
    let pairs: Vec<(&str, &str)> = segs.iter().map(|s| (s.key.as_str(), s.source_text.as_str())).collect();
    assert_eq!(pairs, vec![("CommonEvents/Intro/0/0", "ようこそ"), ("CommonEvents/Shop/1/1", "いらっしゃい")]);
    assert!(matches!(
        &segs[1].kind,
        WolfSegmentKind::CommonEventMessage { event_name, event_idx: 1, cmd_idx: 1 } if event_name == "Shop"
    ));
}
