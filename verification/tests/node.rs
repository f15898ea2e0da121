use memvid_split::codec::{signed, unsigned};
use memvid_split::frame_jsonl::{FrameJsonl, FrameStatus};
use memvid_split::lex::LexSearchHit;
use memvid_split::node::{
    frame_from_js, js_compact_result, js_lex_hits, search_limit, JsCompactResult, JsFrame,
    JsLexHit, JsTag, JsTags,
};
use memvid_split::split_memvid::CompactResult;

#[test]
fn frames_for_javascript() {
    let frame = FrameJsonl::new_at(u64::MAX, "content", 9)
        .with_uri("u")
        .with_title("t")
        .with_tag("k", "v")
        .with_supersedes(3);
    let shown = JsFrame::from(frame);
    assert_eq!(shown.frame_id, -1);
    assert_eq!(shown.uri.as_deref(), Some("u"));
    assert_eq!(shown.title.as_deref(), Some("t"));
    assert_eq!(shown.created_at, 9);
    assert_eq!(shown.status, "active");
    assert_eq!(shown.supersedes, Some(3));
    assert_eq!(shown.tags.get("k").unwrap(), "v");
    assert_eq!(shown.content, "content");
    let shown = JsFrame::from(FrameJsonl::tombstone_at(1, 0, 2));
    assert_eq!(shown.status, "tombstoned");
    assert_eq!(shown.uri, None);
}

#[test]
fn frames_from_javascript() {
    let tags = Some(JsTags::Object(vec![
        ("a".to_string(), JsTag::Text("1".to_string())),
        ("b".to_string(), JsTag::Other),
        ("c".to_string(), JsTag::Text("2".to_string())),
        ("a".to_string(), JsTag::Text("3".to_string())),
    ]));
    let frame = frame_from_js("text", Some("u"), Some("t"), &tags);
    assert_eq!(frame.frame_id, 0);
    assert_eq!(frame.content, "text");
    assert_eq!(frame.uri.as_deref(), Some("u"));
    assert_eq!(frame.title.as_deref(), Some("t"));
    assert_eq!(frame.status, FrameStatus::Active);
    assert_eq!(frame.supersedes, None);
    assert_eq!(frame.tags.get("a").unwrap(), "3");
    assert_eq!(frame.tags.get("b"), None);
    assert_eq!(frame.tags.get("c").unwrap(), "2");
    let plain = frame_from_js("text", None, None, &Some(JsTags::Other));
    assert_eq!(plain.uri, None);
    assert_eq!(plain.title, None);
    assert!(plain.tags.is_empty());
    assert!(frame_from_js("text", None, None, &None).tags.is_empty());
}

#[test]
fn results_for_javascript() {
    let result = CompactResult { original_frames: 4, active_frames: 2, removed_frames: u64::MAX };
    assert_eq!(
        js_compact_result(result),
        JsCompactResult { original_frames: 4, active_frames: 2, removed_frames: -1 },
    );
    let hits = [LexSearchHit { frame_id: 1 << 63, score: 2, match_count: 5 }];
    assert_eq!(
        js_lex_hits(&hits),
        vec![JsLexHit { frame_id: i64::MIN, score: 2, match_count: 5 }],
    );
    assert!(js_lex_hits(&[]).is_empty());
}

#[test]
fn numbers_keep_their_bits() {
    assert_eq!(signed(u64::MAX), -1);
    assert_eq!(signed(7), 7);
    assert_eq!(signed(1 << 63), i64::MIN);
    assert_eq!(unsigned(-1), u64::MAX);
    assert_eq!(unsigned(i64::MIN), 1 << 63);
    assert_eq!(unsigned(7), 7);
    assert_eq!(unsigned(signed(u64::MAX - 3)), u64::MAX - 3);
    assert_eq!(search_limit(10), 10);
    assert_eq!(search_limit(-1), usize::MAX);
}
