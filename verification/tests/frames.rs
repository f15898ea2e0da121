use memvid_split::data_file::{
    frame_line, last_data_line, line_text, read_all_frames, write_frame_jsonl, DataError,
    TailScan, TailStep, CHUNK,
};
use memvid_split::frame_jsonl::{unix_seconds, FrameJsonl, FrameStatus};
use serde_json::Value;

fn to_json(frame: &FrameJsonl) -> String {
    let mut object = serde_json::Map::new();
    object.insert("frame_id".to_string(), Value::from(frame.frame_id));
    if let Some(uri) = &frame.uri {
        object.insert("uri".to_string(), Value::from(uri.as_str()));
    }
    if let Some(title) = &frame.title {
        object.insert("title".to_string(), Value::from(title.as_str()));
    }
    object.insert("created_at".to_string(), Value::from(frame.created_at));
    let status = match frame.status {
        FrameStatus::Active => "active",
        FrameStatus::Tombstoned => "tombstoned",
    };
    object.insert("status".to_string(), Value::from(status));
    if let Some(id) = frame.supersedes {
        object.insert("supersedes".to_string(), Value::from(id));
    }
    if !frame.tags.is_empty() {
        let mut tags = serde_json::Map::new();
        for (key, value) in &frame.tags.entries {
            tags.insert(key.clone(), Value::from(value.as_str()));
        }
        object.insert("tags".to_string(), Value::Object(tags));
    }
    object.insert("content".to_string(), Value::from(frame.content.as_str()));
    serde_json::to_string(&Value::Object(object)).unwrap()
}

fn from_json(text: &str) -> FrameJsonl {
    let value: Value = serde_json::from_str(text).unwrap();
    let mut frame = FrameJsonl::new_at(
        value["frame_id"].as_u64().unwrap(),
        value["content"].as_str().unwrap(),
        value["created_at"].as_i64().unwrap(),
    );
    if let Some(uri) = value["uri"].as_str() {
        frame = frame.with_uri(uri);
    }
    if let Some(title) = value["title"].as_str() {
        frame = frame.with_title(title);
    }
    if let Some(tags) = value["tags"].as_object() {
        for (key, tag) in tags {
            frame = frame.with_tag(key, tag.as_str().unwrap());
        }
    }
    frame.supersedes = value["supersedes"].as_u64();
    frame.status = match value["status"].as_str().unwrap() {
        "active" => FrameStatus::Active,
        "tombstoned" => FrameStatus::Tombstoned,
        other => panic!("unknown status {other}"),
    };
    frame
}

fn append(data: &mut Vec<u8>, frame: &FrameJsonl) -> u64 {
    let offset = data.len() as u64;
    data.extend(write_frame_jsonl(&to_json(frame)));
    offset
}

fn read(data: &[u8]) -> Vec<(u64, FrameJsonl)> {
    read_all_frames(data)
        .unwrap()
        .iter()
        .map(|line| (line.offset, from_json(&line.text)))
        .collect()
}

fn last_id(data: &[u8]) -> Option<u64> {
    last_data_line(data).map(|line| from_json(&line_text(&line, 0).unwrap()).frame_id)
}

fn lines(data: &[u8]) -> Vec<(u64, String)> {
    read_all_frames(data).unwrap().into_iter().map(|line| (line.offset, line.text)).collect()
}

#[test]
fn roundtrip_single_frame() {
    let mut data = Vec::new();
    let frame = FrameJsonl::new(0, "Hello, Memvid!")
        .with_uri("mv2://test/001")
        .with_title("Test Frame")
        .with_tag("sector", "episodic");

    let offset = append(&mut data, &frame);
    assert_eq!(offset, 0);

    let frames = read(&data);
    assert_eq!(frames.len(), 1);
    assert_eq!(frames[0].1.frame_id, 0);
    assert_eq!(frames[0].1.content, "Hello, Memvid!");
    assert_eq!(frames[0].1.tags.get("sector").unwrap(), "episodic");
}

#[test]
fn append_multiple_frames() {
    let mut data = Vec::new();
    for i in 0..5 {
        let frame = FrameJsonl::new(i, &format!("Frame {i}"));
        append(&mut data, &frame);
    }

    let frames = read(&data);
    assert_eq!(frames.len(), 5);
    assert_eq!(frames[4].1.frame_id, 4);
    assert_eq!(frames[4].1.content, "Frame 4");
}

#[test]
fn last_frame_id_empty_file() {
    assert_eq!(last_id(b""), None);
}

#[test]
fn last_frame_id_with_frames() {
    let mut data = Vec::new();
    for i in 0..10 {
        let frame = FrameJsonl::new(i, &format!("Frame {i}"));
        append(&mut data, &frame);
    }

    assert_eq!(last_id(&data), Some(9));
}

#[test]
fn tombstone_frame() {
    let mut data = Vec::new();
    let frame = FrameJsonl::new(0, "Original content");
    append(&mut data, &frame);

    let tombstone = FrameJsonl::tombstone(1, 0);
    append(&mut data, &tombstone);

    let frames = read(&data);
    assert_eq!(frames.len(), 2);
    assert!(frames[0].1.is_active());
    assert!(!frames[1].1.is_active());
    assert_eq!(frames[1].1.supersedes, Some(0));
}

#[test]
fn cat_readable_output() {
    let mut data = Vec::new();
    let frame = FrameJsonl::new(0, "SurrealDB droppt Connections nach 32min Idle")
        .with_tag("agent", "anubis")
        .with_tag("sector", "episodic");
    append(&mut data, &frame);

    let content = String::from_utf8(data).unwrap();
    let lines: Vec<&str> = content.trim().split('\n').collect();
    assert_eq!(lines.len(), 1);
    assert!(lines[0].contains("SurrealDB"));
    assert!(lines[0].contains("anubis"));
}

#[test]
fn supersedes_frame() {
    let mut data = Vec::new();
    let v1 = FrameJsonl::new(0, "Original system prompt");
    append(&mut data, &v1);

    let v2 = FrameJsonl::new(1, "Updated system prompt").with_supersedes(0);
    append(&mut data, &v2);

    let frames = read(&data);
    assert_eq!(frames[1].1.supersedes, Some(0));
}

#[test]
fn written_line_is_text_and_line_feed() {
    assert_eq!(write_frame_jsonl("{\"a\":\"ü\"}"), "{\"a\":\"ü\"}\n".as_bytes());
}

#[test]
fn lines_have_byte_offsets() {
    let data = "a\n\nbü\r\n\r\nc".as_bytes();
    assert_eq!(
        lines(data),
        vec![(0, "a".to_string()), (3, "bü".to_string()), (10, "c".to_string())],
    );
    assert_eq!(lines(b""), vec![]);
    assert_eq!(lines(b"\n\n\n"), vec![]);
}

#[test]
fn carriage_return_counts_only_before_line_feed() {
    assert_eq!(lines(b"a\rb\r\r\nc\r"), vec![(0, "a\rb\r".to_string()), (6, "c\r".to_string())]);
}

#[test]
fn line_that_is_not_utf8_is_an_error() {
    let error = read_all_frames(b"ok\n\xff\nok\n\xfe\n").unwrap_err();
    assert_eq!(error, DataError::NotUtf8 { offset: 3 });
    assert_eq!(line_text(b"\xc3", 7).unwrap_err(), DataError::NotUtf8 { offset: 7 });
    assert_eq!(line_text("é".as_bytes(), 7).unwrap(), "é");
}

#[test]
fn frame_at_an_offset() {
    let data = b"first\n \t{second}\x0b \r\nthird";
    assert_eq!(frame_line(&data[0..], 0).unwrap(), Some("first".to_string()));
    assert_eq!(frame_line(&data[6..], 6).unwrap(), Some("{second}".to_string()));
    assert_eq!(frame_line(&data[data.len() - 5..], 21).unwrap(), Some("third".to_string()));
    assert_eq!(frame_line(&data[data.len()..], 26).unwrap(), None);
    assert_eq!(frame_line(b"\n", 0).unwrap(), Some(String::new()));
    assert_eq!(frame_line(b"\xff\n", 4).unwrap_err(), DataError::NotUtf8 { offset: 4 });
    let wide = "\u{2003}\u{a0}x\u{3000}y\u{85}\u{2029}\n";
    assert_eq!(frame_line(wide.as_bytes(), 0).unwrap(), Some("x\u{3000}y".to_string()));
    let kept = "\u{200b}x\u{feff}\n";
    assert_eq!(frame_line(kept.as_bytes(), 0).unwrap(), Some("\u{200b}x\u{feff}".to_string()));
}

#[test]
fn appended_frame_is_read_last_and_found() {
    let mut data = Vec::new();
    append(&mut data, &FrameJsonl::new_at(0, "line\nfeed", 5));
    let offset = append(&mut data, &FrameJsonl::new_at(1, "näxt", 6)) as usize;
    let frames = read(&data);
    assert_eq!(frames.len(), 2);
    assert_eq!(frames[1].0, offset as u64);
    assert_eq!(frames[0].1.content, "line\nfeed");
    assert_eq!(last_id(&data), Some(1));
    append(&mut data, &FrameJsonl::new_at(2, "more", 7));
    let text = frame_line(&data[offset..], offset as u64).unwrap().unwrap();
    assert_eq!(from_json(&text).content, "näxt");
}

#[test]
fn last_line_without_line_ends() {
    assert_eq!(last_data_line(b"a\nbc\r\n\n\r").unwrap(), b"bc");
    assert_eq!(last_data_line(b"abc").unwrap(), b"abc");
    assert_eq!(last_data_line(b"\nabc").unwrap(), b"abc");
    assert_eq!(last_data_line(b"\r\n\n"), None);
}

#[test]
fn last_line_longer_than_a_chunk() {
    let long = "x".repeat(3 * CHUNK as usize + 17);
    let data = format!("first\n{long}\n");
    assert_eq!(last_data_line(data.as_bytes()).unwrap(), long.as_bytes());
    assert_eq!(last_data_line(long.as_bytes()).unwrap(), long.as_bytes());
    let feeds = "\n".repeat(2 * CHUNK as usize);
    assert_eq!(last_data_line(feeds.as_bytes()), None);
    assert_eq!(last_data_line(format!("a\nb{feeds}").as_bytes()).unwrap(), b"b");
}

#[test]
fn tail_scan_reads_backwards() {
    let mut scan = TailScan::new(CHUNK + 10);
    assert_eq!(scan.next_read(), Some((10, CHUNK)));
    let step = scan.feed(vec![b'x'; CHUNK as usize]);
    assert!(matches!(step, TailStep::ReadMore));
    assert_eq!(scan.next_read(), Some((0, 10)));
    let step = scan.feed(b"ab\ncdefghi".to_vec());
    match step {
        TailStep::Line(line) => {
            assert_eq!(line.len(), CHUNK as usize + 7);
            assert!(line.starts_with(b"cdefghix"));
        }
        other => panic!("{other:?}"),
    }
    assert_eq!(scan.next_read(), None);
    assert_eq!(TailScan::new(0).next_read(), None);
}

#[test]
fn tail_scan_of_line_ends() {
    let mut scan = TailScan::new(4);
    assert!(matches!(scan.feed(b"\r\n".to_vec()), TailStep::ReadMore));
    assert!(matches!(scan.feed(b"\n\n".to_vec()), TailStep::NoLine));
}

#[test]
fn frame_builders() {
    let frame = FrameJsonl::new_at(7, "content", -3)
        .with_uri("u")
        .with_title("t")
        .with_tag("k", "1")
        .with_tag("l", "2")
        .with_tag("k", "3")
        .with_supersedes(4);
    assert_eq!(frame.frame_id, 7);
    assert_eq!(frame.uri.as_deref(), Some("u"));
    assert_eq!(frame.title.as_deref(), Some("t"));
    assert_eq!(frame.created_at, -3);
    assert_eq!(frame.status, FrameStatus::Active);
    assert_eq!(frame.supersedes, Some(4));
    assert_eq!(frame.tags.get("k").unwrap(), "3");
    assert_eq!(frame.tags.get("l").unwrap(), "2");
    assert_eq!(frame.tags.get("m"), None);
    assert_eq!(frame.content, "content");
    let copy = frame.clone();
    assert_eq!(to_json(&copy), to_json(&frame));
    let tombstone = FrameJsonl::tombstone_at(8, 7, 12);
    assert_eq!(tombstone.created_at, 12);
    assert_eq!(tombstone.content, "");
    assert_eq!(tombstone.status, FrameStatus::Tombstoned);
}

#[test]
fn frames_are_dated_now() {
    let now = std::time::SystemTime::now()
        .duration_since(std::time::UNIX_EPOCH)
        .unwrap()
        .as_secs() as i64;
    let frame = FrameJsonl::new(0, "x");
    assert!((frame.created_at - now).abs() <= 5);
    assert!((FrameJsonl::tombstone(1, 0).created_at - now).abs() <= 5);
}

#[test]
fn clock_readings() {
    assert_eq!(unix_seconds(None), 0);
    assert_eq!(unix_seconds(Some(1_744_544_400)), 1_744_544_400);
    assert_eq!(unix_seconds(Some(u64::MAX)), -1);
}
