use memvid_split::data_file::{
    frame_line, last_data_line, line_text, read_all_frames, write_frame_jsonl,
};
use memvid_split::frame_jsonl::{FrameJsonl, FrameStatus};
use memvid_split::split_memvid::{CompactResult, SplitMemvid};
use serde_json::Value;

fn to_json(frame: &FrameJsonl) -> String {
    let mut object = serde_json::Map::new();
    object.insert("frame_id".to_string(), Value::from(frame.frame_id));
    if let Some(uri) = &frame.uri {
        object.insert("uri".to_string(), Value::from(uri.as_str()));
    }
    if let Some(title) = &frame.title {
        object.insert("title".to_string(), Value::from(title.as_str()));
    }
    object.insert("created_at".to_string(), Value::from(frame.created_at));
    let status = match frame.status {
        FrameStatus::Active => "active",
        FrameStatus::Tombstoned => "tombstoned",
    };
    object.insert("status".to_string(), Value::from(status));
    if let Some(id) = frame.supersedes {
        object.insert("supersedes".to_string(), Value::from(id));
    }
    if !frame.tags.is_empty() {
        let mut tags = serde_json::Map::new();
        for (key, value) in &frame.tags.entries {
            tags.insert(key.clone(), Value::from(value.as_str()));
        }
        object.insert("tags".to_string(), Value::Object(tags));
    }
    object.insert("content".to_string(), Value::from(frame.content.as_str()));
    serde_json::to_string(&Value::Object(object)).unwrap()
}

fn from_json(text: &str) -> FrameJsonl {
    let value: Value = serde_json::from_str(text).unwrap();
    let mut frame = FrameJsonl::new_at(
        value["frame_id"].as_u64().unwrap(),
        value["content"].as_str().unwrap(),
        value["created_at"].as_i64().unwrap(),
    );
    if let Some(uri) = value["uri"].as_str() {
        frame = frame.with_uri(uri);
    }
    if let Some(title) = value["title"].as_str() {
        frame = frame.with_title(title);
    }
    if let Some(tags) = value["tags"].as_object() {
        for (key, tag) in tags {
            frame = frame.with_tag(key, tag.as_str().unwrap());
        }
    }
    frame.supersedes = value["supersedes"].as_u64();
    frame.status = match value["status"].as_str().unwrap() {
        "active" => FrameStatus::Active,
        "tombstoned" => FrameStatus::Tombstoned,
        other => panic!("unknown status {other}"),
    };
    frame
}

/// The two files of a store.
#[derive(Default)]
struct Files {
    data: Vec<u8>,
    index: Option<Vec<u8>>,
}

impl Files {
    fn frames(&self) -> Vec<(u64, FrameJsonl)> {
        read_all_frames(&self.data)
            .unwrap()
            .iter()
            .map(|line| (line.offset, from_json(&line.text)))
            .collect()
    }

    fn last_id(&self) -> Option<u64> {
        last_data_line(&self.data).map(|line| from_json(&line_text(&line, 0).unwrap()).frame_id)
    }
}

/// A store whose files are in memory.
struct Store {
    files: Files,
    state: SplitMemvid<Vec<u8>>,
}

impl Store {
    fn open(files: Files) -> Store {
        let (state, flush) =
            SplitMemvid::open(files.last_id(), files.index.as_deref(), &files.frames());
        let mut store = Store { files, state };
        if flush {
            store.flush_index();
        }
        store
    }

    fn append(&mut self, frame: FrameJsonl) -> u64 {
        let offset = self.files.data.len() as u64;
        self.files.data.extend(write_frame_jsonl(&to_json(&frame)));
        self.state.appended(&frame, offset)
    }

    fn put(&mut self, content: &str) -> u64 {
        let frame = self.state.put(content);
        self.append(frame)
    }

    fn put_frame(&mut self, frame: FrameJsonl) -> u64 {
        let frame = self.state.put_frame(frame);
        self.append(frame)
    }

    fn delete(&mut self, id: u64) -> u64 {
        let frame = self.state.delete(id);
        self.append(frame)
    }

    fn update(&mut self, id: u64, content: &str) -> u64 {
        let frame = self.state.update(id, content);
        self.append(frame)
    }

    fn get(&self, id: u64) -> Option<FrameJsonl> {
        let offset = self.state.get(id)?;
        let text = frame_line(&self.files.data[offset as usize..], offset).unwrap()?;
        Some(from_json(&text))
    }

    fn active_frames(&self) -> Vec<FrameJsonl> {
        self.state.active_frames(&self.files.frames())
    }

    fn latest_active(&self) -> Option<FrameJsonl> {
        self.state.latest_active(&self.files.frames())
    }

    fn flush_index(&mut self) {
        let saved = self.state.index.unsaved_mesh().filter(|mesh| !mesh.is_empty()).cloned();
        self.files.index = Some(self.state.flush_index(saved).unwrap());
    }

    fn rebuild_index(&mut self) {
        self.state.rebuild_index(&self.files.frames());
        self.flush_index();
    }

    fn compact(&mut self) -> CompactResult {
        let (frames, result) = self.state.compact(&self.files.frames());
        self.files.data.clear();
        for frame in &frames {
            self.files.data.extend(write_frame_jsonl(&to_json(frame)));
        }
        self.state.compacted(result.active_frames, &self.files.frames());
        self.flush_index();
        result
    }

    fn tombstone_ratio(&self) -> f64 {
        let (part, whole) = self.state.tombstone_ratio();
        part as f64 / whole as f64
    }
}

fn ids(frames: &[FrameJsonl]) -> Vec<u64> {
    frames.iter().map(|f| f.frame_id).collect()
}

#[test]
fn create_and_put() {
    let mut store = Store::open(Files::default());
    let id = store.put("Hello, world!");
    assert_eq!(id, 0);

    let id2 = store.put("Second frame");
    assert_eq!(id2, 1);

    assert_eq!(store.state.frame_count(), 2);
    assert_eq!(store.state.active_frame_count(), 2);
}

#[test]
fn put_and_get() {
    let mut store = Store::open(Files::default());
    store.put("Frame zero");
    store.put("Frame one");
    store.flush_index();

    let frame = store.get(0).unwrap();
    assert_eq!(frame.content, "Frame zero");

    let frame = store.get(1).unwrap();
    assert_eq!(frame.content, "Frame one");

    assert!(store.get(99).is_none());
}

#[test]
fn delete_creates_tombstone() {
    let mut store = Store::open(Files::default());
    store.put("To be deleted");
    store.delete(0);

    assert_eq!(store.state.frame_count(), 2); // original + tombstone
    assert_eq!(store.state.active_frame_count(), 1); // only tombstone is "active" by frame status
    assert!(store.state.inactive_frames.contains(&0));
}

#[test]
fn update_supersedes() {
    let mut store = Store::open(Files::default());
    store.put("Version 1");
    store.update(0, "Version 2");

    assert!(store.state.inactive_frames.contains(&0));
    let active = store.active_frames();
    assert_eq!(active.len(), 1);
    assert_eq!(active[0].content, "Version 2");
    assert_eq!(active[0].supersedes, Some(0));
}

#[test]
fn reopen_with_reconciliation() {
    // Write some frames
    let mut store = Store::open(Files::default());
    store.put("Frame A");
    store.put("Frame B");
    store.flush_index();

    // Reopen: should reconcile
    let store = Store::open(store.files);
    assert_eq!(store.state.frame_count(), 2);
    let frame = store.get(1).unwrap();
    assert_eq!(frame.content, "Frame B");
}

#[test]
fn reopen_without_mv2x_rebuilds() {
    // Write frames and flush index
    let mut store = Store::open(Files::default());
    store.put("Persistent");
    store.flush_index();

    // Delete .mv2x
    let mut files = store.files;
    files.index = None;

    // Reopen: should rebuild index from .mv2d
    let store = Store::open(files);
    assert_eq!(store.state.frame_count(), 1);
    let frame = store.get(0).unwrap();
    assert_eq!(frame.content, "Persistent");
}

#[test]
fn compact_removes_inactive() {
    let mut store = Store::open(Files::default());
    store.put("Keep this");
    store.put("Delete this");
    store.put("Keep this too");
    store.delete(1);

    let result = store.compact();
    assert_eq!(result.original_frames, 4); // 3 frames + 1 tombstone
    assert_eq!(result.active_frames, 2);
    assert_eq!(result.removed_frames, 2);

    // Verify compacted state
    let active = store.active_frames();
    assert_eq!(active.len(), 2);
    assert_eq!(active[0].content, "Keep this");
    assert_eq!(active[1].content, "Keep this too");
}

#[test]
fn tombstone_ratio() {
    let mut store = Store::open(Files::default());
    assert_eq!(store.tombstone_ratio(), 0.0);

    store.put("A");
    store.put("B");
    store.put("C");
    store.delete(0);
    store.delete(1);

    // 5 frames total, 2 inactive (0 and 1)
    assert!((store.tombstone_ratio() - 0.4).abs() < 0.01);
}

#[test]
fn latest_active_returns_last() {
    let mut store = Store::open(Files::default());
    store.put("First");
    store.put("Second");
    store.put("Third");

    let latest = store.latest_active().unwrap();
    assert_eq!(latest.content, "Third");
}

#[test]
fn put_frame_with_tags() {
    let mut store = Store::open(Files::default());
    let frame = FrameJsonl::new(0, "Tagged content")
        .with_uri("mv2://memory/episodic/001")
        .with_title("Test")
        .with_tag("agent", "anubis")
        .with_tag("sector", "episodic");
    store.put_frame(frame);

    let loaded = store.get(0).unwrap();
    assert_eq!(loaded.tags.get("agent").unwrap(), "anubis");
    assert_eq!(loaded.uri.as_deref(), Some("mv2://memory/episodic/001"));
}

#[test]
fn opening_writes_a_missing_index() {
    let store = Store::open(Files::default());
    assert!(store.files.index.is_some());
    assert_eq!(store.state.frame_count(), 0);
    let (_, flush): (SplitMemvid<()>, bool) =
        SplitMemvid::open(None, store.files.index.as_deref(), &[]);
    assert!(!flush);
}

#[test]
fn unflushed_frames_are_caught_up() {
    let mut store = Store::open(Files::default());
    store.put("A");
    store.flush_index();
    store.put("B");
    store.update(0, "C");
    let offsets = store.state.index.offsets.clone();
    let times = store.state.index.time_entries.clone();
    let stale = store.files.index.clone();
    let store = Store::open(store.files);
    assert_ne!(store.files.index, stale);
    assert_eq!(store.state.index.offsets, offsets);
    assert_eq!(store.state.index.time_entries, times);
    assert_eq!(store.state.index.header.last_indexed_frame_id, Some(2));
    assert_eq!(store.state.index.header.frame_count, 3);
    assert_eq!(store.state.index.header.generation, 1);
    assert_eq!(store.state.frame_count(), 3);
    assert!(store.state.inactive_frames.contains(&0));
    assert_eq!(store.get(2).unwrap().content, "C");
}

#[test]
fn corrupt_index_is_rebuilt() {
    let mut store = Store::open(Files::default());
    store.put("A");
    store.put("B");
    let mut files = store.files;
    files.index = Some(b"nonsense".to_vec());
    let store = Store::open(files);
    assert_eq!(store.state.frame_count(), 2);
    assert_eq!(store.get(1).unwrap().content, "B");
    assert_eq!(store.files.index, Some(b"nonsense".to_vec()));
}

#[test]
fn reconciling_fills_gaps() {
    let mut store = Store::open(Files::default());
    store.put("A");
    store.put("B");
    store.put("C");
    store.state.index.offsets.remove(1);
    assert!(store.get(1).is_none());
    let frames = store.files.frames();
    store.state.reconcile(&frames);
    assert_eq!(store.get(1).unwrap().content, "B");
    let indexed: Vec<u64> = store.state.index.offsets.iter().map(|o| o.frame_id).collect();
    assert_eq!(indexed, vec![0, 1, 2]);
    assert_eq!(store.state.index.header.last_indexed_frame_id, Some(2));
    assert_eq!(store.state.index.header.frame_count, 3);
    assert!(!store.state.index.needs_reconciliation(store.files.last_id()));
}

#[test]
fn index_ahead_of_its_file_is_brought_in_step() {
    let mut store = Store::open(Files::default());
    for content in ["A", "B", "C", "D"] {
        store.put(content);
    }
    store.delete(0);
    store.state.index.header.embedding_model = Some("model".to_string());
    store.flush_index();
    let mut files = store.files;
    let cut = files.frames()[2].0 as usize;
    files.data.truncate(cut);
    let mut store = Store::open(files);
    assert_eq!(store.state.frame_count(), 2);
    let mut found = store.state.frames_in_range(i64::MIN, i64::MAX);
    found.sort();
    assert_eq!(found, vec![0, 1]);
    assert!(store.get(2).is_none());
    assert!(store.get(4).is_none());
    assert!(store.state.inactive_frames.is_empty());
    assert!(!store.state.index.needs_reconciliation(Some(1)));
    assert_eq!(store.state.index.header.frame_count, 2);
    assert_eq!(store.state.index.header.embedding_model.as_deref(), Some("model"));
    assert_eq!(store.put("a much longer frame than the one before"), 2);
    assert_eq!(store.get(2).unwrap().content, "a much longer frame than the one before");
    let store = Store::open(store.files);
    assert_eq!(store.get(1).unwrap().content, "B");
    assert_eq!(store.get(2).unwrap().content, "a much longer frame than the one before");
}

#[test]
fn index_of_an_emptied_file_is_emptied() {
    let mut store = Store::open(Files::default());
    store.put("A");
    store.flush_index();
    let mut files = store.files;
    files.data.clear();
    let mut store = Store::open(files);
    assert_eq!(store.state.frame_count(), 0);
    assert!(store.get(0).is_none());
    assert_eq!(store.put("B"), 0);
    assert_eq!(store.get(0).unwrap().content, "B");
}

#[test]
fn got_frame_stays() {
    let mut store = Store::open(Files::default());
    store.put("A");
    let before = to_json(&store.get(0).unwrap());
    store.update(0, "B");
    store.delete(0);
    store.flush_index();
    store.rebuild_index();
    store.put("C");
    let frames = store.files.frames();
    store.state.reconcile(&frames);
    assert_eq!(to_json(&store.get(0).unwrap()), before);
    for id in [store.state.frame_count(), 100, u64::MAX] {
        assert!(store.get(id).is_none());
    }
}

#[test]
fn rebuilding_gives_the_kept_index() {
    let mut store = Store::open(Files::default());
    store.put("A");
    store.update(0, "B");
    store.delete(7);
    let offsets = store.state.index.offsets.clone();
    let times = store.state.index.time_entries.clone();
    let inactive = store.state.inactive_frames.clone();
    store.rebuild_index();
    assert_eq!(store.state.index.offsets, offsets);
    assert_eq!(store.state.index.time_entries, times);
    assert_eq!(store.state.inactive_frames, inactive);
    assert_eq!(store.state.index.header.generation, 1);
    store.rebuild_index();
    assert_eq!(store.state.index.header.generation, 2);
}

#[test]
fn generation_stops_at_the_last() {
    let mut store = Store::open(Files::default());
    store.state.index.header.generation = u64::MAX;
    store.rebuild_index();
    assert_eq!(store.state.index.header.generation, u64::MAX);
}

#[test]
fn deleting_leaves_the_others() {
    let mut store = Store::open(Files::default());
    for content in ["A", "B", "C"] {
        store.put(content);
    }
    assert_eq!(store.delete(1), 3);
    assert_eq!(ids(&store.active_frames()), vec![0, 2]);
    assert_eq!(store.latest_active().unwrap().content, "C");
    assert_eq!(store.get(1).unwrap().content, "B");
    assert!(!store.get(3).unwrap().is_active());
    assert_eq!(store.update(2, "D"), 4);
    assert_eq!(ids(&store.active_frames()), vec![0, 4]);
    store.delete(0);
    store.delete(4);
    assert!(store.latest_active().is_none());
}

#[test]
fn inactive_frames_are_not_in_range() {
    let mut store = Store::open(Files::default());
    for (i, time) in [10, 30, 20].into_iter().enumerate() {
        store.put_frame(FrameJsonl::new_at(i as u64, "x", time));
    }
    assert_eq!(store.state.frames_in_range(10, 30), vec![0, 2, 1]);
    store.delete(2);
    assert_eq!(store.state.frames_in_range(10, 30), vec![0, 1]);
    assert!(store.state.frames_in_range(11, 29).is_empty());
}

#[test]
fn put_frame_sets_the_id() {
    let mut store = Store::open(Files::default());
    store.put("A");
    let id = store.put_frame(FrameJsonl::new_at(77, "B", 3).with_supersedes(0));
    assert_eq!(id, 1);
    let frame = store.get(1).unwrap();
    assert_eq!(frame.frame_id, 1);
    assert_eq!(frame.created_at, 3);
    assert!(store.state.inactive_frames.contains(&0));
    assert_eq!(store.state.active_frame_count(), 1);
    assert_eq!(store.state.tombstone_ratio(), (1, 2));
}

#[test]
fn compacting_renumbers_and_keeps_the_rest() {
    let mut store = Store::open(Files::default());
    store.put_frame(FrameJsonl::new_at(0, "A", 5).with_uri("u").with_tag("k", "v"));
    store.update(0, "B");
    store.put_frame(FrameJsonl::new_at(0, "C", 6).with_title("t").with_tag("k", "v"));
    let result = store.compact();
    assert_eq!(result, CompactResult { original_frames: 3, active_frames: 2, removed_frames: 1 });
    let active = store.active_frames();
    assert_eq!(ids(&active), vec![0, 1]);
    assert_eq!(active[0].content, "B");
    assert_eq!(active[0].supersedes, None);
    assert_eq!(active[1].title.as_deref(), Some("t"));
    assert_eq!(active[1].created_at, 6);
    assert_eq!(active[1].tags.get("k").unwrap(), "v");
    assert_eq!(store.state.frame_count(), 2);
    assert!(store.state.inactive_frames.is_empty());
    assert_eq!(store.get(1).unwrap().content, "C");
    assert_eq!(store.put("D"), 2);
    let again = store.compact();
    assert_eq!(again, CompactResult { original_frames: 3, active_frames: 3, removed_frames: 0 });
}

#[test]
fn search_covers_active_frames_only() {
    let mut store = Store::open(Files::default());
    store.put("needle one");
    store.put("needle two");
    store.delete(0);
    let frames = store.files.frames();
    store.state.rebuild_lex_index(&frames).unwrap();
    let hits = store.state.lex_search("needle", 10);
    assert_eq!(hits.len(), 1);
    assert_eq!(hits[0].frame_id, 1);
    assert_eq!(store.state.index.header.generation, 1);
    store.flush_index();
    let mut store = Store::open(store.files);
    assert_eq!(store.state.lex_search("needle", 10)[0].frame_id, 1);
    store.rebuild_index();
    assert!(store.state.lex_search("needle", 10).is_empty());
}

#[test]
fn mesh_is_kept_with_the_store() {
    let mut store = Store::open(Files::default());
    store.state.set_logic_mesh(vec![4]);
    store.flush_index();
    let mut store = Store::open(store.files);
    let decoded = store.state.index.undecoded_mesh().cloned();
    store.state.logic_mesh_mut(decoded).unwrap().push(5);
    assert_eq!(store.state.logic_mesh(None), Some(&vec![4, 5]));
    store.flush_index();
    let mut store = Store::open(store.files);
    let decoded = store.state.index.undecoded_mesh().cloned();
    assert_eq!(store.state.logic_mesh(decoded), Some(&vec![4, 5]));
}
