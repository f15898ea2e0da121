use memvid_split::frame_jsonl::FrameJsonl;
use memvid_split::lex::{LexError, LexIndex, LexIndexArtifact};
use memvid_split::mv2x::{FrameOffset, Mv2xIndex, TimeEntry};
use memvid_split::mv2x_file::{Mv2xError, MV2X_VERSION};

type Index = Mv2xIndex<Vec<u8>>;

fn write(index: &mut Index) -> Vec<u8> {
    let saved = index.unsaved_mesh().filter(|mesh| !mesh.is_empty()).cloned();
    index.write_to(saved).unwrap()
}

fn mesh_of(index: &mut Index) -> Option<Vec<u8>> {
    let decoded = index.undecoded_mesh().cloned();
    index.logic_mesh(decoded).cloned()
}

#[test]
fn roundtrip_empty_index() {
    let mut index = Index::new();
    let file = write(&mut index);

    let loaded = Index::read_from(&file).unwrap();
    assert_eq!(loaded.header.frame_count, 0);
    assert!(loaded.offsets.is_empty());
    assert!(loaded.time_entries.is_empty());
    assert!(loaded.lex_bytes.is_none());
    assert!(loaded.vec_bytes.is_none());
    assert!(loaded.mesh_bytes.is_none());
}

#[test]
fn roundtrip_with_frames_and_header() {
    let mut index = Index::new();
    index.header.embedding_model = Some("qwen3-embedding-8b".to_string());
    index.header.embedding_dim = Some(4096);
    index.add_frame(0, 0, 1_744_544_400);
    index.add_frame(1, 256, 1_744_545_000);
    index.add_frame(2, 512, 1_744_545_600);

    let file = write(&mut index);

    let loaded = Index::read_from(&file).unwrap();
    assert_eq!(loaded.header.frame_count, 3);
    assert_eq!(loaded.header.embedding_model.as_deref(), Some("qwen3-embedding-8b"));
    assert_eq!(loaded.header.embedding_dim, Some(4096));
    assert_eq!(loaded.header.last_indexed_frame_id, Some(2));
    assert_eq!(loaded.offset_for(1), Some(256));
}

#[test]
fn time_range_query() {
    let mut index = Index::new();
    index.add_frame(0, 0, 100);
    index.add_frame(1, 50, 200);
    index.add_frame(2, 100, 300);
    index.add_frame(3, 150, 400);

    let in_range = index.frames_in_range(150, 350);
    assert_eq!(in_range, vec![1, 2]);
}

#[test]
fn reconciliation_check() {
    let mut index = Index::new();
    assert!(!index.needs_reconciliation(None));

    index.add_frame(0, 0, 100);
    assert!(index.needs_reconciliation(None));
    assert!(!index.needs_reconciliation(Some(0)));
    assert!(index.needs_reconciliation(Some(5)));
}

#[test]
fn lex_build_and_search() {
    let frames = vec![
        FrameJsonl::new(0, "SurrealDB drops connections after 32 minutes idle"),
        FrameJsonl::new(1, "PQC ML-DSA-87 keys rotated successfully"),
        FrameJsonl::new(2, "WebSocket connection timeout debugging notes"),
    ];

    let mut index = Index::new();
    for (i, f) in frames.iter().enumerate() {
        index.add_frame(f.frame_id, i as u64 * 100, f.created_at);
    }
    index.build_lex(&frames).unwrap();

    let hits = index.lex_search("connection timeout", 10);
    assert!(!hits.is_empty());
    // Frame 2 should score highest (has both "connection" and "timeout")
    assert_eq!(hits[0].frame_id, 2);
}

#[test]
fn lex_roundtrip_through_file() {
    let frames = vec![
        FrameJsonl::new(0, "Filesystem based persistence"),
        FrameJsonl::new(1, "CORAL directory structure with symlinks"),
    ];

    let mut index = Index::new();
    for (i, f) in frames.iter().enumerate() {
        index.add_frame(f.frame_id, i as u64 * 100, f.created_at);
    }
    index.build_lex(&frames).unwrap();
    let file = write(&mut index);

    let mut loaded = Index::read_from(&file).unwrap();
    let hits = loaded.lex_search("symlinks", 5);
    assert_eq!(hits.len(), 1);
    assert_eq!(hits[0].frame_id, 1);
}

#[test]
fn index_file_layout() {
    let mut index = Index::new();
    index.header.embedding_model = Some("é".to_string());
    index.header.embedding_dim = Some(3);
    index.header.generation = 0x0102;
    index.add_frame(5, 9, -1);
    index.set_lex(LexIndexArtifact { bytes: vec![7, 8] });
    index.set_vec_bytes(vec![6]);
    let file = write(&mut index);
    let mut expected: Vec<u8> = b"MV2X".to_vec();
    expected.extend([2, 0]);
    // Header: 11 + 5 + 8 + 9 + 8 bytes.
    expected.extend([41, 0, 0, 0]);
    expected.extend([1, 2, 0, 0, 0, 0, 0, 0, 0, 0xc3, 0xa9]);
    expected.extend([1, 3, 0, 0, 0]);
    expected.extend([1, 0, 0, 0, 0, 0, 0, 0]);
    expected.extend([1, 5, 0, 0, 0, 0, 0, 0, 0]);
    expected.extend([2, 1, 0, 0, 0, 0, 0, 0]);
    // Offsets.
    expected.extend([24, 0, 0, 0]);
    expected.extend([1, 0, 0, 0, 0, 0, 0, 0]);
    expected.extend([5, 0, 0, 0, 0, 0, 0, 0, 9, 0, 0, 0, 0, 0, 0, 0]);
    // Time entries.
    expected.extend([24, 0, 0, 0]);
    expected.extend([1, 0, 0, 0, 0, 0, 0, 0]);
    expected.extend([5, 0, 0, 0, 0, 0, 0, 0]);
    expected.extend([0xff; 8]);
    // Full-text index, vector index, knowledge graph.
    expected.extend([2, 0, 0, 0, 7, 8]);
    expected.extend([1, 0, 0, 0, 6]);
    expected.extend([0, 0, 0, 0]);
    assert_eq!(file, expected);

    let loaded = Index::read_from(&file).unwrap();
    assert_eq!(loaded.header.embedding_model.as_deref(), Some("é"));
    assert_eq!(loaded.header.generation, 0x0102);
    assert_eq!(loaded.offsets, vec![FrameOffset { frame_id: 5, byte_offset: 9 }]);
    assert_eq!(loaded.time_entries, vec![TimeEntry { frame_id: 5, timestamp: -1 }]);
    assert_eq!(loaded.lex_bytes, Some(vec![7, 8]));
    assert_eq!(loaded.vec_bytes, Some(vec![6]));
    assert_eq!(loaded.mesh_bytes, None);
}

#[test]
fn trailing_bytes_are_ignored() {
    let mut index = Index::new();
    index.add_frame(1, 2, i64::MIN);
    let mut file = write(&mut index);
    file.extend([1, 2, 3]);
    let loaded = Index::read_from(&file).unwrap();
    assert_eq!(loaded.time_entries, vec![TimeEntry { frame_id: 1, timestamp: i64::MIN }]);
}

#[test]
fn earlier_versions_are_read() {
    let mut file = write(&mut Index::new());
    file[4] = 0;
    assert!(Index::read_from(&file).is_ok());
    file[4] = 1;
    assert!(Index::read_from(&file).is_ok());
}

#[test]
fn later_versions_are_refused() {
    assert_eq!(MV2X_VERSION, 2);
    let mut file = write(&mut Index::new());
    file[4] = 3;
    assert_eq!(Index::read_from(&file).unwrap_err(), Mv2xError::UnsupportedVersion { version: 3 });
    file[5] = 1;
    assert_eq!(
        Index::read_from(&file).unwrap_err(),
        Mv2xError::UnsupportedVersion { version: 0x0103 },
    );
}

#[test]
fn magic_is_checked() {
    let mut file = write(&mut Index::new());
    file[3] = b'Y';
    assert_eq!(Index::read_from(&file).unwrap_err(), Mv2xError::InvalidMagic);
    assert_eq!(Index::read_from(b"MV2Y").unwrap_err(), Mv2xError::InvalidMagic);
}

#[test]
fn every_cut_is_noticed() {
    let mut index = Index::new();
    index.add_frame(0, 0, 1);
    index.set_lex(LexIndexArtifact { bytes: vec![1] });
    let file = write(&mut index);
    for n in 0..file.len() {
        assert_eq!(Index::read_from(&file[..n]).unwrap_err(), Mv2xError::UnexpectedEnd);
    }
    assert!(Index::read_from(&file).is_ok());
}

#[test]
fn section_that_does_not_decode() {
    let mut file = write(&mut Index::new());
    // The flag before the embedding model.
    assert_eq!(file[10], 0);
    file[10] = 2;
    assert_eq!(Index::read_from(&file).unwrap_err(), Mv2xError::Malformed);
    // A number of offsets that the section does not hold.
    let mut file = write(&mut Index::new());
    let at = 10 + file[6] as usize + 4;
    assert_eq!(file[at], 0);
    file[at] = 1;
    assert_eq!(Index::read_from(&file).unwrap_err(), Mv2xError::Malformed);
    file[at + 7] = 0xff;
    assert_eq!(Index::read_from(&file).unwrap_err(), Mv2xError::Malformed);
}

#[test]
fn empty_blob_is_read_as_missing() {
    let mut index = Index::new();
    let none = write(&mut index);
    index.set_vec_bytes(vec![]);
    index.set_lex(LexIndexArtifact { bytes: vec![] });
    let file = write(&mut index);
    assert_eq!(file, none);
    let mut loaded = Index::read_from(&file).unwrap();
    assert_eq!(loaded.vec_bytes, None);
    assert_eq!(loaded.lex_bytes, None);
    assert_eq!(loaded.lex_search("x", 5), index.lex_search("x", 5));
}

#[test]
fn time_entries_are_chronological() {
    let mut index = Index::new();
    index.add_frame(0, 0, 30);
    index.add_frame(1, 5, 10);
    index.add_frame(2, 9, 30);
    index.add_frame(3, 12, 20);
    let order: Vec<u64> = index.time_entries.iter().map(|e| e.frame_id).collect();
    assert_eq!(order, vec![1, 3, 0, 2]);
    assert_eq!(index.frames_in_range(20, 30), vec![3, 0, 2]);
    assert_eq!(index.frames_in_range(31, 40), vec![]);
    assert_eq!(index.frames_in_range(30, 20), vec![]);
    let stored: Vec<u64> = index.offsets.iter().map(|o| o.frame_id).collect();
    assert_eq!(stored, vec![0, 1, 2, 3]);
    assert_eq!(index.header.frame_count, 4);
    assert_eq!(index.header.last_indexed_frame_id, Some(3));
}

#[test]
fn first_offset_counts() {
    let mut index = Index::new();
    index.add_frame(3, 10, 0);
    index.add_frame(3, 20, 0);
    assert_eq!(index.offset_for(3), Some(10));
    assert_eq!(index.offset_for(4), None);
}

#[test]
fn mesh_is_saved_and_loaded() {
    let mut index = Index::new();
    assert_eq!(mesh_of(&mut index), None);
    index.set_logic_mesh(vec![1, 2]);
    assert_eq!(mesh_of(&mut index), Some(vec![1, 2]));
    assert_eq!(index.unsaved_mesh(), Some(&vec![1, 2]));
    let file = write(&mut index);
    assert_eq!(index.mesh_bytes, Some(vec![1, 2]));
    assert_eq!(index.unsaved_mesh(), None);

    let mut loaded = Index::read_from(&file).unwrap();
    assert_eq!(loaded.undecoded_mesh(), Some(&vec![1, 2]));
    assert_eq!(loaded.logic_mesh(None), None);
    let decoded = loaded.undecoded_mesh().cloned();
    loaded.logic_mesh_mut(decoded).unwrap().push(3);
    assert_eq!(loaded.undecoded_mesh(), None);
    assert_eq!(mesh_of(&mut loaded), Some(vec![1, 2, 3]));
    assert_eq!(loaded.mesh_bytes, None);
    assert!(Index::new().logic_mesh_mut(Some(vec![1])).is_none());
}

#[test]
fn changed_mesh_is_written() {
    let mut index = Index::new();
    index.add_frame(0, 0, 1);
    index.set_vec_bytes(vec![9]);
    index.set_logic_mesh(vec![1]);
    let file = write(&mut index);
    // A change after the index was written.
    index.logic_mesh_mut(None).unwrap().push(2);
    let file_2 = write(&mut index);
    assert_ne!(file_2, file);
    // A change after the index was read.
    let mut loaded = Index::read_from(&file_2).unwrap();
    let decoded = loaded.undecoded_mesh().cloned();
    loaded.logic_mesh_mut(decoded).unwrap().push(3);
    let file_3 = write(&mut loaded);
    let mut loaded = Index::read_from(&file_3).unwrap();
    assert_eq!(mesh_of(&mut loaded), Some(vec![1, 2, 3]));
    assert_eq!(loaded.offset_for(0), Some(0));
    assert_eq!(loaded.vec_bytes, Some(vec![9]));
    // A change that leaves nothing.
    loaded.logic_mesh_mut(None).unwrap().clear();
    let file_4 = write(&mut loaded);
    assert_eq!(mesh_of(&mut Index::read_from(&file_4).unwrap()), None);
}

#[test]
fn set_mesh_replaces_a_loaded_one() {
    let mut index = Index::new();
    index.set_logic_mesh(vec![1]);
    let file = write(&mut index);
    let mut loaded = Index::read_from(&file).unwrap();
    loaded.set_logic_mesh(vec![7]);
    assert_eq!(mesh_of(&mut loaded), Some(vec![7]));
    let file = write(&mut loaded);
    assert_eq!(mesh_of(&mut Index::read_from(&file).unwrap()), Some(vec![7]));
}

#[test]
fn header_copies_and_default_index() {
    let mut index = Index::default();
    assert!(index.offsets.is_empty());
    assert_eq!(index.mesh_bytes, None);
    index.header.embedding_model = Some("m".to_string());
    index.header.embedding_dim = Some(2);
    index.add_frame(4, 0, 0);
    let copy = index.header.clone();
    assert_eq!(copy.embedding_model.as_deref(), Some("m"));
    assert_eq!(copy.embedding_dim, Some(2));
    assert_eq!(copy.frame_count, 1);
    assert_eq!(copy.last_indexed_frame_id, Some(4));
    assert_eq!(copy.generation, 0);
}

#[test]
fn empty_mesh_is_not_saved() {
    let mut index = Index::new();
    index.set_logic_mesh(vec![]);
    let file = write(&mut index);
    assert_eq!(index.mesh_bytes, None);
    assert_eq!(Index::read_from(&file).unwrap().mesh_bytes, None);
}

#[test]
fn search_without_an_index_finds_nothing() {
    let mut index = Index::new();
    assert!(index.lex_search("x", 10).is_empty());
    index.set_lex(LexIndexArtifact { bytes: vec![0xff; 9] });
    assert!(index.lex_search("x", 10).is_empty());
    assert_eq!(LexIndex::decode(&[1]).unwrap_err(), LexError::Decode);
}

#[test]
fn search_ranks_and_limits() {
    let frames = vec![
        FrameJsonl::new(0, "alpha beta"),
        FrameJsonl::new(1, "ALPHA alpha gamma"),
        FrameJsonl::new(2, "delta"),
        FrameJsonl::new(3, "Beta, alpha; beta!"),
        FrameJsonl::tombstone(4, 2),
    ];
    let mut index = Index::new();
    index.build_lex(&frames).unwrap();
    let hits = index.lex_search("alpha BETA", 10);
    let found: Vec<(u64, usize, usize)> =
        hits.iter().map(|h| (h.frame_id, h.score, h.match_count)).collect();
    assert_eq!(found, vec![(3, 2, 3), (0, 2, 2), (1, 1, 2)]);
    let best: Vec<u64> = index.lex_search("alpha beta", 2).iter().map(|h| h.frame_id).collect();
    assert_eq!(best, vec![3, 0]);
    assert!(index.lex_search("alpha", 0).is_empty());
    assert!(index.lex_search("alph", 10).is_empty());
    assert!(index.lex_search(" ,;", 10).is_empty());
}

#[test]
fn search_index_keeps_whole_documents() {
    let frames = vec![FrameJsonl::new(9, "wörter")
        .with_uri("mv2://u")
        .with_title("t")
        .with_tag("a", "1")
        .with_tag("b", "2")];
    let mut index = Index::new();
    index.build_lex(&frames).unwrap();
    let decoded = LexIndex::decode(index.lex_bytes.as_ref().unwrap()).unwrap();
    let document = &decoded.documents[0];
    assert_eq!(document.frame_id, 9);
    assert_eq!(document.uri, "mv2://u");
    assert_eq!(document.title.as_deref(), Some("t"));
    assert_eq!(document.content, "wörter");
    assert_eq!(document.tags.get("a").unwrap(), "1");
    assert_eq!(document.tags.get("b").unwrap(), "2");
    assert_eq!(index.lex_search("wörter", 1)[0].frame_id, 9);
}

#[test]
fn rebuilt_search_index_replaces_the_old_one() {
    let mut index = Index::new();
    index.build_lex(&[FrameJsonl::new(0, "old")]).unwrap();
    assert_eq!(index.lex_search("old", 5).len(), 1);
    index.build_lex(&[FrameJsonl::new(1, "new")]).unwrap();
    assert!(index.lex_search("old", 5).is_empty());
    assert_eq!(index.lex_search("new", 5)[0].frame_id, 1);
}
