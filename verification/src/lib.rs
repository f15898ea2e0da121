//! A split-file frame store.
//!
//! A store keeps its frames in an append-only `.mv2d` file, one JSON object per
//! line, and the indices that are derived from them in a binary `.mv2x` file.
//! This crate holds everything of it that computes: the line framing of the
//! data file, the layout of the index file, the full-text index, and the rules
//! by which frames are added, superseded, deleted, reconciled and compacted.

pub mod wire;
pub mod codec;
pub mod tags;
pub mod lex;
pub mod frame_jsonl;
pub mod data_file;
pub mod mv2x;
pub mod mv2x_file;
pub mod split_memvid;
pub mod store_laws;
pub mod node;
pub mod select;
pub mod lex_laws;
pub mod index_laws;
pub mod clock_laws;
pub mod data_laws;
pub mod file_laws;
