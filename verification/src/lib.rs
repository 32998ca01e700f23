//! Versioned text storage: content-defined chunks under a hash tree, localised edits,
//! rebasing commits, line diffs, and the rules built on top of them.

pub mod access;
pub mod bm25;
pub mod chars;
pub mod chunker;
pub mod commit;
pub mod commute;
pub mod cursor;
pub mod diff;
pub mod edit;
pub mod error;
pub mod fold;
pub mod hash;
pub mod levels;
pub mod linelaw;
pub mod lines;
pub mod md;
pub mod merge;
pub mod mergelaw;
pub mod model;
pub mod myers;
pub mod node;
pub mod patch;
pub mod path;
pub mod pathlaw;
pub mod pg;
pub mod projection;
pub mod rebase;
pub mod rebaselaw;
pub mod rebuild;
pub mod regions;
pub mod rootlaw;
pub mod roundtrip;
pub mod searchlaw;
pub mod shared;
pub mod snippet;
pub mod storage;
pub mod structure;
pub mod table;
pub mod terms;
pub mod text;
pub mod tree;
pub mod unified;
pub mod unifiedlaw;
pub mod value;
pub mod words;

pub use chunker::ChunkParams;
pub use commit::{commit, commit_append, CommitKind, Committed, ConflictInfo, DEFAULT_RETRIES};
pub use diff::{changed_runs, line_hunks, unified_diff, ChangedRun, LineHunk};
pub use edit::{apply_edits, Edit, EditResult};
pub use error::TextdbError;
pub use hash::{hash_chunk, hash_node};
pub use node::{Child, Node};
pub use storage::{MemStorage, Storage};
pub use structure::{Link, NoStructure, Section, Structure, StructureExtractor};
pub use tree::{
    build, build_with_chunks, leaves, lines, locate_byte, locate_line, materialize, materialize_range, totals, LeafRef,
};
