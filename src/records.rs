//! Records that the store holds and hands out.

use vstd::prelude::*;

verus! {

/// Fixed-point scale of ranks: a rank of `-1_500_000` stands for `-1.5`.
pub const RANK_SCALE: i64 = 1_000_000;

/// A search hit. `rank` is a sort key in millionths; smaller ranks first.
pub struct SearchResult {
    pub file_path: String,
    pub language: Option<String>,
    pub chunk_kind: String,
    pub chunk_name: Option<String>,
    pub signature: Option<String>,
    pub start_line: i64,
    pub end_line: i64,
    pub content: String,
    pub rank: i64,
}

/// A file as recorded in the index.
pub struct FileRecord {
    pub id: i64,
    pub path: String,
    pub content_hash: String,
    pub size_bytes: i64,
    pub language: Option<String>,
    pub indexed_at: String,
}

/// A chunk ready to be written to the index.
pub struct ChunkInsert {
    pub kind: String,
    pub name: Option<String>,
    pub content: String,
    pub signature: Option<String>,
    pub start_line: u32,
    pub end_line: u32,
    pub start_byte: u32,
    pub end_byte: u32,
}

/// A note attached to a file path, a `path:line` or a symbol name.
pub struct Annotation {
    pub id: i64,
    pub target: String,
    pub note: String,
    pub session_id: Option<String>,
    pub created_at: String,
    pub expires_at: Option<String>,
}

/// A focus or visited mark on a path.
pub struct WorksetEntry {
    pub id: i64,
    pub path: String,
    pub kind: String,
    pub session_id: Option<String>,
    pub created_at: String,
}

/// Totals over an index.
pub struct IndexStats {
    pub file_count: i64,
    pub chunk_count: i64,
    pub total_size_bytes: i64,
    pub db_size_bytes: u64,
    pub languages: Vec<(String, i64)>,
}

impl IndexStats {
    /// The statistics of an index that holds nothing.
    pub fn empty() -> (r: Self)
        ensures
            r.file_count == 0,
            r.chunk_count == 0,
            r.total_size_bytes == 0,
            r.db_size_bytes == 0,
            r.languages@.len() == 0,
    {
        IndexStats {
            file_count: 0,
            chunk_count: 0,
            total_size_bytes: 0,
            db_size_bytes: 0,
            languages: Vec::new(),
        }
    }
}

} // verus!
