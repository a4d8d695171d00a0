//! Chunk data records: the immutable output of every chunking algorithm.

use vstd::prelude::*;

use crate::text::blen;

verus! {

/// Metadata attached to a chunk.
#[derive(Debug)]
pub struct ChunkMetadata {
    /// Name of the producing algorithm, or `recursive_l{N}` for recursion
    /// level `N`.
    pub method: String,
    /// Heading label of the enclosing section, `h{level}: {title}`, where
    /// one applies.
    pub section: Option<String>,
    /// Characters shared with the preceding window; set by sliding-window
    /// chunking only.
    pub overlap_chars: Option<usize>,
    /// Id of the oversized intermediate chunk this one was split from; set
    /// by recursive chunking only.
    pub parent_chunk_id: Option<String>,
}

impl ChunkMetadata {
    /// Create metadata from its parts.
    pub fn new(
        method: String,
        section: Option<String>,
        overlap_chars: Option<usize>,
        parent_chunk_id: Option<String>,
    ) -> (r: Self)
        ensures
            r.method == method,
            r.section == section,
            r.overlap_chars == overlap_chars,
            r.parent_chunk_id == parent_chunk_id,
    {
        ChunkMetadata { method, section, overlap_chars, parent_chunk_id }
    }
}

/// A text chunk with its position in the source and its metadata.
#[derive(Debug)]
pub struct Chunk {
    /// Opaque identifier, unique within a process run.
    pub id: String,
    /// The chunk's text; it may be trimmed or rejoined relative to the
    /// source bytes it covers.
    pub text: String,
    /// Best-effort byte offset of the chunk's first byte in the source.
    pub start: usize,
    /// Best-effort byte offset one past the chunk's last byte, exclusive.
    pub end: usize,
    /// Metadata describing how the chunk was produced.
    pub metadata: ChunkMetadata,
}

/// Relies on `uuid::Uuid::new_v4` and its hyphenated rendering: a fresh
/// random identifier. Nothing is assumed of the value; uniqueness is a
/// statistical property of the generator.
#[verifier::external_body]
fn fresh_id() -> (r: String) {
    uuid::Uuid::new_v4().to_string()
}

impl Chunk {
    /// Create a chunk from its parts.
    pub fn new(id: String, text: String, start: usize, end: usize, metadata: ChunkMetadata) -> (r:
        Self)
        ensures
            r.id == id,
            r.text == text,
            r.start == start,
            r.end == end,
            r.metadata == metadata,
    {
        Chunk { id, text, start, end, metadata }
    }

    /// Create a chunk with a freshly generated identifier.
    pub fn with_uuid(text: String, start: usize, end: usize, metadata: ChunkMetadata) -> (r: Self)
        ensures
            r.text == text,
            r.start == start,
            r.end == end,
            r.metadata == metadata,
    {
        Chunk { id: fresh_id(), text, start, end, metadata }
    }

    /// The length of the chunk's text in bytes.
    pub fn len(&self) -> (r: usize)
        ensures
            r == blen(self.text@) as usize,
    {
        self.text.as_str().len()
    }

    /// Whether the chunk's text is empty.
    pub fn is_empty(&self) -> (r: bool)
        ensures
            r == (self.text@.len() == 0),
    {
        self.text.as_str().is_empty()
    }
}

} // verus!
