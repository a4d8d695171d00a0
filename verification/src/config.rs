//! Configuration for chunking operations.

use vstd::prelude::*;

verus! {

/// Sentence detection method.
#[derive(Debug, Clone, Copy, PartialEq, Eq, Structural)]
pub enum SentenceDetector {
    /// Fast detection on runs of terminal punctuation (`.`, `!`, `?`).
    Regex,
    /// Unicode-aware sentence segmentation.
    Unicode,
}

/// Configuration shared by every chunking algorithm.
#[derive(Debug, Clone)]
pub struct ChunkConfig {
    /// Maximum size of each chunk; zero yields no output.
    pub max_size: usize,
    /// Overlapping characters between consecutive sliding windows.
    pub overlap: usize,
    /// Sentence detection method.
    pub sentence_detector: SentenceDetector,
}

impl Default for ChunkConfig {
    /// The default configuration: 512-character chunks, no overlap.
    fn default() -> (r: Self)
        ensures
            r.max_size == 512,
            r.overlap == 0,
            r.sentence_detector == SentenceDetector::Regex,
    {
        ChunkConfig { max_size: 512, overlap: 0, sentence_detector: SentenceDetector::Regex }
    }
}

impl ChunkConfig {
    /// Create a configuration with the given maximum chunk size.
    pub fn new(max_size: usize) -> (r: Self)
        ensures
            r.max_size == max_size,
            r.overlap == 0,
            r.sentence_detector == SentenceDetector::Regex,
    {
        ChunkConfig { max_size, overlap: 0, sentence_detector: SentenceDetector::Regex }
    }

    /// Set the overlap used by sliding-window chunking.
    pub fn with_overlap(self, overlap: usize) -> (r: Self)
        ensures
            r.max_size == self.max_size,
            r.overlap == overlap,
            r.sentence_detector == self.sentence_detector,
    {
        ChunkConfig { overlap, ..self }
    }

    /// Set the sentence detection method.
    pub fn with_sentence_detector(self, detector: SentenceDetector) -> (r: Self)
        ensures
            r.max_size == self.max_size,
            r.overlap == self.overlap,
            r.sentence_detector == detector,
    {
        ChunkConfig { sentence_detector: detector, ..self }
    }
}

} // verus!
