//! The capability every chunking strategy implements.

use vstd::prelude::*;

use crate::chunk::Chunk;
use crate::config::ChunkConfig;

verus! {

/// Inputs comfortably inside the machine's address space, so that every
/// intermediate buffer a chunker builds is known to fit in a `usize`.
/// Real inputs satisfy this by a wide margin; each concrete chunker also
/// offers an inherent `chunk` method with a more generous bound.
pub open spec fn within_limit(text: Seq<char>) -> bool {
    text.len() <= usize::MAX as nat / 1024
}

/// A chunking strategy: a pure function from text and configuration to an
/// ordered sequence of chunks, together with a stable name.
pub trait ChunkAlgorithm {
    /// Split `text` into chunks. Empty input, or a configuration with
    /// `max_size == 0`, always yields an empty sequence.
    fn chunk(&self, text: &str, config: &ChunkConfig) -> (r: Vec<Chunk>)
        requires
            within_limit(text@),
        ensures
            text@.len() == 0 ==> r@.len() == 0,
            config.max_size == 0 ==> r@.len() == 0,
    ;

    /// The stable lowercase identifier of this strategy, used as the
    /// registry key and recorded in each chunk's metadata.
    fn name(&self) -> (r: &str);
}

} // verus!
