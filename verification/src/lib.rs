//! Bunkatsu: a text chunking library.
//!
//! Splits text documents into bounded, position-annotated chunks for
//! retrieval and ingestion pipelines. Several interchangeable strategies
//! are provided: fixed-size windows, sliding windows with overlap,
//! sentence packing, paragraph packing, heading sections, markdown-aware
//! blocks, and a recursive engine that guarantees a size bound by falling
//! back through a chain of strategies.

pub mod chunk;
pub mod config;
pub mod error;
pub mod fixed_size;
pub mod heading;
pub mod markdown;
pub mod pack;
pub mod paragraph;
pub mod recursive;
pub mod registry;
pub mod sentence;
pub mod sliding_window;
pub mod text;
pub mod traits;

pub use chunk::Chunk;
pub use chunk::ChunkMetadata;
pub use config::ChunkConfig;
pub use config::SentenceDetector;
pub use error::ChunkError;
pub use fixed_size::FixedSizeChunker;
pub use heading::HeadingChunker;
pub use markdown::MarkdownChunker;
pub use paragraph::ParagraphChunker;
pub use recursive::RecursiveChunker;
pub use recursive::RecursiveStrategy;
pub use registry::Algorithm;
pub use registry::AlgorithmRegistry;
pub use sentence::SentenceChunker;
pub use sliding_window::SlidingWindowChunker;
pub use traits::ChunkAlgorithm;
