//! Cross-cutting properties and concrete scenarios: lossless fixed-size
//! partitions, the recursive size bound and provenance, overlap
//! metadata, offset ordering, the zero-size and empty-input guards, the
//! registry, and the data records.

use bunkatsu::Algorithm;
use bunkatsu::AlgorithmRegistry;
use bunkatsu::Chunk;
use bunkatsu::ChunkAlgorithm;
use bunkatsu::ChunkConfig;
use bunkatsu::ChunkError;
use bunkatsu::ChunkMetadata;
use bunkatsu::FixedSizeChunker;
use bunkatsu::HeadingChunker;
use bunkatsu::MarkdownChunker;
use bunkatsu::ParagraphChunker;
use bunkatsu::RecursiveChunker;
use bunkatsu::SentenceChunker;
use bunkatsu::SentenceDetector;
use bunkatsu::SlidingWindowChunker;

#[test]
fn test_fixed_size_lossless_concat() {
    let chunker = FixedSizeChunker;
    for max in [1usize, 2, 3, 5, 7, 100] {
        let config = ChunkConfig::new(max);
        let text = "The quick brown fox jumps over the lazy dog. 日本語もある。";
        let chunks = chunker.chunk(text, &config);
        let joined: String = chunks.iter().map(|c| c.text.as_str()).collect::<Vec<_>>().join("");
        assert_eq!(joined, text);
    }
}

#[test]
fn test_sliding_window_scenario() {
    let chunker = SlidingWindowChunker;
    let config = ChunkConfig::new(5).with_overlap(2);
    let chunks = chunker.chunk("hello world!", &config);

    let texts: Vec<&str> = chunks.iter().map(|c| c.text.as_str()).collect();
    assert_eq!(texts, ["hello", "lo wo", "world", "ld!"]);
    assert_eq!(chunks[0].metadata.overlap_chars, None);
    for c in &chunks[1..] {
        assert_eq!(c.metadata.overlap_chars, Some(2));
    }
}

#[test]
fn test_sliding_window_overlap_clamped() {
    // overlap is clamped to max_size - 1, so the step stays at one
    let chunker = SlidingWindowChunker;
    let config = ChunkConfig::new(3).with_overlap(10);
    let chunks = chunker.chunk("abcde", &config);

    assert_eq!(chunks[0].text, "abc");
    assert_eq!(chunks[1].text, "bcd");
    assert_eq!(chunks[2].text, "cde");
    assert_eq!(chunks.len(), 3);
    assert_eq!(chunks[1].metadata.overlap_chars, Some(2));
}

#[test]
fn test_recursive_size_bound() {
    let chunker = RecursiveChunker::default();
    let config = ChunkConfig::new(10);
    let text = "This is a long sentence without any paragraph breaks.";
    let chunks = chunker.chunk(text, &config);

    assert!(chunks.len() > 1);
    for c in &chunks {
        assert!(c.text.chars().count() <= 10);
    }
    let deep = chunks.iter().any(|c| {
        c.metadata.method.strip_prefix("recursive_l").map_or(false, |n| {
            n.parse::<usize>().map_or(false, |lvl| lvl >= 1)
        })
    });
    assert!(deep);
}

#[test]
fn test_recursive_provenance() {
    let chunker = RecursiveChunker::default();
    let config = ChunkConfig::new(12);
    let text = "One short para.\n\nA rather longer paragraph that must be split further. Twice over, even.";
    let chunks = chunker.chunk(text, &config);

    let mut saw_parent = false;
    for c in &chunks {
        if let Some(parent) = &c.metadata.parent_chunk_id {
            saw_parent = true;
            assert!(!parent.is_empty());
            let level: usize = c
                .metadata
                .method
                .strip_prefix("recursive_l")
                .expect("method labels a recursion level")
                .parse()
                .expect("level is a number");
            assert!(level >= 1);
        }
    }
    assert!(saw_parent);
}

#[test]
fn test_monotonic_offsets() {
    let text = "# One\n\nFirst sentence here. Second sentence there.\n\n## Two\n\nMore prose follows.\n\n```rust\nfn x() {}\n```\n\nTail text.";
    let config = ChunkConfig::new(25);
    let fixed: Vec<Chunk> = FixedSizeChunker.chunk(text, &config);
    let sliding: Vec<Chunk> = SlidingWindowChunker.chunk(text, &config.clone().with_overlap(5));
    let sentence: Vec<Chunk> = SentenceChunker.chunk(text, &config);
    let paragraph: Vec<Chunk> = ParagraphChunker.chunk(text, &config);
    let heading: Vec<Chunk> = HeadingChunker::default().chunk(text, &config);
    let markdown: Vec<Chunk> = MarkdownChunker.chunk(text, &config);
    for chunks in [fixed, sliding, sentence, paragraph, heading, markdown] {
        for pair in chunks.windows(2) {
            assert!(pair[0].start <= pair[1].start);
        }
    }
}

#[test]
fn test_zero_and_empty_guards() {
    let zero = ChunkConfig::new(0);
    let some = ChunkConfig::new(10);
    let text = "Some text. With sentences.\n\nAnd a paragraph.\n# And a heading";

    assert!(FixedSizeChunker.chunk(text, &zero).is_empty());
    assert!(SlidingWindowChunker.chunk(text, &zero).is_empty());
    assert!(SentenceChunker.chunk(text, &zero).is_empty());
    assert!(ParagraphChunker.chunk(text, &zero).is_empty());
    assert!(HeadingChunker::default().chunk(text, &zero).is_empty());
    assert!(MarkdownChunker.chunk(text, &zero).is_empty());
    assert!(RecursiveChunker::default().chunk(text, &zero).is_empty());

    assert!(FixedSizeChunker.chunk("", &some).is_empty());
    assert!(SlidingWindowChunker.chunk("", &some).is_empty());
    assert!(SentenceChunker.chunk("", &some).is_empty());
    assert!(ParagraphChunker.chunk("", &some).is_empty());
    assert!(HeadingChunker::default().chunk("", &some).is_empty());
    assert!(MarkdownChunker.chunk("", &some).is_empty());
    assert!(RecursiveChunker::default().chunk("", &some).is_empty());
}

#[test]
fn test_paragraph_scenario() {
    let chunker = ParagraphChunker;
    let config = ChunkConfig::new(1000);
    let chunks = chunker.chunk("A.\n\nB.\n\nC.", &config);

    assert_eq!(chunks.len(), 1);
    assert_eq!(chunks[0].text, "A.\n\nB.\n\nC.");
}

#[test]
fn test_heading_scenario() {
    let chunker = HeadingChunker::new(vec![1, 2]);
    let config = ChunkConfig::new(1000);
    let chunks = chunker.chunk("## S\n\nBody", &config);

    assert_eq!(chunks.len(), 1);
    assert_eq!(chunks[0].metadata.section, Some("h2: S".to_string()));
}

#[test]
fn test_heading_implicit_section() {
    let chunker = HeadingChunker::default();
    let config = ChunkConfig::new(1000);
    let chunks = chunker.chunk("Intro before any heading.\n\n# Later\n\nBody.", &config);

    assert_eq!(chunks.len(), 2);
    assert_eq!(chunks[0].metadata.section, None);
    assert!(chunks[0].text.contains("Intro before any heading."));
    assert_eq!(chunks[1].metadata.section, Some("h1: Later".to_string()));
}

#[test]
fn test_markdown_fenced_block_unsplit() {
    let chunker = MarkdownChunker;
    let config = ChunkConfig::new(1000);
    let fenced = "```python\ndef hello():\n    pass\n```";
    let text = format!("Intro text.\n\n{}\n\nOutro text.", fenced);
    let chunks = chunker.chunk(&text, &config);

    let holding: Vec<_> = chunks.iter().filter(|c| c.text.contains(fenced)).collect();
    assert_eq!(holding.len(), 1);
}

#[test]
fn test_markdown_oversized_code_block_alone() {
    let chunker = MarkdownChunker;
    let config = ChunkConfig::new(20);
    let fenced = "```rust\nfn a() {}\nfn b() {}\nfn c() {}\n```";
    let text = format!("Short intro.\n\n{}\n\nShort outro.", fenced);
    let chunks = chunker.chunk(&text, &config);

    // the fenced block exceeds max_size, so it stands alone and verbatim
    let own: Vec<_> = chunks.iter().filter(|c| c.text == fenced).collect();
    assert_eq!(own.len(), 1);
}

#[test]
fn test_markdown_tilde_fence() {
    let chunker = MarkdownChunker;
    let config = ChunkConfig::new(1000);
    let text = "~~~\nraw block\n~~~\nAfter.";
    let chunks = chunker.chunk(text, &config);

    assert_eq!(chunks.len(), 1);
    assert!(chunks[0].text.contains("~~~\nraw block\n~~~"));
}

#[test]
fn test_sentence_unicode_splits_at_boundaries() {
    let chunker = SentenceChunker;
    let config = ChunkConfig::new(15).with_sentence_detector(SentenceDetector::Unicode);
    let chunks = chunker.chunk("Hello world. How are you?", &config);

    // each sentence is too long to share a chunk with the next
    assert_eq!(chunks.len(), 2);
    assert_eq!(chunks[0].text, "Hello world.");
    assert_eq!(chunks[1].text, "How are you?");
}

#[test]
fn test_sentence_regex_offsets() {
    let chunker = SentenceChunker;
    let config = ChunkConfig::new(12);
    let chunks = chunker.chunk("Hi there. Bye now.", &config);

    assert_eq!(chunks.len(), 2);
    assert_eq!(chunks[0].text, "Hi there.");
    assert_eq!(chunks[0].start, 0);
    assert_eq!(chunks[0].end, 9);
    assert_eq!(chunks[1].text, "Bye now.");
    assert_eq!(chunks[1].start, 10);
    assert_eq!(chunks[1].end, 18);
}

#[test]
fn test_sentence_oversized_sentence_kept_whole() {
    let chunker = SentenceChunker;
    let config = ChunkConfig::new(5);
    let chunks = chunker.chunk("An oversized sentence stays whole.", &config);

    assert_eq!(chunks.len(), 1);
    assert_eq!(chunks[0].text, "An oversized sentence stays whole.");
}

#[test]
fn test_paragraph_offsets_skip_leading_whitespace() {
    let chunker = ParagraphChunker;
    let config = ChunkConfig::new(6);
    let chunks = chunker.chunk("  Hello.\n\nWorld.", &config);

    assert_eq!(chunks.len(), 2);
    assert_eq!(chunks[0].text, "Hello.");
    assert_eq!(chunks[0].start, 2);
    assert_eq!(chunks[0].end, 8);
    assert_eq!(chunks[1].text, "World.");
    assert_eq!(chunks[1].start, 10);
    assert_eq!(chunks[1].end, 16);
}

#[test]
fn test_heading_carriage_returns() {
    let chunker = HeadingChunker::default();
    let config = ChunkConfig::new(1000);
    let chunks = chunker.chunk("# A\r\nB\r\nC", &config);

    assert_eq!(chunks.len(), 1);
    assert_eq!(chunks[0].text, "# A\n\nB\nC");
    assert_eq!(chunks[0].metadata.section, Some("h1: A".to_string()));
}

#[test]
fn test_markdown_heading_starts_chunk() {
    let chunker = MarkdownChunker;
    let config = ChunkConfig::new(1000);
    let chunks = chunker.chunk("## T\nbody", &config);

    assert_eq!(chunks.len(), 1);
    assert_eq!(chunks[0].text, "## T\nbody");
    assert_eq!(chunks[0].start, 0);
    assert_eq!(chunks[0].metadata.section, Some("h2: T".to_string()));
}

#[test]
fn test_registry_dispatch() {
    // the registry lookup followed by chunk() is the system's calling
    // convention; the dispatched call behaves as the strategy itself
    let registry = AlgorithmRegistry::new();
    let alg = registry.get("fixed_size").expect("built-in strategy");
    let chunks = alg.chunk("hello world", &ChunkConfig::new(5));
    assert_eq!(chunks.len(), 3);
    assert_eq!(chunks[0].text, "hello");
    assert_eq!(chunks[2].text, "d");

    let sliding = registry.get("sliding_window").expect("built-in strategy");
    let windows = sliding.chunk("hello world!", &ChunkConfig::new(5).with_overlap(2));
    assert_eq!(windows.len(), 4);
    assert_eq!(windows[1].text, "lo wo");
}

#[test]
fn test_recursive_monotonic_offsets() {
    // split results are re-based at the discarded intermediate chunk's
    // position, so offsets stay in order under the default detector
    let chunker = RecursiveChunker::default();
    let config = ChunkConfig::new(30);
    let text = "First paragraph here.\n\nSecond paragraph here.\n\nA third much longer paragraph that runs on without a break at all.";
    let chunks = chunker.chunk(text, &config);
    assert!(chunks.len() > 2);
    for pair in chunks.windows(2) {
        assert!(pair[0].start <= pair[1].start);
        assert!(pair[0].end <= pair[1].start);
    }
}

#[test]
fn test_markdown_chunks_non_overlapping() {
    let chunker = MarkdownChunker;
    let config = ChunkConfig::new(24);
    let text = "# One\n\nSome prose here.\n\n```\ncode body\n```\n\n# Two\n\nMore prose after that.";
    let chunks = chunker.chunk(text, &config);
    assert!(chunks.len() > 1);
    for pair in chunks.windows(2) {
        assert!(pair[0].end <= pair[1].start);
    }
}

#[test]
fn test_sentence_chunks_non_overlapping() {
    let chunker = SentenceChunker;
    let config = ChunkConfig::new(14);
    let chunks = chunker.chunk("One two. Three four. Five six. Seven.", &config);
    assert!(chunks.len() > 1);
    for pair in chunks.windows(2) {
        assert!(pair[0].end <= pair[1].start);
    }
}

#[test]
fn test_registry_lookup() {
    let registry = AlgorithmRegistry::new();
    let names = registry.list();
    assert_eq!(names.len(), 4);
    for expected in ["fixed_size", "sliding_window", "sentence", "paragraph"] {
        assert!(names.iter().any(|n| n == expected));
    }
    assert!(registry.get("fixed_size").is_some());
    assert!(registry.get("sliding_window").is_some());
    assert!(registry.get("nonexistent").is_none());
}

#[test]
fn test_registry_replacement() {
    let mut registry = AlgorithmRegistry::new();
    registry.register(Algorithm::FixedSize(FixedSizeChunker));
    // last write wins: the name count stays the same
    assert_eq!(registry.list().len(), 4);
    registry.register(Algorithm::Markdown(MarkdownChunker));
    assert_eq!(registry.list().len(), 5);
    assert!(registry.get("markdown").is_some());
}

#[test]
fn test_chunk_records() {
    let metadata = ChunkMetadata::new("fixed_size".to_string(), None, Some(3), None);
    assert_eq!(metadata.method, "fixed_size");
    assert_eq!(metadata.section, None);
    assert_eq!(metadata.overlap_chars, Some(3));
    assert_eq!(metadata.parent_chunk_id, None);

    let chunk = Chunk::new(
        "id-1".to_string(),
        "日本".to_string(),
        0,
        6,
        ChunkMetadata::new("m".to_string(), None, None, None),
    );
    assert_eq!(chunk.len(), 6);
    assert!(!chunk.is_empty());

    let other = Chunk::with_uuid(
        "body".to_string(),
        2,
        6,
        ChunkMetadata::new("m".to_string(), None, None, None),
    );
    assert_eq!(other.text, "body");
    assert_eq!(other.start, 2);
    assert_eq!(other.end, 6);
    assert!(!other.id.is_empty());
}

#[test]
fn test_chunk_ids_unique() {
    let mk = || {
        Chunk::with_uuid(
            "x".to_string(),
            0,
            1,
            ChunkMetadata::new("m".to_string(), None, None, None),
        )
    };
    let a = mk();
    let b = mk();
    assert_ne!(a.id, b.id);
}

#[test]
fn test_error_messages() {
    let invalid = ChunkError::InvalidConfig("bad size".to_string());
    assert_eq!(invalid.message(), "Invalid configuration: bad size");
    let processing = ChunkError::ProcessingError("oops".to_string());
    assert_eq!(processing.message(), "Text processing error: oops");
    let missing = ChunkError::AlgorithmNotFound("tokenizer".to_string());
    assert_eq!(missing.message(), "Algorithm not found: tokenizer");
}

#[test]
fn test_config_defaults() {
    let config = ChunkConfig::default();
    assert_eq!(config.max_size, 512);
    assert_eq!(config.overlap, 0);
    assert_eq!(config.sentence_detector, SentenceDetector::Regex);

    let custom = ChunkConfig::new(64).with_overlap(8).with_sentence_detector(
        SentenceDetector::Unicode,
    );
    assert_eq!(custom.max_size, 64);
    assert_eq!(custom.overlap, 8);
    assert_eq!(custom.sentence_detector, SentenceDetector::Unicode);
}
