//! Behavior of the seven chunking algorithms on concrete inputs.

use bunkatsu::ChunkConfig;
use bunkatsu::FixedSizeChunker;
use bunkatsu::HeadingChunker;
use bunkatsu::MarkdownChunker;
use bunkatsu::ParagraphChunker;
use bunkatsu::RecursiveChunker;
use bunkatsu::RecursiveStrategy;
use bunkatsu::SentenceChunker;
use bunkatsu::SentenceDetector;
use bunkatsu::SlidingWindowChunker;

#[test]
fn test_fixed_size_basic() {
    let chunker = FixedSizeChunker;
    let config = ChunkConfig::new(5);
    let chunks = chunker.chunk("hello world", &config);

    assert_eq!(chunks.len(), 3);
    assert_eq!(chunks[0].text, "hello");
    assert_eq!(chunks[1].text, " worl");
    assert_eq!(chunks[2].text, "d");
}

#[test]
fn test_fixed_size_empty() {
    let chunker = FixedSizeChunker;
    let config = ChunkConfig::new(5);
    let chunks = chunker.chunk("", &config);

    assert!(chunks.is_empty());
}

#[test]
fn test_fixed_size_unicode() {
    let chunker = FixedSizeChunker;
    let config = ChunkConfig::new(3);
    let chunks = chunker.chunk("日本語テスト", &config);

    assert_eq!(chunks.len(), 2);
    assert_eq!(chunks[0].text, "日本語");
    assert_eq!(chunks[1].text, "テスト");
}

#[test]
fn test_fixed_size_positions() {
    let chunker = FixedSizeChunker;
    let config = ChunkConfig::new(5);
    let chunks = chunker.chunk("hello world", &config);

    assert_eq!(chunks[0].start, 0);
    assert_eq!(chunks[0].end, 5);
    assert_eq!(chunks[1].start, 5);
    assert_eq!(chunks[1].end, 10);
}

#[test]
fn test_sliding_window_basic() {
    let chunker = SlidingWindowChunker;
    let config = ChunkConfig::new(5).with_overlap(2);
    let chunks = chunker.chunk("hello world!", &config);

    // With max_size=5, overlap=2, step=3
    assert_eq!(chunks.len(), 4);
    assert_eq!(chunks[0].text, "hello");
    assert_eq!(chunks[1].text, "lo wo");
    assert_eq!(chunks[2].text, "world");
    assert_eq!(chunks[3].text, "ld!");
}

#[test]
fn test_sliding_window_no_overlap() {
    let chunker = SlidingWindowChunker;
    let config = ChunkConfig::new(5).with_overlap(0);
    let chunks = chunker.chunk("hello world", &config);

    // Same as fixed size
    assert_eq!(chunks.len(), 3);
    assert_eq!(chunks[0].text, "hello");
    assert_eq!(chunks[1].text, " worl");
    assert_eq!(chunks[2].text, "d");
}

#[test]
fn test_sliding_window_overlap_metadata() {
    let chunker = SlidingWindowChunker;
    let config = ChunkConfig::new(5).with_overlap(2);
    let chunks = chunker.chunk("hello world", &config);

    // First chunk should have no overlap
    assert_eq!(chunks[0].metadata.overlap_chars, None);
    // Subsequent chunks should have overlap
    assert_eq!(chunks[1].metadata.overlap_chars, Some(2));
}

#[test]
fn test_sliding_window_empty() {
    let chunker = SlidingWindowChunker;
    let config = ChunkConfig::new(5).with_overlap(2);
    let chunks = chunker.chunk("", &config);

    assert!(chunks.is_empty());
}

#[test]
fn test_sentence_single() {
    let chunker = SentenceChunker;
    let config = ChunkConfig::new(1000);
    let chunks = chunker.chunk("Hello world. How are you?", &config);

    assert_eq!(chunks.len(), 1);
    assert!(chunks[0].text.contains("Hello world."));
    assert!(chunks[0].text.contains("How are you?"));
}

#[test]
fn test_sentence_split_by_size() {
    let chunker = SentenceChunker;
    let config = ChunkConfig::new(20);
    let chunks = chunker.chunk("Hello world. How are you? I am fine.", &config);

    // Should split into multiple chunks due to size limit
    assert!(chunks.len() > 1);
}

#[test]
fn test_sentence_unicode_detector() {
    let chunker = SentenceChunker;
    let config = ChunkConfig::new(1000).with_sentence_detector(SentenceDetector::Unicode);
    let chunks = chunker.chunk("Hello world. How are you?", &config);

    assert!(!chunks.is_empty());
}

#[test]
fn test_sentence_empty() {
    let chunker = SentenceChunker;
    let config = ChunkConfig::new(100);
    let chunks = chunker.chunk("", &config);

    assert!(chunks.is_empty());
}

#[test]
fn test_paragraph_basic() {
    let chunker = ParagraphChunker;
    let config = ChunkConfig::new(1000);
    let text = "First paragraph.\n\nSecond paragraph.\n\nThird paragraph.";
    let chunks = chunker.chunk(text, &config);

    assert_eq!(chunks.len(), 1);
    assert!(chunks[0].text.contains("First paragraph."));
    assert!(chunks[0].text.contains("Second paragraph."));
    assert!(chunks[0].text.contains("Third paragraph."));
}

#[test]
fn test_paragraph_split_by_size() {
    let chunker = ParagraphChunker;
    let config = ChunkConfig::new(30);
    let text = "First paragraph here.\n\nSecond paragraph here.\n\nThird paragraph here.";
    let chunks = chunker.chunk(text, &config);

    // Should split due to size limit
    assert!(chunks.len() > 1);
}

#[test]
fn test_paragraph_single() {
    let chunker = ParagraphChunker;
    let config = ChunkConfig::new(1000);
    let text = "Just one paragraph with no breaks.";
    let chunks = chunker.chunk(text, &config);

    assert_eq!(chunks.len(), 1);
    assert_eq!(chunks[0].text, "Just one paragraph with no breaks.");
}

#[test]
fn test_paragraph_empty() {
    let chunker = ParagraphChunker;
    let config = ChunkConfig::new(100);
    let chunks = chunker.chunk("", &config);

    assert!(chunks.is_empty());
}

#[test]
fn test_paragraph_only_whitespace() {
    let chunker = ParagraphChunker;
    let config = ChunkConfig::new(100);
    let chunks = chunker.chunk("\n\n\n\n", &config);

    assert!(chunks.is_empty());
}

#[test]
fn test_heading_basic() {
    let chunker = HeadingChunker::default();
    let config = ChunkConfig::new(1000);
    let text = "# First Section\n\nContent 1.\n\n# Second Section\n\nContent 2.\n";
    let chunks = chunker.chunk(text, &config);

    assert_eq!(chunks.len(), 2);
    assert!(chunks[0].text.contains("First Section"));
    assert!(chunks[1].text.contains("Second Section"));
}

#[test]
fn test_heading_nested() {
    let chunker = HeadingChunker::new(vec![1]); // Only split at h1
    let config = ChunkConfig::new(1000);
    let text = "# Main Section\n\n## Subsection 1\n\nContent.\n\n## Subsection 2\n\nMore content.\n";
    let chunks = chunker.chunk(text, &config);

    // Only one chunk since we only split at h1
    assert_eq!(chunks.len(), 1);
    assert!(chunks[0].text.contains("Subsection 1"));
    assert!(chunks[0].text.contains("Subsection 2"));
}

#[test]
fn test_heading_section_metadata() {
    let chunker = HeadingChunker::default();
    let config = ChunkConfig::new(1000);
    let text = "## My Section\n\nContent here.";
    let chunks = chunker.chunk(text, &config);

    assert_eq!(chunks.len(), 1);
    assert_eq!(chunks[0].metadata.section, Some("h2: My Section".to_string()));
}

#[test]
fn test_heading_empty() {
    let chunker = HeadingChunker::default();
    let config = ChunkConfig::new(100);
    let chunks = chunker.chunk("", &config);

    assert!(chunks.is_empty());
}

#[test]
fn test_markdown_code_block_preserved() {
    let chunker = MarkdownChunker;
    let config = ChunkConfig::new(1000);
    let text = "# Introduction\n\nSome text here.\n\n```python\ndef hello():\n    print(\"Hello, World!\")\n```\n\nMore text after code.\n";
    let chunks = chunker.chunk(text, &config);

    assert_eq!(chunks.len(), 1);
    assert!(chunks[0].text.contains("```python"));
    assert!(chunks[0].text.contains("def hello():"));
}

#[test]
fn test_markdown_split_at_heading() {
    let chunker = MarkdownChunker;
    let config = ChunkConfig::new(50);
    let text = "# First Section\n\nContent of first section.\n\n# Second Section\n\nContent of second section.\n";
    let chunks = chunker.chunk(text, &config);

    assert!(chunks.len() >= 2);
    assert!(chunks[0].metadata.section.as_ref().unwrap().contains("First"));
}

#[test]
fn test_markdown_empty() {
    let chunker = MarkdownChunker;
    let config = ChunkConfig::new(100);
    let chunks = chunker.chunk("", &config);

    assert!(chunks.is_empty());
}

#[test]
fn test_markdown_section_tracking() {
    let chunker = MarkdownChunker;
    let config = ChunkConfig::new(1000);
    let text = "## My Section\n\nSome content here.";
    let chunks = chunker.chunk(text, &config);

    assert_eq!(chunks.len(), 1);
    assert_eq!(chunks[0].metadata.section, Some("h2: My Section".to_string()));
}

#[test]
fn test_recursive_small_text() {
    let chunker = RecursiveChunker::default();
    let config = ChunkConfig::new(100);
    let chunks = chunker.chunk("Small text", &config);

    assert_eq!(chunks.len(), 1);
    assert_eq!(chunks[0].text, "Small text");
}

#[test]
fn test_recursive_paragraph_split() {
    let chunker = RecursiveChunker::new(RecursiveStrategy::ParagraphFirst);
    let config = ChunkConfig::new(30);
    let text = "First paragraph here.\n\nSecond paragraph here.";
    let chunks = chunker.chunk(text, &config);

    assert!(chunks.len() >= 2);
}

#[test]
fn test_recursive_fallback_to_fixed() {
    let chunker = RecursiveChunker::default();
    let config = ChunkConfig::new(10);
    let text = "This is a long sentence without any paragraph breaks.";
    let chunks = chunker.chunk(text, &config);

    // Should fall back to fixed-size chunking
    assert!(chunks.len() > 1);
    // Most chunks should be within size limit
    let within_limit = chunks.iter().filter(|c| c.text.len() <= 10).count();
    assert!(within_limit > 0);
}

#[test]
fn test_recursive_empty() {
    let chunker = RecursiveChunker::default();
    let config = ChunkConfig::new(100);
    let chunks = chunker.chunk("", &config);

    assert!(chunks.is_empty());
}

#[test]
fn test_recursive_level_tracking() {
    let chunker = RecursiveChunker::default();
    let config = ChunkConfig::new(20);
    let text = "Para one.\n\nPara two which is a bit longer.";
    let chunks = chunker.chunk(text, &config);

    // Check that method contains level info
    assert!(chunks[0].metadata.method.starts_with("recursive_l"));
}
