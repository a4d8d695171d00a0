//! Recursive chunking: a chain of strategies applied level by level until
//! every chunk respects the size bound.
//!
//! A chunk produced at one level whose text is still too long is
//! re-chunked at the next level with the next strategy in the chain;
//! fixed-size windows end the chain and always fit, so the recursion is
//! bounded by the chain's length.

use vstd::prelude::*;

use crate::chunk::Chunk;
use crate::chunk::ChunkMetadata;
use crate::config::ChunkConfig;
use crate::config::SentenceDetector;
use crate::fixed_size::fixed_output;
use crate::fixed_size::fixed_window_ok;
use crate::fixed_size::lemma_window_in_range;
use crate::fixed_size::FixedSizeChunker;
use crate::paragraph::ParagraphChunker;
use crate::sentence::SentenceChunker;
use crate::text::blen;
use crate::text::dec_str;
use crate::text::has_non_ws;
use crate::text::lemma_blen_bounds;
use crate::text::usize_to_string;
use crate::traits::ChunkAlgorithm;

verus! {

/// The fallback order of the strategy chain.
#[derive(Debug, Clone, Copy, PartialEq, Eq, Structural)]
pub enum RecursiveStrategy {
    /// Paragraphs first, then sentences, then fixed-size windows.
    ParagraphFirst,
    /// Sentences first, then fixed-size windows.
    SentenceFirst,
}

/// The method label of a chunk accepted at recursion level `level`.
pub open spec fn rec_method(level: nat) -> Seq<char> {
    "recursive_l"@ + dec_str(level)
}

/// How much text a recursion level may receive: repacking a level's
/// output grows a chunk's characters to at most twelve times the input's
/// plus two, and the chain is three levels deep at most.
pub open spec fn rec_budget(level: int) -> int {
    if level <= 0 {
        usize::MAX as int / 1024
    } else if level == 1 {
        12 * (usize::MAX as int / 1024) + 2
    } else {
        144 * (usize::MAX as int / 1024) + 26
    }
}

/// The view of an optional borrowed parent id.
pub open spec fn opt_view(o: Option<&String>) -> Option<Seq<char>> {
    match o {
        Some(p) => Some(p@),
        None => None,
    }
}

/// What recursion promises of each emitted chunk: it was accepted at
/// this level or deeper, its method records that level, a chunk accepted
/// at this very level carries this call's parent id, and one accepted
/// deeper carries the id of the intermediate chunk it was split from.
pub open spec fn rec_chunk_ok(c: Chunk, level: nat, parent: Option<Seq<char>>) -> bool {
    exists|m: nat|
        {
            &&& #[trigger] rec_method(m) == c.metadata.method@
            &&& level <= m
            &&& (m == level ==> match (c.metadata.parent_chunk_id, parent) {
                (Some(a), Some(b)) => a@ == b,
                (None, None) => true,
                _ => false,
            })
            &&& (m > level ==> c.metadata.parent_chunk_id is Some)
        }
}

/// Provenance: a chunk of a top-level recursive run that carries a
/// parent id was accepted at level one or deeper, and its method label
/// records that level.
pub proof fn lemma_provenance(c: Chunk)
    requires
        rec_chunk_ok(c, 0, None),
        c.metadata.parent_chunk_id is Some,
    ensures
        exists|m: nat| m >= 1 && #[trigger] rec_method(m) == c.metadata.method@,
{
    let m = choose|m: nat|
        {
            &&& #[trigger] rec_method(m) == c.metadata.method@
            &&& 0 <= m
            &&& (m == 0 ==> match (c.metadata.parent_chunk_id, None::<Seq<char>>) {
                (Some(a), Some(b)) => a@ == b,
                (None, None) => true,
                _ => false,
            })
            &&& (m > 0 ==> c.metadata.parent_chunk_id is Some)
        };
    assert(m != 0);
    assert(m >= 1 && rec_method(m) == c.metadata.method@);
}

/// The byte extent emitted offsets stay inside, per recursion level:
/// split results are shifted by the intermediate chunk's start, so each
/// level above the last adds its own text's bytes on top of the deeper
/// level's extent.
pub open spec fn off_budget(level: int) -> int {
    if level >= 2 {
        4 * rec_budget(2)
    } else if level == 1 {
        4 * rec_budget(1) + 4 * rec_budget(2)
    } else {
        4 * rec_budget(0) + 4 * rec_budget(1) + 4 * rec_budget(2)
    }
}

/// The full description of a top-level recursive run: the guards, the
/// size bound, non-empty texts, provenance of every chunk, bare section
/// and overlap metadata, exact pass-through of text that already fits,
/// and — under the terminal-punctuation sentence detector, whose pieces
/// never outgrow their source spans — offsets in non-decreasing,
/// non-overlapping order.
pub open spec fn recursive_output(
    text: Seq<char>,
    det: SentenceDetector,
    max: int,
    r: Seq<Chunk>,
) -> bool {
    &&& text.len() == 0 ==> r.len() == 0
    &&& max <= 0 ==> r.len() == 0
    &&& max > 0 ==> forall|k: int| 0 <= k < r.len() ==> (#[trigger] r[k]).text@.len() <= max
    &&& forall|k: int| 0 <= k < r.len() ==> (#[trigger] r[k]).text@.len() > 0
    &&& forall|k: int| 0 <= k < r.len() ==> rec_chunk_ok(#[trigger] r[k], 0, None)
    &&& forall|k: int|
        0 <= k < r.len() ==> (#[trigger] r[k]).metadata.section is None
            && r[k].metadata.overlap_chars is None
    &&& forall|k: int|
        0 <= k < r.len() ==> (#[trigger] r[k]).end as int == r[k].start as int + blen(r[k].text@)
    &&& (0 < text.len() <= max) ==> (r.len() == 1 && r[0].text@ == text && r[0].start == 0
        && r[0].end as int == blen(text) && r[0].metadata.method@ == rec_method(0))
    &&& (has_non_ws(text) && max > 0) ==> r.len() >= 1
    &&& det == SentenceDetector::Regex ==> {
        &&& forall|k: int| 0 <= k < r.len() ==> (#[trigger] r[k]).end as int <= blen(text)
        &&& forall|k: int| 0 <= k && k + 1 < r.len() ==> (#[trigger] r[k]).end <= r[k + 1].start
        &&& forall|i: int, j: int|
            0 <= i <= j < r.len() ==> #[trigger] r[i].start <= #[trigger] r[j].start
    }
}

/// Linked spans sort their starts: if each chunk ends at its start plus
/// its text's bytes and no chunk begins before the previous one ends,
/// the starts are non-decreasing.
proof fn lemma_linked_sorted(r: Seq<Chunk>, i: int, j: int)
    requires
        0 <= i <= j < r.len(),
        forall|k: int|
            0 <= k < r.len() ==> (#[trigger] r[k]).end as int == r[k].start as int + blen(
                r[k].text@,
            ),
        forall|k: int| 0 <= k && k + 1 < r.len() ==> (#[trigger] r[k]).end <= r[k + 1].start,
    ensures
        r[i].start <= r[j].start,
    decreases j - i,
{
    if i < j {
        lemma_linked_sorted(r, i, j - 1);
        assert(r[j - 1].end <= r[j].start);
        assert(r[j - 1].end as int == r[j - 1].start as int + blen(r[j - 1].text@));
    }
}

/// What the recursion guarantees of one emitted chunk: within the size
/// bound, non-empty, correctly labelled, bare metadata, its end one text
/// past its start, inside the level's offset extent.
spec fn rec_piece_ok(c: Chunk, max: int, level: nat, parent: Option<Seq<char>>, budget: int) -> bool {
    &&& c.text@.len() <= max
    &&& c.text@.len() > 0
    &&& rec_chunk_ok(c, level, parent)
    &&& c.metadata.section is None
    &&& c.metadata.overlap_chars is None
    &&& c.end as int == c.start as int + blen(c.text@)
    &&& c.end as int <= budget
}

/// What a level's strategy guarantees of one intermediate chunk.
spec fn init_piece_ok(c: Chunk, level: int, text: Seq<char>) -> bool {
    &&& c.text@.len() > 0
    &&& c.metadata.section is None
    &&& c.metadata.overlap_chars is None
    &&& c.text@.len() as int <= rec_budget(level + 1)
    &&& c.end as int == c.start as int + blen(c.text@)
    &&& c.start as int <= blen(text)
    &&& c.end as int <= off_budget(level)
}

/// A shifted copy of a chunk keeps its provenance, one level up: the
/// metadata is unchanged, and a chunk accepted below the next level down
/// still records a level beyond this one and carries a parent id.
proof fn lemma_rec_ok_shift(
    a: Chunk,
    c: Chunk,
    level: nat,
    parent: Option<Seq<char>>,
    sub_parent: Seq<char>,
)
    requires
        a.metadata == c.metadata,
        rec_chunk_ok(c, level + 1, Some(sub_parent)),
    ensures
        rec_chunk_ok(a, level, parent),
{
    let m = choose|m: nat|
        {
            &&& #[trigger] rec_method(m) == c.metadata.method@
            &&& level + 1 <= m
            &&& (m == level + 1 ==> match (c.metadata.parent_chunk_id, Some(sub_parent)) {
                (Some(x), Some(b)) => x@ == b,
                (None, None) => true,
                _ => false,
            })
            &&& (m > level + 1 ==> c.metadata.parent_chunk_id is Some)
        };
    assert(rec_method(m) == a.metadata.method@ && level <= m && m > level
        && a.metadata.parent_chunk_id is Some);
}

/// Appending a shifted split group preserves the emitted chunks'
/// guarantees: the group's chunks keep their metadata one level up, and
/// their spans, re-based at the intermediate chunk's start, stay inside
/// its span and behind everything emitted before it.
#[verifier::rlimit(100)]
proof fn lemma_shift_group(
    pre: Seq<Chunk>,
    out: Seq<Chunk>,
    subs: Seq<Chunk>,
    interm: Chunk,
    maxi: int,
    level: nat,
    parent: Option<Seq<char>>,
    regex: bool,
    off_hi: int,
    off_lo: int,
    text: Seq<char>,
)
    requires
        out.len() == pre.len() + subs.len(),
        forall|k: int| 0 <= k < pre.len() ==> #[trigger] out[k] == pre[k],
        forall|k: int|
            pre.len() <= k < out.len() ==> {
                let c = subs[k - pre.len()];
                &&& (#[trigger] out[k]).text == c.text
                &&& out[k].metadata == c.metadata
                &&& out[k].start as int == interm.start as int + c.start as int
                &&& out[k].end as int == interm.start as int + c.end as int
            },
        forall|k: int|
            0 <= k < subs.len() ==> rec_piece_ok(
                #[trigger] subs[k],
                maxi,
                level + 1,
                Some(interm.id@),
                off_lo,
            ),
        forall|k: int| 0 <= k < pre.len() ==> rec_piece_ok(#[trigger] pre[k], maxi, level, parent, off_hi),
        interm.start as int + off_lo <= off_hi,
        interm.end as int == interm.start as int + blen(interm.text@),
        regex ==> forall|k: int| 0 <= k < pre.len() ==> (#[trigger] pre[k]).end as int <= blen(text),
        regex ==> forall|k: int|
            0 <= k && k + 1 < pre.len() ==> (#[trigger] pre[k]).end <= pre[k + 1].start,
        regex ==> forall|k: int|
            0 <= k < pre.len() ==> (#[trigger] pre[k]).end as int <= interm.start as int,
        regex ==> forall|k: int|
            0 <= k < subs.len() ==> (#[trigger] subs[k]).end as int <= blen(interm.text@),
        regex ==> forall|k: int|
            0 <= k && k + 1 < subs.len() ==> (#[trigger] subs[k]).end <= subs[k + 1].start,
        regex ==> interm.end as int <= blen(text),
    ensures
        forall|k: int| 0 <= k < out.len() ==> rec_piece_ok(#[trigger] out[k], maxi, level, parent, off_hi),
        regex ==> forall|k: int| 0 <= k < out.len() ==> (#[trigger] out[k]).end as int <= blen(text),
        regex ==> forall|k: int|
            0 <= k && k + 1 < out.len() ==> (#[trigger] out[k]).end <= out[k + 1].start,
        regex ==> forall|k: int|
            0 <= k < out.len() ==> (#[trigger] out[k]).end as int <= interm.end as int,
{
    assert forall|k: int| 0 <= k < out.len() implies rec_piece_ok(
        #[trigger] out[k],
        maxi,
        level,
        parent,
        off_hi,
    ) by {
        if k >= pre.len() {
            let c = subs[k - pre.len()];
            assert(rec_piece_ok(c, maxi, level + 1, Some(interm.id@), off_lo));
            lemma_rec_ok_shift(out[k], c, level, parent, interm.id@);
        }
    }
    if regex {
        assert forall|k: int| 0 <= k < out.len() implies {
            &&& (#[trigger] out[k]).end as int <= blen(text)
            &&& out[k].end as int <= interm.end as int
        } by {
            if k >= pre.len() {
                let c = subs[k - pre.len()];
                assert(c.end as int <= blen(interm.text@));
            } else {
                assert(out[k] == pre[k]);
                assert(pre[k].end as int <= interm.start as int);
                lemma_blen_bounds(interm.text@);
            }
        }
        assert forall|k: int| 0 <= k && k + 1 < out.len() implies (#[trigger] out[k]).end <= out[k
            + 1].start by {
            if k + 1 < pre.len() {
                assert(out[k] == pre[k] && out[k + 1] == pre[k + 1]);
            } else if k + 1 == pre.len() {
                assert(out[k] == pre[k]);
                let c = subs[0];
                lemma_blen_bounds(c.text@);
                assert(rec_piece_ok(c, maxi, level + 1, Some(interm.id@), off_lo));
            } else {
                let c1 = subs[k - pre.len()];
                let c2 = subs[k + 1 - pre.len()];
                assert(c1.end <= c2.start);
            }
        }
    }
}

/// Relabel a chunk that already fits at the current level: its id, text,
/// offsets, section and overlap note are kept; only the method label and
/// the parent id are rewritten. This is the pass-through of the
/// recursion: the chunk itself survives unchanged.
fn relabel_chunk(c: &Chunk, level: usize, parent_id: Option<&String>) -> (r: Chunk)
    ensures
        r.id == c.id,
        r.text == c.text,
        r.start == c.start,
        r.end == c.end,
        r.metadata.section == c.metadata.section,
        r.metadata.overlap_chars == c.metadata.overlap_chars,
        r.metadata.method@ == rec_method(level as nat),
        match (r.metadata.parent_chunk_id, parent_id) {
            (Some(a), Some(b)) => a@ == b@,
            (None, None) => true,
            _ => false,
        },
{
    let parent: Option<String> = match parent_id {
        Some(p) => Some(p.clone()),
        None => None,
    };
    let section: Option<String> = match &c.metadata.section {
        Some(x) => Some(x.clone()),
        None => None,
    };
    let metadata = ChunkMetadata {
        method: rec_method_string(level),
        section,
        overlap_chars: c.metadata.overlap_chars,
        parent_chunk_id: parent,
    };
    Chunk::new(c.id.clone(), c.text.clone(), c.start, c.end, metadata)
}

/// The `recursive_l{level}` method label.
fn rec_method_string(level: usize) -> (r: String)
    ensures
        r@ == rec_method(level as nat),
{
    let mut s = String::from_str("recursive_l");
    let num = usize_to_string(level);
    s.append(num.as_str());
    proof {
        assert(s@ =~= "recursive_l"@ + dec_str(level as nat));
    }
    s
}

/// Recursive chunker: guarantees, alone among the strategies, that every
/// output chunk's text is within `max_size` characters for any positive
/// `max_size`.
pub struct RecursiveChunker {
    strategy: RecursiveStrategy,
    paragraph_chunker: ParagraphChunker,
    sentence_chunker: SentenceChunker,
    fixed_chunker: FixedSizeChunker,
}

impl Default for RecursiveChunker {
    /// The default chain: paragraphs, then sentences, then fixed-size.
    fn default() -> (r: Self)
        ensures
            r.spec_strategy() == RecursiveStrategy::ParagraphFirst,
    {
        RecursiveChunker::new(RecursiveStrategy::ParagraphFirst)
    }
}

impl RecursiveChunker {
    /// The configured fallback order.
    pub closed spec fn spec_strategy(&self) -> RecursiveStrategy {
        self.strategy
    }

    /// Create a recursive chunker with the given fallback order.
    pub fn new(strategy: RecursiveStrategy) -> (r: Self)
        ensures
            r.spec_strategy() == strategy,
    {
        RecursiveChunker {
            strategy,
            paragraph_chunker: ParagraphChunker,
            sentence_chunker: SentenceChunker,
            fixed_chunker: FixedSizeChunker,
        }
    }

    /// Re-chunk `text` at recursion level `level`, re-splitting any
    /// oversized result one level deeper.
    #[verifier::rlimit(100)]
    fn chunk_recursive(
        &self,
        text: &str,
        config: &ChunkConfig,
        parent_id: Option<&String>,
        level: usize,
    ) -> (r: Vec<Chunk>)
        requires
            level <= 2,
            text@.len() as int <= rec_budget(level as int),
        ensures
            text@.len() == 0 ==> r@.len() == 0,
            config.max_size == 0 ==> r@.len() == 0,
            forall|k: int|
                0 <= k < r@.len() ==> rec_piece_ok(
                    #[trigger] r@[k],
                    config.max_size as int,
                    level as nat,
                    opt_view(parent_id),
                    off_budget(level as int),
                ),
            (0 < text@.len() <= config.max_size) ==> (r@.len() == 1 && r@[0].text@ == text@
                && r@[0].start == 0 && r@[0].end as int == blen(text@) && r@[0].metadata.method@
                == rec_method(level as nat)),
            (has_non_ws(text@) && config.max_size > 0) ==> r@.len() >= 1,
            config.sentence_detector == SentenceDetector::Regex ==> {
                &&& forall|k: int| 0 <= k < r@.len() ==> (#[trigger] r@[k]).end as int <= blen(
                    text@,
                )
                &&& forall|k: int|
                    0 <= k && k + 1 < r@.len() ==> (#[trigger] r@[k]).end <= r@[k + 1].start
            },
        decreases 2 - level,
    {
        let ghost maxg = config.max_size as int;
        let mut out: Vec<Chunk> = Vec::new();
        if text.is_empty() || config.max_size == 0 {
            return out;
        }
        let n = text.unicode_len();
        proof {
            lemma_blen_bounds(text@);
        }
        if n <= config.max_size {
            let parent: Option<String> = match parent_id {
                Some(p) => Some(p.clone()),
                None => None,
            };
            let metadata = ChunkMetadata {
                method: rec_method_string(level),
                section: None,
                overlap_chars: None,
                parent_chunk_id: parent,
            };
            let t = String::from_str(text);
            let end = text.len();
            out.push(Chunk::with_uuid(t, 0, end, metadata));
            proof {
                assert(rec_method(level as nat) == out@[0].metadata.method@);
                assert(rec_chunk_ok(out@[0], level as nat, opt_view(parent_id)));
                assert(blen(text@) <= 4 * rec_budget(level as int));
                assert(4 * rec_budget(level as int) <= off_budget(level as int));
                assert(rec_piece_ok(
                    out@[0],
                    config.max_size as int,
                    level as nat,
                    opt_view(parent_id),
                    off_budget(level as int),
                ));
            }
            return out;
        }
        // the strategy for this level, falling back to fixed-size
        let use_para = self.strategy == RecursiveStrategy::ParagraphFirst && level == 0;
        let use_sentence = (self.strategy == RecursiveStrategy::ParagraphFirst && level == 1) || (
        self.strategy == RecursiveStrategy::SentenceFirst && level == 0);
        let initial: Vec<Chunk> = if use_para {
            self.paragraph_chunker.chunk(text, config)
        } else if use_sentence {
            self.sentence_chunker.chunk(text, config)
        } else {
            self.fixed_chunker.chunk(text, config)
        };
        let ghost regex_det = config.sentence_detector == SentenceDetector::Regex;
        proof {
            // what this level's strategy promises of its chunks
            if use_para || use_sentence {
                assert(level <= 1);
                assert forall|k: int| 0 <= k < initial@.len() implies init_piece_ok(
                    #[trigger] initial@[k],
                    level as int,
                    text@,
                ) by {
                    lemma_blen_bounds(initial@[k].text@);
                    assert(blen(initial@[k].text@) <= 3 * blen(text@) + 2);
                }
            } else {
                assert(fixed_output(text@, maxg, initial@));
                assert forall|k: int| 0 <= k < initial@.len() implies init_piece_ok(
                    #[trigger] initial@[k],
                    level as int,
                    text@,
                ) && initial@[k].text@.len() <= config.max_size by {
                    assert(fixed_window_ok(text@, maxg, k, initial@[k]));
                    lemma_window_in_range(text@.len() as int, maxg, k);
                }
            }
            if has_non_ws(text@) {
                // some strategy chunk survives: the text is not whitespace alone
                assert(initial@.len() >= 1);
            }
            if regex_det {
                // the pieces of every level stay within their source spans
                assert(forall|k: int|
                    0 <= k < initial@.len() ==> (#[trigger] initial@[k]).end as int <= blen(text@));
                assert(forall|k: int|
                    0 <= k && k + 1 < initial@.len() ==> (#[trigger] initial@[k]).end <= initial@[k
                        + 1].start);
            }
        }
        let mut i: usize = 0;
        while i < initial.len()
            invariant
                i <= initial@.len(),
                maxg == config.max_size as int,
                config.max_size > 0,
                level <= 2,
                regex_det == (config.sentence_detector == SentenceDetector::Regex),
                text@.len() as int <= rec_budget(level as int),
                blen(text@) <= 4 * text@.len(),
                forall|k: int|
                    0 <= k < initial@.len() ==> init_piece_ok(
                        #[trigger] initial@[k],
                        level as int,
                        text@,
                    ),
                (use_para || use_sentence) ==> level <= 1,
                (use_para || use_sentence) ==> forall|k: int|
                    0 <= k < initial@.len() ==> has_non_ws((#[trigger] initial@[k]).text@),
                out@.len() >= i,
                !(use_para || use_sentence) ==> forall|k: int|
                    0 <= k < initial@.len() ==> (#[trigger] initial@[k]).text@.len()
                        <= config.max_size,
                regex_det ==> forall|k: int|
                    0 <= k < initial@.len() ==> (#[trigger] initial@[k]).end as int <= blen(text@),
                regex_det ==> forall|k: int|
                    0 <= k && k + 1 < initial@.len() ==> (#[trigger] initial@[k]).end <= initial@[k
                        + 1].start,
                forall|k: int|
                    0 <= k < out@.len() ==> rec_piece_ok(
                        #[trigger] out@[k],
                        config.max_size as int,
                        level as nat,
                        opt_view(parent_id),
                        off_budget(level as int),
                    ),
                regex_det ==> forall|k: int|
                    0 <= k < out@.len() ==> (#[trigger] out@[k]).end as int <= blen(text@),
                regex_det ==> forall|k: int|
                    0 <= k && k + 1 < out@.len() ==> (#[trigger] out@[k]).end <= out@[k + 1].start,
                (regex_det && (i as int) < initial@.len()) ==> forall|k: int|
                    0 <= k < out@.len() ==> (#[trigger] out@[k]).end as int <= initial@[
                        i as int
                    ].start as int,
            decreases initial@.len() - i,
        {
            let big = initial[i].text.as_str().unicode_len() > config.max_size;
            if big {
                proof {
                    if !(use_para || use_sentence) {
                        assert(initial@[i as int].text@.len() <= config.max_size);
                        assert(false);
                    }
                }
                let sub = self.chunk_recursive(
                    initial[i].text.as_str(),
                    config,
                    Some(&initial[i].id),
                    level + 1,
                );
                // re-base the split results at the intermediate chunk's
                // own position, so offsets stay within this level's frame
                let base = initial[i].start;
                let ghost pre = out@;
                let ghost subs = sub@;
                proof {
                    assert(base as int <= blen(text@));
                    assert(blen(text@) <= 4 * rec_budget(level as int));
                    assert(4 * rec_budget(level as int) + off_budget(level as int + 1)
                        <= off_budget(level as int));
                    assert(off_budget(level as int) <= usize::MAX as int);
                }
                let mut t: usize = 0;
                while t < sub.len()
                    invariant
                        t <= subs.len(),
                        subs == sub@,
                        pre.len() + t == out@.len(),
                        base as int + off_budget(level as int + 1) <= usize::MAX as int,
                        forall|k: int|
                            0 <= k < subs.len() ==> (#[trigger] subs[k]).end as int == subs[
                                k
                            ].start as int + blen(subs[k].text@),
                        forall|k: int|
                            0 <= k < subs.len() ==> (#[trigger] subs[k]).end as int <= off_budget(
                                level as int + 1,
                            ),
                        forall|k: int| 0 <= k < pre.len() ==> out@[k] == pre[k],
                        forall|k: int|
                            pre.len() <= k < out@.len() ==> {
                                let c = subs[k - pre.len()];
                                &&& (#[trigger] out@[k]).id == c.id
                                &&& out@[k].text == c.text
                                &&& out@[k].metadata == c.metadata
                                &&& out@[k].start as int == base as int + c.start as int
                                &&& out@[k].end as int == base as int + c.end as int
                            },
                    decreases subs.len() - t,
                {
                    let c = &sub[t];
                    let section: Option<String> = match &c.metadata.section {
                        Some(x) => Some(x.clone()),
                        None => None,
                    };
                    let parent: Option<String> = match &c.metadata.parent_chunk_id {
                        Some(x) => Some(x.clone()),
                        None => None,
                    };
                    let metadata = ChunkMetadata {
                        method: c.metadata.method.clone(),
                        section,
                        overlap_chars: c.metadata.overlap_chars,
                        parent_chunk_id: parent,
                    };
                    proof {
                        assert(subs[t as int].end as int <= off_budget(level as int + 1));
                        assert(subs[t as int].end as int >= subs[t as int].start as int) by {
                            lemma_blen_bounds(subs[t as int].text@);
                        }
                    }
                    out.push(
                        Chunk::new(c.id.clone(), c.text.clone(), base + c.start, base + c.end, metadata),
                    );
                    t = t + 1;
                }
                proof {
                    lemma_shift_group(
                        pre,
                        out@,
                        subs,
                        initial@[i as int],
                        config.max_size as int,
                        level as nat,
                        opt_view(parent_id),
                        regex_det,
                        off_budget(level as int),
                        off_budget(level as int + 1),
                        text@,
                    );
                }
            } else {
                out.push(relabel_chunk(&initial[i], level, parent_id));
                proof {
                    let c = out@[out@.len() - 1];
                    assert(rec_method(level as nat) == c.metadata.method@);
                    assert(rec_chunk_ok(c, level as nat, opt_view(parent_id)));
                    assert(rec_piece_ok(
                        c,
                        config.max_size as int,
                        level as nat,
                        opt_view(parent_id),
                        off_budget(level as int),
                    ));
                }
            }
            i = i + 1;
        }
        out
    }

    /// Split `text`, re-chunking oversized results down the strategy
    /// chain; see the trait impl for the guarantees.
    pub fn chunk(&self, text: &str, config: &ChunkConfig) -> (r: Vec<Chunk>)
        requires
            text@.len() <= usize::MAX as nat / 1024,
        ensures
            recursive_output(text@, config.sentence_detector, config.max_size as int, r@),
    {
        let r = self.chunk_recursive(text, config, None, 0);
        proof {
            assert forall|k: int| 0 <= k < r@.len() implies {
                &&& (#[trigger] r@[k]).text@.len() <= config.max_size
                &&& r@[k].text@.len() > 0
                &&& rec_chunk_ok(r@[k], 0, None)
                &&& r@[k].metadata.section is None
                &&& r@[k].metadata.overlap_chars is None
                &&& r@[k].end as int == r@[k].start as int + blen(r@[k].text@)
            } by {
                assert(rec_piece_ok(
                    r@[k],
                    config.max_size as int,
                    0,
                    opt_view(None),
                    off_budget(0),
                ));
            }
            if config.sentence_detector == SentenceDetector::Regex {
                assert forall|i: int, j: int| 0 <= i <= j < r@.len() implies #[trigger] r@[i].start
                    <= #[trigger] r@[j].start by {
                    lemma_linked_sorted(r@, i, j);
                }
            }
        }
        r
    }
}

impl ChunkAlgorithm for RecursiveChunker {
    /// See [`recursive_output`]: every chunk fits in `max_size`
    /// characters when `max_size` is positive; chunks with a parent id
    /// record a recursion level of one or more in their method label;
    /// text that already fits passes through as a single chunk.
    fn chunk(&self, text: &str, config: &ChunkConfig) -> (r: Vec<Chunk>)
        ensures
            recursive_output(text@, config.sentence_detector, config.max_size as int, r@),
    {
        RecursiveChunker::chunk(self, text, config)
    }

    fn name(&self) -> (r: &str)
        ensures
            r@ == "recursive"@,
    {
        "recursive"
    }
}

} // verus!
