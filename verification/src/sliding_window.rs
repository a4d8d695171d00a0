//! Sliding-window chunking: fixed-size windows with configurable overlap.

use vstd::prelude::*;

use crate::chunk::Chunk;
use crate::chunk::ChunkMetadata;
use crate::config::ChunkConfig;
use crate::text::boff;
use crate::text::byte_offset;
use crate::text::lemma_blen_subrange;
use crate::text::lemma_ceil_div;
use crate::traits::ChunkAlgorithm;

verus! {

/// The overlap actually used: clamped so that the step stays at least one.
pub open spec fn clamped_overlap(max: int, overlap: int) -> int {
    if overlap < max - 1 {
        overlap
    } else if max - 1 > 0 {
        max - 1
    } else {
        0
    }
}

/// The distance between consecutive window starts.
pub open spec fn sw_step(max: int, overlap: int) -> int {
    max - clamped_overlap(max, overlap)
}

/// How many windows are emitted over `n` characters: windows start every
/// `step` characters until one reaches the end of the text.
pub open spec fn sw_count(n: int, max: int, step: int) -> int {
    if n <= 0 || max <= 0 {
        0
    } else if n <= max {
        1
    } else {
        (n - max - 1) / step + 2
    }
}

/// What sliding-window chunking guarantees of chunk `k`: the window's
/// exact characters and byte offsets, and the overlap note on every
/// window but the first.
pub open spec fn sw_window_ok(text: Seq<char>, max: int, ov: int, step: int, k: int, c: Chunk) -> bool {
    let n = text.len() as int;
    let lo = k * step;
    let hi = if lo + max <= n {
        lo + max
    } else {
        n
    };
    &&& c.text@ == text.subrange(lo, hi)
    &&& c.start as int == boff(text, lo)
    &&& c.end as int == boff(text, hi)
    &&& c.metadata.method@ == "sliding_window"@
    &&& c.metadata.section is None
    &&& c.metadata.parent_chunk_id is None
    &&& c.metadata.overlap_chars == if k == 0 {
        Option::<usize>::None
    } else {
        Option::<usize>::Some(ov as usize)
    }
}

/// The full description of sliding-window output.
pub open spec fn sw_output(text: Seq<char>, max: int, overlap: int, r: Seq<Chunk>) -> bool {
    let ov = clamped_overlap(max, overlap);
    let step = sw_step(max, overlap);
    &&& r.len() == sw_count(text.len() as int, max, step)
    &&& forall|k: int| 0 <= k < r.len() ==> #[trigger] sw_window_ok(text, max, ov, step, k, r[k])
}

/// Sliding-window chunker: windows of `max_size` characters advancing by
/// `max_size - overlap` characters, so consecutive windows share the
/// clamped overlap. The final window may be shorter; `overlap_chars` is
/// `None` on the first window and the clamped overlap on all others.
pub struct SlidingWindowChunker;

impl SlidingWindowChunker {
    /// Split `text` into overlapping windows.
    pub fn chunk(&self, text: &str, config: &ChunkConfig) -> (r: Vec<Chunk>)
        requires
            text@.len() <= usize::MAX as nat / 4,
        ensures
            sw_output(text@, config.max_size as int, config.overlap as int, r@),
            forall|i: int, j: int|
                0 <= i <= j < r@.len() ==> #[trigger] r@[i].start <= #[trigger] r@[j].start,
    {
        let ghost tview = text@;
        let ghost max_g = config.max_size as int;
        let ghost ov_g = clamped_overlap(max_g, config.overlap as int);
        let ghost step_g = sw_step(max_g, config.overlap as int);
        let mut out: Vec<Chunk> = Vec::new();
        if text.is_empty() || config.max_size == 0 {
            return out;
        }
        let max = config.max_size;
        let ov = if config.overlap < max - 1 {
            config.overlap
        } else {
            max - 1
        };
        let step = max - ov;
        assert(step as int == step_g);
        let n = text.unicode_len();
        let mut lo: usize = 0;
        let ghost mut k: int = 0;
        loop
            invariant_except_break
                lo < n,
                lo as int == k * step_g,
                k == out@.len(),
                k > 0 ==> (k - 1) * step_g + max_g < n as int,
            invariant
                n == tview.len(),
                tview == text@,
                tview.len() <= usize::MAX as nat / 4,
                n > 0,
                max == config.max_size,
                max_g == max as int,
                max > 0,
                ov as int == ov_g,
                step as int == step_g,
                1 <= step <= max,
                forall|t: int|
                    0 <= t < out@.len() ==> #[trigger] sw_window_ok(
                        tview,
                        max_g,
                        ov_g,
                        step_g,
                        t,
                        out@[t],
                    ),
            ensures
                out@.len() == sw_count(n as int, max_g, step_g),
            decreases n - lo,
        {
            let hi = if n - lo < max {
                n
            } else {
                lo + max
            };
            let piece = String::from_str(text.substring_char(lo, hi));
            let start = byte_offset(text, lo);
            let end = byte_offset(text, hi);
            let over: Option<usize> = if lo > 0 {
                Some(ov)
            } else {
                None
            };
            let metadata = ChunkMetadata {
                method: String::from_str("sliding_window"),
                section: None,
                overlap_chars: over,
                parent_chunk_id: None,
            };
            out.push(Chunk::with_uuid(piece, start, end, metadata));
            proof {
                if k > 0 {
                    assert(lo > 0) by (nonlinear_arith)
                        requires
                            lo as int == k * step_g,
                            k > 0,
                            step_g >= 1,
                    ;
                } else {
                    assert(0 * step_g == 0) by (nonlinear_arith);
                    assert(lo == 0);
                }
                assert(sw_window_ok(tview, max_g, ov_g, step_g, k, out@[k as int]));
                k = k + 1;
            }
            if hi >= n {
                proof {
                    // the window just pushed reached the end of the text
                    assert((k - 1) * step_g + max_g >= n as int);
                    if n <= max {
                        assert(k == 1) by {
                            if k > 1 {
                                assert((k - 2) * step_g + max_g < n as int);
                                assert((k - 2) * step_g >= 0) by (nonlinear_arith)
                                    requires
                                        k >= 2,
                                        step_g >= 1,
                                ;
                            }
                        }
                    } else {
                        assert((k - 1) * step_g >= n as int - max_g);
                        assert(k >= 2) by {
                            if k == 1 {
                                assert(0 * step_g == 0) by (nonlinear_arith);
                            }
                        }
                        assert((k - 2) * step_g + max_g < n as int);
                        assert((k - 1) * step_g - step_g == (k - 2) * step_g) by (nonlinear_arith);
                        lemma_ceil_div(n as int - max_g, step_g, k - 1);
                        assert(k - 1 == (n as int - max_g - 1) / step_g + 1);
                    }
                    assert(out@.len() == sw_count(n as int, max_g, step_g));
                }
                break;
            }
            proof {
                assert((k - 1) * step_g + max_g < n as int);
                assert(k * step_g == (k - 1) * step_g + step_g) by (nonlinear_arith);
            }
            lo = lo + step;
        }
        proof {
            assert forall|i: int, j: int| 0 <= i <= j < out@.len() implies #[trigger] out@[i].start
                <= #[trigger] out@[j].start by {
                assert(sw_window_ok(tview, max_g, ov_g, step_g, i, out@[i]));
                assert(sw_window_ok(tview, max_g, ov_g, step_g, j, out@[j]));
                vstd::arithmetic::mul::lemma_mul_inequality(i, j, step_g);
                assert(i * step_g >= 0) by (nonlinear_arith)
                    requires
                        i >= 0,
                        step_g >= 1,
                ;
                lemma_window_bounds(tview.len() as int, max_g, step_g, j);
                lemma_blen_subrange(tview, i * step_g, j * step_g);
            }
        }
        out
    }
}

/// Every emitted window starts inside the text.
proof fn lemma_window_bounds(n: int, max: int, step: int, k: int)
    requires
        max > 0,
        1 <= step <= max,
        0 <= k < sw_count(n, max, step),
    ensures
        0 <= k * step < n,
    decreases k,
{
    assert(k * step >= 0) by (nonlinear_arith)
        requires
            k >= 0,
            step >= 0,
    ;
    if n <= max {
        assert(k == 0);
        assert(0 * step == 0) by (nonlinear_arith);
    } else {
        let q = (n - max - 1) / step;
        let kk = q + 1;
        vstd::arithmetic::div_mod::lemma_fundamental_div_mod(n - max - 1, step);
        vstd::arithmetic::div_mod::lemma_mod_bound(n - max - 1, step);
        // the last window start is kk * step <= n - max - 1 + step < n
        vstd::arithmetic::mul::lemma_mul_inequality(k, kk, step);
        assert((q + 1) * step == step * q + step) by (nonlinear_arith);
        assert(kk * step <= n - max - 1 + step);
        assert(k * step < n);
    }
}

impl ChunkAlgorithm for SlidingWindowChunker {
    /// See [`sw_output`]: exact windows, offsets, and overlap metadata.
    fn chunk(&self, text: &str, config: &ChunkConfig) -> (r: Vec<Chunk>)
        ensures
            sw_output(text@, config.max_size as int, config.overlap as int, r@),
            forall|i: int, j: int|
                0 <= i <= j < r@.len() ==> #[trigger] r@[i].start <= #[trigger] r@[j].start,
    {
        SlidingWindowChunker::chunk(self, text, config)
    }

    fn name(&self) -> (r: &str)
        ensures
            r@ == "sliding_window"@,
    {
        "sliding_window"
    }
}

} // verus!
