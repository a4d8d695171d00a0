//! Fixed-size chunking: consecutive windows of `max_size` characters.

use vstd::prelude::*;

use crate::chunk::Chunk;
use crate::chunk::ChunkMetadata;
use crate::config::ChunkConfig;
use crate::text::blen;
use crate::text::boff;
use crate::text::concat_all;
use crate::text::lemma_blen_subrange;
use crate::text::lemma_ceil_div;
use crate::text::lemma_concat_all_split;
use crate::text::byte_offset;
use crate::traits::ChunkAlgorithm;

verus! {

/// How many windows of `max` characters cover `n` characters.
pub open spec fn fixed_count(n: int, max: int) -> int {
    if max <= 0 || n <= 0 {
        0
    } else {
        (n - 1) / max + 1
    }
}

/// The character span `[lo, hi)` of window `k` over `n` characters.
pub open spec fn window_span(n: int, max: int, k: int) -> (int, int) {
    let lo = k * max;
    let hi = if lo + max <= n {
        lo + max
    } else {
        n
    };
    (lo, hi)
}

/// The text of window `k` of `text`.
pub open spec fn window_text(text: Seq<char>, max: int, k: int) -> Seq<char> {
    let (lo, hi) = window_span(text.len() as int, max, k);
    text.subrange(lo, hi)
}

/// What fixed-size chunking guarantees of chunk `k` of its output: the
/// window's exact characters, its byte offsets, and bare metadata.
pub open spec fn fixed_window_ok(text: Seq<char>, max: int, k: int, c: Chunk) -> bool {
    let (lo, hi) = window_span(text.len() as int, max, k);
    &&& c.text@ == window_text(text, max, k)
    &&& c.start as int == boff(text, lo)
    &&& c.end as int == boff(text, hi)
    &&& c.metadata.method@ == "fixed_size"@
    &&& c.metadata.section is None
    &&& c.metadata.overlap_chars is None
    &&& c.metadata.parent_chunk_id is None
}

/// The full description of fixed-size output.
pub open spec fn fixed_output(text: Seq<char>, max: int, r: Seq<Chunk>) -> bool {
    &&& r.len() == fixed_count(text.len() as int, max)
    &&& forall|k: int| 0 <= k < r.len() ==> #[trigger] fixed_window_ok(text, max, k, r[k])
}

/// Every window of a covered text is a well-formed, non-empty span of at
/// most `max` characters.
pub proof fn lemma_window_in_range(n: int, max: int, k: int)
    requires
        max > 0,
        0 <= k < fixed_count(n, max),
    ensures
        0 <= k * max < n,
        k * max < window_span(n, max, k).1 <= n,
        window_span(n, max, k).1 - k * max <= max,
        k < fixed_count(n, max) - 1 ==> window_span(n, max, k).1 == k * max + max,
{
    let q = (n - 1) / max;
    vstd::arithmetic::div_mod::lemma_fundamental_div_mod(n - 1, max);
    vstd::arithmetic::div_mod::lemma_mod_bound(n - 1, max);
    vstd::arithmetic::mul::lemma_mul_inequality(k, q, max);
    assert(q * max == max * q) by (nonlinear_arith);
    assert(k * max <= q * max);
    assert(k * max >= 0) by (nonlinear_arith)
        requires
            k >= 0,
            max > 0,
    ;
    if k < fixed_count(n, max) - 1 {
        vstd::arithmetic::mul::lemma_mul_inequality(k + 1, q, max);
        assert((k + 1) * max == k * max + max) by (nonlinear_arith);
    }
}

/// The texts of all the windows of `text` under size `max`.
pub open spec fn fixed_texts(text: Seq<char>, max: int) -> Seq<Seq<char>> {
    Seq::new(fixed_count(text.len() as int, max) as nat, |k: int| window_text(text, max, k))
}

proof fn lemma_fixed_concat_prefix(text: Seq<char>, max: int, k: int)
    requires
        max > 0,
        0 <= k <= fixed_count(text.len() as int, max),
    ensures
        concat_all(fixed_texts(text, max).take(k)) == text.subrange(
            0,
            if k < fixed_count(text.len() as int, max) {
                k * max
            } else {
                text.len() as int
            },
        ),
    decreases k,
{
    let n = text.len() as int;
    let cnt = fixed_count(n, max);
    let ts = fixed_texts(text, max);
    if k == 0 {
        assert(ts.take(0) =~= Seq::<Seq<char>>::empty());
        if 0 < cnt {
            assert(0 * max == 0) by (nonlinear_arith);
            assert(text.subrange(0, 0) =~= Seq::<char>::empty());
        } else {
            assert(n <= 0);
            assert(text.subrange(0, n) =~= Seq::<char>::empty());
        }
    } else {
        lemma_fixed_concat_prefix(text, max, k - 1);
        lemma_window_in_range(n, max, k - 1);
        let (lo, hi) = window_span(n, max, k - 1);
        // split the concatenation of the first k window texts at k - 1
        lemma_concat_all_split(ts.take(k), k - 1);
        assert(ts.take(k).take(k - 1) =~= ts.take(k - 1));
        assert(ts.take(k).skip(k - 1) =~= seq![ts[k - 1]]);
        assert(seq![ts[k - 1]].drop_first() =~= Seq::<Seq<char>>::empty());
        assert(concat_all(seq![ts[k - 1]]) == ts[k - 1] + concat_all(
            Seq::<Seq<char>>::empty(),
        ));
        assert(concat_all(seq![ts[k - 1]]) =~= ts[k - 1]);
        let prev_end = if k - 1 < cnt {
            (k - 1) * max
        } else {
            n
        };
        assert(prev_end == lo);
        let this_end = if k < cnt {
            k * max
        } else {
            n
        };
        assert(k * max == (k - 1) * max + max) by (nonlinear_arith);
        if k < cnt {
            lemma_window_in_range(n, max, k);
            assert(hi == this_end);
        } else {
            let q = (n - 1) / max;
            vstd::arithmetic::div_mod::lemma_fundamental_div_mod(n - 1, max);
            vstd::arithmetic::div_mod::lemma_mod_bound(n - 1, max);
            assert(q * max + max >= n) by (nonlinear_arith)
                requires
                    n - 1 == max * q + (n - 1) % max,
                    (n - 1) % max < max,
            ;
            assert((k - 1) * max == q * max);
            assert(hi == n);
        }
        assert(text.subrange(0, lo) + text.subrange(lo, hi) =~= text.subrange(0, hi));
        assert(concat_all(ts.take(k)) =~= text.subrange(0, this_end));
    }
}

/// Fixed-size chunking is a lossless partition: the window texts of any
/// text, under any positive window size, concatenate to the text itself.
pub proof fn lemma_fixed_lossless(text: Seq<char>, max: int)
    requires
        max > 0,
    ensures
        concat_all(fixed_texts(text, max)) == text,
{
    let cnt = fixed_count(text.len() as int, max);
    lemma_fixed_concat_prefix(text, max, cnt);
    assert(fixed_texts(text, max).take(cnt) =~= fixed_texts(text, max));
    if cnt == 0 {
        assert(text.subrange(0, text.len() as int) =~= text);
        assert(text.len() == 0);
        assert(concat_all(fixed_texts(text, max)) =~= text);
    } else {
        assert(text.subrange(0, text.len() as int) =~= text);
    }
}

/// Fixed-size chunker: splits text into consecutive, non-overlapping
/// windows of exactly `max_size` characters; the last window may be
/// shorter. Byte offsets are exact.
pub struct FixedSizeChunker;

impl FixedSizeChunker {
    /// Split `text` into fixed-size windows.
    pub fn chunk(&self, text: &str, config: &ChunkConfig) -> (r: Vec<Chunk>)
        requires
            text@.len() <= usize::MAX as nat / 4,
        ensures
            fixed_output(text@, config.max_size as int, r@),
            forall|i: int, j: int|
                0 <= i <= j < r@.len() ==> #[trigger] r@[i].start <= #[trigger] r@[j].start,
            forall|k: int|
                0 <= k < r@.len() ==> (#[trigger] r@[k]).end as int == r@[k].start as int + blen(
                    r@[k].text@,
                ),
            forall|k: int| 0 <= k < r@.len() ==> (#[trigger] r@[k]).end as int <= blen(text@),
            forall|k: int|
                0 <= k && k + 1 < r@.len() ==> (#[trigger] r@[k]).end <= r@[k + 1].start,
    {
        let ghost tview = text@;
        let ghost max_g = config.max_size as int;
        let mut out: Vec<Chunk> = Vec::new();
        if text.is_empty() || config.max_size == 0 {
            proof {
                lemma_starts_ordered(tview, max_g, out@);
            }
            return out;
        }
        let n = text.unicode_len();
        let max = config.max_size;
        let mut lo: usize = 0;
        let ghost mut k: int = 0;
        while lo < n
            invariant
                n == tview.len(),
                max == config.max_size,
                max_g == max as int,
                max > 0,
                tview == text@,
                tview.len() <= usize::MAX as nat / 4,
                lo <= n,
                k == out@.len(),
                lo as int == if k * max_g <= n as int {
                    k * max_g
                } else {
                    n as int
                },
                k > 0 ==> (k - 1) * max_g < n as int,
                forall|t: int| 0 <= t < k ==> #[trigger] fixed_window_ok(tview, max_g, t, out@[t]),
            decreases n - lo,
        {
            let hi = if n - lo < max {
                n
            } else {
                lo + max
            };
            proof {
                assert(k * max_g == lo as int);
                assert((k + 1) * max_g == k * max_g + max_g) by (nonlinear_arith);
            }
            let piece = String::from_str(text.substring_char(lo, hi));
            let start = byte_offset(text, lo);
            let end = byte_offset(text, hi);
            let metadata = ChunkMetadata {
                method: String::from_str("fixed_size"),
                section: None,
                overlap_chars: None,
                parent_chunk_id: None,
            };
            out.push(Chunk::with_uuid(piece, start, end, metadata));
            proof {
                assert(fixed_window_ok(tview, max_g, k, out@[k as int]));
                k = k + 1;
            }
            lo = hi;
        }
        proof {
            assert(lo == n);
            assert(k * max_g >= n as int);
            assert(n > 0);
            if k == 0 {
                assert(0 * max_g == 0) by (nonlinear_arith);
                assert(false);
            }
            lemma_ceil_div(n as int, max_g, k);
            assert(out@.len() == fixed_count(tview.len() as int, max_g));
            lemma_starts_ordered(tview, max_g, out@);
        }
        out
    }
}

/// Window starts are ordered, consecutive windows touch, and each
/// window's span is exactly its text's bytes, inside the text's extent.
proof fn lemma_starts_ordered(text: Seq<char>, max: int, r: Seq<Chunk>)
    requires
        forall|t: int| 0 <= t < r.len() ==> #[trigger] fixed_window_ok(text, max, t, r[t]),
        r.len() == fixed_count(text.len() as int, max),
    ensures
        forall|i: int, j: int| 0 <= i <= j < r.len() ==> #[trigger] r[i].start <= #[trigger] r[j].start,
        forall|k: int|
            0 <= k < r.len() ==> (#[trigger] r[k]).end as int == r[k].start as int + blen(
                r[k].text@,
            ),
        forall|k: int| 0 <= k < r.len() ==> (#[trigger] r[k]).end as int <= blen(text),
        forall|k: int| 0 <= k && k + 1 < r.len() ==> (#[trigger] r[k]).end <= r[k + 1].start,
{
    assert forall|i: int, j: int| 0 <= i <= j < r.len() implies #[trigger] r[i].start
        <= #[trigger] r[j].start by {
        assert(fixed_window_ok(text, max, i, r[i]));
        assert(fixed_window_ok(text, max, j, r[j]));
        lemma_window_in_range(text.len() as int, max, i);
        lemma_window_in_range(text.len() as int, max, j);
        vstd::arithmetic::mul::lemma_mul_inequality(i, j, max);
        lemma_blen_subrange(text, i * max, j * max);
    }
    assert forall|k: int| 0 <= k < r.len() implies {
        &&& (#[trigger] r[k]).end as int == r[k].start as int + blen(r[k].text@)
        &&& r[k].end as int <= blen(text)
        &&& (k + 1 < r.len() ==> r[k].end <= r[k + 1].start)
    } by {
        assert(fixed_window_ok(text, max, k, r[k]));
        lemma_window_in_range(text.len() as int, max, k);
        let (lo, hi) = window_span(text.len() as int, max, k);
        lemma_blen_subrange(text, lo, hi);
        lemma_blen_subrange(text, hi, text.len() as int);
        crate::text::lemma_boff_full(text);
        if k + 1 < r.len() {
            assert(fixed_window_ok(text, max, k + 1, r[k + 1]));
            assert(hi == k * max + max);
            assert((k + 1) * max == k * max + max) by (nonlinear_arith);
        }
    }
}

impl ChunkAlgorithm for FixedSizeChunker {
    /// See [`fixed_output`]: exact windows, exact byte offsets.
    fn chunk(&self, text: &str, config: &ChunkConfig) -> (r: Vec<Chunk>)
        ensures
            fixed_output(text@, config.max_size as int, r@),
            forall|i: int, j: int|
                0 <= i <= j < r@.len() ==> #[trigger] r@[i].start <= #[trigger] r@[j].start,
            forall|k: int|
                0 <= k < r@.len() ==> (#[trigger] r@[k]).end as int == r@[k].start as int + blen(
                    r@[k].text@,
                ),
            forall|k: int| 0 <= k < r@.len() ==> (#[trigger] r@[k]).end as int <= blen(text@),
            forall|k: int|
                0 <= k && k + 1 < r@.len() ==> (#[trigger] r@[k]).end <= r@[k + 1].start,
    {
        FixedSizeChunker::chunk(self, text, config)
    }

    fn name(&self) -> (r: &str)
        ensures
            r@ == "fixed_size"@,
    {
        "fixed_size"
    }
}

} // verus!
