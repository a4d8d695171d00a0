//! Sentence chunking: split at sentence boundaries, then pack greedily.
//!
//! Two interchangeable boundary detectors: a fast scan for runs of
//! terminal punctuation followed by whitespace or end of text, and
//! Unicode sentence segmentation.

use vstd::prelude::*;

use unicode_segmentation::UnicodeSegmentation;

use crate::chunk::Chunk;
use crate::config::ChunkConfig;
use crate::config::SentenceDetector;
use crate::pack::chunks_match_raw;
use crate::pack::pack_spec;
use crate::pack::pack_units;
use crate::pack::starts_texts;
use crate::pack::units3_view;
use crate::pack::units_chain;
use crate::pack::units_gap;
use crate::pack::units_view;
use crate::text::blen;
use crate::text::boff;
use crate::text::byte_offset;
use crate::text::concat_all;
use crate::text::has_non_ws;
use crate::text::is_ws;
use crate::text::lemma_has_non_ws_concat;
use crate::text::lemma_trim_non_ws;
use crate::text::lemma_ascii_blen;
use crate::text::lemma_blen_bounds;
use crate::text::lemma_blen_subrange;
use crate::text::lemma_boff_full;
use crate::text::lemma_concat_all_bytes;
use crate::text::lemma_scan_non_ws;
use crate::text::lemma_trim_end_idx;
use crate::text::scan_non_ws;
use crate::text::trim_bounds;
use crate::text::trim_end_idx;
use crate::text::trim_end_spec;
use crate::text::trim_spec;
use crate::text::ws_char;
use crate::traits::ChunkAlgorithm;

verus! {

/// Terminal sentence punctuation.
pub open spec fn is_term(c: char) -> bool {
    c == '.' || c == '!' || c == '?'
}

/// Executable test for [`is_term`].
fn term_char(c: char) -> (r: bool)
    ensures
        r == is_term(c),
{
    c == '.' || c == '!' || c == '?'
}

/// The first index at or after `i` holding a non-terminal character, or
/// the length of `s`.
pub open spec fn scan_non_term(s: Seq<char>, i: int) -> int
    recommends
        0 <= i <= s.len(),
    decreases s.len() - i,
{
    if i < 0 || i >= s.len() {
        s.len() as int
    } else if is_term(s[i]) {
        scan_non_term(s, i + 1)
    } else {
        i
    }
}

proof fn lemma_scan_non_term(s: Seq<char>, i: int)
    requires
        0 <= i <= s.len(),
    ensures
        i <= scan_non_term(s, i) <= s.len(),
    decreases s.len() - i,
{
    if i < s.len() && is_term(s[i]) {
        lemma_scan_non_term(s, i + 1);
    }
}

/// The first sentence boundary at or after `p`: a run of terminal
/// punctuation followed by a whitespace run, or a terminal run reaching
/// the end of the text. Returns the span of the boundary match.
pub open spec fn next_match(s: Seq<char>, p: int) -> Option<(int, int)>
    recommends
        0 <= p <= s.len(),
    decreases s.len() - p,
{
    if p < 0 || p >= s.len() {
        None
    } else if is_term(s[p]) {
        let t = scan_non_term(s, p);
        if t >= s.len() {
            Some((p, s.len() as int))
        } else if is_ws(s[t]) {
            Some((p, scan_non_ws(s, t)))
        } else {
            next_match(s, p + 1)
        }
    } else {
        next_match(s, p + 1)
    }
}

proof fn lemma_next_match(s: Seq<char>, p: int)
    requires
        0 <= p <= s.len(),
    ensures
        match next_match(s, p) {
            Some(q) => p <= q.0 < q.1 <= s.len() && is_term(s[q.0]),
            None => true,
        },
    decreases s.len() - p,
{
    if 0 <= p < s.len() {
        if is_term(s[p]) {
            let t = scan_non_term(s, p);
            assert(t == scan_non_term(s, p + 1));
            lemma_scan_non_term(s, p + 1);
            assert(t >= p + 1);
            if t >= s.len() {
            } else if is_ws(s[t]) {
                lemma_scan_non_ws(s, t);
                assert(scan_non_ws(s, t) >= t + 1);
            } else {
                lemma_next_match(s, p + 1);
            }
        } else {
            lemma_next_match(s, p + 1);
        }
    }
}

/// A boundary match ending before the end of the text ends in
/// whitespace: only the end-of-text alternative ends on punctuation.
proof fn lemma_next_match_ws(s: Seq<char>, p: int)
    requires
        0 <= p <= s.len(),
        next_match(s, p) is Some,
        (next_match(s, p)->0).1 < s.len(),
    ensures
        0 < (next_match(s, p)->0).1,
        is_ws(s[(next_match(s, p)->0).1 - 1]),
    decreases s.len() - p,
{
    if 0 <= p < s.len() {
        if is_term(s[p]) {
            let t = scan_non_term(s, p);
            assert(t == scan_non_term(s, p + 1));
            lemma_scan_non_term(s, p + 1);
            if t >= s.len() {
            } else if is_ws(s[t]) {
                lemma_scan_non_ws(s, t);
                assert(scan_non_ws(s, t) >= t + 1);
            } else {
                lemma_next_match_ws(s, p + 1);
            }
        } else {
            lemma_next_match_ws(s, p + 1);
        }
    }
}

/// The packing units the terminal-punctuation detector yields: each
/// sentence runs from the end of the previous boundary match to the end
/// of its own, trailing whitespace trimmed; any final text without
/// terminal punctuation is emitted fully trimmed. Whitespace-only pieces
/// are skipped.
pub open spec fn regex_units_from(s: Seq<char>, last: int) -> Seq<(int, int, Seq<char>)>
    recommends
        0 <= last <= s.len(),
    decreases s.len() - last + 1,
    via regex_units_decreases
{
    if last < 0 || last > s.len() {
        Seq::empty()
    } else {
        match next_match(s, last) {
            None => {
                let rem = s.subrange(last, s.len() as int);
                let t = trim_spec(rem);
                if t.len() == 0 {
                    Seq::empty()
                } else {
                    seq![(boff(s, last) as int, blen(s) as int, t)]
                }
            },
            Some(q) => {
                let piece = s.subrange(last, q.1);
                let rest = regex_units_from(s, q.1);
                if trim_spec(piece).len() == 0 {
                    rest
                } else {
                    seq![(boff(s, last) as int, boff(s, q.1) as int, trim_end_spec(piece))] + rest
                }
            },
        }
    }
}

#[via_fn]
proof fn regex_units_decreases(s: Seq<char>, last: int) {
    if 0 <= last && last <= s.len() {
        lemma_next_match(s, last);
    }
}

/// Sentence units from the terminal-punctuation detector stand in source
/// order within the text's bytes.
#[verifier::rlimit(100)]
pub proof fn lemma_regex_units_chain(s: Seq<char>, last: int)
    requires
        0 <= last <= s.len(),
    ensures
        units_chain(starts_texts(regex_units_from(s, last)), blen(s) as int),
        units_gap(starts_texts(regex_units_from(s, last)), 1, blen(s) as int),
        forall|k: int|
            0 <= k < regex_units_from(s, last).len() ==> has_non_ws(
                (#[trigger] regex_units_from(s, last)[k]).2,
            ),
        forall|k: int|
            0 <= k < regex_units_from(s, last).len() ==> (#[trigger] regex_units_from(s, last)[k]).0
                >= boff(s, last),
    decreases s.len() - last + 1,
{
    lemma_next_match(s, last);
    lemma_boff_full(s);
    lemma_blen_subrange(s, last, s.len() as int);
    let units = regex_units_from(s, last);
    match next_match(s, last) {
        None => {
            let rem = s.subrange(last, s.len() as int);
            let t = trim_spec(rem);
            if t.len() > 0 {
                let b = scan_non_ws(rem, 0);
                let e = trim_end_idx(rem);
                lemma_scan_non_ws(rem, 0);
                lemma_trim_end_idx(rem, rem.len() as int);
                assert(t == rem.subrange(b, e));
                lemma_blen_subrange(rem, b, e);
                assert(blen(t) <= blen(rem));
                assert(!is_ws(rem[b]));
                assert(t[0] == rem[b]);
                assert(has_non_ws(t));
            }
        },
        Some(q) => {
            let piece = s.subrange(last, q.1);
            let rest = regex_units_from(s, q.1);
            lemma_regex_units_chain(s, q.1);
            lemma_blen_subrange(s, last, q.1);
            lemma_blen_subrange(s, q.1, s.len() as int);
            if trim_spec(piece).len() == 0 {
                assert(units == rest);
                assert forall|k: int| 0 <= k < units.len() implies (#[trigger] units[k]).0 >= boff(
                    s,
                    last,
                ) by {
                    assert(units[k].0 >= boff(s, q.1));
                }
            } else {
                let e = trim_end_idx(piece);
                let b = scan_non_ws(piece, 0);
                lemma_scan_non_ws(piece, 0);
                lemma_trim_end_idx(piece, piece.len() as int);
                assert(b < e);
                let te = trim_end_spec(piece);
                assert(te.len() >= 1);
                assert(!is_ws(piece[b]));
                assert(b < te.len() && te[b] == piece[b]);
                assert(has_non_ws(te));
                lemma_blen_subrange(piece, 0, e);
                assert(blen(te) <= blen(piece));
                let u0 = (boff(s, last) as int, boff(s, q.1) as int, te);
                assert(units == seq![u0] + rest);
                let st = starts_texts(units);
                let rst = starts_texts(rest);
                assert forall|k: int| 0 <= k < st.len() implies {
                    &&& 0 <= (#[trigger] st[k]).0
                    &&& st[k].1.len() >= 1
                    &&& st[k].0 + blen(st[k].1) <= if k + 1 < st.len() {
                        st[k + 1].0
                    } else {
                        blen(s) as int
                    }
                } by {
                    if k == 0 {
                        assert(st[0] == (u0.0, u0.2));
                        if 1 < st.len() {
                            assert(st[1] == rst[0]);
                            assert(rest[0].0 >= boff(s, q.1));
                        }
                    } else {
                        assert(st[k] == rst[k - 1]);
                        assert(units_chain(rst, blen(s) as int));
                        if k + 1 < st.len() {
                            assert(st[k + 1] == rst[k]);
                        }
                        assert(rst[k - 1].0 + blen(rst[k - 1].1) <= if k < rst.len() {
                            rst[k].0
                        } else {
                            blen(s) as int
                        });
                    }
                }
                assert forall|k: int| 0 <= k < units.len() implies (#[trigger] units[k]).0 >= boff(
                    s,
                    last,
                ) by {
                    if k > 0 {
                        assert(units[k] == rest[k - 1]);
                        assert(rest[k - 1].0 >= boff(s, q.1));
                    }
                }
                // when further units follow, the boundary match ended in
                // whitespace, and trimming it leaves a byte of slack
                if rest.len() > 0 {
                    if q.1 == s.len() {
                        assert(s.subrange(q.1, s.len() as int) =~= Seq::<char>::empty());
                        assert(trim_spec(s.subrange(q.1, s.len() as int)).len() == 0);
                        assert(rest =~= Seq::<(int, int, Seq<char>)>::empty());
                        assert(false);
                    }
                    lemma_next_match_ws(s, last);
                    assert(piece.len() == q.1 - last);
                    assert(piece[piece.len() - 1] == s[q.1 - 1]);
                    assert(is_ws(piece[piece.len() - 1]));
                    assert(e <= piece.len() - 1);
                    lemma_blen_subrange(piece, e, piece.len() as int);
                    lemma_boff_full(piece);
                    lemma_blen_bounds(piece.subrange(e, piece.len() as int));
                    assert(blen(te) + 1 <= blen(piece));
                }
                assert forall|k: int| 0 <= k < st.len() && k + 1 < st.len() implies (
                #[trigger] st[k]).0 + blen(st[k].1) + 1 <= st[k + 1].0 by {
                    if k == 0 {
                        assert(st[0] == (u0.0, u0.2));
                        assert(st[1] == rst[0]);
                        assert(rest[0].0 >= boff(s, q.1));
                        assert(rest.len() > 0);
                    } else {
                        assert(st[k] == rst[k - 1]);
                        assert(units_gap(rst, 1, blen(s) as int));
                        assert(st[k + 1] == rst[k]);
                        assert(rst[k - 1].0 + blen(rst[k - 1].1) + 1 <= rst[k].0);
                    }
                }
                assert(units_gap(st, 1, blen(s) as int));
                assert forall|k: int| 0 <= k < units.len() implies has_non_ws(
                    (#[trigger] units[k]).2,
                ) by {
                    if k > 0 {
                        assert(units[k] == rest[k - 1]);
                    }
                }
            }
        },
    }
}

/// A text holding any non-whitespace character yields at least one
/// sentence unit under the terminal-punctuation detector.
pub proof fn lemma_regex_units_nonempty(s: Seq<char>, last: int)
    requires
        0 <= last <= s.len(),
        has_non_ws(s.subrange(last, s.len() as int)),
    ensures
        regex_units_from(s, last).len() > 0,
{
    lemma_next_match(s, last);
    match next_match(s, last) {
        None => {
            let rem = s.subrange(last, s.len() as int);
            lemma_trim_non_ws(rem);
        },
        Some(q) => {
            let piece = s.subrange(last, q.1);
            // the boundary's punctuation itself is not whitespace
            assert(is_term(s[q.0]));
            assert(piece[q.0 - last] == s[q.0]);
            assert(!is_ws(piece[q.0 - last]));
            assert(has_non_ws(piece));
            lemma_trim_non_ws(piece);
        },
    }
}

/// Find the first sentence boundary at or after `p`.
fn find_sentence_break(text: &str, p: usize) -> (r: Option<(usize, usize)>)
    requires
        p as int <= text@.len(),
    ensures
        match r {
            Some(q) => next_match(text@, p as int) == Some((q.0 as int, q.1 as int)) && p <= q.0
                < q.1 <= text@.len(),
            None => next_match(text@, p as int) is None,
        },
{
    let ghost s = text@;
    let n = text.unicode_len();
    let mut q = p;
    loop
        invariant
            p <= q <= n,
            n == s.len(),
            s == text@,
            next_match(s, p as int) == next_match(s, q as int),
        decreases n - q,
    {
        if q >= n {
            return None;
        }
        if term_char(text.get_char(q)) {
            let mut t = q + 1;
            proof {
                assert(scan_non_term(s, q as int) == scan_non_term(s, q as int + 1));
            }
            loop
                invariant
                    q < t <= n,
                    n == s.len(),
                    s == text@,
                    scan_non_term(s, q as int) == scan_non_term(s, t as int),
                ensures
                    q < t <= n,
                    n == s.len(),
                    t as int == scan_non_term(s, q as int),
                decreases n - t,
            {
                if t == n {
                    break;
                }
                if !term_char(text.get_char(t)) {
                    break;
                }
                t = t + 1;
            }
            if t >= n {
                proof {
                    lemma_next_match(s, q as int);
                }
                return Some((q, n));
            }
            if ws_char(text.get_char(t)) {
                let mut w = t + 1;
                proof {
                    assert(scan_non_ws(s, t as int) == scan_non_ws(s, t as int + 1));
                }
                loop
                    invariant
                        t < w <= n,
                        n == s.len(),
                        s == text@,
                        scan_non_ws(s, t as int) == scan_non_ws(s, w as int),
                    ensures
                        t < w <= n,
                        n == s.len(),
                        w as int == scan_non_ws(s, t as int),
                    decreases n - w,
                {
                    if w == n {
                        break;
                    }
                    if !ws_char(text.get_char(w)) {
                        break;
                    }
                    w = w + 1;
                }
                proof {
                    lemma_next_match(s, q as int);
                }
                return Some((q, w));
            }
            q = q + 1;
        } else {
            q = q + 1;
        }
    }
}


/// The sentence segments of `s` under Unicode (UAX #29) segmentation.
pub uninterp spec fn sentence_segments(s: Seq<char>) -> Seq<Seq<char>>;

/// Relies on `unicode_segmentation::UnicodeSegmentation::split_sentence_bounds`:
/// the UAX #29 sentence segments of the text. They depend on the
/// characters alone, and their concatenation is the original string, as
/// the crate documents.
#[verifier::external_body]
fn sentence_bounds(text: &str) -> (r: Vec<String>)
    ensures
        r.deep_view() == sentence_segments(text@),
        concat_all(r.deep_view()) == text@,
{
    text.split_sentence_bounds().map(|p| p.to_string()).collect()
}

/// The packing units Unicode segmentation yields: each segment trimmed of
/// surrounding whitespace, empty segments discarded, offsets taken within
/// the bytes already consumed.
pub open spec fn unicode_units_from(segs: Seq<Seq<char>>, k: int, off: int) -> Seq<
    (int, int, Seq<char>),
>
    decreases segs.len() - k,
{
    if k < 0 || k >= segs.len() {
        Seq::empty()
    } else {
        let seg = segs[k];
        let t = trim_spec(seg);
        let rest = unicode_units_from(segs, k + 1, off + blen(seg) as int);
        if t.len() == 0 {
            rest
        } else {
            let start = off + blen(seg.subrange(0, scan_non_ws(seg, 0))) as int;
            seq![(start, start + blen(t) as int, t)] + rest
        }
    }
}

/// Unicode sentence units stand in source order within the consumed
/// bytes.
pub proof fn lemma_unicode_units_chain(segs: Seq<Seq<char>>, k: int, off: int)
    requires
        0 <= k <= segs.len(),
        0 <= off,
        off + blen(concat_all(segs.skip(k))) <= blen(concat_all(segs)),
    ensures
        units_chain(starts_texts(unicode_units_from(segs, k, off)), blen(concat_all(segs)) as int),
        forall|k2: int|
            0 <= k2 < unicode_units_from(segs, k, off).len() ==> has_non_ws(
                (#[trigger] unicode_units_from(segs, k, off)[k2]).2,
            ),
        forall|k2: int|
            0 <= k2 < unicode_units_from(segs, k, off).len() ==> (#[trigger] unicode_units_from(
                segs,
                k,
                off,
            )[k2]).0 >= off,
    decreases segs.len() - k,
{
    if k < segs.len() {
        let seg = segs[k];
        let t = trim_spec(seg);
        let units = unicode_units_from(segs, k, off);
        proof_concat_skip(segs, k);
        let rest = unicode_units_from(segs, k + 1, off + blen(seg) as int);
        lemma_unicode_units_chain(segs, k + 1, off + blen(seg) as int);
        if t.len() == 0 {
            assert(units == rest);
            assert forall|k2: int| 0 <= k2 < units.len() implies (#[trigger] units[k2]).0
                >= off by {
                assert(units[k2].0 >= off + blen(seg));
            }
        } else {
            let b = scan_non_ws(seg, 0);
            let e = trim_end_idx(seg);
            lemma_scan_non_ws(seg, 0);
            lemma_trim_end_idx(seg, seg.len() as int);
            assert(b < e);
            assert(t == seg.subrange(b, e));
            assert(!is_ws(seg[b]));
            assert(t[0] == seg[b]);
            assert(has_non_ws(t));
            lemma_blen_subrange(seg, 0, b);
            lemma_blen_subrange(seg, b, e);
            lemma_blen_subrange(seg, e, seg.len() as int);
            lemma_boff_full(seg);
            let start = off + blen(seg.subrange(0, b)) as int;
            let u0 = (start, start + blen(t) as int, t);
            assert(units == seq![u0] + rest);
            assert(start + blen(t) <= off + blen(seg));
            let st = starts_texts(units);
            let rst = starts_texts(rest);
            assert forall|k2: int| 0 <= k2 < st.len() implies {
                &&& 0 <= (#[trigger] st[k2]).0
                &&& st[k2].1.len() >= 1
                &&& st[k2].0 + blen(st[k2].1) <= if k2 + 1 < st.len() {
                    st[k2 + 1].0
                } else {
                    blen(concat_all(segs)) as int
                }
            } by {
                if k2 == 0 {
                    assert(st[0] == (u0.0, u0.2));
                    if 1 < st.len() {
                        assert(st[1] == rst[0]);
                        assert(rest[0].0 >= off + blen(seg));
                    } else {
                        assert(off + blen(concat_all(segs.skip(k))) <= blen(concat_all(segs)));
                    }
                } else {
                    assert(st[k2] == rst[k2 - 1]);
                    assert(units_chain(rst, blen(concat_all(segs)) as int));
                    if k2 + 1 < st.len() {
                        assert(st[k2 + 1] == rst[k2]);
                    }
                    assert(rst[k2 - 1].0 + blen(rst[k2 - 1].1) <= if k2 < rst.len() {
                        rst[k2].0
                    } else {
                        blen(concat_all(segs)) as int
                    });
                }
            }
            assert forall|k2: int| 0 <= k2 < units.len() implies (#[trigger] units[k2]).0
                >= off by {
                if k2 > 0 {
                    assert(units[k2] == rest[k2 - 1]);
                    assert(rest[k2 - 1].0 >= off + blen(seg));
                }
            }
            assert forall|k2: int| 0 <= k2 < units.len() implies has_non_ws(
                (#[trigger] units[k2]).2,
            ) by {
                if k2 > 0 {
                    assert(units[k2] == rest[k2 - 1]);
                }
            }
        }
    }
}

/// Segments holding any non-whitespace character yield at least one
/// sentence unit under Unicode segmentation.
pub proof fn lemma_unicode_units_nonempty(segs: Seq<Seq<char>>, k: int, off: int)
    requires
        0 <= k <= segs.len(),
        has_non_ws(concat_all(segs.skip(k))),
    ensures
        unicode_units_from(segs, k, off).len() > 0,
    decreases segs.len() - k,
{
    if k >= segs.len() {
        assert(segs.skip(k) =~= Seq::<Seq<char>>::empty());
        assert(concat_all(segs.skip(k)) =~= Seq::<char>::empty());
        let w = choose|w: int|
            0 <= w < concat_all(segs.skip(k)).len() && !is_ws(
                #[trigger] concat_all(segs.skip(k))[w],
            );
        assert(false);
    } else {
        let seg = segs[k];
        assert(segs.skip(k)[0] == seg);
        assert(segs.skip(k).drop_first() =~= segs.skip(k + 1));
        assert(concat_all(segs.skip(k)) == seg + concat_all(segs.skip(k + 1)));
        lemma_has_non_ws_concat(seg, concat_all(segs.skip(k + 1)));
        lemma_trim_non_ws(seg);
        let t = trim_spec(seg);
        if t.len() == 0 {
            assert(has_non_ws(concat_all(segs.skip(k + 1))));
            lemma_unicode_units_nonempty(segs, k + 1, off + blen(seg) as int);
        }
    }
}

/// Splitting off segment `k` splits its bytes off the remaining bytes.
proof fn proof_concat_skip(segs: Seq<Seq<char>>, k: int)
    requires
        0 <= k < segs.len(),
    ensures
        blen(concat_all(segs.skip(k))) == blen(segs[k]) + blen(concat_all(segs.skip(k + 1))),
{
    assert(segs.skip(k)[0] == segs[k]);
    assert(segs.skip(k).drop_first() =~= segs.skip(k + 1));
    assert(concat_all(segs.skip(k)) == segs[k] + concat_all(segs.skip(k + 1)));
    crate::text::lemma_blen_concat(segs[k], concat_all(segs.skip(k + 1)));
}


impl SentenceChunker {
    /// Split `text` into sentence units with the terminal-punctuation
    /// detector.
    fn split_regex(text: &str) -> (r: Vec<(usize, usize, String)>)
        requires
            text@.len() <= usize::MAX as nat / 32,
        ensures
            units3_view(r@) == regex_units_from(text@, 0),
    {
        let ghost s = text@;
        let n = text.unicode_len();
        let mut out: Vec<(usize, usize, String)> = Vec::new();
        let mut last: usize = 0;
        proof {
            lemma_blen_bounds(s);
            lemma_boff_full(s);
        }
        loop
            invariant_except_break
                regex_units_from(s, 0) == units3_view(out@) + regex_units_from(s, last as int),
            invariant
                last <= n,
                n == s.len(),
                s == text@,
                n as nat <= usize::MAX as nat / 32,
            ensures
                units3_view(out@) == regex_units_from(s, 0),
            decreases n - last,
        {
            match find_sentence_break(text, last) {
                None => {
                    if last < n {
                        let piece = text.substring_char(last, n);
                        let (b, e) = trim_bounds(piece);
                        let ghost rem = s.subrange(last as int, n as int);
                        if b < e {
                            let t = String::from_str(piece.substring_char(b, e));
                            proof {
                                lemma_blen_bounds(s);
                                lemma_boff_full(s);
                                lemma_blen_subrange(s, last as int, n as int);
                                lemma_blen_subrange(rem, b as int, e as int);
                                assert(t@ == trim_spec(rem));
                                assert(blen(t@) <= blen(rem) <= blen(s) <= 4 * s.len());
                            }
                            let start = byte_offset(text, last);
                            let end = text.len();
                            out.push((start, end, t));
                            proof {
                                let u0 = (boff(s, last as int) as int, blen(s) as int, trim_spec(rem));
                                assert(regex_units_from(s, last as int) == seq![u0]);
                                assert(units3_view(out@) =~= units3_view(out@.drop_last()) + seq![u0]);
                                assert(units3_view(out@) =~= units3_view(out@.drop_last())
                                    + regex_units_from(s, last as int));
                            }
                        } else {
                            proof {
                                assert(regex_units_from(s, last as int) =~= Seq::<
                                    (int, int, Seq<char>),
                                >::empty());
                                assert(units3_view(out@) + regex_units_from(s, last as int)
                                    =~= units3_view(out@));
                            }
                        }
                    } else {
                        proof {
                            let rem = s.subrange(last as int, n as int);
                            assert(rem =~= Seq::<char>::empty());
                            assert(trim_spec(rem).len() == 0);
                            assert(regex_units_from(s, last as int) =~= Seq::<
                                (int, int, Seq<char>),
                            >::empty());
                            assert(units3_view(out@) + regex_units_from(s, last as int) =~= units3_view(
                                out@,
                            ));
                        }
                    }
                    break;
                },
                Some((_m, e)) => {
                    let piece = text.substring_char(last, e);
                    let (b, hi) = trim_bounds(piece);
                    let ghost pview = s.subrange(last as int, e as int);
                    if b < hi {
                        let t = String::from_str(piece.substring_char(0, hi));
                        proof {
                            lemma_blen_bounds(s);
                            lemma_boff_full(s);
                            lemma_blen_subrange(s, last as int, e as int);
                            lemma_blen_subrange(pview, 0, hi as int);
                            assert(t@ == trim_end_spec(pview));
                            assert(blen(t@) <= blen(pview) <= blen(s) <= 4 * s.len());
                        }
                        let start = byte_offset(text, last);
                        let endb = byte_offset(text, e);
                        out.push((start, endb, t));
                        proof {
                            let u0 = (
                                boff(s, last as int) as int,
                                boff(s, e as int) as int,
                                trim_end_spec(pview),
                            );
                            let rest = regex_units_from(s, e as int);
                            assert(regex_units_from(s, last as int) == seq![u0] + rest);
                            assert(units3_view(out@) =~= units3_view(out@.drop_last()) + seq![u0]);
                            assert(units3_view(out@) + rest =~= (units3_view(out@.drop_last())
                                + seq![u0]) + rest);
                        }
                    } else {
                        proof {
                            assert(regex_units_from(s, last as int) == regex_units_from(s, e as int));
                        }
                    }
                    last = e;
                },
            }
        }
        out
    }

    /// Split `text` into sentence units with Unicode segmentation: for each
    /// non-whitespace segment, its byte span and trimmed text.
    pub fn split_unicode(text: &str) -> (r: Vec<(usize, usize, String)>)
        requires
            text@.len() <= usize::MAX as nat / 32,
        ensures
            units3_view(r@) == unicode_units_from(sentence_segments(text@), 0, 0),
            concat_all(sentence_segments(text@)) == text@,
    {
        let ghost s = text@;
        let segs = sentence_bounds(text);
        let ghost sv = segs.deep_view();
        let mut out: Vec<(usize, usize, String)> = Vec::new();
        let mut off: usize = 0;
        let mut k: usize = 0;
        proof {
            lemma_blen_bounds(s);
            assert(sv.take(0) =~= Seq::<Seq<char>>::empty());
            assert(blen(concat_all(sv.take(0))) == 0);
        }
        while k < segs.len()
            invariant
                k <= segs@.len(),
                sv == segs.deep_view(),
                sv.len() == segs@.len(),
                concat_all(sv) == s,
                s == text@,
                s.len() <= usize::MAX as nat / 32,
                off as int == blen(concat_all(sv.take(k as int))),
                unicode_units_from(sv, 0, 0) == units3_view(out@) + unicode_units_from(
                    sv,
                    k as int,
                    off as int,
                ),
            decreases segs@.len() - k,
        {
            let seg = &segs[k];
            let ghost segv = sv[k as int];
            proof {
                assert(segv == segs@[k as int]@);
                lemma_concat_all_bytes(sv, k as int);
                lemma_blen_bounds(s);
                assert(blen(segv) <= blen(s));
                lemma_blen_bounds(segv);
            }
            let (b, e) = trim_bounds(seg.as_str());
            let seg_bytes = seg.as_str().len();
            if b < e {
                let t = String::from_str(seg.as_str().substring_char(b, e));
                proof {
                    assert(t@ == trim_spec(segv));
                    lemma_blen_subrange(segv, 0, b as int);
                    lemma_blen_subrange(segv, b as int, e as int);
                }
                let start = off + seg.as_str().substring_char(0, b).len();
                let end = start + t.as_str().len();
                out.push((start, end, t));
                proof {
                    let st0 = (off + blen(segv.subrange(0, scan_non_ws(segv, 0))) as int) as int;
                    let u0 = (st0, st0 + blen(trim_spec(segv)) as int, trim_spec(segv));
                    assert(unicode_units_from(sv, k as int, off as int) == seq![u0]
                        + unicode_units_from(sv, k as int + 1, off as int + blen(segv) as int));
                    assert(units3_view(out@) =~= units3_view(out@.drop_last()) + seq![u0]);
                    assert(units3_view(out@) + unicode_units_from(
                        sv,
                        k as int + 1,
                        off as int + blen(segv) as int,
                    ) =~= (units3_view(out@.drop_last()) + seq![u0]) + unicode_units_from(
                        sv,
                        k as int + 1,
                        off as int + blen(segv) as int,
                    ));
                }
            } else {
                proof {
                    assert(trim_spec(segv).len() == 0);
                    assert(unicode_units_from(sv, k as int, off as int) == unicode_units_from(
                        sv,
                        k as int + 1,
                        off as int + blen(segv) as int,
                    ));
                }
            }
            off = off + seg_bytes;
            proof {
                assert(sv.take(k as int + 1).take(k as int) =~= sv.take(k as int));
            }
            k = k + 1;
        }
        proof {
            assert(unicode_units_from(sv, k as int, off as int) =~= Seq::<(int, int, Seq<char>)>::empty());
            assert(units3_view(out@) + unicode_units_from(sv, k as int, off as int) =~= units3_view(
                out@,
            ));
        }
        out
    }
}

/// The packing units of sentence chunking under the chosen detector.
pub open spec fn sentence_units(text: Seq<char>, det: SentenceDetector) -> Seq<
    (int, int, Seq<char>),
> {
    match det {
        SentenceDetector::Regex => regex_units_from(text, 0),
        SentenceDetector::Unicode => unicode_units_from(sentence_segments(text), 0, 0),
    }
}

/// What sentence chunking returns: for positive sizes and non-empty
/// input, exactly the greedy packing of the detector's sentences, joined
/// by single spaces.
pub open spec fn sentence_output(
    text: Seq<char>,
    det: SentenceDetector,
    max: int,
    r: Seq<Chunk>,
) -> bool {
    if text.len() == 0 || max <= 0 {
        r.len() == 0
    } else {
        chunks_match_raw(r, pack_spec(starts_texts(sentence_units(text, det)), max, " "@), "sentence"@)
    }
}

/// Sentence chunker: splits at sentence boundaries with the configured
/// detector and packs sentences greedily, joining with single spaces; a
/// single sentence larger than `max_size` is emitted as its own
/// oversized chunk.
pub struct SentenceChunker;

impl SentenceChunker {
    /// Split `text` at sentence boundaries and pack into chunks.
    pub fn chunk(&self, text: &str, config: &ChunkConfig) -> (r: Vec<Chunk>)
        requires
            text@.len() <= usize::MAX as nat / 32,
        ensures
            sentence_output(text@, config.sentence_detector, config.max_size as int, r@),
            forall|k: int| 0 <= k < r@.len() ==> (#[trigger] r@[k]).text@.len() > 0,
            forall|k: int|
                0 <= k < r@.len() ==> blen((#[trigger] r@[k]).text@) <= 3 * blen(text@) + 2,
            forall|i: int, j: int|
                0 <= i <= j < r@.len() ==> #[trigger] r@[i].start <= #[trigger] r@[j].start,
            forall|k: int|
                0 <= k < r@.len() ==> (#[trigger] r@[k]).end as int == r@[k].start as int + blen(
                    r@[k].text@,
                ),
            forall|k: int| 0 <= k < r@.len() ==> (#[trigger] r@[k]).start as int <= blen(text@),
            config.sentence_detector == SentenceDetector::Regex ==> {
                &&& forall|k: int| 0 <= k < r@.len() ==> (#[trigger] r@[k]).end as int <= blen(
                    text@,
                )
                &&& forall|k: int|
                    0 <= k && k + 1 < r@.len() ==> (#[trigger] r@[k]).end <= r@[k + 1].start
            },
            forall|k: int| 0 <= k < r@.len() ==> has_non_ws((#[trigger] r@[k]).text@),
            (has_non_ws(text@) && config.max_size > 0) ==> r@.len() >= 1,
    {
        if text.is_empty() || config.max_size == 0 {
            return Vec::new();
        }
        let units = match config.sentence_detector {
            SentenceDetector::Regex => SentenceChunker::split_regex(text),
            SentenceDetector::Unicode => SentenceChunker::split_unicode(text),
        };
        proof {
            lemma_blen_bounds(text@);
            match config.sentence_detector {
                SentenceDetector::Regex => {
                    lemma_regex_units_chain(text@, 0);
                    if has_non_ws(text@) {
                        assert(text@.subrange(0, text@.len() as int) =~= text@);
                        lemma_regex_units_nonempty(text@, 0);
                    }
                },
                SentenceDetector::Unicode => {
                    let segs = sentence_segments(text@);
                    assert(segs.skip(0) =~= segs);
                    lemma_unicode_units_chain(segs, 0, 0);
                    if has_non_ws(text@) {
                        lemma_unicode_units_nonempty(segs, 0, 0);
                    }
                },
            }
            assert(units_view(units@) =~= starts_texts(sentence_units(text@, config.sentence_detector)));
            reveal_strlit(" ");
            assert(" "@ =~= seq![' ']);
            lemma_ascii_blen(' ');
            assert(blen(" "@) == 1);
        }
        pack_units(&units, config.max_size, " ", "sentence", Ghost(blen(text@) as int))
    }
}

impl ChunkAlgorithm for SentenceChunker {
    /// See [`sentence_output`].
    fn chunk(&self, text: &str, config: &ChunkConfig) -> (r: Vec<Chunk>)
        ensures
            sentence_output(text@, config.sentence_detector, config.max_size as int, r@),
            forall|k: int| 0 <= k < r@.len() ==> (#[trigger] r@[k]).text@.len() > 0,
            forall|k: int|
                0 <= k < r@.len() ==> blen((#[trigger] r@[k]).text@) <= 3 * blen(text@) + 2,
            forall|i: int, j: int|
                0 <= i <= j < r@.len() ==> #[trigger] r@[i].start <= #[trigger] r@[j].start,
            forall|k: int|
                0 <= k < r@.len() ==> (#[trigger] r@[k]).end as int == r@[k].start as int + blen(
                    r@[k].text@,
                ),
            forall|k: int| 0 <= k < r@.len() ==> (#[trigger] r@[k]).start as int <= blen(text@),
            config.sentence_detector == SentenceDetector::Regex ==> {
                &&& forall|k: int| 0 <= k < r@.len() ==> (#[trigger] r@[k]).end as int <= blen(
                    text@,
                )
                &&& forall|k: int|
                    0 <= k && k + 1 < r@.len() ==> (#[trigger] r@[k]).end <= r@[k + 1].start
            },
            forall|k: int| 0 <= k < r@.len() ==> has_non_ws((#[trigger] r@[k]).text@),
            (has_non_ws(text@) && config.max_size > 0) ==> r@.len() >= 1,
    {
        SentenceChunker::chunk(self, text, config)
    }

    fn name(&self) -> (r: &str)
        ensures
            r@ == "sentence"@,
    {
        "sentence"
    }
}

} // verus!
