//! Paragraph chunking: split on blank lines, then pack greedily.

use vstd::prelude::*;

use crate::chunk::Chunk;
use crate::config::ChunkConfig;
use crate::pack::chunks_match_raw;
use crate::pack::pack_spec;
use crate::pack::pack_units;
use crate::pack::starts_texts;
use crate::pack::units3_view;
use crate::pack::units_chain;
use crate::pack::units_gap;
use crate::pack::units_view;
use crate::text::blen;
use crate::text::boff;
use crate::text::byte_offset;
use crate::text::has_non_ws;
use crate::text::is_ws;
use crate::text::lemma_has_non_ws_concat;
use crate::text::lemma_trim_non_ws;
use crate::text::lemma_ascii_blen;
use crate::text::lemma_blen_bounds;
use crate::text::lemma_blen_concat;
use crate::text::lemma_blen_subrange;
use crate::text::lemma_boff_full;
use crate::text::scan_non_ws;
use crate::text::trim_bounds;
use crate::text::trim_spec;
use crate::traits::ChunkAlgorithm;

verus! {

/// The start of the first blank-line (`\n\n`) separator at or after `i`,
/// or the length of `s` when none remains.
pub open spec fn find_para_sep(s: Seq<char>, i: int) -> int
    recommends
        0 <= i,
    decreases s.len() - i,
{
    if i < 0 || i + 2 > s.len() {
        s.len() as int
    } else if s[i] == '\n' && s[i + 1] == '\n' {
        i
    } else {
        find_para_sep(s, i + 1)
    }
}

proof fn lemma_find_para_sep(s: Seq<char>, i: int)
    requires
        0 <= i <= s.len(),
    ensures
        i <= find_para_sep(s, i) <= s.len(),
        find_para_sep(s, i) < s.len() ==> find_para_sep(s, i) + 2 <= s.len() && s[find_para_sep(
            s,
            i,
        )] == '\n' && s[find_para_sep(s, i) + 1] == '\n',
    decreases s.len() - i,
{
    if !(i + 2 > s.len()) && !(s[i] == '\n' && s[i + 1] == '\n') {
        lemma_find_para_sep(s, i + 1);
    }
}

/// The packing units of paragraph chunking: the trimmed text of each
/// blank-line-separated part, with its byte span; whitespace-only parts
/// are skipped.
pub open spec fn para_units_from(s: Seq<char>, i: int) -> Seq<(int, int, Seq<char>)>
    recommends
        0 <= i,
    decreases s.len() - i + 2,
    via para_units_decreases
{
    if i < 0 || i > s.len() {
        Seq::empty()
    } else {
        let j = find_para_sep(s, i);
        let part = s.subrange(i, j);
        let t = trim_spec(part);
        let rest = if j < s.len() {
            para_units_from(s, j + 2)
        } else {
            Seq::empty()
        };
        if t.len() == 0 {
            rest
        } else {
            let start = (boff(s, i) + blen(part.subrange(0, scan_non_ws(part, 0)))) as int;
            seq![(start, start + blen(t) as int, t)] + rest
        }
    }
}

#[via_fn]
proof fn para_units_decreases(s: Seq<char>, i: int) {
    if 0 <= i && i <= s.len() {
        lemma_find_para_sep(s, i);
    }
}

/// The packing units of the whole text.
pub open spec fn para_units(s: Seq<char>) -> Seq<(int, int, Seq<char>)> {
    para_units_from(s, 0)
}

/// Paragraph units stand in source order within the text's bytes, and
/// each unit's span is its text's bytes.
#[verifier::rlimit(100)]
pub proof fn lemma_para_units_chain(s: Seq<char>, i: int)
    requires
        0 <= i <= s.len(),
    ensures
        units_chain(starts_texts(para_units_from(s, i)), blen(s) as int),
        units_gap(starts_texts(para_units_from(s, i)), 2, blen(s) as int),
        forall|k: int|
            0 <= k < para_units_from(s, i).len() ==> has_non_ws(
                (#[trigger] para_units_from(s, i)[k]).2,
            ),
        forall|k: int|
            0 <= k < para_units_from(s, i).len() ==> (#[trigger] para_units_from(s, i)[k]).0
                >= boff(s, i),
        forall|k: int|
            0 <= k < para_units_from(s, i).len() ==> (#[trigger] para_units_from(s, i)[k]).1
                == para_units_from(s, i)[k].0 + blen(para_units_from(s, i)[k].2),
    decreases s.len() - i + 2,
{
    lemma_find_para_sep(s, i);
    let j = find_para_sep(s, i);
    let part = s.subrange(i, j);
    let t = trim_spec(part);
    let units = para_units_from(s, i);
    let rest = if j < s.len() {
        para_units_from(s, j + 2)
    } else {
        Seq::<(int, int, Seq<char>)>::empty()
    };
    if j < s.len() {
        lemma_para_units_chain(s, j + 2);
        lemma_blen_subrange(s, j, j + 2);
        lemma_blen_subrange(s, j + 2, s.len() as int);
        // the blank-line separator itself takes two bytes
        assert(s.subrange(j, j + 2) =~= seq![s[j]] + seq![s[j + 1]]);
        lemma_blen_concat(seq![s[j]], seq![s[j + 1]]);
        lemma_ascii_blen('\n');
        assert(blen(s.subrange(j, j + 2)) == 2);
    } else {
        lemma_boff_full(s);
    }
    lemma_blen_subrange(s, i, j);
    lemma_blen_subrange(s, j, s.len() as int);
    lemma_boff_full(s);
    if t.len() == 0 {
        assert(units == rest);
        if j < s.len() {
            assert forall|k: int| 0 <= k < units.len() implies (#[trigger] units[k]).0 >= boff(
                s,
                i,
            ) by {
                assert(units[k].0 >= boff(s, j + 2));
            }
        }
    } else {
        let b = scan_non_ws(part, 0);
        let e = crate::text::trim_end_idx(part);
        crate::text::lemma_scan_non_ws(part, 0);
        crate::text::lemma_trim_end_idx(part, part.len() as int);
        assert(b < e);
        assert(t == part.subrange(b, e));
        assert(!is_ws(part[b]));
        assert(t[0] == part[b]);
        assert(has_non_ws(t));
        lemma_blen_subrange(part, b, e);
        lemma_blen_subrange(part, 0, b);
        lemma_blen_subrange(part, e, part.len() as int);
        lemma_boff_full(part);
        let start = (boff(s, i) + blen(part.subrange(0, b))) as int;
        let u0 = (start, start + blen(t) as int, t);
        assert(units == seq![u0] + rest);
        // the unit's bytes end inside the part
        assert(boff(part, e) == boff(part, b) + blen(t));
        assert(start + blen(t) <= boff(s, i) + blen(part));
        assert(boff(s, j) == boff(s, i) + blen(part));
        let st = starts_texts(units);
        assert forall|k: int| 0 <= k < st.len() implies {
            &&& 0 <= (#[trigger] st[k]).0
            &&& st[k].1.len() >= 1
            &&& st[k].0 + blen(st[k].1) <= if k + 1 < st.len() {
                st[k + 1].0
            } else {
                blen(s) as int
            }
        } by {
            let rst = starts_texts(rest);
            if k == 0 {
                assert(st[0] == (u0.0, u0.2));
                if 1 < st.len() {
                    assert(st[1] == rst[0]);
                    assert(rest[0].0 >= boff(s, j + 2));
                }
            } else {
                assert(st[k] == rst[k - 1]);
                assert(units_chain(rst, blen(s) as int));
                if k + 1 < st.len() {
                    assert(st[k + 1] == rst[k]);
                }
                assert(rst[k - 1].0 + blen(rst[k - 1].1) <= if k < rst.len() {
                    rst[k].0
                } else {
                    blen(s) as int
                });
            }
        }
        assert(units_chain(st, blen(s) as int));
        assert forall|k: int| 0 <= k < st.len() && k + 1 < st.len() implies (#[trigger] st[k]).0
            + blen(st[k].1) + 2 <= st[k + 1].0 by {
            let rst = starts_texts(rest);
            if k == 0 {
                assert(st[0] == (u0.0, u0.2));
                assert(st[1] == rst[0]);
                assert(rest[0].0 >= boff(s, j + 2));
            } else {
                assert(st[k] == rst[k - 1]);
                assert(units_gap(rst, 2, blen(s) as int));
                assert(st[k + 1] == rst[k]);
                assert(rst[k - 1].0 + blen(rst[k - 1].1) + 2 <= rst[k].0);
            }
        }
        assert(units_gap(st, 2, blen(s) as int));
        assert forall|k: int| 0 <= k < units.len() implies (#[trigger] units[k]).0 >= boff(
            s,
            i,
        ) by {
            if k > 0 {
                assert(units[k] == rest[k - 1]);
                if j < s.len() {
                    assert(rest[k - 1].0 >= boff(s, j + 2));
                }
            }
        }
        assert forall|k: int| 0 <= k < units.len() implies (#[trigger] units[k]).1 == units[k].0
            + blen(units[k].2) by {
            if k > 0 {
                assert(units[k] == rest[k - 1]);
            }
        }
        assert forall|k: int| 0 <= k < units.len() implies has_non_ws(
            (#[trigger] units[k]).2,
        ) by {
            if k > 0 {
                assert(units[k] == rest[k - 1]);
            }
        }
    }
}

/// A text holding any non-whitespace character yields at least one
/// paragraph unit.
pub proof fn lemma_para_units_nonempty(s: Seq<char>, i: int)
    requires
        0 <= i <= s.len(),
        has_non_ws(s.subrange(i, s.len() as int)),
    ensures
        para_units_from(s, i).len() > 0,
    decreases s.len() - i + 2,
{
    lemma_find_para_sep(s, i);
    let j = find_para_sep(s, i);
    let part = s.subrange(i, j);
    let t = trim_spec(part);
    if t.len() == 0 {
        lemma_trim_non_ws(part);
        let suf = s.subrange(i, s.len() as int);
        if j >= s.len() {
            assert(part =~= suf);
            assert(false);
        }
        // the non-whitespace character lies past the blank-line separator
        let sep = s.subrange(j, j + 2);
        let suf2 = s.subrange(j + 2, s.len() as int);
        assert(suf =~= (part + sep) + suf2);
        lemma_has_non_ws_concat(part + sep, suf2);
        lemma_has_non_ws_concat(part, sep);
        assert(!has_non_ws(sep)) by {
            if has_non_ws(sep) {
                let k = choose|k: int| 0 <= k < sep.len() && !is_ws(#[trigger] sep[k]);
                assert(sep[k] == s[j + k]);
                assert(s[j + k] == '\n');
            }
        }
        assert(has_non_ws(suf2));
        lemma_para_units_nonempty(s, j + 2);
        assert(para_units_from(s, i) == para_units_from(s, j + 2));
    }
}

/// Split `text` into its paragraph units.
fn split_paragraphs(text: &str) -> (r: Vec<(usize, usize, String)>)
    requires
        text@.len() <= usize::MAX as nat / 32,
    ensures
        units3_view(r@) == para_units(text@),
{
    let n = text.unicode_len();
    let mut out: Vec<(usize, usize, String)> = Vec::new();
    let mut i: usize = 0;
    proof {
        lemma_blen_bounds(text@);
    }
    loop
        invariant_except_break
            para_units(text@) == units3_view(out@) + para_units_from(text@, i as int),
        invariant
            n == text@.len(),
            text@.len() <= usize::MAX as nat / 32,
            i <= n,
        ensures
            units3_view(out@) == para_units(text@),
        decreases n - i,
    {
        let ghost s = text@;
        let mut j = i;
        loop
            invariant
                i <= j <= n,
                n == s.len(),
                s == text@,
                n as nat <= usize::MAX as nat / 32,
                find_para_sep(s, i as int) == find_para_sep(s, j as int),
            ensures
                i <= j <= n,
                n == s.len(),
                j as int == find_para_sep(s, i as int),
            decreases n - j,
        {
            if j + 1 >= n {
                j = n;
                break;
            }
            if text.get_char(j) == '\n' && text.get_char(j + 1) == '\n' {
                break;
            }
            j = j + 1;
        }
        proof {
            lemma_find_para_sep(s, i as int);
        }
        let piece = text.substring_char(i, j);
        let (b, e) = trim_bounds(piece);
        let ghost part = s.subrange(i as int, j as int);
        let ghost rest = if (j as int) < s.len() {
            para_units_from(s, j as int + 2)
        } else {
            Seq::<(int, int, Seq<char>)>::empty()
        };
        if b < e {
            let t = String::from_str(piece.substring_char(b, e));
            proof {
                assert(t@ == trim_spec(part));
                lemma_blen_bounds(s);
                lemma_boff_full(s);
                lemma_blen_subrange(part, b as int, e as int);
                lemma_blen_subrange(s, i as int, j as int);
                lemma_blen_subrange(s, i as int, i as int + b as int);
                lemma_blen_subrange(s, i as int + b as int, s.len() as int);
                assert(part.subrange(0, b as int) =~= s.subrange(i as int, i as int + b as int));
                lemma_blen_subrange(part, 0, b as int);
                assert(blen(t@) <= blen(part) <= blen(s) <= 4 * s.len());
            }
            let start = byte_offset(text, i + b);
            let end = start + t.as_str().len();
            out.push((start, end, t));
            proof {
                let u0 = (
                    (boff(s, i as int) + blen(part.subrange(0, scan_non_ws(part, 0)))) as int,
                    (boff(s, i as int) + blen(part.subrange(0, scan_non_ws(part, 0))) + blen(
                        trim_spec(part),
                    )) as int,
                    trim_spec(part),
                );
                assert(para_units_from(s, i as int) == seq![u0] + rest);
                assert(start as int == u0.0);
                assert(end as int == u0.1);
                assert(units3_view(out@) =~= units3_view(out@.drop_last()) + seq![u0]);
                assert(units3_view(out@) + rest =~= (units3_view(out@.drop_last()) + seq![u0])
                    + rest);
                assert(para_units(s) == units3_view(out@) + rest);
            }
        } else {
            proof {
                assert(trim_spec(part).len() == 0);
                assert(para_units_from(s, i as int) == rest);
            }
        }
        if j >= n {
            proof {
                assert(rest =~= Seq::<(int, int, Seq<char>)>::empty());
                assert(units3_view(out@) + rest =~= units3_view(out@));
            }
            break;
        }
        i = j + 2;
    }
    out
}

/// What paragraph chunking returns: for positive sizes and non-empty
/// input, exactly the greedy blank-line packing of the text.
pub open spec fn paragraph_output(text: Seq<char>, max: int, r: Seq<Chunk>) -> bool {
    if text.len() == 0 || max <= 0 {
        r.len() == 0
    } else {
        chunks_match_raw(r, pack_spec(starts_texts(para_units(text)), max, "\n\n"@), "paragraph"@)
    }
}

/// Paragraph chunker: splits on the blank-line separator and packs the
/// trimmed paragraphs greedily, joining with a blank line; a single
/// paragraph larger than `max_size` is emitted as its own oversized chunk.
pub struct ParagraphChunker;

impl ParagraphChunker {
    /// Split `text` at paragraph boundaries and pack into chunks.
    pub fn chunk(&self, text: &str, config: &ChunkConfig) -> (r: Vec<Chunk>)
        requires
            text@.len() <= usize::MAX as nat / 32,
        ensures
            paragraph_output(text@, config.max_size as int, r@),
            forall|k: int| 0 <= k < r@.len() ==> (#[trigger] r@[k]).text@.len() > 0,
            forall|k: int|
                0 <= k < r@.len() ==> blen((#[trigger] r@[k]).text@) <= 3 * blen(text@) + 2,
            forall|i: int, j: int|
                0 <= i <= j < r@.len() ==> #[trigger] r@[i].start <= #[trigger] r@[j].start,
            forall|k: int|
                0 <= k < r@.len() ==> (#[trigger] r@[k]).end as int == r@[k].start as int + blen(
                    r@[k].text@,
                ),
            forall|k: int| 0 <= k < r@.len() ==> (#[trigger] r@[k]).end as int <= blen(text@),
            forall|k: int|
                0 <= k && k + 1 < r@.len() ==> (#[trigger] r@[k]).end <= r@[k + 1].start,
            forall|k: int| 0 <= k < r@.len() ==> has_non_ws((#[trigger] r@[k]).text@),
            (has_non_ws(text@) && config.max_size > 0) ==> r@.len() >= 1,
    {
        if text.is_empty() || config.max_size == 0 {
            return Vec::new();
        }
        let units = split_paragraphs(text);
        proof {
            lemma_para_units_chain(text@, 0);
            lemma_blen_bounds(text@);
            if has_non_ws(text@) {
                assert(text@.subrange(0, text@.len() as int) =~= text@);
                lemma_para_units_nonempty(text@, 0);
            }
            assert(units_view(units@) =~= starts_texts(para_units(text@)));
            reveal_strlit("\n\n");
            assert("\n\n"@ =~= seq!['\n'] + seq!['\n']);
            lemma_ascii_blen('\n');
            lemma_blen_concat(seq!['\n'], seq!['\n']);
            assert(blen("\n\n"@) == 2);
        }
        pack_units(&units, config.max_size, "\n\n", "paragraph", Ghost(blen(text@) as int))
    }
}

impl ChunkAlgorithm for ParagraphChunker {
    /// See [`paragraph_output`].
    fn chunk(&self, text: &str, config: &ChunkConfig) -> (r: Vec<Chunk>)
        ensures
            paragraph_output(text@, config.max_size as int, r@),
            forall|k: int| 0 <= k < r@.len() ==> (#[trigger] r@[k]).text@.len() > 0,
            forall|k: int|
                0 <= k < r@.len() ==> blen((#[trigger] r@[k]).text@) <= 3 * blen(text@) + 2,
            forall|i: int, j: int|
                0 <= i <= j < r@.len() ==> #[trigger] r@[i].start <= #[trigger] r@[j].start,
            forall|k: int|
                0 <= k < r@.len() ==> (#[trigger] r@[k]).end as int == r@[k].start as int + blen(
                    r@[k].text@,
                ),
            forall|k: int| 0 <= k < r@.len() ==> (#[trigger] r@[k]).end as int <= blen(text@),
            forall|k: int|
                0 <= k && k + 1 < r@.len() ==> (#[trigger] r@[k]).end <= r@[k + 1].start,
            forall|k: int| 0 <= k < r@.len() ==> has_non_ws((#[trigger] r@[k]).text@),
            (has_non_ws(text@) && config.max_size > 0) ==> r@.len() >= 1,
    {
        let r = ParagraphChunker::chunk(self, text, config);
        proof {
            if text@.len() == 0 {
                assert(r@.len() == 0);
            }
        }
        r
    }

    fn name(&self) -> (r: &str)
        ensures
            r@ == "paragraph"@,
    {
        "paragraph"
    }
}

} // verus!
