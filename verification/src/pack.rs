//! Greedy packing of boundary-delimited units into chunks.
//!
//! Sentence and paragraph chunking share one policy: accumulate units into
//! a buffer joined by a separator; if appending the next unit would push
//! the buffer's byte length past `max_size` and the buffer is non-empty,
//! flush the buffer as a chunk and start over with that unit. A single
//! unit larger than `max_size` is emitted on its own, oversized.

use vstd::prelude::*;

use crate::chunk::Chunk;
use crate::chunk::ChunkMetadata;
use crate::text::blen;
use crate::text::has_non_ws;
use crate::text::lemma_blen_bounds;
use crate::text::lemma_blen_concat;
use crate::text::lemma_has_non_ws_concat;

verus! {

/// A chunk before metadata: its text and byte span.
pub ghost struct RawChunk {
    pub text: Seq<char>,
    pub start: int,
    pub end: int,
}

/// The packer's running state: the open buffer, where it started, and the
/// chunks flushed so far.
pub ghost struct PackSt {
    pub cur: Seq<char>,
    pub cur_start: int,
    pub out: Seq<RawChunk>,
}

/// The state in which packing begins.
pub open spec fn pack_init() -> PackSt {
    PackSt { cur: Seq::empty(), cur_start: 0, out: Seq::empty() }
}

/// The chunk a flush of `st` emits.
pub open spec fn flush_of(st: PackSt) -> RawChunk {
    RawChunk { text: st.cur, start: st.cur_start, end: st.cur_start + blen(st.cur) }
}

/// One packing step: consume the unit starting at byte `start` with text
/// `t`, flushing first when it would not fit behind the open buffer.
pub open spec fn pack_step(st: PackSt, start: int, t: Seq<char>, max: int, sep: Seq<char>) -> PackSt {
    let pot = if st.cur.len() == 0 {
        blen(t) as int
    } else {
        blen(st.cur) + blen(sep) + blen(t) as int
    };
    if pot > max && st.cur.len() > 0 {
        PackSt { cur: t, cur_start: start, out: st.out.push(flush_of(st)) }
    } else if st.cur.len() == 0 {
        PackSt { cur: t, cur_start: start, out: st.out }
    } else {
        PackSt { cur: st.cur + sep + t, cur_start: st.cur_start, out: st.out }
    }
}

/// The chunks that packing the units from index `i` on emits, starting in
/// state `st`; a final non-empty buffer is flushed.
pub open spec fn pack_from(
    units: Seq<(int, Seq<char>)>,
    max: int,
    sep: Seq<char>,
    i: int,
    st: PackSt,
) -> Seq<RawChunk>
    decreases units.len() - i,
{
    if i < 0 || i >= units.len() {
        if st.cur.len() > 0 {
            st.out.push(flush_of(st))
        } else {
            st.out
        }
    } else {
        pack_from(units, max, sep, i + 1, pack_step(st, units[i].0, units[i].1, max, sep))
    }
}

/// The chunks that packing `units` under `max` with separator `sep` emits.
pub open spec fn pack_spec(units: Seq<(int, Seq<char>)>, max: int, sep: Seq<char>) -> Seq<
    RawChunk,
> {
    pack_from(units, max, sep, 0, pack_init())
}

/// The unit list a `Vec` of `(start, end, text)` triples stands for.
pub open spec fn units_view(v: Seq<(usize, usize, String)>) -> Seq<(int, Seq<char>)> {
    Seq::new(v.len(), |k: int| (v[k].0 as int, v[k].2@))
}

/// The full `(start, end, text)` view of a `Vec` of unit triples.
pub open spec fn units3_view(v: Seq<(usize, usize, String)>) -> Seq<(int, int, Seq<char>)> {
    Seq::new(v.len(), |k: int| (v[k].0 as int, v[k].1 as int, v[k].2@))
}

/// The `(start, text)` projection the packer works over.
pub open spec fn starts_texts(u: Seq<(int, int, Seq<char>)>) -> Seq<(int, Seq<char>)> {
    Seq::new(u.len(), |k: int| (u[k].0, u[k].2))
}

/// Units in source order: each is non-empty and its bytes end before the
/// next unit starts, all within `total` bytes.
pub open spec fn units_chain(units: Seq<(int, Seq<char>)>, total: int) -> bool {
    forall|k: int|
        0 <= k < units.len() ==> {
            &&& 0 <= (#[trigger] units[k]).0
            &&& units[k].1.len() >= 1
            &&& units[k].0 + blen(units[k].1) <= if k + 1 < units.len() {
                units[k + 1].0
            } else {
                total
            }
        }
}

/// Chained unit starts grow at least one byte per unit.
proof fn lemma_chain_start_lb(units: Seq<(int, Seq<char>)>, total: int, k: int)
    requires
        units_chain(units, total),
        0 <= k < units.len(),
    ensures
        units[k].0 >= k,
    decreases k,
{
    if k > 0 {
        lemma_chain_start_lb(units, total, k - 1);
        lemma_blen_bounds(units[k - 1].1);
    }
}

/// Every chained unit ends within the `total` byte extent.
pub proof fn lemma_chain_extent(units: Seq<(int, Seq<char>)>, total: int, k: int)
    requires
        units_chain(units, total),
        0 <= k < units.len(),
    ensures
        units[k].0 + blen(units[k].1) <= total,
    decreases units.len() - k,
{
    if k + 1 < units.len() {
        lemma_chain_extent(units, total, k + 1);
        assert(units[k].0 + blen(units[k].1) <= units[k + 1].0);
    }
}

/// A chain of units within `total` bytes holds at most `total + 1` units.
pub proof fn lemma_chain_count(units: Seq<(int, Seq<char>)>, total: int)
    requires
        units_chain(units, total),
        0 <= total,
    ensures
        units.len() <= total + 1,
{
    if units.len() > 0 {
        let k = units.len() - 1;
        lemma_chain_start_lb(units, total, k);
        lemma_blen_bounds(units[k].1);
        assert(units[k].0 + blen(units[k].1) <= total);
        assert(units[k].1.len() >= 1);
    }
}

/// The byte extent that bounds the open buffer after `i` units: the next
/// unit's start, or the whole extent once every unit is consumed.
pub open spec fn chain_bound(units: Seq<(int, Seq<char>)>, total: int, i: int) -> int {
    if i < units.len() {
        units[i].0
    } else {
        total
    }
}

/// Units separated in the source: at least the separator's bytes lie
/// between one unit's end and the next unit's start. The blank-line and
/// terminal-punctuation splitters satisfy this; Unicode segmentation
/// need not (two sentences can abut without whitespace).
pub open spec fn units_gap(units: Seq<(int, Seq<char>)>, sepb: int, total: int) -> bool {
    forall|k: int|
        0 <= k < units.len() && k + 1 < units.len() ==> (#[trigger] units[k]).0 + blen(units[k].1)
            + sepb <= units[k + 1].0
}

/// Every unit's text holds a non-whitespace character; true of all the
/// splitters here, whose units are built around non-empty trims.
pub open spec fn units_non_ws(units: Seq<(int, Seq<char>)>) -> bool {
    forall|k: int| 0 <= k < units.len() ==> has_non_ws((#[trigger] units[k]).1)
}

/// Everything that holds of the packing state after `i` units.
pub open spec fn pack_inv(
    units: Seq<(int, Seq<char>)>,
    total: int,
    sepb: int,
    i: int,
    st: PackSt,
) -> bool {
    &&& i == 0 ==> st == pack_init()
    &&& i > 0 ==> st.cur.len() > 0
    &&& st.cur.len() > 0 ==> 0 <= st.cur_start
    &&& st.cur.len() > 0 ==> st.cur_start + blen(st.cur) <= chain_bound(units, total, i) + 2 * i
    &&& st.cur.len() > 0 ==> st.cur_start <= total
    &&& (st.cur.len() > 0 && i < units.len()) ==> st.cur_start <= units[i].0
    &&& forall|k: int| 0 <= k < st.out.len() ==> (#[trigger] st.out[k]).text.len() > 0
    &&& forall|k: int| 0 <= k < st.out.len() ==> blen((#[trigger] st.out[k]).text) <= 3 * total + 2
    &&& forall|k: int|
        0 <= k < st.out.len() ==> (#[trigger] st.out[k]).end == st.out[k].start + blen(
            st.out[k].text,
        )
    &&& forall|k: int| 0 <= k < st.out.len() ==> 0 <= (#[trigger] st.out[k]).start <= st.cur_start
    &&& forall|k1: int, k2: int|
        0 <= k1 <= k2 < st.out.len() ==> #[trigger] st.out[k1].start <= #[trigger] st.out[k2].start
    &&& units_gap(units, sepb, total) ==> {
        &&& st.cur.len() > 0 ==> st.cur_start + blen(st.cur) <= total
        &&& (st.cur.len() > 0 && i < units.len()) ==> st.cur_start + blen(st.cur) + sepb <= units[
            i
        ].0
        &&& forall|k: int| 0 <= k < st.out.len() ==> (#[trigger] st.out[k]).end <= st.cur_start
        &&& forall|k: int|
            0 <= k && k + 1 < st.out.len() ==> (#[trigger] st.out[k]).end <= st.out[k + 1].start
    }
    &&& units_non_ws(units) ==> {
        &&& st.cur.len() > 0 ==> has_non_ws(st.cur)
        &&& forall|k: int| 0 <= k < st.out.len() ==> has_non_ws((#[trigger] st.out[k]).text)
    }
}

/// Consuming one unit preserves the packing-state properties.
pub proof fn lemma_pack_inv_step(
    units: Seq<(int, Seq<char>)>,
    total: int,
    i: int,
    st: PackSt,
    max: int,
    sep: Seq<char>,
)
    requires
        units_chain(units, total),
        0 <= total,
        blen(sep) <= 2,
        0 <= i < units.len(),
        units.len() <= total + 1,
        pack_inv(units, total, blen(sep) as int, i, st),
    ensures
        pack_inv(units, total, blen(sep) as int, i + 1, pack_step(st, units[i].0, units[i].1, max, sep)),
{
    let st2 = pack_step(st, units[i].0, units[i].1, max, sep);
    lemma_chain_extent(units, total, i);
    lemma_blen_bounds(units[i].1);
    lemma_blen_bounds(st.cur);
    if i + 1 < units.len() {
        assert(units[i].0 + blen(units[i].1) <= units[i + 1].0);
        if units_gap(units, blen(sep) as int, total) {
            assert(units[i].0 + blen(units[i].1) + blen(sep) <= units[i + 1].0);
        }
    }
    let pot = if st.cur.len() == 0 {
        blen(units[i].1) as int
    } else {
        blen(st.cur) + blen(sep) + blen(units[i].1) as int
    };
    if pot > max && st.cur.len() > 0 {
        // a flush: the old buffer becomes a chunk, the unit opens a new one
        assert(blen(flush_of(st).text) <= chain_bound(units, total, i) + 2 * i <= 3 * total + 2);
        assert(st2.out == st.out.push(flush_of(st)));
    } else if st.cur.len() == 0 {
        assert(st2.out == st.out);
    } else {
        lemma_blen_concat(st.cur + sep, units[i].1);
        lemma_blen_concat(st.cur, sep);
        assert(st2.out == st.out);
        assert(st2.cur_start + blen(st2.cur) <= chain_bound(units, total, i + 1) + 2 * (i + 1));
        if units_non_ws(units) {
            lemma_has_non_ws_concat(st.cur, sep);
            lemma_has_non_ws_concat(st.cur + sep, units[i].1);
        }
    }
}

/// The chunks carry the raw texts and spans, the given method name, and no
/// other metadata. Chunk ids are not constrained.
pub open spec fn chunks_match_raw(cs: Seq<Chunk>, rs: Seq<RawChunk>, method: Seq<char>) -> bool {
    &&& cs.len() == rs.len()
    &&& forall|k: int|
        0 <= k < cs.len() ==> {
            &&& (#[trigger] cs[k]).text@ == rs[k].text
            &&& cs[k].start as int == rs[k].start
            &&& cs[k].end as int == rs[k].end
            &&& cs[k].metadata.method@ == method
            &&& cs[k].metadata.section is None
            &&& cs[k].metadata.overlap_chars is None
            &&& cs[k].metadata.parent_chunk_id is None
        }
}

/// Packing at least one unit emits at least one chunk.
pub proof fn lemma_pack_from_len(
    units: Seq<(int, Seq<char>)>,
    max: int,
    sep: Seq<char>,
    total: int,
    i: int,
    st: PackSt,
)
    requires
        units_chain(units, total),
        0 <= i <= units.len(),
    ensures
        pack_from(units, max, sep, i, st).len() >= st.out.len() + if st.cur.len() > 0 || i
            < units.len() {
            1int
        } else {
            0
        },
    decreases units.len() - i,
{
    if i < units.len() {
        let st2 = pack_step(st, units[i].0, units[i].1, max, sep);
        assert(units[i].1.len() >= 1);
        assert(st2.cur.len() > 0);
        assert(st2.out.len() >= st.out.len());
        lemma_pack_from_len(units, max, sep, total, i + 1, st2);
    }
}

/// Chunks matching well-behaved raw chunks inherit their properties.
proof fn lemma_out_props(
    cs: Seq<Chunk>,
    rs: Seq<RawChunk>,
    method: Seq<char>,
    total: int,
    gap: bool,
    nws: bool,
)
    requires
        chunks_match_raw(cs, rs, method),
        nws ==> forall|k: int| 0 <= k < rs.len() ==> has_non_ws((#[trigger] rs[k]).text),
        forall|k: int| 0 <= k < rs.len() ==> (#[trigger] rs[k]).text.len() > 0,
        forall|k: int| 0 <= k < rs.len() ==> blen((#[trigger] rs[k]).text) <= 3 * total + 2,
        forall|k: int| 0 <= k < rs.len() ==> (#[trigger] rs[k]).end == rs[k].start + blen(rs[k].text),
        forall|k1: int, k2: int|
            0 <= k1 <= k2 < rs.len() ==> #[trigger] rs[k1].start <= #[trigger] rs[k2].start,
        forall|k: int| 0 <= k < rs.len() ==> 0 <= (#[trigger] rs[k]).start <= total,
        gap ==> forall|k: int| 0 <= k < rs.len() ==> (#[trigger] rs[k]).end <= total,
        gap ==> forall|k: int|
            0 <= k && k + 1 < rs.len() ==> (#[trigger] rs[k]).end <= rs[k + 1].start,
    ensures
        forall|k: int| 0 <= k < cs.len() ==> (#[trigger] cs[k]).text@.len() > 0,
        forall|k: int| 0 <= k < cs.len() ==> blen((#[trigger] cs[k]).text@) <= 3 * total + 2,
        forall|i: int, j: int|
            0 <= i <= j < cs.len() ==> #[trigger] cs[i].start <= #[trigger] cs[j].start,
        forall|k: int|
            0 <= k < cs.len() ==> (#[trigger] cs[k]).end as int == cs[k].start as int + blen(
                cs[k].text@,
            ),
        forall|k: int| 0 <= k < cs.len() ==> (#[trigger] cs[k]).start as int <= total,
        gap ==> forall|k: int| 0 <= k < cs.len() ==> (#[trigger] cs[k]).end as int <= total,
        gap ==> forall|k: int|
            0 <= k && k + 1 < cs.len() ==> (#[trigger] cs[k]).end <= cs[k + 1].start,
        nws ==> forall|k: int| 0 <= k < cs.len() ==> has_non_ws((#[trigger] cs[k]).text@),
{
}

/// Pack `units` greedily into chunks of at most `max_size` bytes, joined
/// by `sep`, labelling each chunk with `method`. `total` bounds the byte
/// extent of the units.
/// The raw chunks that packing chained units emits are well-behaved:
/// non-empty, bounded, ordered, their ends one buffer past their starts,
/// and, for units with a separator-sized gap, non-overlapping and inside
/// the units' extent.
#[verifier::rlimit(100)]
pub proof fn lemma_pack_from_props(
    units: Seq<(int, Seq<char>)>,
    max: int,
    sep: Seq<char>,
    total: int,
    i: int,
    st: PackSt,
)
    requires
        units_chain(units, total),
        0 <= total,
        blen(sep) <= 2,
        units.len() <= total + 1,
        0 <= i <= units.len(),
        pack_inv(units, total, blen(sep) as int, i, st),
    ensures
        ({
            let rs = pack_from(units, max, sep, i, st);
            &&& forall|k: int| 0 <= k < rs.len() ==> (#[trigger] rs[k]).text.len() > 0
            &&& forall|k: int| 0 <= k < rs.len() ==> blen((#[trigger] rs[k]).text) <= 3 * total + 2
            &&& forall|k: int|
                0 <= k < rs.len() ==> (#[trigger] rs[k]).end == rs[k].start + blen(rs[k].text)
            &&& forall|k1: int, k2: int|
                0 <= k1 <= k2 < rs.len() ==> #[trigger] rs[k1].start <= #[trigger] rs[k2].start
            &&& forall|k: int| 0 <= k < rs.len() ==> 0 <= (#[trigger] rs[k]).start <= total
            &&& units_gap(units, blen(sep) as int, total) ==> {
                &&& forall|k: int| 0 <= k < rs.len() ==> (#[trigger] rs[k]).end <= total
                &&& forall|k: int|
                    0 <= k && k + 1 < rs.len() ==> (#[trigger] rs[k]).end <= rs[k + 1].start
            }
            &&& units_non_ws(units) ==> forall|k: int|
                0 <= k < rs.len() ==> has_non_ws((#[trigger] rs[k]).text)
        }),
    decreases units.len() - i,
{
    if i >= units.len() {
        let rs = pack_from(units, max, sep, i, st);
        if st.cur.len() > 0 {
            lemma_blen_bounds(st.cur);
            assert(rs == st.out.push(flush_of(st)));
            assert(blen(flush_of(st).text) <= total + 2 * i <= 3 * total + 2);
            assert forall|k: int| 0 <= k < rs.len() implies {
                &&& (#[trigger] rs[k]).text.len() > 0
                &&& blen(rs[k].text) <= 3 * total + 2
                &&& rs[k].end == rs[k].start + blen(rs[k].text)
                &&& 0 <= rs[k].start <= total
            } by {
                if k < st.out.len() {
                    assert(rs[k] == st.out[k]);
                } else {
                    assert(rs[k] == flush_of(st));
                }
            }
            assert forall|k1: int, k2: int| 0 <= k1 <= k2 < rs.len() implies #[trigger] rs[k1].start
                <= #[trigger] rs[k2].start by {
                if k2 < st.out.len() {
                    assert(rs[k1] == st.out[k1] && rs[k2] == st.out[k2]);
                } else if k1 < st.out.len() {
                    assert(rs[k1] == st.out[k1] && rs[k2] == flush_of(st));
                }
            }
            if units_gap(units, blen(sep) as int, total) {
                assert forall|k: int| 0 <= k < rs.len() implies (#[trigger] rs[k]).end
                    <= total by {
                    if k < st.out.len() {
                        assert(rs[k] == st.out[k]);
                        assert(st.out[k].end <= st.cur_start <= st.cur_start + blen(st.cur));
                    } else {
                        assert(rs[k] == flush_of(st));
                    }
                }
                assert forall|k: int| 0 <= k && k + 1 < rs.len() implies (#[trigger] rs[k]).end
                    <= rs[k + 1].start by {
                    if k + 1 < st.out.len() {
                        assert(rs[k] == st.out[k] && rs[k + 1] == st.out[k + 1]);
                    } else {
                        assert(rs[k] == st.out[k] && rs[k + 1] == flush_of(st));
                    }
                }
            }
            if units_non_ws(units) {
                assert forall|k: int| 0 <= k < rs.len() implies has_non_ws(
                    (#[trigger] rs[k]).text,
                ) by {
                    if k < st.out.len() {
                        assert(rs[k] == st.out[k]);
                    } else {
                        assert(rs[k] == flush_of(st));
                    }
                }
            }
        } else {
            // nothing was ever buffered: no units, no chunks
            assert(i == 0 && st == pack_init());
            assert(rs == st.out);
            assert(rs.len() == 0);
        }
    } else {
        lemma_pack_inv_step(units, total, i, st, max, sep);
        lemma_pack_from_props(
            units,
            max,
            sep,
            total,
            i + 1,
            pack_step(st, units[i].0, units[i].1, max, sep),
        );
        assert(pack_from(units, max, sep, i, st) == pack_from(
            units,
            max,
            sep,
            i + 1,
            pack_step(st, units[i].0, units[i].1, max, sep),
        ));
    }
}

/// Pack `units` greedily into chunks of at most `max_size` bytes, joined
/// by `sep`, labelling each chunk with `method`. `total` bounds the byte
/// extent of the units.
pub fn pack_units(
    units: &Vec<(usize, usize, String)>,
    max_size: usize,
    sep: &str,
    method: &str,
    Ghost(total): Ghost<int>,
) -> (r: Vec<Chunk>)
    requires
        units_chain(units_view(units@), total),
        0 <= total <= usize::MAX as int / 8,
        blen(sep@) <= 2,
    ensures
        chunks_match_raw(r@, pack_spec(units_view(units@), max_size as int, sep@), method@),
        forall|k: int| 0 <= k < r@.len() ==> (#[trigger] r@[k]).text@.len() > 0,
        forall|k: int| 0 <= k < r@.len() ==> blen((#[trigger] r@[k]).text@) <= 3 * total + 2,
        forall|i: int, j: int|
            0 <= i <= j < r@.len() ==> #[trigger] r@[i].start <= #[trigger] r@[j].start,
        forall|k: int|
            0 <= k < r@.len() ==> (#[trigger] r@[k]).end as int == r@[k].start as int + blen(
                r@[k].text@,
            ),
        forall|k: int| 0 <= k < r@.len() ==> (#[trigger] r@[k]).start as int <= total,
        units_gap(units_view(units@), blen(sep@) as int, total) ==> {
            &&& forall|k: int| 0 <= k < r@.len() ==> (#[trigger] r@[k]).end as int <= total
            &&& forall|k: int|
                0 <= k && k + 1 < r@.len() ==> (#[trigger] r@[k]).end <= r@[k + 1].start
        },
        units@.len() > 0 ==> r@.len() >= 1,
        units_non_ws(units_view(units@)) ==> forall|k: int|
            0 <= k < r@.len() ==> has_non_ws((#[trigger] r@[k]).text@),
{
    let r = pack_units_loop(units, max_size, sep, method, Ghost(total));
    proof {
        lemma_chain_count(units_view(units@), total);
        lemma_pack_from_props(
            units_view(units@),
            max_size as int,
            sep@,
            total,
            0,
            pack_init(),
        );
        lemma_pack_from_len(units_view(units@), max_size as int, sep@, total, 0, pack_init());
        lemma_out_props(
            r@,
            pack_spec(units_view(units@), max_size as int, sep@),
            method@,
            total,
            units_gap(units_view(units@), blen(sep@) as int, total),
            units_non_ws(units_view(units@)),
        );
    }
    r
}

/// The packing loop itself: its result matches the packing fold.
#[verifier::rlimit(100)]
fn pack_units_loop(
    units: &Vec<(usize, usize, String)>,
    max_size: usize,
    sep: &str,
    method: &str,
    Ghost(total): Ghost<int>,
) -> (r: Vec<Chunk>)
    requires
        units_chain(units_view(units@), total),
        0 <= total <= usize::MAX as int / 8,
        blen(sep@) <= 2,
    ensures
        chunks_match_raw(r@, pack_spec(units_view(units@), max_size as int, sep@), method@),
{
    let ghost uv = units_view(units@);
    let ghost maxg = max_size as int;
    let ghost nunits = uv.len() as int;
    proof {
        lemma_chain_count(uv, total);
    }
    let mut out: Vec<Chunk> = Vec::new();
    let mut cur = String::new();
    let mut cur_len: usize = 0;
    let mut cur_start: usize = 0;
    let sep_len = sep.len();
    proof {
        lemma_blen_bounds(sep@);
    }
    let ghost mut st = pack_init();
    let mut i: usize = 0;
    while i < units.len()
        invariant
            uv == units_view(units@),
            uv.len() == units@.len(),
            units_chain(uv, total),
            0 <= total <= usize::MAX as int / 8,
            nunits == uv.len() as int,
            nunits <= total + 1,
            blen(sep@) <= 2,
            sep_len == blen(sep@),
            maxg == max_size as int,
            i <= units@.len(),
            cur@ == st.cur,
            cur_len as int == blen(st.cur),
            st.cur.len() > 0 ==> cur_start as int == st.cur_start,
            pack_inv(uv, total, blen(sep@) as int, i as int, st),
            pack_spec(uv, maxg, sep@) == pack_from(uv, maxg, sep@, i as int, st),
            chunks_match_raw(out@, st.out, method@),
        decreases units@.len() - i,
    {
        let ghost stepped = pack_step(st, uv[i as int].0, uv[i as int].1, maxg, sep@);
        let t_len = units[i].2.as_str().len();
        proof {
            lemma_blen_bounds(st.cur);
            lemma_blen_bounds(uv[i as int].1);
            assert(uv[i as int] == (units@[i as int].0 as int, units@[i as int].2@));
            // the unit's bytes lie inside the chained extent
            lemma_chain_extent(uv, total, i as int);
            assert(0 <= uv[i as int].0 && uv[i as int].0 + blen(uv[i as int].1) <= total);
            assert(t_len as int == blen(uv[i as int].1));
            assert(st.cur.len() > 0 ==> blen(st.cur) <= total + 2 * i);
            lemma_pack_inv_step(uv, total, i as int, st, maxg, sep@);
        }
        let pot = if cur_len == 0 {
            t_len
        } else {
            cur_len + sep_len + t_len
        };
        if pot > max_size && cur_len > 0 {
            // flush the open buffer, then start over with this unit
            let end = cur_start + cur_len;
            let metadata = ChunkMetadata {
                method: String::from_str(method),
                section: None,
                overlap_chars: None,
                parent_chunk_id: None,
            };
            out.push(Chunk::with_uuid(cur, cur_start, end, metadata));
            cur = units[i].2.clone();
            cur_len = t_len;
            cur_start = units[i].0;
            proof {
                assert(stepped.out == st.out.push(flush_of(st)));
                assert(chunks_match_raw(out@, stepped.out, method@));
            }
        } else if cur_len == 0 {
            cur = units[i].2.clone();
            cur_len = t_len;
            cur_start = units[i].0;
        } else {
            cur.append(sep);
            cur.append(units[i].2.as_str());
            proof {
                lemma_blen_concat(st.cur + sep@, uv[i as int].1);
                lemma_blen_concat(st.cur, sep@);
            }
            cur_len = cur_len + sep_len + t_len;
        }
        proof {
            st = stepped;
        }
        i = i + 1;
    }
    if cur_len > 0 {
        let end = cur_start + cur_len;
        let metadata = ChunkMetadata {
            method: String::from_str(method),
            section: None,
            overlap_chars: None,
            parent_chunk_id: None,
        };
        out.push(Chunk::with_uuid(cur, cur_start, end, metadata));
        proof {
            lemma_blen_bounds(st.cur);
            assert(pack_from(uv, maxg, sep@, i as int, st) == st.out.push(flush_of(st)));
            assert(blen(st.cur) <= total + 2 * nunits);
        }
    } else {
        proof {
            assert(pack_from(uv, maxg, sep@, i as int, st) == st.out);
        }
    }
    out
}

} // verus!
