//! Markdown-aware chunking: fenced code blocks are atomic, headings are
//! section boundaries, and plain text packs greedily between them.

use vstd::prelude::*;

use crate::chunk::Chunk;
use crate::chunk::ChunkMetadata;
use crate::config::ChunkConfig;
use crate::heading::heading_of;
use crate::heading::hashes;
use crate::heading::parse_heading;
use crate::heading::section_label;
use crate::text::blen;
use crate::text::boff;
use crate::text::lemma_blen_bounds;
use crate::text::lemma_blen_concat;
use crate::text::lemma_blen_subrange;
use crate::text::lemma_boff_full;
use crate::text::lemma_lines_from_count;
use crate::text::lemma_lines_from_wf;
use crate::text::lemma_rpos_bound;
use crate::text::lemma_strip_cr_blen;
use crate::text::line_text;
use crate::text::lines_of;
use crate::text::rpos;
use crate::text::scan_non_ws;
use crate::text::split_lines;
use crate::text::trim_bounds;
use crate::text::trim_spec;
use crate::text::ws_char;
use crate::traits::ChunkAlgorithm;

verus! {

/// The Unicode letter-or-digit property of a character.
pub uninterp spec fn is_alphanumeric(c: char) -> bool;

/// Relies on `char::is_alphanumeric`: whether the character is in one of
/// the Unicode letter or number categories, a function of the character
/// alone.
#[verifier::external_body]
fn alphanumeric_char(c: char) -> (r: bool)
    ensures
        r == is_alphanumeric(c),
{
    c.is_alphanumeric()
}

/// A character a fence's language tag may hold.
pub open spec fn is_word_char(c: char) -> bool {
    is_alphanumeric(c) || c == '_'
}

/// The first index at or after `i` holding a character other than `f`.
pub open spec fn scan_run(s: Seq<char>, i: int, f: char) -> int
    recommends
        0 <= i <= s.len(),
    decreases s.len() - i,
{
    if i < 0 || i >= s.len() {
        s.len() as int
    } else if s[i] == f {
        scan_run(s, i + 1, f)
    } else {
        i
    }
}


/// The first index at or after `i` holding a non-word character.
pub open spec fn scan_non_word(s: Seq<char>, i: int) -> int
    recommends
        0 <= i <= s.len(),
    decreases s.len() - i,
{
    if i < 0 || i >= s.len() {
        s.len() as int
    } else if is_word_char(s[i]) {
        scan_non_word(s, i + 1)
    } else {
        i
    }
}


/// A code-fence line: three or more identical backticks or tildes, an
/// optional word-character language tag, then only whitespace.
pub open spec fn fence_line(line: Seq<char>) -> bool {
    &&& line.len() >= 3
    &&& (line[0] == '`' || line[0] == '~')
    &&& {
        let r = scan_run(line, 0, line[0]);
        &&& r >= 3
        &&& scan_non_ws(line, scan_non_word(line, r)) == line.len()
    }
}

/// Executable fence-line test.
fn is_fence_line(line: &str) -> (r: bool)
    ensures
        r == fence_line(line@),
{
    let ghost s = line@;
    let n = line.unicode_len();
    if n < 3 {
        return false;
    }
    let f = line.get_char(0);
    if !(f == '`' || f == '~') {
        return false;
    }
    let mut r: usize = 0;
    loop
        invariant
            r <= n,
            n == s.len(),
            s == line@,
            f == s[0],
            scan_run(s, 0, f) == scan_run(s, r as int, f),
        ensures
            r <= n,
            r as int == scan_run(s, 0, f),
        decreases n - r,
    {
        if r == n {
            break;
        }
        if line.get_char(r) != f {
            break;
        }
        r = r + 1;
    }
    if r < 3 {
        return false;
    }
    let mut w = r;
    loop
        invariant
            r <= w <= n,
            n == s.len(),
            s == line@,
            scan_non_word(s, r as int) == scan_non_word(s, w as int),
        ensures
            r <= w <= n,
            w as int == scan_non_word(s, r as int),
        decreases n - w,
    {
        if w == n {
            break;
        }
        if !alphanumeric_char(line.get_char(w)) && line.get_char(w) != '_' {
            break;
        }
        w = w + 1;
    }
    let mut t = w;
    loop
        invariant
            w <= t <= n,
            n == s.len(),
            s == line@,
            scan_non_ws(s, w as int) == scan_non_ws(s, t as int),
        ensures
            w <= t <= n,
            t as int == scan_non_ws(s, w as int),
        decreases n - t,
    {
        if t == n {
            break;
        }
        if !ws_char(line.get_char(t)) {
            break;
        }
        t = t + 1;
    }
    t == n
}

/// A parsed markdown block.
pub ghost enum BlockRec {
    /// A fenced code block, fences included, atomic.
    Code { content: Seq<char>, start: int, end: int },
    /// A heading line's title and level.
    Heading { title: Seq<char>, level: int, start: int },
    /// A run of plain text lines.
    Text { content: Seq<char>, start: int },
}

/// The content a block carries.
pub open spec fn block_content(b: BlockRec) -> Seq<char> {
    match b {
        BlockRec::Code { content, .. } => content,
        BlockRec::Heading { title, .. } => title,
        BlockRec::Text { content, .. } => content,
    }
}

/// The block parser's state.
pub ghost struct MdSt {
    /// The reported position and line-start char index of the open fence.
    pub in_code: Option<(int, int)>,
    /// Where the pending text run started, once a plain line was seen.
    pub pend_start: Option<int>,
    /// The pending text run.
    pub pend_text: Seq<char>,
    pub out: Seq<BlockRec>,
}

/// Flush the pending text run, if it holds anything, at fallback
/// position `p`.
pub open spec fn md_flush_pending(st: MdSt, p: int) -> Seq<BlockRec> {
    if st.pend_text.len() > 0 {
        st.out.push(
            BlockRec::Text {
                content: st.pend_text,
                start: if st.pend_start is Some {
                    st.pend_start->0
                } else {
                    p
                },
            },
        )
    } else {
        st.out
    }
}

/// Consume line `k` of `s`.
pub open spec fn md_step(s: Seq<char>, k: int, st: MdSt) -> MdSt {
    let line = line_text(s, k);
    let p = rpos(s, k);
    let a = lines_of(s)[k].0;
    let b = lines_of(s)[k].1;
    if fence_line(line) {
        if st.in_code is None {
            MdSt {
                in_code: Some((p, a)),
                pend_start: None,
                pend_text: Seq::empty(),
                out: md_flush_pending(st, p),
            }
        } else {
            let c = st.in_code->0;
            MdSt {
                in_code: None,
                pend_start: st.pend_start,
                pend_text: st.pend_text,
                out: st.out.push(
                    BlockRec::Code {
                        content: s.subrange(c.1, b),
                        start: c.0,
                        end: p + blen(line) as int,
                    },
                ),
            }
        }
    } else if st.in_code is Some {
        st
    } else {
        match heading_of(line) {
            Some(hl) => MdSt {
                in_code: None,
                pend_start: None,
                pend_text: Seq::empty(),
                out: md_flush_pending(st, p).push(
                    BlockRec::Heading { title: hl.1, level: hl.0, start: p },
                ),
            },
            None => MdSt {
                in_code: None,
                pend_start: if st.pend_start is None {
                    Some(p)
                } else {
                    st.pend_start
                },
                pend_text: if st.pend_text.len() == 0 {
                    line
                } else {
                    st.pend_text + seq!['\n'] + line
                },
                out: st.out,
            },
        }
    }
}

/// The blocks of `s` from line `k` on: an unclosed fence is closed at the
/// end of the input; otherwise the pending text is flushed.
pub open spec fn md_fold(s: Seq<char>, k: int, st: MdSt) -> Seq<BlockRec>
    decreases lines_of(s).len() - k,
{
    if k < 0 || k >= lines_of(s).len() {
        if st.in_code is Some {
            let c = st.in_code->0;
            st.out.push(
                BlockRec::Code {
                    content: s.subrange(c.1, s.len() as int),
                    start: c.0,
                    end: blen(s) as int,
                },
            )
        } else {
            md_flush_pending(st, 0)
        }
    } else {
        md_fold(s, k + 1, md_step(s, k, st))
    }
}

/// The blocks of `s`.
pub open spec fn md_blocks(s: Seq<char>) -> Seq<BlockRec> {
    md_fold(s, 0, MdSt { in_code: None, pend_start: None, pend_text: Seq::empty(), out: Seq::empty() })
}

/// A parsed markdown block, executable form.
enum Block {
    Code { content: String, start: usize, end: usize },
    Heading { title: String, level: usize, start: usize },
    Text { content: String, start: usize },
}

/// The executable blocks stand for the spec blocks.
spec fn blocks_match(xs: Seq<Block>, rs: Seq<BlockRec>) -> bool {
    &&& xs.len() == rs.len()
    &&& forall|k: int|
        0 <= k < xs.len() ==> match (#[trigger] xs[k], rs[k]) {
            (Block::Code { content, start, end }, BlockRec::Code { content: c2, start: s2, end: e2 }) => {
                content@ == c2 && start as int == s2 && end as int == e2
            },
            (
                Block::Heading { title, level, start },
                BlockRec::Heading { title: t2, level: l2, start: s2 },
            ) => { title@ == t2 && level as int == l2 && start as int == s2 },
            (Block::Text { content, start }, BlockRec::Text { content: c2, start: s2 }) => {
                content@ == c2 && start as int == s2
            },
            _ => false,
        }
}

/// Parse `text` into markdown blocks.
#[verifier::rlimit(100)]
fn parse_blocks(text: &str) -> (r: Vec<Block>)
    requires
        text@.len() <= usize::MAX as nat / 128,
    ensures
        blocks_match(r@, md_blocks(text@)),
{
    let ghost s = text@;
    let lines = split_lines(text);
    let mut out: Vec<Block> = Vec::new();
    let mut in_code: bool = false;
    let mut code_pos: usize = 0;
    let mut code_char: usize = 0;
    let mut pend_started: bool = false;
    let mut pend_start: usize = 0;
    let mut pend_text: String = String::new();
    let mut pos: usize = 0;
    let ghost mut st = MdSt {
        in_code: None,
        pend_start: None,
        pend_text: Seq::empty(),
        out: Seq::empty(),
    };
    let mut k: usize = 0;
    while k < lines.len()
        invariant
            s == text@,
            s.len() <= usize::MAX as nat / 128,
            lines@.len() == lines_of(s).len(),
            forall|t: int|
                0 <= t < lines@.len() ==> {
                    let (a, b) = #[trigger] lines_of(s)[t];
                    &&& lines@[t].0 as int == a
                    &&& lines@[t].1 as int == b
                    &&& lines@[t].2@ == line_text(s, t)
                },
            k <= lines@.len(),
            pos as int == rpos(s, k as int),
            md_blocks(s) == md_fold(s, k as int, st),
            in_code <==> st.in_code is Some,
            in_code ==> {
                &&& code_pos as int == (st.in_code->0).0
                &&& code_char as int == (st.in_code->0).1
                &&& 0 <= (st.in_code->0).1 <= s.len()
                &&& (st.in_code->0).1 <= (if (k as int) < lines_of(s).len() {
                    lines_of(s)[k as int].0
                } else {
                    s.len() as int
                })
            },
            pend_started <==> st.pend_start is Some,
            pend_started ==> pend_start as int == st.pend_start->0,
            pend_text@ == st.pend_text,
            blocks_match(out@, st.out),
        decreases lines@.len() - k,
    {
        proof {
            lemma_lines_from_wf(s, 0);
            lemma_lines_from_count(s, 0);
            lemma_blen_bounds(s);
            lemma_rpos_bound(s, k as int);
            lemma_rpos_bound(s, k as int + 1);
            lemma_strip_cr_blen(s.subrange(lines_of(s)[k as int].0, lines_of(s)[k as int].1));
            lemma_blen_subrange(s, lines_of(s)[k as int].0, lines_of(s)[k as int].1);
        }
        let ghost stepped = md_step(s, k as int, st);
        let line_bytes = lines[k].2.as_str().len();
        if is_fence_line(lines[k].2.as_str()) {
            if !in_code {
                if !pend_text.as_str().is_empty() {
                    let start = if pend_started {
                        pend_start
                    } else {
                        pos
                    };
                    out.push(Block::Text { content: pend_text, start });
                }
                pend_text = String::new();
                pend_started = false;
                in_code = true;
                code_pos = pos;
                code_char = lines[k].0;
            } else {
                let content = String::from_str(text.substring_char(code_char, lines[k].1));
                let end = pos + line_bytes;
                out.push(Block::Code { content, start: code_pos, end });
                in_code = false;
            }
        } else if in_code {
        } else {
            match parse_heading(lines[k].2.as_str()) {
                Some((hlevel, htitle)) => {
                    if !pend_text.as_str().is_empty() {
                        let start = if pend_started {
                            pend_start
                        } else {
                            pos
                        };
                        out.push(Block::Text { content: pend_text, start });
                    }
                    pend_text = String::new();
                    pend_started = false;
                    out.push(Block::Heading { title: htitle, level: hlevel, start: pos });
                },
                None => {
                    if !pend_started {
                        pend_started = true;
                        pend_start = pos;
                    }
                    if !pend_text.as_str().is_empty() {
                        pend_text.append("\n");
                        proof {
                            reveal_strlit("\n");
                            assert("\n"@ =~= seq!['\n']);
                        }
                    }
                    pend_text.append(lines[k].2.as_str());
                },
            }
        }
        proof {
            st = stepped;
        }
        pos = pos + line_bytes + 1;
        k = k + 1;
    }
    if in_code {
        let n = text.unicode_len();
        let content = String::from_str(text.substring_char(code_char, n));
        let end = text.len();
        proof {
            lemma_blen_bounds(s);
            assert(content@ == s.subrange(code_char as int, s.len() as int));
        }
        out.push(Block::Code { content, start: code_pos, end });
    } else {
        if !pend_text.as_str().is_empty() {
            let start = if pend_started {
                pend_start
            } else {
                0
            };
            out.push(Block::Text { content: pend_text, start });
        }
    }
    proof {
        assert(md_fold(s, k as int, st) == if st.in_code is Some {
            st.out.push(
                BlockRec::Code {
                    content: s.subrange((st.in_code->0).1, s.len() as int),
                    start: (st.in_code->0).0,
                    end: blen(s) as int,
                },
            )
        } else {
            md_flush_pending(st, 0)
        });
    }
    out
}

/// A markdown chunk before metadata.
pub ghost struct MdChunkRec {
    pub text: Seq<char>,
    pub start: int,
    pub end: int,
    pub section: Option<Seq<char>>,
}

/// The markdown packer's state.
pub ghost struct MdPackSt {
    pub cur: Seq<char>,
    pub cur_start: int,
    pub section: Option<Seq<char>>,
    pub out: Seq<MdChunkRec>,
}

/// The chunk a flush of `st` emits, closed at byte position `end`.
pub open spec fn md_flush_chunk(st: MdPackSt, end: int) -> MdChunkRec {
    MdChunkRec { text: trim_spec(st.cur), start: st.cur_start, end, section: st.section }
}

/// Consume one block: a heading always flushes the open buffer and
/// starts the next chunk with its markup; a code block is atomic, going
/// in whole or alone; text accumulates under the usual size policy.
pub open spec fn md_pack_step(st: MdPackSt, b: BlockRec, max: int) -> MdPackSt {
    match b {
        BlockRec::Heading { title, level, start } => {
            let out1 = if st.cur.len() > 0 {
                st.out.push(md_flush_chunk(st, start))
            } else {
                st.out
            };
            MdPackSt {
                cur: hashes(level as nat) + " "@ + title + seq!['\n'],
                cur_start: start,
                section: Some(section_label(level, title)),
                out: out1,
            }
        },
        BlockRec::Code { content, start, end } => {
            let pot = blen(st.cur) + blen(content) as int;
            let st1 = if pot > max && st.cur.len() > 0 {
                MdPackSt {
                    cur: Seq::empty(),
                    cur_start: st.cur_start,
                    section: st.section,
                    out: st.out.push(md_flush_chunk(st, start)),
                }
            } else {
                st
            };
            if blen(content) > max {
                MdPackSt {
                    cur: Seq::empty(),
                    cur_start: start,
                    section: st1.section,
                    out: st1.out.push(
                        MdChunkRec { text: content, start, end, section: st1.section },
                    ),
                }
            } else {
                MdPackSt {
                    cur: st1.cur + content + seq!['\n'],
                    cur_start: if st1.cur.len() == 0 {
                        start
                    } else {
                        st1.cur_start
                    },
                    section: st1.section,
                    out: st1.out,
                }
            }
        },
        BlockRec::Text { content, start } => {
            let pot = blen(st.cur) + blen(content) as int;
            let st1 = if pot > max && st.cur.len() > 0 {
                MdPackSt {
                    cur: Seq::empty(),
                    cur_start: st.cur_start,
                    section: st.section,
                    out: st.out.push(md_flush_chunk(st, start)),
                }
            } else {
                st
            };
            MdPackSt {
                cur: st1.cur + content + seq!['\n'],
                cur_start: if st1.cur.len() == 0 {
                    start
                } else {
                    st1.cur_start
                },
                section: st1.section,
                out: st1.out,
            }
        },
    }
}

/// The chunks that packing the blocks from `i` on emits; a final
/// non-empty buffer is flushed at byte position `total_end`.
pub open spec fn md_pack_from(
    blocks: Seq<BlockRec>,
    max: int,
    total_end: int,
    i: int,
    st: MdPackSt,
) -> Seq<MdChunkRec>
    decreases blocks.len() - i,
{
    if i < 0 || i >= blocks.len() {
        if st.cur.len() > 0 {
            st.out.push(md_flush_chunk(st, total_end))
        } else {
            st.out
        }
    } else {
        md_pack_from(blocks, max, total_end, i + 1, md_pack_step(st, blocks[i], max))
    }
}

/// The markdown chunks of `s` under size `max`.
pub open spec fn md_chunks(s: Seq<char>, max: int) -> Seq<MdChunkRec> {
    md_pack_from(
        md_blocks(s),
        max,
        blen(s) as int,
        0,
        MdPackSt { cur: Seq::empty(), cur_start: 0, section: None, out: Seq::empty() },
    )
}

/// The byte budget of a block list: each block's content plus a fixed
/// allowance for joiners and heading markup.
pub open spec fn blocks_bytes(blocks: Seq<BlockRec>) -> int
    decreases blocks.len(),
{
    if blocks.len() == 0 {
        0
    } else {
        blocks_bytes(blocks.drop_last()) + blen(block_content(blocks.last())) as int + 9
    }
}

pub proof fn lemma_blocks_bytes_nonneg(blocks: Seq<BlockRec>)
    ensures
        blocks_bytes(blocks) >= 0,
    decreases blocks.len(),
{
    if blocks.len() > 0 {
        lemma_blocks_bytes_nonneg(blocks.drop_last());
    }
}

pub proof fn lemma_blocks_bytes_elem(blocks: Seq<BlockRec>, k: int)
    requires
        0 <= k < blocks.len(),
    ensures
        blen(block_content(blocks[k])) + 9 <= blocks_bytes(blocks),
    decreases blocks.len(),
{
    lemma_blocks_bytes_nonneg(blocks.drop_last());
    if k == blocks.len() - 1 {
        assert(blocks.last() == blocks[k]);
    } else {
        lemma_blocks_bytes_elem(blocks.drop_last(), k);
        assert(blocks.drop_last()[k] == blocks[k]);
    }
}

pub proof fn lemma_blocks_bytes_take(blocks: Seq<BlockRec>, i: int)
    requires
        0 <= i <= blocks.len(),
    ensures
        0 <= blocks_bytes(blocks.take(i)) <= blocks_bytes(blocks),
        i < blocks.len() ==> blocks_bytes(blocks.take(i + 1)) == blocks_bytes(blocks.take(i))
            + blen(block_content(blocks[i])) as int + 9,
    decreases blocks.len() - i,
{
    lemma_blocks_bytes_nonneg(blocks.take(i));
    if i < blocks.len() {
        assert(blocks.take(i + 1).drop_last() =~= blocks.take(i));
        assert(blocks.take(i + 1).last() == blocks[i]);
        lemma_blocks_bytes_take(blocks, i + 1);
    } else {
        assert(blocks.take(i) =~= blocks);
    }
}

/// The line-start char index the parser is at before line `k`.
pub open spec fn md_line_start(s: Seq<char>, k: int) -> int {
    if k < lines_of(s).len() {
        lines_of(s)[k].0
    } else {
        s.len() as int
    }
}

/// What the parser state has cost so far, in bytes.
pub open spec fn md_budget(s: Seq<char>, k: int, st: MdSt) -> int {
    blocks_bytes(st.out) + blen(st.pend_text) as int + (if st.in_code is Some {
        boff(s, md_line_start(s, k)) as int - boff(s, (st.in_code->0).1) as int
    } else {
        0
    })
}

/// The blocks of a text cost at most ten bytes per input byte and line.
#[verifier::rlimit(100)]
pub proof fn lemma_md_fold_budget(s: Seq<char>, k: int, st: MdSt)
    requires
        0 <= k <= lines_of(s).len(),
        st.in_code is Some ==> 0 <= (st.in_code->0).1 <= md_line_start(s, k),
        md_budget(s, k, st) <= 10 * (boff(s, md_line_start(s, k)) + k),
    ensures
        blocks_bytes(md_fold(s, k, st)) <= 10 * (blen(s) as int + lines_of(s).len() + 1),
    decreases lines_of(s).len() - k,
{
    lemma_lines_from_wf(s, 0);
    lemma_boff_full(s);
    if k >= lines_of(s).len() {
        assert(md_line_start(s, k) == s.len() as int);
        if st.in_code is Some {
            let c = st.in_code->0;
            let fin = st.out.push(
                BlockRec::Code {
                    content: s.subrange(c.1, s.len() as int),
                    start: c.0,
                    end: blen(s) as int,
                },
            );
            assert(fin.drop_last() =~= st.out);
            lemma_blen_subrange(s, c.1, s.len() as int);
            lemma_blen_bounds(st.pend_text);
            assert(blocks_bytes(fin) == blocks_bytes(st.out) + blen(s.subrange(c.1, s.len() as int))
                + 9);
            assert(blocks_bytes(md_fold(s, k, st)) <= md_budget(s, k, st) + 9);
        } else {
            let fin = md_flush_pending(st, 0);
            if st.pend_text.len() > 0 {
                assert(fin.drop_last() =~= st.out);
                assert(blocks_bytes(fin) == blocks_bytes(st.out) + blen(st.pend_text) + 9);
            }
            assert(blocks_bytes(md_fold(s, k, st)) <= md_budget(s, k, st) + 9);
        }
    } else {
        let st2 = md_step(s, k, st);
        let line = line_text(s, k);
        let (a, b) = lines_of(s)[k];
        let a2 = md_line_start(s, k + 1);
        lemma_blen_subrange(s, a, b);
        lemma_strip_cr_blen(s.subrange(a, b));
        lemma_blen_subrange(s, a, s.len() as int);
        // the next line starts past this line and its newline
        if k + 1 < lines_of(s).len() {
            assert(a2 == b + 1);
            crate::text::lemma_find_nl(s, a);
            lemma_find_nl_byte(s, a, b);
        } else {
            assert(a2 == s.len() as int);
            lemma_blen_subrange(s, b, s.len() as int);
            lemma_blen_subrange(s, a, b);
        }
        assert(boff(s, a2) >= boff(s, b));
        assert(boff(s, b) == boff(s, a) + blen(s.subrange(a, b)));
        assert(blen(line) <= blen(s.subrange(a, b)));
        let delta = boff(s, a2) as int - boff(s, a) as int;
        assert(delta >= blen(line));
        // the budget grows by at most the line's bytes plus the allowance
        if fence_line(line) {
            lemma_blen_bounds(line);
            assert(line.len() >= 3);
            assert(delta >= 3);
            if st.in_code is None {
                lemma_flush_budget(st, rpos(s, k));
                assert(md_budget(s, k + 1, st2) <= md_budget(s, k, st) + 9 + delta);
            } else {
                let c = st.in_code->0;
                let fin = st.out.push(
                    BlockRec::Code { content: s.subrange(c.1, b), start: c.0, end: 0 },
                );
                assert(st2.out.drop_last() =~= st.out);
                lemma_blen_subrange(s, c.1, b);
                lemma_blen_subrange(s, c.1, a);
                assert(blocks_bytes(st2.out) == blocks_bytes(st.out) + blen(s.subrange(c.1, b))
                    + 9);
                assert(blen(s.subrange(c.1, b)) == boff(s, b) - boff(s, c.1));
                assert(md_budget(s, k + 1, st2) <= md_budget(s, k, st) + 9 + delta);
            }
        } else if st.in_code is Some {
            assert(md_budget(s, k + 1, st2) <= md_budget(s, k, st) + delta);
        } else {
            match heading_of(line) {
                Some(hl) => {
                    lemma_heading_title_blen(line);
                    lemma_flush_budget(st, rpos(s, k));
                    // a line advances the reported extent by at least a byte
                    lemma_blen_subrange(s, a, a + 1);
                    assert(s.subrange(a, a + 1) =~= seq![s[a]]);
                    crate::text::lemma_blen_singleton(s[a]);
                    lemma_blen_subrange(s, a + 1, a2);
                    assert(st2.out =~= md_flush_pending(st, rpos(s, k)).push(
                        BlockRec::Heading { title: hl.1, level: hl.0, start: rpos(s, k) },
                    ));
                    assert(st2.out.drop_last() =~= md_flush_pending(st, rpos(s, k)));
                    assert(blocks_bytes(st2.out) == blocks_bytes(md_flush_pending(st, rpos(s, k)))
                        + blen(hl.1) + 9);
                    assert(blen(hl.1) <= blen(line));
                    assert(md_budget(s, k + 1, st2) <= md_budget(s, k, st) + 18 + delta);
                    assert(delta >= 1);
                },
                None => {
                    if st.pend_text.len() == 0 {
                        assert(st2.pend_text == line);
                    } else {
                        lemma_blen_concat(st.pend_text + seq!['\n'], line);
                        lemma_blen_concat(st.pend_text, seq!['\n']);
                        crate::text::lemma_ascii_blen('\n');
                        assert(blen(st2.pend_text) == blen(st.pend_text) + 1 + blen(line));
                    }
                    assert(md_budget(s, k + 1, st2) <= md_budget(s, k, st) + delta + 1);
                    assert(delta >= 1);
                },
            }
        }
        lemma_md_fold_budget(s, k + 1, st2);
    }
}

/// Flushing the pending text adds at most its bytes and the allowance.
proof fn lemma_flush_budget(st: MdSt, p: int)
    ensures
        blocks_bytes(md_flush_pending(st, p)) <= blocks_bytes(st.out) + blen(st.pend_text) + 9,
{
    if st.pend_text.len() > 0 {
        let fin = md_flush_pending(st, p);
        assert(fin.drop_last() =~= st.out);
    }
}

/// A heading's title sits inside its line.
proof fn lemma_heading_title_blen(line: Seq<char>)
    requires
        heading_of(line) is Some,
    ensures
        blen((heading_of(line)->0).1) <= blen(line),
{
    let h = crate::heading::scan_non_hash(line, 0);
    let w = scan_non_ws(line, h);
    crate::heading::lemma_scan_non_hash(line, 0);
    crate::text::lemma_scan_non_ws(line, h);
    let tstart = if w >= line.len() {
        line.len() - 1
    } else {
        w
    };
    lemma_blen_subrange(line, tstart, line.len() as int);
}

/// The newline after a line costs one byte.
proof fn lemma_find_nl_byte(s: Seq<char>, a: int, b: int)
    requires
        0 <= a <= b < s.len(),
        s[b] == '\n',
    ensures
        boff(s, b + 1) == boff(s, b) + 1,
{
    lemma_blen_subrange(s, b, b + 1);
    assert(s.subrange(b, b + 1) =~= seq![s[b]]);
    crate::text::lemma_ascii_blen('\n');
}

/// The source position a block reports.
pub open spec fn block_start(b: BlockRec) -> int {
    match b {
        BlockRec::Code { start, .. } => start,
        BlockRec::Heading { start, .. } => start,
        BlockRec::Text { start, .. } => start,
    }
}

/// Blocks in order of non-decreasing start position.
pub open spec fn blocks_sorted(bs: Seq<BlockRec>) -> bool {
    forall|i: int, j: int|
        0 <= i <= j < bs.len() ==> #[trigger] block_start(bs[i]) <= #[trigger] block_start(bs[j])
}

/// The source position a block's extent reaches: a code block's span
/// runs to the end of its closing fence; headings and text runs are
/// measured by their start alone.
pub open spec fn block_end_ext(b: BlockRec) -> int {
    match b {
        BlockRec::Code { end, .. } => end,
        BlockRec::Heading { start, .. } => start,
        BlockRec::Text { start, .. } => start,
    }
}

/// The position the parser's next block cannot precede.
pub open spec fn md_frontier(s: Seq<char>, k: int, st: MdSt) -> int {
    if st.in_code is Some {
        (st.in_code->0).0
    } else if st.pend_start is Some {
        st.pend_start->0
    } else {
        rpos(s, k)
    }
}

/// The parser state's ordering facts after `k` lines.
pub open spec fn md_ord_inv(s: Seq<char>, k: int, st: MdSt) -> bool {
    &&& blocks_sorted(st.out)
    &&& forall|t: int|
        0 <= t < st.out.len() ==> 0 <= #[trigger] block_start(st.out[t]) <= md_frontier(s, k, st)
    &&& forall|t: int|
        0 <= t < st.out.len() ==> block_start(#[trigger] st.out[t]) <= block_end_ext(st.out[t])
            <= md_frontier(s, k, st)
    &&& forall|t: int|
        0 <= t && t + 1 < st.out.len() ==> block_end_ext(#[trigger] st.out[t]) <= block_start(
            st.out[t + 1],
        )
    &&& 0 <= md_frontier(s, k, st) <= rpos(s, k)
    &&& st.in_code is Some ==> {
        &&& 0 <= (st.in_code->0).1 <= s.len()
        &&& (st.in_code->0).0 <= boff(s, (st.in_code->0).1)
    }
    &&& st.in_code is Some ==> st.pend_start is None
    &&& st.pend_text.len() > 0 ==> st.pend_start is Some
}

/// The parsed blocks come in source order.
#[verifier::rlimit(100)]
pub proof fn lemma_md_fold_ordered(s: Seq<char>, k: int, st: MdSt)
    requires
        0 <= k <= lines_of(s).len(),
        md_ord_inv(s, k, st),
    ensures
        blocks_sorted(md_fold(s, k, st)),
        forall|t: int| 0 <= t < md_fold(s, k, st).len() ==> 0 <= #[trigger] block_start(
            md_fold(s, k, st)[t],
        ),
        forall|t: int|
            0 <= t < md_fold(s, k, st).len() ==> block_start(#[trigger] md_fold(s, k, st)[t])
                <= block_end_ext(md_fold(s, k, st)[t]),
        forall|t: int|
            0 <= t && t + 1 < md_fold(s, k, st).len() ==> block_end_ext(
                #[trigger] md_fold(s, k, st)[t],
            ) <= block_start(md_fold(s, k, st)[t + 1]),
    decreases lines_of(s).len() - k,
{
    if k >= lines_of(s).len() {
        if st.in_code is Some {
            let c = st.in_code->0;
            lemma_blen_subrange(s, c.1, s.len() as int);
            lemma_boff_full(s);
        }
    } else {
        lemma_lines_from_wf(s, 0);
        lemma_rpos_bound(s, k);
        let st2 = md_step(s, k, st);
        let line = line_text(s, k);
        lemma_strip_cr_blen(s.subrange(lines_of(s)[k].0, lines_of(s)[k].1));
        lemma_blen_subrange(s, lines_of(s)[k].0, lines_of(s)[k].1);
        // the next reported position never moves backwards
        assert(rpos(s, k + 1) == rpos(s, k) + blen(line) + 1);
        if fence_line(line) && st.in_code is None {
            // the opening fence's reported position sits at its line start
            assert(rpos(s, k) <= boff(s, lines_of(s)[k].0));
        }
        assert(md_ord_inv(s, k + 1, st2));
        lemma_md_fold_ordered(s, k + 1, st2);
    }
}

/// Every heading block carries a level between one and six.
pub proof fn lemma_md_blocks_levels(s: Seq<char>, k: int, st: MdSt)
    requires
        0 <= k <= lines_of(s).len(),
        forall|t: int|
            0 <= t < st.out.len() ==> ((#[trigger] st.out[t]) is Heading ==> 1 <= st.out[t]->Heading_level <= 6),
    ensures
        forall|t: int|
            0 <= t < md_fold(s, k, st).len() ==> ((#[trigger] md_fold(s, k, st)[t]) is Heading
                ==> 1 <= md_fold(s, k, st)[t]->Heading_level <= 6),
    decreases lines_of(s).len() - k,
{
    if k >= lines_of(s).len() {
    } else {
        let st2 = md_step(s, k, st);
        let line = line_text(s, k);
        if !fence_line(line) && st.in_code is None && heading_of(line) is Some {
            crate::heading::lemma_scan_non_hash(line, 0);
        }
        lemma_md_blocks_levels(s, k + 1, st2);
    }
}

/// The chunks carry the packed texts, spans and section labels, the
/// `markdown` method name, and nothing else.
pub open spec fn md_chunks_match(cs: Seq<Chunk>, rs: Seq<MdChunkRec>) -> bool {
    &&& cs.len() == rs.len()
    &&& forall|k: int|
        0 <= k < cs.len() ==> {
            &&& (#[trigger] cs[k]).text@ == rs[k].text
            &&& cs[k].start as int == rs[k].start
            &&& cs[k].end as int == rs[k].end
            &&& match (cs[k].metadata.section, rs[k].section) {
                (Some(a), Some(b)) => a@ == b,
                (None, None) => true,
                _ => false,
            }
            &&& cs[k].metadata.method@ == "markdown"@
            &&& cs[k].metadata.overlap_chars is None
            &&& cs[k].metadata.parent_chunk_id is None
        }
}

/// The full description of markdown output.
pub open spec fn markdown_output(text: Seq<char>, max: int, r: Seq<Chunk>) -> bool {
    if text.len() == 0 || max <= 0 {
        r.len() == 0
    } else {
        md_chunks_match(r, md_chunks(text, max))
    }
}

/// Build the heading markup re-inserted at the head of a chunk.
fn build_heading_markup(level: usize, title: &String) -> (r: String)
    requires
        level <= 8,
    ensures
        r@ == hashes(level as nat) + " "@ + title@ + seq!['\n'],
{
    let mut t = String::new();
    proof {
        assert(t@ =~= hashes(0));
    }
    let mut i: usize = 0;
    while i < level
        invariant
            i <= level,
            t@ == hashes(i as nat),
        decreases level - i,
    {
        t.append("#");
        proof {
            reveal_strlit("#");
            assert("#"@ =~= seq!['#']);
            assert(t@ =~= hashes(i as nat + 1));
        }
        i = i + 1;
    }
    t.append(" ");
    t.append(title.as_str());
    t.append("\n");
    proof {
        reveal_strlit("\n");
        assert("\n"@ =~= seq!['\n']);
        assert(t@ =~= hashes(level as nat) + " "@ + title@ + seq!['\n']);
    }
    t
}

/// Flush the open buffer as a chunk: its trimmed text, its span, and the
/// current section label.
fn flush_md(cur: &String, cur_start: usize, end: usize, section: &Option<String>) -> (c: Chunk)
    ensures
        c.text@ == trim_spec(cur@),
        c.start == cur_start,
        c.end == end,
        match (c.metadata.section, section) {
            (Some(a), Some(b)) => a@ == b@,
            (None, None) => true,
            _ => false,
        },
        c.metadata.method@ == "markdown"@,
        c.metadata.overlap_chars is None,
        c.metadata.parent_chunk_id is None,
{
    let (tb, te) = trim_bounds(cur.as_str());
    let txt = String::from_str(cur.as_str().substring_char(tb, te));
    let sec: Option<String> = match section {
        Some(x) => Some(x.clone()),
        None => None,
    };
    Chunk::with_uuid(
        txt,
        cur_start,
        end,
        ChunkMetadata {
            method: String::from_str("markdown"),
            section: sec,
            overlap_chars: None,
            parent_chunk_id: None,
        },
    )
}

/// The ordering facts of a packing state: flushed chunks come in source
/// order and end before the open buffer's start, which never passes the
/// next block.
spec fn md_pack_ord_inv(blocks: Seq<BlockRec>, i: int, st: MdPackSt) -> bool {
    &&& 0 <= st.cur_start
    &&& i < blocks.len() ==> st.cur_start <= block_start(blocks[i])
    &&& forall|t: int| 0 <= t < st.out.len() ==> (#[trigger] st.out[t]).start <= st.cur_start
    &&& forall|t: int|
        0 <= t < st.out.len() ==> (#[trigger] st.out[t]).end <= (if st.cur.len() > 0 {
            st.cur_start
        } else if i < blocks.len() {
            block_start(blocks[i])
        } else {
            st.out[t].end
        })
    &&& forall|t1: int, t2: int|
        0 <= t1 <= t2 < st.out.len() ==> (#[trigger] st.out[t1]).start <= (
        #[trigger] st.out[t2]).start
    &&& forall|t: int|
        0 <= t && t + 1 < st.out.len() ==> (#[trigger] st.out[t]).end <= st.out[t + 1].start
}

/// Packed markdown chunks come in source order and do not overlap.
#[verifier::rlimit(100)]
proof fn lemma_md_pack_linked(
    blocks: Seq<BlockRec>,
    max: int,
    total_end: int,
    i: int,
    st: MdPackSt,
)
    requires
        0 <= i <= blocks.len(),
        blocks_sorted(blocks),
        forall|t: int| 0 <= t < blocks.len() ==> 0 <= #[trigger] block_start(blocks[t]),
        forall|t: int|
            0 <= t < blocks.len() ==> block_start(#[trigger] blocks[t]) <= block_end_ext(
                blocks[t],
            ),
        forall|t: int|
            0 <= t && t + 1 < blocks.len() ==> block_end_ext(#[trigger] blocks[t]) <= block_start(
                blocks[t + 1],
            ),
        md_pack_ord_inv(blocks, i, st),
    ensures
        ({
            let cs = md_pack_from(blocks, max, total_end, i, st);
            &&& forall|a: int, b: int|
                0 <= a <= b < cs.len() ==> (#[trigger] cs[a]).start <= (#[trigger] cs[b]).start
            &&& forall|a: int| 0 <= a && a + 1 < cs.len() ==> (#[trigger] cs[a]).end <= cs[a
                + 1].start
        }),
    decreases blocks.len() - i,
{
    if i >= blocks.len() {
    } else {
        let st2 = md_pack_step(st, blocks[i], max);
        if i + 1 < blocks.len() {
            assert(block_end_ext(blocks[i]) <= block_start(blocks[i + 1]));
        }
        assert(md_pack_ord_inv(blocks, i + 1, st2));
        lemma_md_pack_linked(blocks, max, total_end, i + 1, st2);
        assert(md_pack_from(blocks, max, total_end, i, st) == md_pack_from(
            blocks,
            max,
            total_end,
            i + 1,
            st2,
        ));
    }
}

/// Everything the packer needs to know about a text's parsed blocks:
/// the byte budget, heading levels, and the blocks' source order.
#[verifier::rlimit(100)]
proof fn lemma_md_blocks_props(s: Seq<char>)
    ensures
        0 <= blocks_bytes(md_blocks(s)) <= 50 * s.len() + 10,
        forall|t: int|
            0 <= t < md_blocks(s).len() ==> ((#[trigger] md_blocks(s)[t]) is Heading ==> 1
                <= md_blocks(s)[t]->Heading_level <= 6),
        blocks_sorted(md_blocks(s)),
        forall|t: int| 0 <= t < md_blocks(s).len() ==> 0 <= #[trigger] block_start(md_blocks(s)[t]),
        forall|t: int|
            0 <= t < md_blocks(s).len() ==> block_start(#[trigger] md_blocks(s)[t])
                <= block_end_ext(md_blocks(s)[t]),
        forall|t: int|
            0 <= t && t + 1 < md_blocks(s).len() ==> block_end_ext(#[trigger] md_blocks(s)[t])
                <= block_start(md_blocks(s)[t + 1]),
{
    lemma_lines_from_wf(s, 0);
    lemma_lines_from_count(s, 0);
    lemma_blen_bounds(s);
    assert(s.subrange(0, 0) =~= Seq::<char>::empty());
    let st0 = MdSt { in_code: None, pend_start: None, pend_text: Seq::empty(), out: Seq::empty() };
    assert(md_line_start(s, 0) == 0) by {
        if lines_of(s).len() > 0 {
            assert(lines_of(s)[0].0 == 0);
        }
    }
    assert(md_budget(s, 0, st0) == 0);
    lemma_md_fold_budget(s, 0, st0);
    lemma_md_blocks_levels(s, 0, st0);
    lemma_blocks_bytes_nonneg(md_blocks(s));
    lemma_md_fold_ordered(s, 0, st0);
}

/// Markdown-aware chunker: code blocks are atomic, headings always start
/// a new chunk and update the tracked section, and text packs greedily.
pub struct MarkdownChunker;

impl MarkdownChunker {
    /// Split markdown `text` into chunks.
    #[verifier::rlimit(100)]
    pub fn chunk(&self, text: &str, config: &ChunkConfig) -> (r: Vec<Chunk>)
        requires
            text@.len() <= usize::MAX as nat / 128,
        ensures
            markdown_output(text@, config.max_size as int, r@),
            forall|i: int, j: int|
                0 <= i <= j < r@.len() ==> #[trigger] r@[i].start <= #[trigger] r@[j].start,
            forall|i: int| 0 <= i && i + 1 < r@.len() ==> (#[trigger] r@[i]).end <= r@[i + 1].start,
    {
        if text.is_empty() || config.max_size == 0 {
            return Vec::new();
        }
        let blocks = parse_blocks(text);
        proof {
            lemma_blen_bounds(text@);
            lemma_lines_from_count(text@, 0);
            lemma_md_blocks_props(text@);
        }
        let r = md_pack_chunks(&blocks, text, config);
        proof {
            let init = MdPackSt { cur: Seq::empty(), cur_start: 0, section: None, out: Seq::empty() };
            lemma_md_pack_linked(
                md_blocks(text@),
                config.max_size as int,
                blen(text@) as int,
                0,
                init,
            );
            let cs = md_chunks(text@, config.max_size as int);
            assert forall|a: int, b: int| 0 <= a <= b < r@.len() implies #[trigger] r@[a].start
                <= #[trigger] r@[b].start by {
                assert(r@[a].start as int == cs[a].start && r@[b].start as int == cs[b].start);
            }
            assert forall|a: int| 0 <= a && a + 1 < r@.len() implies (#[trigger] r@[a]).end <= r@[a
                + 1].start by {
                assert(r@[a].end as int == cs[a].end && r@[a + 1].start as int == cs[a + 1].start);
            }
        }
        r
    }
}

/// Pack parsed blocks into chunks; see [`md_pack_step`] for the policy.
#[verifier::rlimit(100)]
fn md_pack_chunks(blocks: &Vec<Block>, text: &str, config: &ChunkConfig) -> (r: Vec<Chunk>)
    requires
        text@.len() <= usize::MAX as nat / 128,
        text@.len() > 0,
        config.max_size > 0,
        blocks_match(blocks@, md_blocks(text@)),
        0 <= blocks_bytes(md_blocks(text@)) <= 50 * text@.len() + 10,
        forall|t: int|
            0 <= t < md_blocks(text@).len() ==> ((#[trigger] md_blocks(text@)[t]) is Heading ==> 1
                <= md_blocks(text@)[t]->Heading_level <= 6),
        blocks_sorted(md_blocks(text@)),
        forall|t: int| 0 <= t < md_blocks(text@).len() ==> 0 <= #[trigger] block_start(
            md_blocks(text@)[t],
        ),
    ensures
        md_chunks_match(r@, md_chunks(text@, config.max_size as int)),
{
    {
        let ghost s = text@;
        let ghost maxg = config.max_size as int;
        let ghost bv = md_blocks(s);
        proof {
            lemma_blen_bounds(s);
        }
        let ghost bb = blocks_bytes(bv);
        let mut out: Vec<Chunk> = Vec::new();
        let mut cur = String::new();
        let mut cur_len: usize = 0;
        let mut cur_start: usize = 0;
        let mut section: Option<String> = None;
        let ghost mut pst = MdPackSt {
            cur: Seq::empty(),
            cur_start: 0,
            section: None,
            out: Seq::empty(),
        };
        let mut i: usize = 0;
        while i < blocks.len()
            invariant
                s == text@,
                s.len() <= usize::MAX as nat / 128,
                maxg == config.max_size as int,
                blocks_match(blocks@, bv),
                bv == md_blocks(s),
                blocks_bytes(bv) == bb,
                0 <= bb <= 50 * s.len() + 10,
                forall|t: int|
                    0 <= t < bv.len() ==> ((#[trigger] bv[t]) is Heading ==> 1 <= bv[t]->Heading_level
                        <= 6),
                i <= blocks@.len(),
                cur@ == pst.cur,
                cur_len as int == blen(pst.cur),
                cur_start as int == pst.cur_start,
                blen(pst.cur) <= blocks_bytes(bv.take(i as int)),
                match (section, pst.section) {
                    (Some(a), Some(b)) => a@ == b,
                    (None, None) => true,
                    _ => false,
                },
                md_chunks(s, maxg) == md_pack_from(bv, maxg, blen(s) as int, i as int, pst),
                md_chunks_match(out@, pst.out),
                blocks_sorted(bv),
                forall|t: int| 0 <= t < bv.len() ==> 0 <= #[trigger] block_start(bv[t]),
                0 <= pst.cur_start,
                (i as int) < bv.len() ==> pst.cur_start <= block_start(bv[i as int]),
                forall|t: int|
                    0 <= t < pst.out.len() ==> (#[trigger] pst.out[t]).start <= pst.cur_start,
                forall|t1: int, t2: int|
                    0 <= t1 <= t2 < pst.out.len() ==> #[trigger] pst.out[t1].start
                        <= #[trigger] pst.out[t2].start,
            decreases blocks@.len() - i,
        {
            proof {
                lemma_blocks_bytes_take(bv, i as int);
                lemma_blocks_bytes_elem(bv, i as int);
                lemma_blocks_bytes_nonneg(bv);
                lemma_blen_bounds(pst.cur);
                if i as int + 1 < bv.len() {
                    assert(block_start(bv[i as int]) <= block_start(bv[i as int + 1]));
                }
            }
            let ghost stepped = md_pack_step(pst, bv[i as int], maxg);
            match &blocks[i] {
                Block::Heading { title, level, start } => {
                    if cur_len > 0 {
                        out.push(flush_md(&cur, cur_start, *start, &section));
                    }
                    proof {
                        assert(blen(title@) + 9 <= bb);
                    }
                    let markup = build_heading_markup(*level, title);
                    proof {
                        lemma_blen_concat(hashes(*level as nat) + " "@ + title@, seq!['\n']);
                        lemma_blen_concat(hashes(*level as nat) + " "@, title@);
                        lemma_blen_concat(hashes(*level as nat), " "@);
                        reveal_strlit(" ");
                        assert(" "@ =~= seq![' ']);
                        crate::text::lemma_ascii_blen(' ');
                        crate::text::lemma_ascii_blen('\n');
                        lemma_hashes_blen(*level as nat);
                    }
                    cur = markup;
                    cur_len = cur.as_str().len();
                    cur_start = *start;
                    section = Some(crate::heading::build_section_label(*level, title));
                },
                Block::Code { content, start, end } => {
                    proof {
                        assert(blen(content@) + 9 <= bb);
                    }
                    let content_len = content.as_str().len();
                    let pot = cur_len + content_len;
                    if pot > config.max_size && cur_len > 0 {
                        out.push(flush_md(&cur, cur_start, *start, &section));
                        cur = String::new();
                        cur_len = 0;
                    }
                    if content_len > config.max_size {
                        let sec: Option<String> = match &section {
                            Some(x) => Some(x.clone()),
                            None => None,
                        };
                        out.push(
                            Chunk::with_uuid(
                                content.clone(),
                                *start,
                                *end,
                                ChunkMetadata {
                                    method: String::from_str("markdown"),
                                    section: sec,
                                    overlap_chars: None,
                                    parent_chunk_id: None,
                                },
                            ),
                        );
                        cur = String::new();
                        cur_len = 0;
                        cur_start = *start;
                    } else {
                        if cur_len == 0 {
                            cur_start = *start;
                        }
                        let ghost base = cur@;
                        cur.append(content.as_str());
                        cur.append("\n");
                        proof {
                            reveal_strlit("\n");
                            assert("\n"@ =~= seq!['\n']);
                            lemma_blen_concat(base + content@, seq!['\n']);
                            lemma_blen_concat(base, content@);
                            crate::text::lemma_ascii_blen('\n');
                            assert(cur@ =~= base + content@ + seq!['\n']);
                        }
                        cur_len = cur_len + content_len + 1;
                    }
                },
                Block::Text { content, start } => {
                    proof {
                        assert(blen(content@) + 9 <= bb);
                    }
                    let content_len = content.as_str().len();
                    let pot = cur_len + content_len;
                    if pot > config.max_size && cur_len > 0 {
                        out.push(flush_md(&cur, cur_start, *start, &section));
                        cur = String::new();
                        cur_len = 0;
                    }
                    if cur_len == 0 {
                        cur_start = *start;
                    }
                    let ghost base = cur@;
                    cur.append(content.as_str());
                    cur.append("\n");
                    proof {
                        reveal_strlit("\n");
                        assert("\n"@ =~= seq!['\n']);
                        lemma_blen_concat(base + content@, seq!['\n']);
                        lemma_blen_concat(base, content@);
                        crate::text::lemma_ascii_blen('\n');
                        assert(cur@ =~= base + content@ + seq!['\n']);
                    }
                    cur_len = cur_len + content_len + 1;
                },
            }
            proof {
                pst = stepped;
            }
            i = i + 1;
        }
        if cur_len > 0 {
            let end = text.len();
            proof {
                lemma_blen_bounds(s);
            }
            out.push(flush_md(&cur, cur_start, end, &section));
            proof {
                assert(md_pack_from(bv, maxg, blen(s) as int, i as int, pst) == pst.out.push(
                    md_flush_chunk(pst, blen(s) as int),
                ));
            }
        } else {
            proof {
                assert(md_pack_from(bv, maxg, blen(s) as int, i as int, pst) == pst.out);
            }
        }
        out
    }
}

/// A run of `n` hash marks takes `n` bytes.
proof fn lemma_hashes_blen(n: nat)
    ensures
        blen(hashes(n)) == n,
        hashes(n).len() == n,
    decreases n,
{
    if n == 0 {
        assert(hashes(0) =~= Seq::<char>::empty());
    } else {
        lemma_hashes_blen((n - 1) as nat);
        assert(hashes(n) =~= hashes((n - 1) as nat) + seq!['#']);
        lemma_blen_concat(hashes((n - 1) as nat), seq!['#']);
        crate::text::lemma_ascii_blen('#');
    }
}

impl ChunkAlgorithm for MarkdownChunker {
    /// See [`markdown_output`].
    fn chunk(&self, text: &str, config: &ChunkConfig) -> (r: Vec<Chunk>)
        ensures
            markdown_output(text@, config.max_size as int, r@),
            forall|i: int, j: int|
                0 <= i <= j < r@.len() ==> #[trigger] r@[i].start <= #[trigger] r@[j].start,
            forall|i: int| 0 <= i && i + 1 < r@.len() ==> (#[trigger] r@[i]).end <= r@[i + 1].start,
    {
        MarkdownChunker::chunk(self, text, config)
    }

    fn name(&self) -> (r: &str)
        ensures
            r@ == "markdown"@,
    {
        "markdown"
    }
}

} // verus!
