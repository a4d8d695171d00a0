//! Heading chunking: split text into sections at configured heading
//! levels; each section becomes exactly one chunk, whatever its size.

use vstd::prelude::*;

use crate::chunk::Chunk;
use crate::chunk::ChunkMetadata;
use crate::config::ChunkConfig;
use crate::text::blen;
use crate::text::dec_str;
use crate::text::is_ws;
use crate::text::lemma_blen_bounds;
use crate::text::lemma_rpos_bound;
use crate::text::lemma_strip_cr_blen;
use crate::text::line_text;
use crate::text::lines_of;
use crate::text::rpos;
use crate::text::scan_non_ws;
use crate::text::split_lines;
use crate::text::trim_bounds;
use crate::text::trim_spec;
use crate::text::usize_to_string;
use crate::text::ws_char;
use crate::traits::ChunkAlgorithm;

verus! {

/// The first index at or after `i` holding a character other than `#`.
pub open spec fn scan_non_hash(s: Seq<char>, i: int) -> int
    recommends
        0 <= i <= s.len(),
    decreases s.len() - i,
{
    if i < 0 || i >= s.len() {
        s.len() as int
    } else if s[i] == '#' {
        scan_non_hash(s, i + 1)
    } else {
        i
    }
}

pub proof fn lemma_scan_non_hash(s: Seq<char>, i: int)
    requires
        0 <= i <= s.len(),
    ensures
        i <= scan_non_hash(s, i) <= s.len(),
    decreases s.len() - i,
{
    if i < s.len() && s[i] == '#' {
        lemma_scan_non_hash(s, i + 1);
    }
}

/// Parse a heading line: one to six `#`, at least one whitespace
/// character, then a non-empty remainder. The title is the remainder
/// after the whitespace run, except that a remainder of whitespace alone
/// keeps its final character as the title.
pub open spec fn heading_of(line: Seq<char>) -> Option<(int, Seq<char>)> {
    let h = scan_non_hash(line, 0);
    if 1 <= h <= 6 && h + 2 <= line.len() && is_ws(line[h]) {
        let w = scan_non_ws(line, h);
        let tstart = if w >= line.len() {
            line.len() - 1
        } else {
            w
        };
        Some((h, line.subrange(tstart, line.len() as int)))
    } else {
        None
    }
}

/// Executable heading-line parser.
pub fn parse_heading(line: &str) -> (r: Option<(usize, String)>)
    ensures
        match r {
            Some(q) => heading_of(line@) == Some((q.0 as int, q.1@)),
            None => heading_of(line@) is None,
        },
{
    let ghost s = line@;
    let n = line.unicode_len();
    let mut h: usize = 0;
    loop
        invariant
            h <= n,
            n == s.len(),
            s == line@,
            scan_non_hash(s, 0) == scan_non_hash(s, h as int),
        ensures
            h <= n,
            n == s.len(),
            h as int == scan_non_hash(s, 0),
        decreases n - h,
    {
        if h == n {
            break;
        }
        if line.get_char(h) != '#' {
            break;
        }
        h = h + 1;
    }
    if !(1 <= h && h <= 6 && h + 2 <= n && ws_char(line.get_char(h))) {
        return None;
    }
    let mut w = h;
    loop
        invariant
            h <= w <= n,
            n == s.len(),
            s == line@,
            scan_non_ws(s, h as int) == scan_non_ws(s, w as int),
        ensures
            h <= w <= n,
            n == s.len(),
            w as int == scan_non_ws(s, h as int),
        decreases n - w,
    {
        if w == n {
            break;
        }
        if !ws_char(line.get_char(w)) {
            break;
        }
        w = w + 1;
    }
    let tstart = if w >= n {
        n - 1
    } else {
        w
    };
    let title = String::from_str(line.substring_char(tstart, n));
    Some((h, title))
}

/// A parsed section: its heading, accumulated content, and byte span.
pub ghost struct SectionRec {
    pub level: int,
    pub title: Seq<char>,
    pub content: Seq<char>,
    pub start: int,
    pub end: int,
}

/// The section parser's state: the open section, if any, and the closed
/// sections so far.
pub ghost struct HeadSt {
    pub cur: Option<SectionRec>,
    pub out: Seq<SectionRec>,
}

/// Close `sec` at byte position `end`, trimming its content.
pub open spec fn close_section(sec: SectionRec, end: int) -> SectionRec {
    SectionRec {
        level: sec.level,
        title: sec.title,
        content: trim_spec(sec.content),
        start: sec.start,
        end,
    }
}

/// Consume line `k` of `s`: a heading at a configured level closes the
/// open section and opens a new one; any other line extends the open
/// section, or opens the implicit untitled section if it is the first
/// content seen.
pub open spec fn head_step(s: Seq<char>, levels: Seq<usize>, k: int, st: HeadSt) -> HeadSt {
    let line = line_text(s, k);
    let p = rpos(s, k);
    match heading_of(line) {
        Some(hl) => {
            if 0 <= hl.0 <= 6 && levels.contains(hl.0 as usize) {
                let closed = match st.cur {
                    Some(sec) => st.out.push(close_section(sec, p)),
                    None => st.out,
                };
                HeadSt {
                    cur: Some(
                        SectionRec {
                            level: hl.0,
                            title: hl.1,
                            content: Seq::empty(),
                            start: p,
                            end: 0,
                        },
                    ),
                    out: closed,
                }
            } else {
                match st.cur {
                    Some(sec) => HeadSt {
                        cur: Some(
                            SectionRec {
                                level: sec.level,
                                title: sec.title,
                                content: sec.content + line + seq!['\n'],
                                start: sec.start,
                                end: sec.end,
                            },
                        ),
                        out: st.out,
                    },
                    None => st,
                }
            }
        },
        None => {
            match st.cur {
                Some(sec) => HeadSt {
                    cur: Some(
                        SectionRec {
                            level: sec.level,
                            title: sec.title,
                            content: sec.content + line + seq!['\n'],
                            start: sec.start,
                            end: sec.end,
                        },
                    ),
                    out: st.out,
                },
                None => {
                    if trim_spec(line).len() > 0 {
                        HeadSt {
                            cur: Some(
                                SectionRec {
                                    level: 0,
                                    title: Seq::empty(),
                                    content: line + seq!['\n'],
                                    start: p,
                                    end: 0,
                                },
                            ),
                            out: st.out,
                        }
                    } else {
                        st
                    }
                },
            }
        },
    }
}

/// The sections of `s` from line `k` on, starting in state `st`; a final
/// open section is closed at the end of the text.
pub open spec fn head_fold(s: Seq<char>, levels: Seq<usize>, k: int, st: HeadSt) -> Seq<SectionRec>
    decreases lines_of(s).len() - k,
{
    if k < 0 || k >= lines_of(s).len() {
        match st.cur {
            Some(sec) => st.out.push(close_section(sec, blen(s) as int)),
            None => st.out,
        }
    } else {
        head_fold(s, levels, k + 1, head_step(s, levels, k, st))
    }
}

/// The sections of `s` under the configured split levels.
pub open spec fn head_sections(s: Seq<char>, levels: Seq<usize>) -> Seq<SectionRec> {
    head_fold(s, levels, 0, HeadSt { cur: None, out: Seq::empty() })
}

/// The `h{level}: {title}` label of a section.
pub open spec fn section_label(level: int, title: Seq<char>) -> Seq<char> {
    "h"@ + dec_str(level as nat) + ": "@ + title
}

/// A run of `n` hash marks.
pub open spec fn hashes(n: nat) -> Seq<char>
    decreases n,
{
    if n == 0 {
        Seq::empty()
    } else {
        hashes((n - 1) as nat).push('#')
    }
}

/// The text of a section's chunk: the heading markup re-prefixed onto the
/// content when a title is present.
pub open spec fn section_chunk_text(sec: SectionRec) -> Seq<char> {
    if sec.level > 0 && sec.title.len() > 0 {
        hashes(sec.level as nat) + " "@ + sec.title + "\n\n"@ + sec.content
    } else {
        sec.content
    }
}

/// A section chunk before metadata.
pub ghost struct SectChunk {
    pub text: Seq<char>,
    pub start: int,
    pub end: int,
    pub section: Option<Seq<char>>,
}

/// One chunk per section whose text is not whitespace alone.
pub open spec fn section_chunks_from(secs: Seq<SectionRec>, i: int) -> Seq<SectChunk>
    decreases secs.len() - i,
{
    if i < 0 || i >= secs.len() {
        Seq::empty()
    } else {
        let sec = secs[i];
        let ct = trim_spec(section_chunk_text(sec));
        let rest = section_chunks_from(secs, i + 1);
        if ct.len() == 0 {
            rest
        } else {
            seq![
                SectChunk {
                    text: ct,
                    start: sec.start,
                    end: sec.end,
                    section: if sec.level > 0 {
                        Some(section_label(sec.level, sec.title))
                    } else {
                        None
                    },
                },
            ] + rest
        }
    }
}

/// What heading chunking returns for positive sizes and non-empty input.
pub open spec fn heading_matches(r: Seq<Chunk>, cs: Seq<SectChunk>) -> bool {
    &&& r.len() == cs.len()
    &&& forall|k: int|
        0 <= k < r.len() ==> {
            &&& (#[trigger] r[k]).text@ == cs[k].text
            &&& r[k].start as int == cs[k].start
            &&& r[k].end as int == cs[k].end
            &&& match (r[k].metadata.section, cs[k].section) {
                (Some(a), Some(b)) => a@ == b,
                (None, None) => true,
                _ => false,
            }
            &&& r[k].metadata.method@ == "heading"@
            &&& r[k].metadata.overlap_chars is None
            &&& r[k].metadata.parent_chunk_id is None
        }
}

/// The full description of heading output.
pub open spec fn heading_output(text: Seq<char>, levels: Seq<usize>, max: int, r: Seq<
    Chunk,
>) -> bool {
    if text.len() == 0 || max <= 0 {
        r.len() == 0
    } else {
        heading_matches(r, section_chunks_from(head_sections(text, levels), 0))
    }
}

/// Section chunks of well-ordered sections do not overlap: each chunk
/// ends no later than the next begins.
proof fn lemma_section_chunks_linked(secs: Seq<SectionRec>, i: int)
    requires
        0 <= i <= secs.len(),
        forall|a: int, b: int|
            0 <= a <= b < secs.len() ==> (#[trigger] secs[a]).start <= (#[trigger] secs[b]).start,
        forall|a: int| 0 <= a && a + 1 < secs.len() ==> (#[trigger] secs[a]).end <= secs[a + 1].start,
    ensures
        forall|a: int|
            0 <= a && a + 1 < section_chunks_from(secs, i).len() ==> (#[trigger] section_chunks_from(
                secs,
                i,
            )[a]).end <= section_chunks_from(secs, i)[a + 1].start,
        i < secs.len() ==> forall|a: int|
            0 <= a < section_chunks_from(secs, i).len() ==> (#[trigger] section_chunks_from(
                secs,
                i,
            )[a]).start >= secs[i].start,
    decreases secs.len() - i,
{
    if i < secs.len() {
        lemma_section_chunks_linked(secs, i + 1);
        let sc = section_chunks_from(secs, i);
        let rest = section_chunks_from(secs, i + 1);
        let sec = secs[i];
        let ct = trim_spec(section_chunk_text(sec));
        if ct.len() == 0 {
            assert(sc == rest);
            if rest.len() > 0 {
                assert forall|a: int| 0 <= a < sc.len() implies (#[trigger] sc[a]).start
                    >= secs[i].start by {
                    assert(sc[a].start >= secs[i + 1].start);
                    assert(secs[i].start <= secs[i + 1].start);
                }
            }
        } else {
            assert forall|a: int| 0 <= a && a + 1 < sc.len() implies (#[trigger] sc[a]).end <= sc[a
                + 1].start by {
                if a == 0 {
                    assert(sc[1] == rest[0]);
                    assert(rest[0].start >= secs[i + 1].start);
                    assert(secs[i].end <= secs[i + 1].start);
                } else {
                    assert(sc[a] == rest[a - 1] && sc[a + 1] == rest[a]);
                }
            }
            assert forall|a: int| 0 <= a < sc.len() implies (#[trigger] sc[a]).start >= secs[
                i
            ].start by {
                if a > 0 {
                    assert(sc[a] == rest[a - 1]);
                    assert(rest[a - 1].start >= secs[i + 1].start);
                    assert(secs[i].start <= secs[i + 1].start);
                }
            }
        }
    }
}

/// A parsed section, executable form.
struct Section {
    level: usize,
    title: String,
    content: String,
    start: usize,
    end: usize,
}

/// The executable sections stand for the spec sections.
spec fn sections_match(xs: Seq<Section>, rs: Seq<SectionRec>) -> bool {
    &&& xs.len() == rs.len()
    &&& forall|k: int|
        0 <= k < xs.len() ==> {
            &&& (#[trigger] xs[k]).level as int == rs[k].level
            &&& xs[k].title@ == rs[k].title
            &&& xs[k].content@ == rs[k].content
            &&& xs[k].start as int == rs[k].start
            &&& xs[k].end as int == rs[k].end
        }
}

/// Whether `levels` holds `lv`.
fn contains_level(levels: &Vec<usize>, lv: usize) -> (r: bool)
    ensures
        r == levels@.contains(lv),
{
    let mut i: usize = 0;
    while i < levels.len()
        invariant
            i <= levels@.len(),
            forall|k: int| 0 <= k < i ==> levels@[k] != lv,
        decreases levels@.len() - i,
    {
        if levels[i] == lv {
            assert(levels@[i as int] == lv);
            return true;
        }
        i = i + 1;
    }
    false
}

/// Heading chunker: recognizes `#`-style headings at the configured
/// levels as section boundaries. The size limit is not enforced: a
/// section of any length is one chunk.
pub struct HeadingChunker {
    /// Which heading levels close and open sections.
    pub levels: Vec<usize>,
}

impl Default for HeadingChunker {
    /// A chunker splitting at the first two heading levels.
    fn default() -> (r: Self)
        ensures
            r.levels@ == seq![1usize, 2usize],
    {
        let levels = vec![1usize, 2usize];
        assert(levels@ =~= seq![1usize, 2usize]);
        HeadingChunker { levels }
    }
}

impl HeadingChunker {
    /// A chunker splitting at the given heading levels.
    pub fn new(levels: Vec<usize>) -> (r: Self)
        ensures
            r.levels == levels,
    {
        HeadingChunker { levels }
    }

    /// Parse `text` into heading-delimited sections.
    #[verifier::rlimit(100)]
    fn parse_sections(&self, text: &str) -> (r: Vec<Section>)
        requires
            text@.len() <= usize::MAX as nat / 16,
        ensures
            sections_match(r@, head_sections(text@, self.levels@)),
            forall|i: int, j: int|
                0 <= i <= j < r@.len() ==> #[trigger] r@[i].start <= #[trigger] r@[j].start,
            forall|i: int| 0 <= i && i + 1 < r@.len() ==> (#[trigger] r@[i]).end <= r@[i + 1].start,
    {
        let ghost s = text@;
        let ghost lv = self.levels@;
        let lines = split_lines(text);
        let mut out: Vec<Section> = Vec::new();
        let mut have_cur: bool = false;
        let mut cur_level: usize = 0;
        let mut cur_title: String = String::new();
        let mut cur_content: String = String::new();
        let mut cur_start: usize = 0;
        let mut pos: usize = 0;
        let ghost mut st = HeadSt { cur: None, out: Seq::empty() };
        let mut k: usize = 0;
        proof {
            lemma_blen_bounds(s);
        }
        while k < lines.len()
            invariant
                s == text@,
                s.len() <= usize::MAX as nat / 16,
                lv == self.levels@,
                lines@.len() == lines_of(s).len(),
                forall|t: int|
                    0 <= t < lines@.len() ==> {
                        let (a, b) = #[trigger] lines_of(s)[t];
                        &&& lines@[t].0 as int == a
                        &&& lines@[t].1 as int == b
                        &&& lines@[t].2@ == line_text(s, t)
                    },
                k <= lines@.len(),
                pos as int == rpos(s, k as int),
                head_sections(s, lv) == head_fold(s, lv, k as int, st),
                have_cur <==> st.cur is Some,
                have_cur ==> {
                    let sec = st.cur->0;
                    &&& cur_level as int == sec.level
                    &&& cur_title@ == sec.title
                    &&& cur_content@ == sec.content
                    &&& cur_start as int == sec.start
                    &&& sec.start <= pos as int
                },
                sections_match(out@, st.out),
                forall|i: int, j: int|
                    0 <= i <= j < out@.len() ==> #[trigger] out@[i].start
                        <= #[trigger] out@[j].start,
                forall|i: int|
                    0 <= i < out@.len() ==> (#[trigger] out@[i]).start as int <= (if have_cur {
                        cur_start as int
                    } else {
                        pos as int
                    }),
                forall|i: int|
                    0 <= i < out@.len() ==> (#[trigger] out@[i]).end as int <= (if have_cur {
                        cur_start as int
                    } else {
                        pos as int
                    }),
                forall|i: int|
                    0 <= i && i + 1 < out@.len() ==> (#[trigger] out@[i]).end <= out@[i + 1].start,
            decreases lines@.len() - k,
        {
            proof {
                crate::text::lemma_lines_from_wf(s, 0);
                crate::text::lemma_lines_from_count(s, 0);
                lemma_blen_bounds(s);
                lemma_rpos_bound(s, k as int);
                lemma_rpos_bound(s, k as int + 1);
                lemma_strip_cr_blen(s.subrange(lines_of(s)[k as int].0, lines_of(s)[k as int].1));
                crate::text::lemma_blen_subrange(
                    s,
                    lines_of(s)[k as int].0,
                    lines_of(s)[k as int].1,
                );
            }
            let ghost stepped = head_step(s, lv, k as int, st);
            let line_bytes = lines[k].2.as_str().len();
            match parse_heading(&lines[k].2) {
                Some((hlevel, htitle)) => {
                    if contains_level(&self.levels, hlevel) {
                        if have_cur {
                            let (b, e) = trim_bounds(cur_content.as_str());
                            let trimmed = String::from_str(cur_content.as_str().substring_char(
                                b,
                                e,
                            ));
                            out.push(
                                Section {
                                    level: cur_level,
                                    title: cur_title,
                                    content: trimmed,
                                    start: cur_start,
                                    end: pos,
                                },
                            );
                        }
                        have_cur = true;
                        cur_level = hlevel;
                        cur_title = htitle;
                        cur_content = String::new();
                        cur_start = pos;
                    } else {
                        if have_cur {
                            cur_content.append(lines[k].2.as_str());
                            cur_content.append("\n");
                            proof {
                                reveal_strlit("\n");
                                assert("\n"@ =~= seq!['\n']);
                            }
                        }
                    }
                },
                None => {
                    let (tb, te) = trim_bounds(lines[k].2.as_str());
                    if have_cur {
                        cur_content.append(lines[k].2.as_str());
                        cur_content.append("\n");
                        proof {
                            reveal_strlit("\n");
                            assert("\n"@ =~= seq!['\n']);
                        }
                    } else if tb < te {
                        have_cur = true;
                        cur_level = 0;
                        cur_title = String::new();
                        cur_content = String::from_str(lines[k].2.as_str());
                        cur_content.append("\n");
                        cur_start = pos;
                        proof {
                            reveal_strlit("\n");
                            assert("\n"@ =~= seq!['\n']);
                            assert(cur_content@ =~= line_text(s, k as int) + seq!['\n']);
                        }
                    }
                },
            }
            proof {
                st = stepped;
            }
            pos = pos + line_bytes + 1;
            k = k + 1;
        }
        if have_cur {
            let (b, e) = trim_bounds(cur_content.as_str());
            let trimmed = String::from_str(cur_content.as_str().substring_char(b, e));
            let end = text.len();
            proof {
                lemma_blen_bounds(s);
            }
            out.push(
                Section {
                    level: cur_level,
                    title: cur_title,
                    content: trimmed,
                    start: cur_start,
                    end,
                },
            );
            proof {
                assert(head_fold(s, lv, k as int, st) == st.out.push(
                    close_section(st.cur->0, blen(s) as int),
                ));
            }
        } else {
            proof {
                assert(head_fold(s, lv, k as int, st) == st.out);
            }
        }
        out
    }

    /// Split `text` into one chunk per heading section.
    #[verifier::rlimit(100)]
    pub fn chunk(&self, text: &str, config: &ChunkConfig) -> (r: Vec<Chunk>)
        requires
            text@.len() <= usize::MAX as nat / 16,
        ensures
            heading_output(text@, self.levels@, config.max_size as int, r@),
            forall|i: int, j: int|
                0 <= i <= j < r@.len() ==> #[trigger] r@[i].start <= #[trigger] r@[j].start,
            forall|i: int| 0 <= i && i + 1 < r@.len() ==> (#[trigger] r@[i]).end <= r@[i + 1].start,
    {
        if text.is_empty() || config.max_size == 0 {
            return Vec::new();
        }
        let sections = self.parse_sections(text);
        let ghost secs = head_sections(text@, self.levels@);
        let mut out: Vec<Chunk> = Vec::new();
        let mut i: usize = 0;
        while i < sections.len()
            invariant
                sections_match(sections@, secs),
                i <= sections@.len(),
                forall|a: int, b: int|
                    0 <= a <= b < sections@.len() ==> #[trigger] sections@[a].start
                        <= #[trigger] sections@[b].start,
                heading_matches(out@, section_chunks_from(secs, 0).take(out@.len() as int)),
                forall|a: int, b: int|
                    0 <= a <= b < out@.len() ==> #[trigger] out@[a].start
                        <= #[trigger] out@[b].start,
                section_chunks_from(secs, 0) =~= section_chunks_from(secs, 0).take(
                    out@.len() as int,
                ) + section_chunks_from(secs, i as int),
                forall|a: int|
                    0 <= a < out@.len() ==> (#[trigger] out@[a]).start as int <= (if (
                    i as int) < sections@.len() {
                        sections@[i as int].start as int
                    } else {
                        out@[a].start as int
                    }),
            decreases sections@.len() - i,
        {
            let sec = &sections[i];
            let chunk_text = build_section_text(sec);
            let (b, e) = trim_bounds(chunk_text.as_str());
            if b < e {
                let ct = String::from_str(chunk_text.as_str().substring_char(b, e));
                let label: Option<String> = if sec.level > 0 {
                    Some(build_section_label(sec.level, &sec.title))
                } else {
                    None
                };
                let metadata = ChunkMetadata {
                    method: String::from_str("heading"),
                    section: label,
                    overlap_chars: None,
                    parent_chunk_id: None,
                };
                out.push(Chunk::with_uuid(ct, sec.start, sec.end, metadata));
                proof {
                    let sc = SectChunk {
                        text: trim_spec(section_chunk_text(secs[i as int])),
                        start: secs[i as int].start,
                        end: secs[i as int].end,
                        section: if secs[i as int].level > 0 {
                            Some(section_label(secs[i as int].level, secs[i as int].title))
                        } else {
                            None
                        },
                    };
                    assert(section_chunks_from(secs, i as int) == seq![sc] + section_chunks_from(
                        secs,
                        i as int + 1,
                    ));
                    assert(section_chunks_from(secs, 0).take(out@.len() as int)
                        =~= section_chunks_from(secs, 0).take(out@.len() as int - 1) + seq![sc]);
                }
            } else {
                proof {
                    assert(section_chunks_from(secs, i as int) == section_chunks_from(
                        secs,
                        i as int + 1,
                    ));
                }
            }
            i = i + 1;
        }
        proof {
            assert(section_chunks_from(secs, i as int) =~= Seq::<SectChunk>::empty());
            assert(section_chunks_from(secs, 0) =~= section_chunks_from(secs, 0).take(
                out@.len() as int,
            ));
            assert forall|a: int, b: int| 0 <= a <= b < secs.len() implies (
            #[trigger] secs[a]).start <= (#[trigger] secs[b]).start by {
                assert(sections@[a].start as int == secs[a].start);
                assert(sections@[b].start as int == secs[b].start);
                assert(sections@[a].start <= sections@[b].start);
            }
            assert forall|a: int| 0 <= a && a + 1 < secs.len() implies (#[trigger] secs[a]).end
                <= secs[a + 1].start by {
                assert(sections@[a].end as int == secs[a].end);
                assert(sections@[a + 1].start as int == secs[a + 1].start);
                assert(sections@[a].end <= sections@[a + 1].start);
            }
            lemma_section_chunks_linked(secs, 0);
            assert forall|a: int| 0 <= a && a + 1 < out@.len() implies (#[trigger] out@[a]).end
                <= out@[a + 1].start by {
                assert(out@[a].end as int == section_chunks_from(secs, 0)[a].end);
                assert(out@[a + 1].start as int == section_chunks_from(secs, 0)[a + 1].start);
            }
        }
        out
    }
}

/// Build a section's chunk text: heading markup, a blank line, then the
/// content, for titled sections; the bare content otherwise.
fn build_section_text(sec: &Section) -> (r: String)
    ensures
        r@ == section_chunk_text(
            SectionRec {
                level: sec.level as int,
                title: sec.title@,
                content: sec.content@,
                start: sec.start as int,
                end: sec.end as int,
            },
        ),
{
    if sec.level > 0 && !sec.title.as_str().is_empty() {
        let mut t = String::new();
        proof {
            assert(t@ =~= hashes(0));
        }
        let mut i: usize = 0;
        while i < sec.level
            invariant
                i <= sec.level,
                t@ == hashes(i as nat),
            decreases sec.level - i,
        {
            t.append("#");
            proof {
                reveal_strlit("#");
                assert("#"@ =~= seq!['#']);
                assert(t@ =~= hashes(i as nat + 1));
            }
            i = i + 1;
        }
        t.append(" ");
        t.append(sec.title.as_str());
        t.append("\n\n");
        t.append(sec.content.as_str());
        proof {
            assert(t@ =~= hashes(sec.level as nat) + " "@ + sec.title@ + "\n\n"@ + sec.content@);
        }
        t
    } else {
        sec.content.clone()
    }
}

/// Build the `h{level}: {title}` label.
pub(crate) fn build_section_label(level: usize, title: &String) -> (r: String)
    ensures
        r@ == section_label(level as int, title@),
{
    let mut t = String::from_str("h");
    let num = usize_to_string(level);
    t.append(num.as_str());
    t.append(": ");
    t.append(title.as_str());
    proof {
        assert(t@ =~= "h"@ + dec_str(level as nat) + ": "@ + title@);
    }
    t
}

impl ChunkAlgorithm for HeadingChunker {
    /// See [`heading_output`].
    fn chunk(&self, text: &str, config: &ChunkConfig) -> (r: Vec<Chunk>)
        ensures
            heading_output(text@, self.levels@, config.max_size as int, r@),
            forall|i: int, j: int|
                0 <= i <= j < r@.len() ==> #[trigger] r@[i].start <= #[trigger] r@[j].start,
            forall|i: int| 0 <= i && i + 1 < r@.len() ==> (#[trigger] r@[i]).end <= r@[i + 1].start,
    {
        HeadingChunker::chunk(self, text, config)
    }

    fn name(&self) -> (r: &str)
        ensures
            r@ == "heading"@,
    {
        "heading"
    }
}

} // verus!
