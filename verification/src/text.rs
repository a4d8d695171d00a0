//! Character-level text model shared by all chunking algorithms.
//!
//! Chunk boundaries are computed over the character sequence of the input,
//! while the reported `start`/`end` offsets are UTF-8 byte offsets. This
//! module defines the byte-length model (`blen`, `boff`), whitespace and
//! trimming, line splitting, and decimal rendering of numbers, together
//! with the executable counterparts used by the algorithms.

use vstd::prelude::*;

verus! {

/// The UTF-8 byte length of a character sequence.
pub open spec fn blen(s: Seq<char>) -> nat {
    vstd::utf8::encode_utf8(s).len()
}

/// The byte offset of character index `i` within `s`.
pub open spec fn boff(s: Seq<char>, i: int) -> nat
    recommends
        0 <= i <= s.len(),
{
    blen(s.subrange(0, i))
}

/// Byte lengths add over concatenation.
pub proof fn lemma_blen_concat(a: Seq<char>, b: Seq<char>)
    ensures
        blen(a + b) == blen(a) + blen(b),
    decreases a.len(),
{
    if a.len() == 0 {
        assert(a + b =~= b);
        assert(vstd::utf8::encode_utf8(a) =~= Seq::<u8>::empty());
    } else {
        assert((a + b)[0] == a[0]);
        assert((a + b).drop_first() =~= a.drop_first() + b);
        lemma_blen_concat(a.drop_first(), b);
    }
}

/// Each character takes between one and four bytes.
pub proof fn lemma_blen_bounds(s: Seq<char>)
    ensures
        s.len() <= blen(s) <= 4 * s.len(),
    decreases s.len(),
{
    if s.len() > 0 {
        lemma_blen_bounds(s.drop_first());
    }
}

/// The byte length of a single character.
pub proof fn lemma_blen_singleton(c: char)
    ensures
        blen(seq![c]) == vstd::utf8::encode_scalar(c as u32).len(),
        1 <= blen(seq![c]) <= 4,
{
    assert(seq![c].drop_first() =~= Seq::<char>::empty());
    assert(vstd::utf8::encode_utf8(Seq::<char>::empty()) =~= Seq::<u8>::empty());
}

/// An ASCII character takes exactly one byte.
pub proof fn lemma_ascii_blen(c: char)
    requires
        (c as u32) < 0x80,
    ensures
        blen(seq![c]) == 1,
{
    lemma_blen_singleton(c);
}

/// A subrange's byte length is part of the whole sequence's byte length.
pub proof fn lemma_blen_subrange(s: Seq<char>, i: int, j: int)
    requires
        0 <= i <= j <= s.len(),
    ensures
        boff(s, j) == boff(s, i) + blen(s.subrange(i, j)),
        boff(s, i) <= boff(s, j),
        blen(s.subrange(i, j)) <= blen(s),
{
    assert(s.subrange(0, j) =~= s.subrange(0, i) + s.subrange(i, j));
    lemma_blen_concat(s.subrange(0, i), s.subrange(i, j));
    assert(s =~= s.subrange(0, j) + s.subrange(j, s.len() as int));
    lemma_blen_concat(s.subrange(0, j), s.subrange(j, s.len() as int));
    assert(s.subrange(0, 0) =~= Seq::<char>::empty());
    assert(blen(Seq::<char>::empty()) == 0);
}

/// The byte length of the whole sequence, seen as an offset.
pub proof fn lemma_boff_full(s: Seq<char>)
    ensures
        boff(s, s.len() as int) == blen(s),
{
    assert(s.subrange(0, s.len() as int) =~= s);
}

/// The byte offset of char index `i` of `s`, computed by measuring the
/// encoded length of the characters before it.
pub fn byte_offset(s: &str, i: usize) -> (r: usize)
    requires
        i <= s@.len(),
        s@.len() <= usize::MAX as nat / 4,
    ensures
        r == boff(s@, i as int),
{
    proof {
        lemma_blen_bounds(s@);
        lemma_blen_subrange(s@, 0, i as int);
    }
    s.substring_char(0, i).len()
}

/// Division characterizes the window count: if `k` windows of `max` cover
/// `n` but `k - 1` do not, then `k` is the rounded-up quotient.
pub proof fn lemma_ceil_div(n: int, max: int, k: int)
    requires
        max > 0,
        n > 0,
        k * max >= n,
        (k - 1) * max < n,
    ensures
        k == (n - 1) / max + 1,
{
    assert((k - 1) * max + max == k * max) by (nonlinear_arith);
    vstd::arithmetic::div_mod::lemma_fundamental_div_mod_converse(
        n - 1,
        max,
        k - 1,
        n - 1 - (k - 1) * max,
    );
}

/// Whether `c` has the Unicode `White_Space` property, the class used by
/// `str::trim` and by the sentence and heading grammars.
pub open spec fn is_ws(c: char) -> bool {
    let u = c as u32;
    ||| u == 0x20
    ||| (0x9 <= u && u <= 0xD)
    ||| u == 0x85
    ||| u == 0xA0
    ||| u == 0x1680
    ||| (0x2000 <= u && u <= 0x200A)
    ||| u == 0x2028
    ||| u == 0x2029
    ||| u == 0x202F
    ||| u == 0x205F
    ||| u == 0x3000
}

/// Executable test for [`is_ws`].
pub fn ws_char(c: char) -> (r: bool)
    ensures
        r == is_ws(c),
{
    let u = c as u32;
    u == 0x20 || (0x9 <= u && u <= 0xD) || u == 0x85 || u == 0xA0 || u == 0x1680 || (0x2000 <= u
        && u <= 0x200A) || u == 0x2028 || u == 0x2029 || u == 0x202F || u == 0x205F || u == 0x3000
}

/// The first index at or after `i` holding a non-whitespace character,
/// or the length of `s` if the rest is all whitespace.
pub open spec fn scan_non_ws(s: Seq<char>, i: int) -> int
    recommends
        0 <= i <= s.len(),
    decreases s.len() - i,
{
    if i < 0 || i >= s.len() {
        s.len() as int
    } else if is_ws(s[i]) {
        scan_non_ws(s, i + 1)
    } else {
        i
    }
}

pub proof fn lemma_scan_non_ws(s: Seq<char>, i: int)
    requires
        0 <= i <= s.len(),
    ensures
        i <= scan_non_ws(s, i) <= s.len(),
        forall|k: int| i <= k < scan_non_ws(s, i) ==> is_ws(s[k]),
        scan_non_ws(s, i) < s.len() ==> !is_ws(s[scan_non_ws(s, i)]),
    decreases s.len() - i,
{
    if i < s.len() && is_ws(s[i]) {
        lemma_scan_non_ws(s, i + 1);
    }
}

/// The end of the sequence once trailing whitespace in `[0, i)` is dropped.
pub open spec fn scan_back_non_ws(s: Seq<char>, i: int) -> int
    recommends
        0 <= i <= s.len(),
    decreases i,
{
    if i <= 0 {
        0
    } else if is_ws(s[i - 1]) {
        scan_back_non_ws(s, i - 1)
    } else {
        i
    }
}

/// Where trailing whitespace starts: the end index of `trim_end`.
pub open spec fn trim_end_idx(s: Seq<char>) -> int {
    scan_back_non_ws(s, s.len() as int)
}

/// `s` with trailing whitespace removed, as `str::trim_end` leaves it.
pub open spec fn trim_end_spec(s: Seq<char>) -> Seq<char> {
    s.subrange(0, trim_end_idx(s))
}

/// `s` with leading and trailing whitespace removed, as `str::trim` leaves it.
pub open spec fn trim_spec(s: Seq<char>) -> Seq<char> {
    let e = trim_end_idx(s);
    let b = scan_non_ws(s, 0);
    if b >= e {
        Seq::<char>::empty()
    } else {
        s.subrange(b, e)
    }
}

pub proof fn lemma_trim_end_idx(s: Seq<char>, i: int)
    requires
        0 <= i <= s.len(),
    ensures
        0 <= scan_back_non_ws(s, i) <= i,
        forall|k: int| scan_back_non_ws(s, i) <= k < i ==> is_ws(s[k]),
        scan_back_non_ws(s, i) > 0 ==> !is_ws(s[scan_back_non_ws(s, i) - 1]),
    decreases i,
{
    if i > 0 && is_ws(s[i - 1]) {
        lemma_trim_end_idx(s, i - 1);
    }
}

/// The character bounds of the trimmed middle of `s`: `r.0` and `r.1` are
/// char indices such that `s[r.0 .. r.1]` is `s` without its surrounding
/// whitespace, and `r.1` alone is where `str::trim_end` stops.
pub fn trim_bounds(s: &str) -> (r: (usize, usize))
    ensures
        r.0 <= r.1 <= s@.len(),
        r.1 as int == trim_end_idx(s@),
        s@.subrange(r.0 as int, r.1 as int) == trim_spec(s@),
        r.0 < r.1 <==> trim_spec(s@).len() > 0,
        trim_spec(s@).len() > 0 ==> r.0 as int == scan_non_ws(s@, 0),
{
    let n = s.unicode_len();
    let mut hi = n;
    loop
        invariant
            hi <= n,
            n == s@.len(),
            trim_end_idx(s@) == scan_back_non_ws(s@, hi as int),
        ensures
            hi <= n,
            n == s@.len(),
            hi as int == trim_end_idx(s@),
        decreases hi,
    {
        if hi == 0 {
            break;
        }
        let c = s.get_char(hi - 1);
        if !ws_char(c) {
            break;
        }
        hi = hi - 1;
    }
    let mut lo: usize = 0;
    loop
        invariant
            lo <= hi <= n,
            n == s@.len(),
            hi as int == trim_end_idx(s@),
            scan_non_ws(s@, 0) == scan_non_ws(s@, lo as int),
        ensures
            lo <= hi <= n,
            n == s@.len(),
            hi as int == trim_end_idx(s@),
            if scan_non_ws(s@, 0) > hi as int {
                lo == hi
            } else {
                lo as int == scan_non_ws(s@, 0)
            },
        decreases hi - lo,
    {
        if lo == hi {
            proof {
                lemma_scan_non_ws(s@, lo as int);
            }
            break;
        }
        let c = s.get_char(lo);
        if !ws_char(c) {
            break;
        }
        lo = lo + 1;
    }
    proof {
        let b = scan_non_ws(s@, 0);
        let e = trim_end_idx(s@);
        lemma_trim_end_idx(s@, s@.len() as int);
        if b >= e {
            assert(lo == hi);
            assert(s@.subrange(lo as int, hi as int) =~= trim_spec(s@));
        } else {
            assert(s@.subrange(lo as int, hi as int) == trim_spec(s@));
        }
    }
    (lo, hi)
}

/// The index of the first newline at or after `i`, or the length of `s`.
pub open spec fn find_nl(s: Seq<char>, i: int) -> int
    recommends
        0 <= i <= s.len(),
    decreases s.len() - i,
{
    if i < 0 || i >= s.len() {
        s.len() as int
    } else if s[i] == '\n' {
        i
    } else {
        find_nl(s, i + 1)
    }
}

pub proof fn lemma_find_nl(s: Seq<char>, i: int)
    requires
        0 <= i <= s.len(),
    ensures
        i <= find_nl(s, i) <= s.len(),
        forall|k: int| i <= k < find_nl(s, i) ==> s[k] != '\n',
        find_nl(s, i) < s.len() ==> s[find_nl(s, i)] == '\n',
    decreases s.len() - i,
{
    if i < s.len() && s[i] != '\n' {
        lemma_find_nl(s, i + 1);
    }
}

/// The lines of `s` from position `i` on, as `(start, end)` char spans,
/// the terminating newline excluded, the way `str::lines` walks them.
pub open spec fn lines_from(s: Seq<char>, i: int) -> Seq<(int, int)>
    recommends
        0 <= i,
    decreases s.len() - i + 1,
    via lines_from_decreases
{
    if i < 0 || i >= s.len() {
        Seq::empty()
    } else {
        seq![(i, find_nl(s, i))] + lines_from(s, find_nl(s, i) + 1)
    }
}

#[via_fn]
proof fn lines_from_decreases(s: Seq<char>, i: int) {
    if 0 <= i && i < s.len() {
        lemma_find_nl(s, i);
    }
}

/// The lines of `s`.
pub open spec fn lines_of(s: Seq<char>) -> Seq<(int, int)> {
    lines_from(s, 0)
}

/// A line with a trailing carriage return removed, as `str::lines` reports it.
pub open spec fn strip_cr(l: Seq<char>) -> Seq<char> {
    if l.len() > 0 && l.last() == '\r' {
        l.drop_last()
    } else {
        l
    }
}

/// The text of line `k` of `s`.
pub open spec fn line_text(s: Seq<char>, k: int) -> Seq<char>
    recommends
        0 <= k < lines_of(s).len(),
{
    strip_cr(s.subrange(lines_of(s)[k].0, lines_of(s)[k].1))
}

/// The byte position reported for the start of line `k`: the positions are
/// accumulated as one byte past the end of each preceding reported line, so
/// on carriage-return line endings they undercount, exactly as the original
/// offsets do.
pub open spec fn rpos(s: Seq<char>, k: int) -> int
    recommends
        0 <= k <= lines_of(s).len(),
    decreases k,
{
    if k <= 0 {
        0
    } else {
        rpos(s, k - 1) + blen(line_text(s, k - 1)) + 1
    }
}

pub proof fn lemma_lines_from_wf(s: Seq<char>, i: int)
    requires
        0 <= i,
    ensures
        forall|k: int|
            0 <= k < lines_from(s, i).len() ==> {
                let (a, b) = #[trigger] lines_from(s, i)[k];
                &&& i <= a < s.len()
                &&& a <= b <= s.len()
                &&& b == find_nl(s, a)
                &&& (k == 0 ==> a == i)
                &&& (k + 1 < lines_from(s, i).len() ==> lines_from(s, i)[k + 1].0 == b + 1)
            },
    decreases s.len() - i + 1,
{
    if i < s.len() {
        let j = find_nl(s, i);
        lemma_find_nl(s, i);
        lemma_lines_from_wf(s, j + 1);
        let rest = lines_from(s, j + 1);
        assert(lines_from(s, i) == seq![(i, j)] + rest);
        assert forall|k: int| 0 <= k < lines_from(s, i).len() implies {
            let (a, b) = #[trigger] lines_from(s, i)[k];
            &&& i <= a < s.len()
            &&& a <= b <= s.len()
            &&& b == find_nl(s, a)
            &&& (k == 0 ==> a == i)
            &&& (k + 1 < lines_from(s, i).len() ==> lines_from(s, i)[k + 1].0 == b + 1)
        } by {
            if k == 0 {
                assert(lines_from(s, i)[0] == (i, j));
                if 1 < lines_from(s, i).len() {
                    assert(lines_from(s, i)[1] == rest[0]);
                    assert(rest.len() > 0);
                    assert(rest[0].0 == j + 1);
                }
            } else {
                assert(lines_from(s, i)[k] == rest[k - 1]);
                if k + 1 < lines_from(s, i).len() {
                    assert(lines_from(s, i)[k + 1] == rest[k]);
                }
            }
        }
    }
}

/// A text of `n` characters has at most `n` lines.
pub proof fn lemma_lines_from_count(s: Seq<char>, i: int)
    requires
        0 <= i <= s.len(),
    ensures
        lines_from(s, i).len() <= s.len() - i,
    decreases s.len() - i + 1,
{
    if i < s.len() {
        let j = find_nl(s, i);
        lemma_find_nl(s, i);
        if j < s.len() {
            lemma_lines_from_count(s, j + 1);
        } else {
            assert(lines_from(s, j + 1) =~= Seq::<(int, int)>::empty());
        }
    }
}

/// `strip_cr` never adds bytes.
pub proof fn lemma_strip_cr_blen(l: Seq<char>)
    ensures
        blen(strip_cr(l)) <= blen(l),
        strip_cr(l).len() <= l.len(),
{
    if l.len() > 0 && l.last() == '\r' {
        assert(l =~= l.drop_last() + seq![l.last()]);
        lemma_blen_concat(l.drop_last(), seq![l.last()]);
    }
}

/// Reported line positions never pass the true byte position of their
/// line's start: stripped carriage returns only make them fall short,
/// and each counted newline is a real one.
pub proof fn lemma_rpos_bound(s: Seq<char>, k: int)
    requires
        0 <= k <= lines_of(s).len(),
    ensures
        rpos(s, k) <= blen(s) + k,
        k < lines_of(s).len() ==> rpos(s, k) <= boff(s, lines_of(s)[k].0) + k,
        k < lines_of(s).len() ==> rpos(s, k) <= boff(s, lines_of(s)[k].0),
        k == lines_of(s).len() ==> rpos(s, k) <= blen(s) + 1,
    decreases k,
{
    lemma_lines_from_wf(s, 0);
    if k > 0 {
        lemma_rpos_bound(s, k - 1);
        let (a, b) = lines_of(s)[k - 1];
        lemma_strip_cr_blen(s.subrange(a, b));
        lemma_blen_subrange(s, a, b);
        lemma_boff_full(s);
        // rpos(k) == rpos(k-1) + blen(line k-1 text) + 1
        assert(rpos(s, k - 1) <= boff(s, a) + k - 1);
        assert(blen(line_text(s, k - 1)) <= blen(s.subrange(a, b)));
        if k < lines_of(s).len() {
            let a2 = lines_of(s)[k].0;
            assert(a2 == b + 1);
            assert(b + 1 <= s.len());
            lemma_find_nl(s, a);
            assert(s[b] == '\n');
            lemma_blen_subrange(s, b, b + 1);
            assert(s.subrange(b, b + 1) =~= seq![s[b]]);
            lemma_blen_singleton('\n');
            assert(vstd::utf8::encode_scalar('\n' as u32).len() == 1);
            assert(blen(seq!['\n']) == 1);
            assert(boff(s, b) + 1 == boff(s, a2));
            lemma_blen_subrange(s, a2, s.len() as int);
        } else {
            lemma_blen_subrange(s, b, s.len() as int);
        }
    }
}

/// Split `s` into its lines: each entry holds the char span of the line
/// (newline excluded) and its text with a trailing carriage return removed.
pub fn split_lines(s: &str) -> (r: Vec<(usize, usize, String)>)
    ensures
        r@.len() == lines_of(s@).len(),
        forall|k: int|
            0 <= k < r@.len() ==> {
                let (a, b) = #[trigger] lines_of(s@)[k];
                &&& r@[k].0 as int == a
                &&& r@[k].1 as int == b
                &&& r@[k].2@ == line_text(s@, k)
            },
{
    let n = s.unicode_len();
    let mut out: Vec<(usize, usize, String)> = Vec::new();
    let mut i: usize = 0;
    let ghost mut done: Seq<(int, int)> = Seq::empty();
    loop
        invariant_except_break
            lines_of(s@) == done + lines_from(s@, i as int),
        invariant
            n == s@.len(),
            i <= n,
            out@.len() == done.len(),
            forall|k: int|
                0 <= k < done.len() ==> {
                    let (a, b) = #[trigger] done[k];
                    &&& 0 <= a <= b <= n
                    &&& out@[k].0 as int == a
                    &&& out@[k].1 as int == b
                    &&& out@[k].2@ == strip_cr(s@.subrange(a, b))
                },
        ensures
            n == s@.len(),
            lines_of(s@) == done,
            out@.len() == done.len(),
            forall|k: int|
                0 <= k < done.len() ==> {
                    let (a, b) = #[trigger] done[k];
                    &&& 0 <= a <= b <= n
                    &&& out@[k].0 as int == a
                    &&& out@[k].1 as int == b
                    &&& out@[k].2@ == strip_cr(s@.subrange(a, b))
                },
        decreases n - i,
    {
        if i >= n {
            proof {
                assert(lines_from(s@, i as int) =~= Seq::<(int, int)>::empty());
                assert(lines_of(s@) =~= done);
            }
            break;
        }
        let mut j = i;
        loop
            invariant
                i <= j <= n,
                n == s@.len(),
                find_nl(s@, i as int) == find_nl(s@, j as int),
            ensures
                i <= j <= n,
                n == s@.len(),
                j as int == find_nl(s@, i as int),
            decreases n - j,
        {
            if j == n {
                break;
            }
            if s.get_char(j) == '\n' {
                break;
            }
            j = j + 1;
        }
        let content_end = if j > i && s.get_char(j - 1) == '\r' {
            j - 1
        } else {
            j
        };
        let content = String::from_str(s.substring_char(i, content_end));
        proof {
            let sub = s@.subrange(i as int, j as int);
            if j > i && s@[j as int - 1] == '\r' {
                assert(sub.last() == '\r');
                assert(content@ =~= strip_cr(sub));
            } else {
                if sub.len() > 0 {
                    assert(sub.last() == s@[j as int - 1]);
                }
                assert(content@ =~= strip_cr(sub));
            }
        }
        out.push((i, j, content));
        proof {
            assert(lines_from(s@, i as int) =~= seq![(i as int, j as int)] + lines_from(
                s@,
                j as int + 1,
            ));
            done = done + seq![(i as int, j as int)];
            assert(lines_of(s@) == done + lines_from(s@, j as int + 1));
        }
        if j == n {
            proof {
                assert(lines_from(s@, j as int + 1) =~= Seq::<(int, int)>::empty());
                assert(lines_of(s@) =~= done);
            }
            break;
        }
        i = j + 1;
    }
    proof {
        lemma_lines_from_wf(s@, 0);
    }
    out
}

/// The concatenation of a sequence of character sequences.
pub open spec fn concat_all(ss: Seq<Seq<char>>) -> Seq<char>
    decreases ss.len(),
{
    if ss.len() == 0 {
        Seq::empty()
    } else {
        ss[0] + concat_all(ss.drop_first())
    }
}

pub proof fn lemma_concat_all_split(ss: Seq<Seq<char>>, k: int)
    requires
        0 <= k <= ss.len(),
    ensures
        concat_all(ss) == concat_all(ss.take(k)) + concat_all(ss.skip(k)),
    decreases k,
{
    if k == 0 {
        assert(ss.take(0) =~= Seq::<Seq<char>>::empty());
        assert(ss.skip(0) =~= ss);
        assert(concat_all(ss) =~= concat_all(ss.take(0)) + concat_all(ss.skip(0)));
    } else {
        assert(ss.len() > 0);
        lemma_concat_all_split(ss.drop_first(), k - 1);
        assert(ss.drop_first().take(k - 1) =~= ss.take(k).drop_first());
        assert(ss.drop_first().skip(k - 1) =~= ss.skip(k));
        assert(ss.take(k)[0] == ss[0]);
        assert(concat_all(ss.take(k)) == ss[0] + concat_all(ss.take(k).drop_first()));
        assert(concat_all(ss) =~= concat_all(ss.take(k)) + concat_all(ss.skip(k)));
    }
}

/// Each prefix of segments accounts for a prefix of the bytes.
pub proof fn lemma_concat_all_bytes(ss: Seq<Seq<char>>, k: int)
    requires
        0 <= k < ss.len(),
    ensures
        blen(concat_all(ss.take(k))) + blen(ss[k]) <= blen(concat_all(ss)),
        blen(concat_all(ss.take(k + 1))) == blen(concat_all(ss.take(k))) + blen(ss[k]),
{
    lemma_concat_all_split(ss, k);
    lemma_concat_all_split(ss, k + 1);
    assert(ss.take(k + 1).take(k) =~= ss.take(k));
    lemma_concat_all_split(ss.take(k + 1), k);
    assert(ss.take(k + 1).skip(k) =~= seq![ss[k]]);
    assert(seq![ss[k]].drop_first() =~= Seq::<Seq<char>>::empty());
    assert(concat_all(seq![ss[k]]) == ss[k] + concat_all(Seq::<Seq<char>>::empty()));
    assert(concat_all(seq![ss[k]]) =~= ss[k]);
    lemma_blen_concat(concat_all(ss.take(k)), ss[k]);
    lemma_blen_concat(concat_all(ss.take(k + 1)), concat_all(ss.skip(k + 1)));
}

/// Whether `s` holds any non-whitespace character.
pub open spec fn has_non_ws(s: Seq<char>) -> bool {
    exists|k: int| 0 <= k < s.len() && !is_ws(#[trigger] s[k])
}

/// A text trims to something exactly when it holds a non-whitespace
/// character.
pub proof fn lemma_trim_non_ws(s: Seq<char>)
    ensures
        trim_spec(s).len() > 0 <==> has_non_ws(s),
{
    lemma_scan_non_ws(s, 0);
    lemma_trim_end_idx(s, s.len() as int);
    let b = scan_non_ws(s, 0);
    let e = trim_end_idx(s);
    if b < e {
        assert(!is_ws(s[b]));
        assert(has_non_ws(s));
    }
    if has_non_ws(s) {
        let k = choose|k: int| 0 <= k < s.len() && !is_ws(#[trigger] s[k]);
        assert(b <= k) by {
            if b > k {
                assert(is_ws(s[k]));
            }
        }
        assert(k < e) by {
            if k >= e {
                assert(is_ws(s[k]));
            }
        }
    }
}

/// Concatenation keeps any non-whitespace character of either side.
pub proof fn lemma_has_non_ws_concat(a: Seq<char>, b: Seq<char>)
    ensures
        has_non_ws(a) || has_non_ws(b) ==> has_non_ws(a + b),
        has_non_ws(a + b) ==> has_non_ws(a) || has_non_ws(b),
{
    if has_non_ws(a) {
        let k = choose|k: int| 0 <= k < a.len() && !is_ws(#[trigger] a[k]);
        assert((a + b)[k] == a[k]);
        assert(has_non_ws(a + b));
    }
    if has_non_ws(b) {
        let k = choose|k: int| 0 <= k < b.len() && !is_ws(#[trigger] b[k]);
        assert((a + b)[a.len() + k] == b[k]);
        assert(has_non_ws(a + b));
    }
    if has_non_ws(a + b) {
        let k = choose|k: int| 0 <= k < (a + b).len() && !is_ws(#[trigger] (a + b)[k]);
        if k < a.len() {
            assert(a[k] == (a + b)[k]);
            assert(has_non_ws(a));
        } else {
            assert(b[k - a.len()] == (a + b)[k]);
            assert(has_non_ws(b));
        }
    }
}

/// The decimal digit characters.
pub open spec fn dec_digit(d: int) -> char {
    if d == 0 {
        '0'
    } else if d == 1 {
        '1'
    } else if d == 2 {
        '2'
    } else if d == 3 {
        '3'
    } else if d == 4 {
        '4'
    } else if d == 5 {
        '5'
    } else if d == 6 {
        '6'
    } else if d == 7 {
        '7'
    } else if d == 8 {
        '8'
    } else {
        '9'
    }
}

/// The usual decimal rendering of `n`, without leading zeroes.
pub open spec fn dec_str(n: nat) -> Seq<char>
    decreases n,
{
    if n < 10 {
        seq![dec_digit(n as int)]
    } else {
        dec_str(n / 10) + seq![dec_digit((n % 10) as int)]
    }
}

/// A single decimal digit as a string slice.
pub fn digit_str(d: usize) -> (r: &'static str)
    requires
        d < 10,
    ensures
        r@ == seq![dec_digit(d as int)],
{
    proof {
        reveal_strlit("0");
        reveal_strlit("1");
        reveal_strlit("2");
        reveal_strlit("3");
        reveal_strlit("4");
        reveal_strlit("5");
        reveal_strlit("6");
        reveal_strlit("7");
        reveal_strlit("8");
        reveal_strlit("9");
    }
    if d == 0 {
        "0"
    } else if d == 1 {
        "1"
    } else if d == 2 {
        "2"
    } else if d == 3 {
        "3"
    } else if d == 4 {
        "4"
    } else if d == 5 {
        "5"
    } else if d == 6 {
        "6"
    } else if d == 7 {
        "7"
    } else if d == 8 {
        "8"
    } else {
        "9"
    }
}

/// Render `n` in decimal.
pub fn usize_to_string(n: usize) -> (r: String)
    ensures
        r@ == dec_str(n as nat),
    decreases n,
{
    if n < 10 {
        let r = String::from_str(digit_str(n));
        assert(r@ =~= dec_str(n as nat));
        r
    } else {
        let mut r = usize_to_string(n / 10);
        r.append(digit_str(n % 10));
        assert(r@ =~= dec_str(n as nat));
        r
    }
}

} // verus!
