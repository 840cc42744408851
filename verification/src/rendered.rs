//! Display lines of the file viewer: each line of the text, soft-wrapped at
//! word boundaries when wrapping is on, with the highlight spans that fall on
//! it rebased to the line.
use vstd::prelude::*;
use vstd::utf8::encode_utf8;
use vstd::string::StrSliceExecFns;
use crate::syntax::{HighlightSpan, SyntaxColor};
use crate::text::{boundary, is_boundary, lossy_decode, utf8_lossy, str_chars, lines_view, NL, CR};

verus! {

/// A highlight within one display line: a byte range and its colour.
#[derive(Clone, Copy, PartialEq, Eq, Debug, Structural)]
pub struct LineHighlight {
    pub start: usize,
    pub end: usize,
    pub color: SyntaxColor,
}

/// One display line.
pub struct RenderedLine {
    pub text: String,
    pub highlights: Vec<LineHighlight>,
    /// The buffer row this display line belongs to.
    pub buffer_row: usize,
    /// Byte offset within the buffer line where this display line starts.
    pub byte_offset: usize,
}

/// What a display line holds.
pub struct DisplayView {
    pub text: Seq<char>,
    pub highlights: Seq<LineHighlight>,
    pub buffer_row: usize,
    pub byte_offset: usize,
}

impl View for RenderedLine {
    type V = DisplayView;

    open spec fn view(&self) -> DisplayView {
        DisplayView {
            text: self.text@,
            highlights: self.highlights@,
            buffer_row: self.buffer_row,
            byte_offset: self.byte_offset,
        }
    }
}

/// The views of display lines.
pub open spec fn displays_view(v: Seq<RenderedLine>) -> Seq<DisplayView> {
    Seq::new(v.len(), |i: int| v[i]@)
}

// ── Soft wrap ──

/// Index of the last space in `h`, or -1 when it has none.
pub open spec fn last_space(h: Seq<char>) -> int
    decreases h.len(),
{
    if h.len() == 0 {
        -1
    } else if h.last() == ' ' {
        h.len() - 1
    } else {
        last_space(h.drop_last())
    }
}

/// Characters in the first chunk when `r`, longer than `m` characters,
/// wraps: through the last space among its first `m` characters, or
/// exactly `m` when there is none.
pub open spec fn wrap_break(r: Seq<char>, m: int) -> int {
    let j = last_space(r.take(m));
    if 0 <= j < m {
        j + 1
    } else {
        m
    }
}

/// The character indices at which the chunks of `r`, wrapped at `m`
/// characters, start, from `s` on.
pub open spec fn wrap_starts(r: Seq<char>, m: int, s: int) -> Seq<int>
    decreases r.len() - s,
{
    if m > 0 && 0 <= s && r.len() - s > m {
        seq![s] + wrap_starts(r, m, s + wrap_break(r.skip(s), m))
    } else {
        seq![s]
    }
}

/// Where chunk `k` of the chunk starts `st` ends, in a text of `n` characters.
pub open spec fn chunk_end(st: Seq<int>, k: int, n: int) -> int {
    if k + 1 < st.len() {
        st[k + 1]
    } else {
        n
    }
}

/// UTF-8 encoding distributes over concatenation.
pub proof fn lemma_encode_concat(a: Seq<char>, b: Seq<char>)
    ensures
        encode_utf8(a + b) == encode_utf8(a) + encode_utf8(b),
    decreases a.len(),
{
    if a.len() == 0 {
        assert(a + b =~= b);
        assert(encode_utf8(a) =~= Seq::<u8>::empty());
        assert(encode_utf8(a) + encode_utf8(b) =~= encode_utf8(b));
    } else {
        lemma_encode_concat(a.drop_first(), b);
        assert((a + b).drop_first() =~= a.drop_first() + b);
        assert((a + b)[0] == a[0]);
        let e0 = vstd::utf8::encode_scalar(a[0] as u32);
        assert(encode_utf8(a + b) == e0 + encode_utf8(a.drop_first() + b));
        assert(e0 + (encode_utf8(a.drop_first()) + encode_utf8(b)) =~= (e0 + encode_utf8(a.drop_first())) + encode_utf8(b));
    }
}

/// The encoding of a prefix of `r` is no longer than that of `r`, and
/// the encodings of `r[..i]` and `r[i..j]` make up that of `r[..j]`.
proof fn lemma_encode_prefix(r: Seq<char>, i: int, j: int)
    requires
        0 <= i <= j <= r.len(),
    ensures
        encode_utf8(r.take(j)) == encode_utf8(r.take(i)) + encode_utf8(r.subrange(i, j)),
        encode_utf8(r.take(j)).len() <= encode_utf8(r).len(),
{
    lemma_encode_concat(r.take(i), r.subrange(i, j));
    assert(r.take(i) + r.subrange(i, j) =~= r.take(j));
    lemma_encode_concat(r.take(j), r.skip(j));
    assert(r.take(j) + r.skip(j) =~= r);
}

/// A scan from the end that stops after a space (or at the start) finds
/// the last space.
proof fn lemma_last_space(h: Seq<char>, j: int)
    requires
        0 <= j <= h.len(),
        forall|i: int| j <= i < h.len() ==> h[i] != ' ',
        j == 0 || h[j - 1] == ' ',
    ensures
        last_space(h) == j - 1,
    decreases h.len(),
{
    if h.len() > j {
        assert(h.last() == h[h.len() - 1]);
        assert forall|i: int| j <= i < h.drop_last().len() implies h.drop_last()[i] != ' ' by {
            assert(h.drop_last()[i] == h[i]);
        }
        if j > 0 {
            assert(h.drop_last()[j - 1] == h[j - 1]);
        }
        lemma_last_space(h.drop_last(), j);
    } else if j > 0 {
        assert(h.last() == h[j - 1]);
    }
}

/// The chunk starts run upward from `s`, within the text.
proof fn lemma_wrap_starts(r: Seq<char>, m: int, s: int)
    requires
        0 <= s <= r.len(),
    ensures
        wrap_starts(r, m, s).len() >= 1,
        wrap_starts(r, m, s)[0] == s,
        forall|k: int| 0 <= k < wrap_starts(r, m, s).len() ==> s <= #[trigger] wrap_starts(r, m, s)[k] <= r.len(),
        forall|k: int| 0 <= k < wrap_starts(r, m, s).len() - 1 ==> #[trigger] wrap_starts(r, m, s)[k] < wrap_starts(r, m, s)[k + 1],
    decreases r.len() - s,
{
    let st = wrap_starts(r, m, s);
    if m > 0 && r.len() - s > m {
        let b = wrap_break(r.skip(s), m);
        lemma_wrap_starts(r, m, s + b);
        let rest = wrap_starts(r, m, s + b);
        assert(st == seq![s] + rest);
        assert forall|k: int| 0 <= k < st.len() implies s <= #[trigger] st[k] <= r.len() by {
            if k > 0 {
                assert(st[k] == rest[k - 1]);
            }
        }
        assert forall|k: int| 0 <= k < st.len() - 1 implies #[trigger] st[k] < st[k + 1] by {
            assert(st[k + 1] == rest[k]);
            if k > 0 {
                assert(st[k] == rest[k - 1]);
            }
        }
    }
}

/// Splits a line into chunks of at most `max_chars` characters at word
/// boundaries: each chunk runs through the last space that fits, or is cut
/// at `max_chars` characters when no space fits. Returns each chunk with
/// the byte offset in the line where it starts.
pub fn soft_wrap_line<'a>(line: &'a str, max_chars: usize) -> (chunks: Vec<(&'a str, usize)>)
    requires
        max_chars > 0,
    ensures
        chunks@.len() == wrap_starts(line@, max_chars as int, 0).len(),
        forall|k: int| 0 <= k < chunks@.len() ==> {
            let st = wrap_starts(line@, max_chars as int, 0);
            &&& (#[trigger] chunks@[k]).0@ == line@.subrange(st[k], chunk_end(st, k, line@.len() as int))
            &&& chunks@[k].1 == encode_utf8(line@.take(st[k])).len()
        },
{
    let total = line.as_bytes().len();
    let chars = str_chars(line);
    let n = chars.len();
    let ghost r = line@;
    let ghost m = max_chars as int;
    let ghost t = wrap_starts(r, m, 0);
    assert(encode_utf8(r).len() == total);
    let mut chunks: Vec<(&'a str, usize)> = Vec::new();
    let mut start: usize = 0;
    let mut byte_offset: usize = 0;
    assert(t.skip(0) =~= t);
    assert(encode_utf8(r.take(0)) =~= Seq::<u8>::empty()) by {
        assert(r.take(0) =~= Seq::<char>::empty());
    }
    while n - start > max_chars
        invariant
            chars@ == r,
            n == r.len(),
            r == line@,
            m == max_chars,
            max_chars > 0,
            t == wrap_starts(r, m, 0),
            start <= n,
            chunks@.len() < t.len(),
            t.skip(chunks@.len() as int) == wrap_starts(r, m, start as int),
            forall|k: int| 0 <= k < chunks@.len() ==> {
                &&& (#[trigger] chunks@[k]).0@ == r.subrange(t[k], t[k + 1])
                &&& chunks@[k].1 == encode_utf8(r.take(t[k])).len()
            },
            byte_offset == encode_utf8(r.take(start as int)).len(),
            encode_utf8(r).len() <= usize::MAX,
            chunks@.len() > 0 ==> start < n,
        decreases n - start,
    {
        let lim = start + max_chars;
        let mut j: usize = lim;
        while j > start && chars[j - 1] != ' '
            invariant
                start <= j <= lim,
                lim == start + max_chars,
                lim < n,
                chars@ == r,
                n == r.len(),
                forall|i: int| j <= i < lim ==> r[i] != ' ',
            decreases j - start,
        {
            j -= 1;
        }
        let b = if j > start {
            j - start
        } else {
            max_chars
        };
        let ghost k0 = chunks@.len() as int;
        proof {
            let h = r.skip(start as int).take(m);
            assert(h =~= r.subrange(start as int, lim as int));
            assert forall|i: int| (j - start) <= i < h.len() implies h[i] != ' ' by {
                assert(h[i] == r[start + i]);
            }
            if j > start {
                assert(h[j - start - 1] == r[j - 1]);
            }
            lemma_last_space(h, (j - start) as int);
            assert(wrap_break(r.skip(start as int), m) == b);
            assert(wrap_starts(r, m, start as int) == seq![start as int] + wrap_starts(r, m, start + b));
            assert(t.skip(k0)[0] == t[k0]);
            assert(t[k0] == start);
            assert(t.skip(k0 + 1) =~= t.skip(k0).skip(1));
            assert((seq![start as int] + wrap_starts(r, m, start + b)).skip(1) =~= wrap_starts(r, m, start + b));
            assert(t.skip(k0 + 1) =~= wrap_starts(r, m, start + b));
            assert(wrap_starts(r, m, start + b)[0] == start + b);
            assert(t[k0 + 1] == start + b);
            lemma_encode_prefix(r, start as int, start + b);
        }
        let piece = line.substring_char(start, start + b);
        let plen = piece.len();
        assert(plen == encode_utf8(r.subrange(start as int, start + b)).len());
        chunks.push((piece, byte_offset));
        byte_offset = byte_offset + plen;
        start = start + b;
    }
    proof {
        assert(wrap_starts(r, m, start as int) == seq![start as int]);
        assert(t.skip(chunks@.len() as int) =~= seq![start as int]);
        assert(t.len() == chunks@.len() + 1);
        assert(t.skip(chunks@.len() as int)[0] == t[chunks@.len() as int]);
        assert(t[chunks@.len() as int] == start);
    }
    if start < n || chunks.len() == 0 {
        let rest = line.substring_char(start, n);
        chunks.push((rest, byte_offset));
    }
    chunks
}

// ── Highlights on a line ──

/// Span `s` clipped to the line at bytes `ls..le` of the text, rebased to
/// the line; none when it misses the line or an end would fall inside a
/// character.
pub open spec fn clip_span(s: HighlightSpan, ls: int, le: int, line: Seq<u8>) -> Option<LineHighlight> {
    if s.start < le && s.end > ls {
        let a = (if s.start > ls { s.start as int } else { ls }) - ls;
        let b = (if s.end < le { s.end as int } else { le }) - ls;
        if a < b && b <= line.len() && boundary(line, a) && boundary(line, b) {
            Some(LineHighlight { start: a as usize, end: b as usize, color: s.color })
        } else {
            None
        }
    } else {
        None
    }
}

/// The first `k` spans clipped to the line, in order, dropping the misses.
pub open spec fn clip_spans(spans: Seq<HighlightSpan>, ls: int, le: int, line: Seq<u8>, k: int) -> Seq<LineHighlight>
    decreases k,
{
    if k <= 0 {
        seq![]
    } else {
        let prev = clip_spans(spans, ls, le, line, k - 1);
        match clip_span(spans[k - 1], ls, le, line) {
            Some(h) => prev.push(h),
            None => prev,
        }
    }
}

/// Clips the spans to the line at bytes `ls..ls + line.len()` of the text.
fn clip_spans_to_line(spans: &[HighlightSpan], ls: usize, line: &Vec<u8>) -> (r: Vec<LineHighlight>)
    requires
        ls + line@.len() <= usize::MAX,
    ensures
        r@ == clip_spans(spans@, ls as int, ls + line@.len(), line@, spans@.len() as int),
{
    let le = ls + line.len();
    let mut r: Vec<LineHighlight> = Vec::new();
    let mut i: usize = 0;
    while i < spans.len()
        invariant
            0 <= i <= spans@.len(),
            le == ls + line@.len(),
            r@ == clip_spans(spans@, ls as int, le as int, line@, i as int),
        decreases spans@.len() - i,
    {
        let s = spans[i];
        if s.start < le && s.end > ls {
            let a = (if s.start > ls { s.start } else { ls }) - ls;
            let b = (if s.end < le { s.end } else { le }) - ls;
            if a < b && b <= line.len() && is_boundary(line, a) && is_boundary(line, b) {
                r.push(LineHighlight { start: a, end: b, color: s.color });
            }
        }
        i += 1;
    }
    r
}

/// Highlight `h` rebased to the chunk at bytes `off..cend` of its line;
/// none when it misses the chunk.
pub open spec fn rebase_highlight(h: LineHighlight, off: int, cend: int) -> Option<LineHighlight> {
    if h.start < cend && h.end > off {
        Some(
            LineHighlight {
                start: (if h.start > off { h.start - off } else { 0 }) as usize,
                end: ((if h.end < cend { h.end as int } else { cend }) - off) as usize,
                color: h.color,
            },
        )
    } else {
        None
    }
}

/// The first `k` highlights rebased to the chunk, in order.
pub open spec fn rebase_highlights(hs: Seq<LineHighlight>, off: int, cend: int, k: int) -> Seq<LineHighlight>
    decreases k,
{
    if k <= 0 {
        seq![]
    } else {
        let prev = rebase_highlights(hs, off, cend, k - 1);
        match rebase_highlight(hs[k - 1], off, cend) {
            Some(h) => prev.push(h),
            None => prev,
        }
    }
}

fn rebase_to_chunk(hs: &Vec<LineHighlight>, off: usize, cend: usize) -> (r: Vec<LineHighlight>)
    requires
        off <= cend,
    ensures
        r@ == rebase_highlights(hs@, off as int, cend as int, hs@.len() as int),
{
    let mut r: Vec<LineHighlight> = Vec::new();
    let mut i: usize = 0;
    while i < hs.len()
        invariant
            0 <= i <= hs@.len(),
            off <= cend,
            r@ == rebase_highlights(hs@, off as int, cend as int, i as int),
        decreases hs@.len() - i,
    {
        let h = hs[i];
        if h.start < cend && h.end > off {
            let start = if h.start > off { h.start - off } else { 0 };
            let end = (if h.end < cend { h.end } else { cend }) - off;
            r.push(LineHighlight { start, end, color: h.color });
        }
        i += 1;
    }
    r
}

// ── Display lines ──

/// The text a display line shows: a single space for an empty one.
pub open spec fn shown_text(cs: Seq<char>) -> Seq<char> {
    if cs.len() == 0 {
        " "@
    } else {
        cs
    }
}

/// The display lines of buffer row `row` whose text is `cs`, with the
/// highlights `hs` (byte ranges of the line): one line, or, when wrapping
/// and longer than `m` characters, one per wrapped chunk with the
/// highlights that overlap it.
pub open spec fn line_displays(cs: Seq<char>, hs: Seq<LineHighlight>, row: usize, wrap: bool, m: int) -> Seq<DisplayView> {
    if wrap && cs.len() > m {
        let st = wrap_starts(cs, m, 0);
        Seq::new(
            st.len(),
            |k: int|
                {
                    let chunk = cs.subrange(st[k], chunk_end(st, k, cs.len() as int));
                    let off = encode_utf8(cs.take(st[k])).len();
                    DisplayView {
                        text: shown_text(chunk),
                        highlights: rebase_highlights(hs, off as int, (off + encode_utf8(chunk).len()) as int, hs.len() as int),
                        buffer_row: row,
                        byte_offset: off as usize,
                    }
                },
        )
    } else {
        seq![DisplayView { text: shown_text(cs), highlights: hs, buffer_row: row, byte_offset: 0 }]
    }
}

/// A display line holding `text` (a space when empty).
fn display_line(text: &str, highlights: Vec<LineHighlight>, buffer_row: usize, byte_offset: usize) -> (r: RenderedLine)
    ensures
        r@ == (DisplayView { text: shown_text(text@), highlights: highlights@, buffer_row, byte_offset }),
{
    let text = if text.unicode_len() == 0 {
        " ".to_owned()
    } else {
        text.to_owned()
    };
    RenderedLine { text, highlights, buffer_row, byte_offset }
}

/// Appends the display lines of one buffer row (see [`line_displays`]).
fn push_line_displays(
    out: &mut Vec<RenderedLine>,
    text: &str,
    hs: Vec<LineHighlight>,
    row: usize,
    wrap: bool,
    wrap_chars: usize,
)
    requires
        wrap ==> wrap_chars > 0,
    ensures
        displays_view(final(out)@) == displays_view(old(out)@) + line_displays(text@, hs@, row, wrap, wrap_chars as int),
{
    let ghost pre = displays_view(out@);
    let ghost cs = text@;
    let ghost m = wrap_chars as int;
    let total = text.as_bytes().len();
    assert(encode_utf8(cs).len() == total);
    if wrap && text.unicode_len() > wrap_chars {
        let chunks = soft_wrap_line(text, wrap_chars);
        let ghost st = wrap_starts(cs, m, 0);
        let ghost want = line_displays(cs, hs@, row, wrap, m);
        let mut k: usize = 0;
        while k < chunks.len()
            invariant
                0 <= k <= chunks@.len(),
                chunks@.len() == st.len(),
                st == wrap_starts(cs, m, 0),
                cs == text@,
                wrap && cs.len() > m,
                want == line_displays(cs, hs@, row, wrap, m),
                forall|j: int| 0 <= j < chunks@.len() ==> {
                    &&& (#[trigger] chunks@[j]).0@ == cs.subrange(st[j], chunk_end(st, j, cs.len() as int))
                    &&& chunks@[j].1 == encode_utf8(cs.take(st[j])).len()
                },
                displays_view(out@) == pre + want.take(k as int),
                encode_utf8(cs).len() <= usize::MAX,
            decreases chunks@.len() - k,
        {
            let (piece, off) = chunks[k];
            let plen = piece.as_bytes().len();
            proof {
                lemma_wrap_starts(cs, m, 0);
                let a = st[k as int];
                let e = chunk_end(st, k as int, cs.len() as int);
                assert(a <= e <= cs.len());
                lemma_encode_prefix(cs, a, e);
                assert(off + plen == encode_utf8(cs.take(e)).len());
            }
            let chunk_hl = rebase_to_chunk(&hs, off, off + plen);
            let line = display_line(piece, chunk_hl, row, off);
            let ghost before = out@;
            out.push(line);
            assert(displays_view(out@) =~= displays_view(before).push(line@));
            assert(want[k as int] == line@);
            assert(want.take(k + 1) =~= want.take(k as int).push(want[k as int]));
            k += 1;
        }
        assert(want.take(k as int) =~= want);
    } else {
        let line = display_line(text, hs, row, 0);
        let ghost before = out@;
        out.push(line);
        assert(displays_view(out@) =~= displays_view(before).push(line@));
        assert(line_displays(cs, hs@, row, wrap, m) =~= seq![line@]);
    }
}

// ── Lines of a text ──

/// How many bytes from `p` to the first line feed at or after it (or to
/// the end).
pub open spec fn nl_dist(b: Seq<u8>, p: int) -> nat
    decreases b.len() - p,
{
    if p < 0 || p >= b.len() || b[p] == NL {
        0
    } else {
        1 + nl_dist(b, p + 1)
    }
}

/// The line feed found from `p` lies within the text.
pub proof fn lemma_nl_dist(b: Seq<u8>, p: int)
    requires
        0 <= p <= b.len(),
    ensures
        p + nl_dist(b, p) <= b.len(),
    decreases b.len() - p,
{
    if p < b.len() && b[p] != NL {
        lemma_nl_dist(b, p + 1);
    }
}

#[via_fn]
proof fn line_ranges_decreases(b: Seq<u8>, p: int) {
    if 0 <= p < b.len() {
        lemma_nl_dist(b, p);
    }
}

/// The byte ranges, from `p` on, of the lines `str::lines` gives: split at
/// line feeds, a carriage return right before a line feed dropped, no line
/// after a final line feed.
pub open spec fn line_ranges(b: Seq<u8>, p: int) -> Seq<(int, int)>
    decreases b.len() + 1 - p
    via line_ranges_decreases
{
    if p < 0 || p >= b.len() {
        seq![]
    } else {
        let q = p + nl_dist(b, p);
        let e = if q < b.len() && q > p && b[q - 1] == CR { q - 1 } else { q };
        seq![(p, e)] + line_ranges(b, q + 1)
    }
}

/// The display lines of the first `k` lines of the text `b`, each line's
/// spans clipped from `spans` (byte ranges of the text).
pub open spec fn text_displays(b: Seq<u8>, spans: Seq<HighlightSpan>, wrap: bool, m: int, k: int) -> Seq<DisplayView>
    decreases k,
{
    if k <= 0 {
        seq![]
    } else {
        let (s, e) = line_ranges(b, 0)[k - 1];
        let line = b.subrange(s, e);
        text_displays(b, spans, wrap, m, k - 1) + line_displays(
            lossy_decode(line),
            clip_spans(spans, s, e, line, spans.len() as int),
            (k - 1) as usize,
            wrap,
            m,
        )
    }
}

/// The display lines of a whole text: those of its lines, or one blank
/// line for a text without lines.
pub open spec fn precomputed(b: Seq<u8>, spans: Seq<HighlightSpan>, wrap: bool, m: int) -> Seq<DisplayView> {
    let d = text_displays(b, spans, wrap, m, line_ranges(b, 0).len() as int);
    if d.len() == 0 {
        seq![DisplayView { text: " "@, highlights: seq![], buffer_row: 0, byte_offset: 0 }]
    } else {
        d
    }
}

/// The bytes `a..e` of `b` as a vector.
fn copy_range(b: &[u8], a: usize, e: usize) -> (r: Vec<u8>)
    requires
        a <= e <= b@.len(),
    ensures
        r@ == b@.subrange(a as int, e as int),
{
    let mut r: Vec<u8> = Vec::new();
    let mut i = a;
    while i < e
        invariant
            a <= i <= e <= b@.len(),
            r@ == b@.subrange(a as int, i as int),
        decreases e - i,
    {
        r.push(b[i]);
        i += 1;
        assert(r@ =~= b@.subrange(a as int, i as int));
    }
    r
}

/// Builds the display lines of a text with its highlight spans: one per
/// line of the text (as `str::lines` splits it) or per wrapped chunk of a
/// line when `wrap` is on, each with the spans that fall on it; one blank
/// line when the text has none.
pub fn precompute_lines(content: &str, highlights: &[HighlightSpan], wrap: bool, wrap_chars: usize) -> (r: Vec<RenderedLine>)
    requires
        wrap ==> wrap_chars > 0,
    ensures
        displays_view(r@) == precomputed(encode_utf8(content@), highlights@, wrap, wrap_chars as int),
{
    let b = content.as_bytes();
    let n = b.len();
    let ghost bs = b@;
    let ghost m = wrap_chars as int;
    let ghost lr = line_ranges(bs, 0);
    let mut result: Vec<RenderedLine> = Vec::new();
    let mut p: usize = 0;
    let mut row: usize = 0;
    assert(lr.skip(0) =~= lr);
    while p < n
        invariant
            bs == b@,
            n == bs.len(),
            lr == line_ranges(bs, 0),
            wrap ==> wrap_chars > 0,
            m == wrap_chars,
            0 <= p <= n,
            row <= lr.len(),
            lr.skip(row as int) == line_ranges(bs, p as int),
            row <= p,
            displays_view(result@) == text_displays(bs, highlights@, wrap, m, row as int),
        decreases n - p,
    {
        let mut q = p;
        while q < n && b[q] != NL
            invariant
                p <= q <= n,
                n == bs.len(),
                bs == b@,
                q + nl_dist(bs, q as int) == p + nl_dist(bs, p as int),
            decreases n - q,
        {
            q += 1;
        }
        let e = if q < n && q > p && b[q - 1] == CR {
            q - 1
        } else {
            q
        };
        proof {
            assert(line_ranges(bs, p as int) == seq![(p as int, e as int)] + line_ranges(bs, q + 1));
            assert(lr.skip(row as int).len() >= 1);
            assert(row < lr.len());
            assert(lr.skip(row as int)[0] == lr[row as int]);
            assert(lr[row as int] == (p as int, e as int));
            assert(lr.skip(row + 1) =~= lr.skip(row as int).skip(1));
            assert((seq![(p as int, e as int)] + line_ranges(bs, q + 1)).skip(1) =~= line_ranges(bs, q + 1));
            assert(lr.skip(row + 1) =~= line_ranges(bs, q + 1));
        }
        let line = copy_range(b, p, e);
        let hs = clip_spans_to_line(highlights, p, &line);
        let text = utf8_lossy(line.as_slice());
        let ghost before = displays_view(result@);
        push_line_displays(&mut result, text.as_str(), hs, row, wrap, wrap_chars);
        row += 1;
        if q < n {
            p = q + 1;
        } else {
            p = n;
            assert(line_ranges(bs, q + 1) =~= line_ranges(bs, n as int));
        }
    }
    proof {
        assert(line_ranges(bs, p as int) =~= Seq::<(int, int)>::empty());
        assert(lr.len() == row);
    }
    if result.len() == 0 {
        result.push(RenderedLine { text: " ".to_owned(), highlights: Vec::new(), buffer_row: 0, byte_offset: 0 });
        assert(displays_view(result@) =~= seq![result@[0]@]);
    }
    result
}

/// Builds the display lines of buffer lines without highlights (kept
/// cheap while typing): one per line, or per wrapped chunk when `wrap` is on.
pub fn plain_lines(buffer: &Vec<Vec<u8>>, wrap: bool, wrap_chars: usize) -> (r: Vec<RenderedLine>)
    requires
        wrap ==> wrap_chars > 0,
    ensures
        displays_view(r@) == plain_displays(lines_view(buffer@), wrap, wrap_chars as int, buffer@.len() as int),
{
    let mut result: Vec<RenderedLine> = Vec::new();
    let mut row: usize = 0;
    while row < buffer.len()
        invariant
            0 <= row <= buffer@.len(),
            wrap ==> wrap_chars > 0,
            displays_view(result@) == plain_displays(lines_view(buffer@), wrap, wrap_chars as int, row as int),
        decreases buffer@.len() - row,
    {
        let text = utf8_lossy(buffer[row].as_slice());
        assert(lines_view(buffer@)[row as int] == buffer@[row as int]@);
        push_line_displays(&mut result, text.as_str(), Vec::new(), row, wrap, wrap_chars);
        row += 1;
    }
    result
}

/// The display lines of the first `k` buffer lines, without highlights.
pub open spec fn plain_displays(ls: Seq<Seq<u8>>, wrap: bool, m: int, k: int) -> Seq<DisplayView>
    decreases k,
{
    if k <= 0 {
        seq![]
    } else {
        plain_displays(ls, wrap, m, k - 1) + line_displays(lossy_decode(ls[k - 1]), seq![], (k - 1) as usize, wrap, m)
    }
}

/// The first display line of a buffer row, or the row itself when no
/// display line belongs to it.
pub fn buffer_row_to_visual(lines: &Vec<RenderedLine>, buffer_row: usize) -> (r: usize)
    ensures
        (exists|i: int| 0 <= i < lines@.len() && (#[trigger] lines@[i]).buffer_row == buffer_row) ==> {
            &&& r < lines@.len()
            &&& lines@[r as int].buffer_row == buffer_row
            &&& forall|i: int| 0 <= i < r ==> (#[trigger] lines@[i]).buffer_row != buffer_row
        },
        (forall|i: int| 0 <= i < lines@.len() ==> (#[trigger] lines@[i]).buffer_row != buffer_row) ==> r == buffer_row,
{
    let mut i: usize = 0;
    while i < lines.len()
        invariant
            0 <= i <= lines@.len(),
            forall|j: int| 0 <= j < i ==> (#[trigger] lines@[j]).buffer_row != buffer_row,
        decreases lines@.len() - i,
    {
        if lines[i].buffer_row == buffer_row {
            return i;
        }
        i += 1;
    }
    buffer_row
}

/// The buffer row and byte offset a display line stands for; past the last
/// display line, the index itself at offset 0.
pub fn visual_to_buffer(lines: &Vec<RenderedLine>, visual_ix: usize) -> (r: (usize, usize))
    ensures
        visual_ix < lines@.len() ==> r == (lines@[visual_ix as int].buffer_row, lines@[visual_ix as int].byte_offset),
        visual_ix >= lines@.len() ==> r == (visual_ix, 0usize),
{
    if visual_ix < lines.len() {
        (lines[visual_ix].buffer_row, lines[visual_ix].byte_offset)
    } else {
        (visual_ix, 0)
    }
}

/// The highlight spans of `content` for `language`: none without a
/// language, else those of [`spans_for`].
pub open spec fn lang_spans(content: Seq<char>, language: Option<Seq<char>>) -> Seq<HighlightSpan> {
    match language {
        None => seq![],
        Some(l) => crate::syntax::spans_for(content, l),
    }
}

/// An optional name, as values.
pub open spec fn opt_str(o: Option<&str>) -> Option<Seq<char>> {
    match o {
        Some(l) => Some(l@),
        None => None,
    }
}

/// The language is markdown.
pub open spec fn is_md(o: Option<Seq<char>>) -> bool {
    o matches Some(l) && l == "markdown"@
}

/// Whether a language name is markdown.
fn is_markdown(language: Option<&str>) -> (r: bool)
    ensures
        r == is_md(opt_str(language)),
{
    match language {
        Some(l) => crate::text::str_eq(l, "markdown"),
        None => false,
    }
}

/// The display lines of a whole text with its syntax highlights: the
/// highlighter's spans for `language` (none without one), soft-wrapped at
/// `wrap_chars` characters for markdown (see [`precomputed`]).
pub fn highlighted_lines(content: &str, language: Option<&str>, wrap_chars: usize) -> (r: Vec<RenderedLine>)
    requires
        wrap_chars > 0,
    ensures
        displays_view(r@) == precomputed(
                encode_utf8(content@),
                lang_spans(content@, opt_str(language)),
                is_md(opt_str(language)),
                wrap_chars as int,
            ),
{
    let spans = match language {
        Some(lang) => crate::syntax::highlight_source(content, lang),
        None => Vec::new(),
    };
    let md = is_markdown(language);
    precompute_lines(content, spans.as_slice(), md, wrap_chars)
}

/// A file's text as the editor holds it (its lines, one empty line for an
/// empty text) and its display lines (see [`highlighted_lines`]).
pub fn compute_buffer_and_lines(content: &str, language: Option<&str>, wrap_chars: usize) -> (r: (Vec<Vec<u8>>, Vec<RenderedLine>))
    requires
        wrap_chars > 0,
    ensures
        lines_view(r.0@) == crate::text::buffer_lines(encode_utf8(content@)),
        displays_view(r.1@) == precomputed(
                encode_utf8(content@),
                lang_spans(content@, opt_str(language)),
                is_md(opt_str(language)),
                wrap_chars as int,
            ),
{
    let buffer = crate::text::content_lines(content.as_bytes());
    let rendered = highlighted_lines(content, language, wrap_chars);
    (buffer, rendered)
}

/// The display lines of the buffer after an edit that needs a full
/// highlight (save, undo, redo): the lines joined with line feeds,
/// highlighted as a whole (see [`highlighted_lines`]).
pub fn recompute_highlights_full(buffer: &Vec<Vec<u8>>, language: Option<&str>, wrap_chars: usize) -> (r: Vec<RenderedLine>)
    requires
        wrap_chars > 0,
    ensures
        displays_view(r@) == precomputed(
                encode_utf8(lossy_decode(crate::text::join_nl(lines_view(buffer@)))),
                lang_spans(lossy_decode(crate::text::join_nl(lines_view(buffer@))), opt_str(language)),
                is_md(opt_str(language)),
                wrap_chars as int,
            ),
{
    let joined = crate::text::join_lines(buffer);
    let content = utf8_lossy(joined.as_slice());
    highlighted_lines(content.as_str(), language, wrap_chars)
}

} // verus!
