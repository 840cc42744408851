//! Building the diff model from what the repository reports: file status,
//! paths, hunk lines, and syntax highlights taken from the full old and new
//! files by line number.
use vstd::prelude::*;
use vstd::utf8::encode_utf8;
use crate::diff::{DiffFile, DiffHunk, DiffLine, DiffLineKind, FileStatus, LineView, SourceLine, SourceView, hunk_view, hunks_view, source_view, opt_spans, copy_spans};
use crate::syntax::{HighlightSpan, spans_for, detect_language, highlight_source, language_for, last_segment, lang_named};
use crate::text::{boundary, is_boundary, lossy_decode, utf8_lossy, str_trim_end, trim_end_spec, str_eq, NL};

verus! {

/// The change kinds a repository reports for a file.
#[derive(Clone, Copy, PartialEq, Eq, Debug, Structural)]
pub enum DeltaKind {
    Unmodified,
    Added,
    Deleted,
    Modified,
    Renamed,
    Copied,
    Ignored,
    Untracked,
    Typechange,
    Unreadable,
    Conflicted,
}

/// The status shown for a change kind: untracked files count as added, and
/// kinds without a status of their own as modified.
pub open spec fn status_spec(k: DeltaKind) -> FileStatus {
    match k {
        DeltaKind::Added | DeltaKind::Untracked => FileStatus::Added,
        DeltaKind::Deleted => FileStatus::Deleted,
        DeltaKind::Modified => FileStatus::Modified,
        DeltaKind::Renamed => FileStatus::Renamed,
        _ => FileStatus::Modified,
    }
}

/// The status shown for a change kind.
pub fn file_status_from(k: DeltaKind) -> (s: FileStatus)
    ensures
        s == status_spec(k),
{
    match k {
        DeltaKind::Added | DeltaKind::Untracked => FileStatus::Added,
        DeltaKind::Deleted => FileStatus::Deleted,
        DeltaKind::Modified => FileStatus::Modified,
        DeltaKind::Renamed => FileStatus::Renamed,
        _ => FileStatus::Modified,
    }
}

/// The kind of a patch line by its origin marker: `+` added, `-` removed,
/// anything else context.
pub open spec fn kind_spec(origin: char) -> DiffLineKind {
    if origin == '+' {
        DiffLineKind::Added
    } else if origin == '-' {
        DiffLineKind::Removed
    } else {
        DiffLineKind::Context
    }
}

/// The kind of a patch line by its origin marker.
pub fn line_kind_from_origin(origin: char) -> (k: DiffLineKind)
    ensures
        k == kind_spec(origin),
{
    if origin == '+' {
        DiffLineKind::Added
    } else if origin == '-' {
        DiffLineKind::Removed
    } else {
        DiffLineKind::Context
    }
}

/// A patch line as the repository reports it.
pub struct RawLine {
    pub origin: char,
    pub content: Vec<u8>,
    pub old_lineno: Option<u32>,
    pub new_lineno: Option<u32>,
}

/// A patch hunk as the repository reports it.
pub struct RawHunk {
    pub header: Vec<u8>,
    pub lines: Vec<RawLine>,
}

/// A changed file as the repository reports it, with the full old and new
/// file texts where they could be read.
pub struct RawDelta {
    pub kind: DeltaKind,
    pub new_path: Option<String>,
    pub old_path: Option<String>,
    pub hunks: Vec<RawHunk>,
    pub new_content: Option<String>,
    pub old_content: Option<String>,
}

// ── Source lines ──

/// The byte ranges of the pieces of `b` split at every line feed, from `p`
/// on (the pieces of `str::split('\n')`, a last empty one after a final
/// line feed included).
pub open spec fn split_ranges(b: Seq<u8>, p: int) -> Seq<(int, int)>
    decreases b.len() + 1 - p,
{
    if p < 0 || p > b.len() {
        seq![]
    } else {
        let q = p + nl_count(b, p);
        if q < b.len() {
            seq![(p, q)] + split_ranges(b, q + 1)
        } else {
            seq![(p, q)]
        }
    }
}

/// How many bytes from `p` to the next line feed (or to the end).
pub open spec fn nl_count(b: Seq<u8>, p: int) -> nat
    decreases b.len() - p,
{
    if p < 0 || p >= b.len() || b[p] == NL {
        0
    } else {
        1 + nl_count(b, p + 1)
    }
}

/// Span `s` clipped to the line at bytes `ls..le` of the text, rebased to
/// the line and cut at the end of its trimmed text `tb`; none when nothing
/// is left or an end would fall inside a character.
pub open spec fn clip_to_trimmed(s: HighlightSpan, ls: int, le: int, tb: Seq<u8>) -> Option<HighlightSpan> {
    if s.start < le && s.end > ls {
        let a = (if s.start > ls { s.start as int } else { ls }) - ls;
        let e0 = (if s.end < le { s.end as int } else { le }) - ls;
        let b = if e0 < tb.len() { e0 } else { tb.len() as int };
        if a < b && b <= tb.len() && boundary(tb, a) && boundary(tb, b) {
            Some(HighlightSpan { start: a as usize, end: b as usize, color: s.color })
        } else {
            None
        }
    } else {
        None
    }
}

/// The first `k` spans clipped to the line, in order.
pub open spec fn clip_all(spans: Seq<HighlightSpan>, ls: int, le: int, tb: Seq<u8>, k: int) -> Seq<HighlightSpan>
    decreases k,
{
    if k <= 0 {
        seq![]
    } else {
        let prev = clip_all(spans, ls, le, tb, k - 1);
        match clip_to_trimmed(spans[k - 1], ls, le, tb) {
            Some(h) => prev.push(h),
            None => prev,
        }
    }
}

/// The source line for bytes `r` of the text `b`: the line with trailing
/// whitespace trimmed, and the spans that fall on what is left (none
/// rather than an empty list).
pub open spec fn source_line_spec(b: Seq<u8>, r: (int, int), spans: Seq<HighlightSpan>) -> SourceView {
    let t = trim_end_spec(lossy_decode(b.subrange(r.0, r.1)));
    let hs = clip_all(spans, r.0, r.1, encode_utf8(t), spans.len() as int);
    SourceView { content: t, highlights: if hs.len() == 0 { None } else { Some(hs) } }
}

/// The source lines of the text `b` with the spans `spans`.
pub open spec fn source_lines_spec(b: Seq<u8>, spans: Seq<HighlightSpan>) -> Seq<SourceView> {
    let rs = split_ranges(b, 0);
    Seq::new(rs.len(), |i: int| source_line_spec(b, rs[i], spans))
}

/// The views of source lines.
pub open spec fn sources_view(v: Seq<SourceLine>) -> Seq<SourceView> {
    v.map_values(|s: SourceLine| s@)
}

/// Clips the spans to the line at bytes `ls..le`, cut at its trimmed text.
fn clip_spans_trimmed(spans: &Vec<HighlightSpan>, ls: usize, le: usize, tb: &Vec<u8>) -> (r: Vec<HighlightSpan>)
    requires
        ls <= le,
    ensures
        r@ == clip_all(spans@, ls as int, le as int, tb@, spans@.len() as int),
{
    let mut r: Vec<HighlightSpan> = Vec::new();
    let mut i: usize = 0;
    while i < spans.len()
        invariant
            0 <= i <= spans@.len(),
            ls <= le,
            r@ == clip_all(spans@, ls as int, le as int, tb@, i as int),
        decreases spans@.len() - i,
    {
        let s = spans[i];
        if s.start < le && s.end > ls {
            let a = (if s.start > ls { s.start } else { ls }) - ls;
            let e0 = (if s.end < le { s.end } else { le }) - ls;
            let b = if e0 < tb.len() { e0 } else { tb.len() };
            if a < b && b <= tb.len() && is_boundary(tb, a) && is_boundary(tb, b) {
                r.push(HighlightSpan { start: a, end: b, color: s.color });
            }
        }
        i += 1;
    }
    r
}

/// Splits a text into source lines (at every line feed), each trimmed at
/// the end and carrying the spans that fall on it.
pub fn source_lines_from_spans(source: &str, spans: &Vec<HighlightSpan>) -> (r: Vec<SourceLine>)
    ensures
        sources_view(r@) == source_lines_spec(encode_utf8(source@), spans@),
{
    let b = source.as_bytes();
    let n = b.len();
    let ghost bs = b@;
    let ghost rs = split_ranges(bs, 0);
    let mut result: Vec<SourceLine> = Vec::new();
    let mut p: usize = 0;
    assert(rs.skip(0) =~= rs);
    loop
        invariant_except_break
            result@.len() < rs.len(),
            rs.skip(result@.len() as int) == split_ranges(bs, p as int),
        invariant
            bs == b@,
            n == bs.len(),
            rs == split_ranges(bs, 0),
            0 <= p <= n,
            forall|i: int| 0 <= i < result@.len() ==> (#[trigger] result@[i])@ == source_line_spec(bs, rs[i], spans@),
        ensures
            result@.len() == rs.len(),
            forall|i: int| 0 <= i < result@.len() ==> (#[trigger] result@[i])@ == source_line_spec(bs, rs[i], spans@),
        decreases n - p,
    {
        let mut q = p;
        while q < n && b[q] != NL
            invariant
                p <= q <= n,
                n == bs.len(),
                bs == b@,
                q + nl_count(bs, q as int) == p + nl_count(bs, p as int),
            decreases n - q,
        {
            q += 1;
        }
        let k = result.len();
        proof {
            assert(rs.skip(k as int).len() >= 1);
            assert(rs.skip(k as int)[0] == rs[k as int]);
            assert(rs[k as int] == (p as int, q as int));
        }
        let mut line: Vec<u8> = Vec::new();
        let mut j = p;
        while j < q
            invariant
                p <= j <= q <= n,
                n == bs.len(),
                bs == b@,
                line@ == bs.subrange(p as int, j as int),
            decreases q - j,
        {
            line.push(b[j]);
            j += 1;
            assert(line@ =~= bs.subrange(p as int, j as int));
        }
        let text = utf8_lossy(line.as_slice());
        let trimmed = str_trim_end(text.as_str());
        let tb = vstd::slice::slice_to_vec(trimmed.as_bytes());
        let hs = clip_spans_trimmed(spans, p, q, &tb);
        let highlights = if hs.len() == 0 {
            None
        } else {
            Some(hs)
        };
        let sl = SourceLine { content: trimmed.to_owned(), highlights };
        assert(sl@ == source_line_spec(bs, rs[k as int], spans@));
        result.push(sl);
        if q < n {
            proof {
                assert(rs.skip(k + 1) =~= rs.skip(k as int).skip(1));
                assert((seq![(p as int, q as int)] + split_ranges(bs, q + 1)).skip(1) =~= split_ranges(bs, q + 1));
            }
            p = q + 1;
        } else {
            proof {
                assert(split_ranges(bs, p as int) =~= seq![(p as int, q as int)]);
                assert(rs.skip(k as int).len() == 1);
            }
            break;
        }
    }
    assert(sources_view(result@) =~= source_lines_spec(bs, spans@));
    result
}

/// The source lines of the text `source` highlighted for the language
/// named `lang` (see [`spans_for`]).
pub open spec fn highlighted_from(source: Seq<char>, lang: Seq<char>, lines: Seq<SourceView>) -> bool {
    lines == source_lines_spec(encode_utf8(source), spans_for(source, lang))
}

/// The source lines of a whole file, highlighted for the language `lang`:
/// the lines of [`source_lines_from_spans`] for the spans the highlighter
/// gives (none for an unknown language).
pub fn highlight_full_file(source: &str, lang: &str) -> (r: Vec<SourceLine>)
    ensures
        highlighted_from(source@, lang@, sources_view(r@)),
        lang_named(lang@) is None ==> sources_view(r@) == source_lines_spec(encode_utf8(source@), seq![]),
{
    let spans = highlight_source(source, lang);
    let r = source_lines_from_spans(source, &spans);
    assert(sources_view(r@) == source_lines_spec(encode_utf8(source@), spans@));
    proof {
        if lang_named(lang@) is None {
            assert(spans@ =~= Seq::<HighlightSpan>::empty());
        }
    }
    r
}

// ── Attaching highlights to diff lines ──

/// The spans a diff line takes from the full files: removed lines from the
/// old file and the others from the new one, by line number (a line number
/// 0 reads as 1); a line whose file or line is missing keeps what it had.
pub open spec fn line_spans(l: LineView, new_src: Option<Seq<SourceView>>, old_src: Option<Seq<SourceView>>) -> Option<Seq<HighlightSpan>> {
    let src = if l.kind == DiffLineKind::Removed { old_src } else { new_src };
    let no = if l.kind == DiffLineKind::Removed { l.old_lineno } else { l.new_lineno };
    match (src, no) {
        (Some(ls), Some(n)) => {
            let idx = if n >= 1 { n - 1 } else { 0 };
            if idx < ls.len() {
                ls[idx as int].highlights
            } else {
                l.highlights
            }
        },
        _ => l.highlights,
    }
}

/// A diff line with the spans it takes from the full files.
pub open spec fn with_spans(l: LineView, new_src: Option<Seq<SourceView>>, old_src: Option<Seq<SourceView>>) -> LineView {
    LineView { highlights: line_spans(l, new_src, old_src), ..l }
}

/// The hunks with every line's spans taken from the full files.
pub open spec fn attached(hs: Seq<Seq<LineView>>, new_src: Option<Seq<SourceView>>, old_src: Option<Seq<SourceView>>) -> Seq<Seq<LineView>> {
    Seq::new(hs.len(), |h: int| Seq::new(hs[h].len(), |i: int| with_spans(hs[h][i], new_src, old_src)))
}

/// The spans of a source line, copied.
fn source_spans(ls: &Vec<SourceLine>, idx: usize) -> (r: Option<Vec<HighlightSpan>>)
    requires
        idx < ls@.len(),
    ensures
        opt_spans(r) == ls@[idx as int]@.highlights,
{
    match &ls[idx].highlights {
        Some(v) => Some(copy_spans(v)),
        None => None,
    }
}

/// The spans a diff line takes from the full files (see [`line_spans`]).
fn spans_for_line(l: &DiffLine, new_src: &Option<Vec<SourceLine>>, old_src: &Option<Vec<SourceLine>>) -> (r: Option<Vec<HighlightSpan>>)
    ensures
        opt_spans(r) == line_spans(l@, crate::diff::opt_source_view(*new_src), crate::diff::opt_source_view(*old_src)),
{
    let removed = l.kind == DiffLineKind::Removed;
    let src = if removed { old_src } else { new_src };
    let no = if removed { l.old_lineno } else { l.new_lineno };
    let keep = match &l.highlights {
        Some(v) => Some(copy_spans(v)),
        None => None,
    };
    match (src, no) {
        (Some(ls), Some(n)) => {
            let idx: usize = if n >= 1 { (n - 1) as usize } else { 0 };
            if idx < ls.len() {
                source_spans(ls, idx)
            } else {
                keep
            }
        },
        _ => keep,
    }
}

/// Gives every diff line the spans it takes from the full old and new files
/// (see [`line_spans`]).
pub fn attach_highlights(file: &mut DiffFile, new_src: &Option<Vec<SourceLine>>, old_src: &Option<Vec<SourceLine>>)
    ensures
        hunks_view(final(file)) == attached(
            hunks_view(old(file)),
            crate::diff::opt_source_view(*new_src),
            crate::diff::opt_source_view(*old_src),
        ),
        final(file).path == old(file).path,
        final(file).status == old(file).status,
        final(file).old_path == old(file).old_path,
        source_view(final(file)) == source_view(old(file)),
        final(file).hunks@.len() == old(file).hunks@.len(),
{
    let ghost ns = crate::diff::opt_source_view(*new_src);
    let ghost os = crate::diff::opt_source_view(*old_src);
    let ghost want = attached(hunks_view(old(file)), ns, os);
    let ghost orig = hunks_view(old(file));
    let mut hunks: Vec<DiffHunk> = Vec::new();
    std::mem::swap(&mut hunks, &mut file.hunks);
    let mut out: Vec<DiffHunk> = Vec::new();
    let mut h: usize = 0;
    while h < hunks.len()
        invariant
            0 <= h <= hunks@.len(),
            hunks@.map_values(|x: DiffHunk| hunk_view(x)) == orig,
            want == attached(orig, ns, os),
            ns == crate::diff::opt_source_view(*new_src),
            os == crate::diff::opt_source_view(*old_src),
            out@.len() == h,
            forall|k: int| 0 <= k < h ==> hunk_view(#[trigger] out@[k]) == want[k],
        decreases hunks@.len() - h,
    {
        let hk = &hunks[h];
        assert(hunk_view(*hk) == orig[h as int]);
        let mut lines: Vec<DiffLine> = Vec::new();
        let mut i: usize = 0;
        while i < hk.lines.len()
            invariant
                0 <= i <= hk.lines@.len(),
                hunk_view(*hk) == orig[h as int],
                h < orig.len(),
                want == attached(orig, ns, os),
                ns == crate::diff::opt_source_view(*new_src),
                os == crate::diff::opt_source_view(*old_src),
                lines@.len() == i,
                forall|k: int| 0 <= k < i ==> (#[trigger] lines@[k])@ == want[h as int][k],
            decreases hk.lines@.len() - i,
        {
            let l = &hk.lines[i];
            assert(l@ == orig[h as int][i as int]);
            let spans = spans_for_line(l, new_src, old_src);
            let nl = DiffLine {
                kind: l.kind,
                content: l.content.clone(),
                old_lineno: l.old_lineno,
                new_lineno: l.new_lineno,
                highlights: spans,
            };
            assert(nl@ == want[h as int][i as int]);
            lines.push(nl);
            i += 1;
        }
        let nh = DiffHunk { _header: hk._header.clone(), lines };
        assert(hunk_view(nh) =~= want[h as int]);
        out.push(nh);
        h += 1;
    }
    file.hunks = out;
    assert(hunks_view(file) =~= want);
}

// ── Whole files ──

/// The path shown for a change: the new path, else the old one, else
/// "unknown".
pub open spec fn path_spec(new_path: Option<String>, old_path: Option<String>) -> Seq<char> {
    match new_path {
        Some(p) => p@,
        None => match old_path {
            Some(p) => p@,
            None => "unknown"@,
        },
    }
}

/// The prior path kept for a rename: the old path when it differs from the
/// shown one.
pub open spec fn old_path_spec(kind: DeltaKind, shown: Seq<char>, old_path: Option<String>) -> Option<Seq<char>> {
    if status_spec(kind) == FileStatus::Renamed {
        match old_path {
            Some(p) => if p@ != shown { Some(p@) } else { None },
            None => None,
        }
    } else {
        None
    }
}

/// A diff line built from a patch line, without highlights.
pub open spec fn raw_line_view(l: RawLine) -> LineView {
    LineView {
        kind: kind_spec(l.origin),
        content: lossy_decode(l.content@),
        old_lineno: l.old_lineno,
        new_lineno: l.new_lineno,
        highlights: None,
    }
}

/// The hunks built from patch hunks, without highlights.
pub open spec fn raw_hunks_view(hs: Seq<RawHunk>) -> Seq<Seq<LineView>> {
    Seq::new(hs.len(), |h: int| Seq::new(hs[h].lines@.len(), |i: int| raw_line_view(hs[h].lines@[i])))
}

fn opt_string_view(o: &Option<String>) -> (r: Option<String>)
    ensures
        match (r, *o) {
            (Some(a), Some(b)) => a@ == b@,
            (None, None) => true,
            _ => false,
        },
{
    match o {
        Some(s) => Some(s.clone()),
        None => None,
    }
}

/// A changed file built from what the repository reports, without syntax
/// highlights: its shown path, status, prior path for a rename, and hunks.
pub fn diff_file_from(raw: &RawDelta) -> (f: DiffFile)
    ensures
        f.path@ == path_spec(raw.new_path, raw.old_path),
        f.status == status_spec(raw.kind),
        match f.old_path {
            Some(p) => old_path_spec(raw.kind, f.path@, raw.old_path) == Some(p@),
            None => old_path_spec(raw.kind, f.path@, raw.old_path) is None,
        },
        hunks_view(&f) == raw_hunks_view(raw.hunks@),
        f.source_lines is None,
{
    let path = match &raw.new_path {
        Some(p) => p.clone(),
        None => match &raw.old_path {
            Some(p) => p.clone(),
            None => "unknown".to_owned(),
        },
    };
    let status = file_status_from(raw.kind);
    let old_path = if status == FileStatus::Renamed {
        match &raw.old_path {
            Some(p) => if str_eq(p.as_str(), path.as_str()) {
                None
            } else {
                Some(p.clone())
            },
            None => None,
        }
    } else {
        None
    };
    let ghost want = raw_hunks_view(raw.hunks@);
    let mut hunks: Vec<DiffHunk> = Vec::new();
    let mut h: usize = 0;
    while h < raw.hunks.len()
        invariant
            0 <= h <= raw.hunks@.len(),
            want == raw_hunks_view(raw.hunks@),
            hunks@.len() == h,
            forall|k: int| 0 <= k < h ==> hunk_view(#[trigger] hunks@[k]) == want[k],
        decreases raw.hunks@.len() - h,
    {
        let rh = &raw.hunks[h];
        let mut lines: Vec<DiffLine> = Vec::new();
        let mut i: usize = 0;
        while i < rh.lines.len()
            invariant
                0 <= i <= rh.lines@.len(),
                h < raw.hunks@.len(),
                *rh == raw.hunks@[h as int],
                want == raw_hunks_view(raw.hunks@),
                lines@.len() == i,
                forall|k: int| 0 <= k < i ==> (#[trigger] lines@[k])@ == want[h as int][k],
            decreases rh.lines@.len() - i,
        {
            let rl = &rh.lines[i];
            let line = DiffLine {
                kind: line_kind_from_origin(rl.origin),
                content: utf8_lossy(rl.content.as_slice()),
                old_lineno: rl.old_lineno,
                new_lineno: rl.new_lineno,
                highlights: None,
            };
            assert(line@ == want[h as int][i as int]);
            lines.push(line);
            i += 1;
        }
        let nh = DiffHunk { _header: utf8_lossy(rh.header.as_slice()), lines };
        assert(hunk_view(nh) =~= want[h as int]);
        hunks.push(nh);
        h += 1;
    }
    let f = DiffFile { path, status, old_path, hunks, source_lines: None };
    assert(hunks_view(&f) =~= want);
    f
}

/// The source lines of an optional text, highlighted for `lang`.
fn highlight_opt(content: &Option<String>, lang: &str) -> (r: Option<Vec<SourceLine>>)
    ensures
        r is Some <==> content is Some,
        match (r, *content) {
            (Some(v), Some(c)) => highlighted_from(c@, lang@, sources_view(v@)),
            _ => true,
        },
{
    match content {
        Some(c) => Some(highlight_full_file(c.as_str(), lang)),
        None => None,
    }
}

/// A full text's source lines highlighted for the language named `lang`,
/// when the text was read.
pub open spec fn highlighted_text(content: Option<String>, lang: Seq<char>) -> Option<Seq<SourceView>> {
    match content {
        Some(c) => Some(source_lines_spec(encode_utf8(c@), spans_for(c@, lang))),
        None => None,
    }
}

/// The highlights a file gets from its full texts for the language named
/// `lang`: each diff line takes its spans from the highlighted old or new
/// text by line number, and the highlighted new text is kept for context
/// expansion.
pub open spec fn highlighted_file(
    before: Seq<Seq<LineView>>,
    after: Seq<Seq<LineView>>,
    sources: Option<Seq<SourceView>>,
    new_content: Option<String>,
    old_content: Option<String>,
    lang: Seq<char>,
) -> bool {
    &&& after == attached(before, highlighted_text(new_content, lang), highlighted_text(old_content, lang))
    &&& sources == highlighted_text(new_content, lang)
}

/// `f` is the changed file built from `raw`: its shown path, status, prior
/// path for a rename, and hunks, with highlights from its full texts when
/// its language is known (see [`highlighted_file`]).
pub open spec fn built_from(raw: RawDelta, f: DiffFile) -> bool {
    &&& f.path@ == path_spec(raw.new_path, raw.old_path)
    &&& f.status == status_spec(raw.kind)
    &&& match f.old_path {
        Some(p) => old_path_spec(raw.kind, f.path@, raw.old_path) == Some(p@),
        None => old_path_spec(raw.kind, f.path@, raw.old_path) is None,
    }
    &&& match language_for(last_segment(f.path@)) {
        None => hunks_view(&f) == raw_hunks_view(raw.hunks@) && f.source_lines is None,
        Some(lang) => highlighted_file(
            raw_hunks_view(raw.hunks@),
            hunks_view(&f),
            source_view(&f),
            raw.new_content,
            raw.old_content,
            lang,
        ),
    }
}

/// A changed file built from what the repository reports (see
/// [`diff_file_from`]), with syntax highlights from its full texts when its
/// language is known (see [`highlighted_file`]).
pub fn build_diff_file(raw: &RawDelta) -> (f: DiffFile)
    ensures
        built_from(*raw, f),
{
    let mut file = diff_file_from(raw);
    match detect_language(file.path.as_str()) {
        Some(lang) => {
            let new_src = highlight_opt(&raw.new_content, lang);
            let old_src = highlight_opt(&raw.old_content, lang);
            attach_highlights(&mut file, &new_src, &old_src);
            let ghost ns = crate::diff::opt_source_view(new_src);
            let ghost os = crate::diff::opt_source_view(old_src);
            file.source_lines = new_src;
            proof {
                assert(ns == highlighted_text(raw.new_content, lang@));
                assert(os == highlighted_text(raw.old_content, lang@));
                assert(hunks_view(&file) == attached(raw_hunks_view(raw.hunks@), ns, os));
                assert(source_view(&file) == ns);
            }
            file
        },
        None => file,
    }
}

/// Builds the changed files from what the repository reports, in order
/// (see [`build_diff_file`]).
pub fn extract_files(deltas: &Vec<RawDelta>) -> (r: Vec<DiffFile>)
    ensures
        r@.len() == deltas@.len(),
        forall|i: int| 0 <= i < r@.len() ==> built_from(deltas@[i], #[trigger] r@[i]),
{
    let mut r: Vec<DiffFile> = Vec::new();
    let mut i: usize = 0;
    while i < deltas.len()
        invariant
            0 <= i <= deltas@.len(),
            r@.len() == i,
            forall|k: int| 0 <= k < i ==> built_from(deltas@[k], #[trigger] r@[k]),
        decreases deltas@.len() - i,
    {
        r.push(build_diff_file(&deltas[i]));
        i += 1;
    }
    r
}


// ── Default branch ──

/// The prefix of the remote branches of `origin`.
pub open spec fn origin_prefix() -> Seq<char> {
    "refs/remotes/origin/"@
}

/// The default branch: what `origin/HEAD` points to under the remote's
/// branches, else `main` or `master` when it exists (locally or on
/// `origin`), else `main`.
pub open spec fn default_branch_spec(origin_head: Option<Seq<char>>, main_exists: bool, master_exists: bool) -> Seq<char> {
    match origin_head {
        Some(t) if t.len() >= origin_prefix().len() && t.take(origin_prefix().len() as int) == origin_prefix() => t.skip(
            origin_prefix().len() as int,
        ),
        _ => if main_exists {
            "main"@
        } else if master_exists {
            "master"@
        } else {
            "main"@
        },
    }
}

/// What reverting an added file does with a directory on the way up from
/// the file.
#[derive(Clone, Copy, PartialEq, Eq, Debug, Structural)]
pub enum ClimbAction {
    /// Remove the (empty) directory and look at its parent next.
    RemoveAndClimb,
    /// Leave it, and stop climbing.
    Stop,
}

/// The climb stops at the working directory itself and at a directory that
/// still holds something; a directory left empty is removed and the climb
/// goes on with its parent.
pub fn climb_action(at_workdir: bool, empty: bool) -> (r: ClimbAction)
    ensures
        r == if !at_workdir && empty { ClimbAction::RemoveAndClimb } else { ClimbAction::Stop },
{
    if !at_workdir && empty {
        ClimbAction::RemoveAndClimb
    } else {
        ClimbAction::Stop
    }
}

/// The default branch of a repository from what it reports: the symbolic
/// target of `refs/remotes/origin/HEAD`, if any, and whether a branch
/// `main` and one `master` exist (see [`default_branch_spec`]).
pub fn default_branch_from(origin_head: Option<&str>, main_exists: bool, master_exists: bool) -> (r: String)
    ensures
        r@ == default_branch_spec(
            match origin_head {
                Some(t) => Some(t@),
                None => None,
            },
            main_exists,
            master_exists,
        ),
{
    proof {
        reveal_strlit("refs/remotes/origin/");
    }
    match origin_head {
        Some(t) => {
            let cs = crate::text::str_chars(t);
            let pre = crate::text::str_chars("refs/remotes/origin/");
            if cs.len() >= pre.len() {
                let mut i: usize = 0;
                let mut same = true;
                while i < pre.len()
                    invariant
                        0 <= i <= pre@.len(),
                        pre@.len() <= cs@.len(),
                        same == (forall|k: int| 0 <= k < i ==> cs@[k] == pre@[k]),
                    decreases pre@.len() - i,
                {
                    if cs[i] != pre[i] {
                        same = false;
                    }
                    i += 1;
                }
                if same {
                    assert(cs@.take(pre@.len() as int) =~= pre@);
                } else {
                    proof {
                        let k = choose|k: int| 0 <= k < pre@.len() && cs@[k] != pre@[k];
                        assert(cs@.take(pre@.len() as int)[k] != pre@[k]);
                    }
                }
                if same {
                    let rest = crate::github::string_of(vstd::slice::slice_subrange(cs.as_slice(), pre.len(), cs.len()));
                    assert(rest@ =~= t@.skip(origin_prefix().len() as int));
                    return rest;
                }
            }
        },
        None => {},
    }
    if main_exists {
        "main".to_owned()
    } else if master_exists {
        "master".to_owned()
    } else {
        "main".to_owned()
    }
}

} // verus!
