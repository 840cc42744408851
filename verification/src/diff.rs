//! The diff model shared by the working-tree and pull-request panels, and
//! its flattening into display segments with collapsible context.
use vstd::prelude::*;
use crate::syntax::HighlightSpan;

verus! {

/// What a diff line does.
#[derive(Clone, Copy, PartialEq, Eq, Debug, Structural)]
pub enum DiffLineKind {
    Context,
    Added,
    Removed,
}

/// How a file changed.
#[derive(Clone, Copy, PartialEq, Eq, Debug, Structural)]
pub enum FileStatus {
    Added,
    Modified,
    Deleted,
    Renamed,
}

/// A line of a hunk.
pub struct DiffLine {
    pub kind: DiffLineKind,
    pub content: String,
    pub old_lineno: Option<u32>,
    pub new_lineno: Option<u32>,
    /// Syntax highlight spans for the line's content, when computed.
    pub highlights: Option<Vec<HighlightSpan>>,
}

/// What a diff line holds, as values.
pub struct LineView {
    pub kind: DiffLineKind,
    pub content: Seq<char>,
    pub old_lineno: Option<u32>,
    pub new_lineno: Option<u32>,
    pub highlights: Option<Seq<HighlightSpan>>,
}

pub open spec fn opt_spans(h: Option<Vec<HighlightSpan>>) -> Option<Seq<HighlightSpan>> {
    match h {
        Some(v) => Some(v@),
        None => None,
    }
}

impl View for DiffLine {
    type V = LineView;

    open spec fn view(&self) -> LineView {
        LineView {
            kind: self.kind,
            content: self.content@,
            old_lineno: self.old_lineno,
            new_lineno: self.new_lineno,
            highlights: opt_spans(self.highlights),
        }
    }
}


/// A hunk: its header and its lines.
pub struct DiffHunk {
    pub _header: String,
    pub lines: Vec<DiffLine>,
}

/// A line of the full new-side file, with its highlight spans.
pub struct SourceLine {
    pub content: String,
    pub highlights: Option<Vec<HighlightSpan>>,
}

/// A changed file.
pub struct DiffFile {
    pub path: String,
    pub status: FileStatus,
    /// For renames, the path the file moved from, when known and different.
    pub old_path: Option<String>,
    pub hunks: Vec<DiffHunk>,
    /// The full new-side file, one entry per line, for context expansion.
    pub source_lines: Option<Vec<SourceLine>>,
}

/// A source line as values: its text and highlight spans.
pub struct SourceView {
    pub content: Seq<char>,
    pub highlights: Option<Seq<HighlightSpan>>,
}

impl View for SourceLine {
    type V = SourceView;

    open spec fn view(&self) -> SourceView {
        SourceView { content: self.content@, highlights: opt_spans(self.highlights) }
    }
}

/// The lines of a hunk, as values.
pub open spec fn hunk_view(h: DiffHunk) -> Seq<LineView> {
    h.lines@.map_values(|l: DiffLine| l@)
}

/// The hunks of a file, as values.
pub open spec fn hunks_view(f: &DiffFile) -> Seq<Seq<LineView>> {
    f.hunks@.map_values(|h: DiffHunk| hunk_view(h))
}

/// Optional source lines, as values.
pub open spec fn opt_source_view(o: Option<Vec<SourceLine>>) -> Option<Seq<SourceView>> {
    match o {
        Some(v) => Some(v@.map_values(|s: SourceLine| s@)),
        None => None,
    }
}

/// The full new-side file, as values, when the file carries it.
pub open spec fn source_view(f: &DiffFile) -> Option<Seq<SourceView>> {
    opt_source_view(f.source_lines)
}

/// A copy of a highlight span list.
pub fn copy_spans(v: &Vec<HighlightSpan>) -> (r: Vec<HighlightSpan>)
    ensures
        r@ == v@,
{
    let mut r: Vec<HighlightSpan> = Vec::new();
    let mut i: usize = 0;
    while i < v.len()
        invariant
            0 <= i <= v.len(),
            r@ == v@.subrange(0, i as int),
        decreases v.len() - i,
    {
        r.push(v[i]);
        i += 1;
        assert(r@ =~= v@.subrange(0, i as int));
    }
    assert(v@.subrange(0, v.len() as int) =~= v@);
    r
}

/// A copy of an optional highlight span list.
pub fn copy_opt_spans(v: &Option<Vec<HighlightSpan>>) -> (r: Option<Vec<HighlightSpan>>)
    ensures
        opt_spans(r) == opt_spans(*v),
{
    match v {
        Some(s) => Some(copy_spans(s)),
        None => None,
    }
}

impl DiffLine {
    /// A copy of this line.
    pub fn copy(&self) -> (r: DiffLine)
        ensures
            r@ == self@,
    {
        DiffLine {
            kind: self.kind,
            content: self.content.clone(),
            old_lineno: self.old_lineno,
            new_lineno: self.new_lineno,
            highlights: copy_opt_spans(&self.highlights),
        }
    }
}

/// Number of lines of `ls` of kind `k`.
pub open spec fn count_kind(ls: Seq<LineView>, k: DiffLineKind) -> nat
    decreases ls.len(),
{
    if ls.len() == 0 {
        0
    } else {
        count_kind(ls.drop_last(), k) + if ls.last().kind == k { 1nat } else { 0nat }
    }
}

/// Number of lines of kind `k` over all hunks.
pub open spec fn count_kind_hunks(hs: Seq<Seq<LineView>>, k: DiffLineKind) -> nat
    decreases hs.len(),
{
    if hs.len() == 0 {
        0
    } else {
        count_kind_hunks(hs.drop_last(), k) + count_kind(hs.last(), k)
    }
}

/// A prefix of the hunks holds no more lines of a kind than all of them.
proof fn lemma_count_prefix(hs: Seq<Seq<LineView>>, i: int, k: DiffLineKind)
    requires
        0 <= i <= hs.len(),
    ensures
        count_kind_hunks(hs.subrange(0, i), k) <= count_kind_hunks(hs, k),
    decreases hs.len(),
{
    if i < hs.len() {
        assert(hs.drop_last().subrange(0, i) =~= hs.subrange(0, i));
        lemma_count_prefix(hs.drop_last(), i, k);
    } else {
        assert(hs.subrange(0, i) =~= hs);
    }
}

impl DiffFile {
    /// Counts the lines of kind `k` across all hunks.
    pub fn count_lines_of(&self, k: DiffLineKind) -> (n: usize)
        requires
            count_kind_hunks(hunks_view(self), k) <= usize::MAX,
        ensures
            n == count_kind_hunks(hunks_view(self), k),
    {
        let ghost hs = hunks_view(self);
        let mut total: usize = 0;
        let mut h: usize = 0;
        while h < self.hunks.len()
            invariant
                hs == hunks_view(self),
                0 <= h <= self.hunks.len(),
                total == count_kind_hunks(hs.subrange(0, h as int), k),
                count_kind_hunks(hs, k) <= usize::MAX,
            decreases self.hunks.len() - h,
        {
            let lines = &self.hunks[h].lines;
            let ghost ls = hs[h as int];
            assert(ls == lines@.map_values(|l: DiffLine| l@));
            let mut i: usize = 0;
            let mut n: usize = 0;
            while i < lines.len()
                invariant
                    ls == lines@.map_values(|l: DiffLine| l@),
                    0 <= i <= lines.len(),
                    n == count_kind(ls.subrange(0, i as int), k),
                    n <= i,
                decreases lines.len() - i,
            {
                assert(ls.subrange(0, i + 1).drop_last() =~= ls.subrange(0, i as int));
                if lines[i].kind == k {
                    n += 1;
                }
                i += 1;
            }
            assert(ls.subrange(0, lines.len() as int) =~= ls);
            assert(hs.subrange(0, h + 1).drop_last() =~= hs.subrange(0, h as int));
            proof {
                lemma_count_prefix(hs, h + 1, k);
            }
            total = total + n;
            h += 1;
        }
        assert(hs.subrange(0, self.hunks.len() as int) =~= hs);
        total
    }

    /// Number of added lines across all hunks.
    pub fn additions(&self) -> (n: usize)
        requires
            count_kind_hunks(hunks_view(self), DiffLineKind::Added) <= usize::MAX,
        ensures
            n == count_kind_hunks(hunks_view(self), DiffLineKind::Added),
    {
        self.count_lines_of(DiffLineKind::Added)
    }

    /// Number of removed lines across all hunks.
    pub fn deletions(&self) -> (n: usize)
        requires
            count_kind_hunks(hunks_view(self), DiffLineKind::Removed) <= usize::MAX,
        ensures
            n == count_kind_hunks(hunks_view(self), DiffLineKind::Removed),
    {
        self.count_lines_of(DiffLineKind::Removed)
    }
}


/// Context lines shown around each change.
pub const DEFAULT_CONTEXT: usize = 3;

/// Lines revealed by one click on a collapse bar.
pub const EXPAND_STEP: usize = 20;

/// Which side of a hunk a collapse bar expands.
#[derive(Clone, Copy, PartialEq, Eq, Debug, Structural)]
pub enum ExpandDirection {
    Top,
    Bottom,
}

/// A display segment of a file's diff: a line, or a bar standing for
/// `count` hidden lines.
pub enum LineSegment {
    Line(DiffLine),
    CollapsedContext { count: usize, hunk_idx: usize, direction: ExpandDirection },
}

/// A segment as values.
pub enum SegView {
    Line(LineView),
    Collapsed(int, int, ExpandDirection),
}

impl View for LineSegment {
    type V = SegView;

    open spec fn view(&self) -> SegView {
        match self {
            LineSegment::Line(l) => SegView::Line(l@),
            LineSegment::CollapsedContext { count, hunk_idx, direction } => SegView::Collapsed(
                *count as int,
                *hunk_idx as int,
                *direction,
            ),
        }
    }
}

pub open spec fn segs_view(v: Seq<LineSegment>) -> Seq<SegView> {
    v.map_values(|s: LineSegment| s@)
}

pub open spec fn is_change(l: LineView) -> bool {
    l.kind != DiffLineKind::Context
}

/// The first new-side line number among `ls[i..]`, or 1 when there is none.
pub open spec fn first_new_from(ls: Seq<LineView>, i: int) -> int
    decreases ls.len() - i,
{
    if i < 0 || i >= ls.len() {
        1
    } else {
        match ls[i].new_lineno {
            Some(n) => n as int,
            None => first_new_from(ls, i + 1),
        }
    }
}

/// The last new-side line number among `ls[..i]`, or 1 when there is none.
pub open spec fn last_new_upto(ls: Seq<LineView>, i: int) -> int
    decreases i,
{
    if i <= 0 || i > ls.len() {
        1
    } else {
        match ls[i - 1].new_lineno {
            Some(n) => n as int,
            None => last_new_upto(ls, i - 1),
        }
    }
}

/// Index of the first added or removed line in `ls[i..]`, or `ls.len()`.
pub open spec fn first_change_from(ls: Seq<LineView>, i: int) -> int
    decreases ls.len() - i,
{
    if i < 0 || i >= ls.len() {
        ls.len() as int
    } else if is_change(ls[i]) {
        i
    } else {
        first_change_from(ls, i + 1)
    }
}

/// Index of the last added or removed line in `ls[..i]`, or -1.
pub open spec fn last_change_upto(ls: Seq<LineView>, i: int) -> int
    decreases i,
{
    if i <= 0 || i > ls.len() {
        -1
    } else if is_change(ls[i - 1]) {
        i - 1
    } else {
        last_change_upto(ls, i - 1)
    }
}

pub open spec fn sat(x: int) -> int {
    if x < 0 { 0 } else { x }
}

pub open spec fn min(a: int, b: int) -> int {
    if a <= b { a } else { b }
}

pub open spec fn max(a: int, b: int) -> int {
    if a >= b { a } else { b }
}

/// A collapse bar, only when it hides at least one line.
pub open spec fn bar(count: int, h: int, d: ExpandDirection) -> Seq<SegView> {
    if count > 0 { seq![SegView::Collapsed(count, h, d)] } else { Seq::empty() }
}

/// Line `ln` (1-based) of the full file, as a context line, when it exists.
pub open spec fn source_seg(src: Seq<SourceView>, ln: int) -> Seq<SegView> {
    if 1 <= ln <= src.len() {
        seq![
            SegView::Line(
                LineView {
                    kind: DiffLineKind::Context,
                    content: src[ln - 1].content,
                    old_lineno: None,
                    new_lineno: Some(ln as u32),
                    highlights: src[ln - 1].highlights,
                },
            ),
        ]
    } else {
        Seq::empty()
    }
}

/// Lines `a..b` (1-based, end excluded) of the full file that exist.
pub open spec fn source_range(src: Seq<SourceView>, a: int, b: int) -> Seq<SegView>
    decreases b - a,
{
    if b <= a {
        Seq::empty()
    } else {
        source_range(src, a, b - 1) + source_seg(src, b - 1)
    }
}

/// The hunk lines `ls[a..b]` as segments.
pub open spec fn hunk_range(ls: Seq<LineView>, a: int, b: int) -> Seq<SegView> {
    ls.subrange(a, b).map_values(|l: LineView| SegView::Line(l))
}

/// What one hunk of lines `ls` (index `h`, expanded by `top` and `bot`)
/// contributes, given the last file line shown so far, `last`: its
/// segments, the new last line shown, and whether no step of the
/// computation exceeds `usize::MAX`.
pub open spec fn hunk_step(
    ls: Seq<LineView>,
    h: int,
    top: int,
    bot: int,
    src: Option<Seq<SourceView>>,
    last: int,
) -> (Seq<SegView>, int, bool) {
    let n = ls.len() as int;
    let start_ln = first_new_from(ls, 0);
    let end_ln = last_new_upto(ls, n);
    let fc = first_change_from(ls, 0);
    let lc = last_change_upto(ls, n);
    let ctx_top = DEFAULT_CONTEXT + top;
    let ctx_bot = DEFAULT_CONTEXT + bot;
    if n == 0 {
        (Seq::empty(), last, true)
    } else if fc >= n {
        match src {
            Some(_) => (bar(end_ln - last, h, ExpandDirection::Top), end_ln, true),
            None => (seq![SegView::Collapsed(n, h, ExpandDirection::Top)], last, true),
        }
    } else {
        let vis_start = sat(fc - ctx_top);
        let vis_end = min(lc + ctx_bot + 1, n);
        let over_top = sat(ctx_top - fc);
        let over_bot = sat(ctx_bot - (n - (lc + 1)));
        let lines = bar(vis_start, h, ExpandDirection::Top) + hunk_range(ls, vis_start, vis_end)
            + bar(n - vis_end, h, ExpandDirection::Bottom);
        let fits = ctx_top <= usize::MAX && lc + ctx_bot + 1 <= usize::MAX;
        match src {
            None => (lines, last, fits),
            Some(s) => {
                let top_ln = if over_top > 0 {
                    max(max(sat(start_ln - over_top), last + 1), 1)
                } else {
                    start_ln
                };
                let bottom_ln = if over_bot > 0 {
                    min(end_ln + over_bot, s.len() as int)
                } else {
                    end_ln
                };
                let before = if over_top > 0 { source_range(s, top_ln, start_ln) } else { Seq::empty() };
                let after = if over_bot > 0 {
                    source_range(s, end_ln + 1, bottom_ln + 1)
                } else {
                    Seq::empty()
                };
                (
                    bar(top_ln - (last + 1), h, ExpandDirection::Top) + before + lines + after,
                    bottom_ln,
                    fits && last + 1 <= usize::MAX && (over_bot > 0 ==> end_ln + over_bot
                        <= usize::MAX),
                )
            },
        }
    }
}

/// The expansion of hunk `h`: extra lines above and below (none when the
/// list holds no entry for it).
pub open spec fn expansion(exps: Seq<(usize, usize)>, h: int) -> (int, int) {
    if 0 <= h < exps.len() {
        (exps[h].0 as int, exps[h].1 as int)
    } else {
        (0, 0)
    }
}

/// The segments of the first `k` hunks, the last file line shown after
/// them, and whether every step fits in `usize`.
pub open spec fn hunks_upto(
    hs: Seq<Seq<LineView>>,
    exps: Seq<(usize, usize)>,
    src: Option<Seq<SourceView>>,
    k: int,
) -> (Seq<SegView>, int, bool)
    decreases k,
{
    if k <= 0 {
        (Seq::empty(), 0, true)
    } else {
        let prev = hunks_upto(hs, exps, src, k - 1);
        let e = expansion(exps, k - 1);
        let step = hunk_step(hs[k - 1], k - 1, e.0, e.1, src, prev.1);
        (prev.0 + step.0, step.1, prev.2 && step.2)
    }
}

/// The display segments of a file whose hunks are `hs`, expanded by `exps`,
/// with the full new-side file `src` when known: per hunk, its changes with
/// `DEFAULT_CONTEXT` lines (plus the expansion) around them and bars for the
/// hidden lines; with the full file, bars for the gaps between hunks and
/// after the last one.
pub open spec fn flatten_spec(
    hs: Seq<Seq<LineView>>,
    exps: Seq<(usize, usize)>,
    src: Option<Seq<SourceView>>,
) -> Seq<SegView> {
    let r = hunks_upto(hs, exps, src, hs.len() as int);
    match src {
        Some(s) => if hs.len() > 0 && s.len() > r.1 {
            r.0 + seq![SegView::Collapsed(s.len() - r.1, hs.len() - 1, ExpandDirection::Bottom)]
        } else {
            r.0
        },
        None => r.0,
    }
}

/// The flattening of a file stays within `usize` at every step.
pub open spec fn flatten_fits(
    hs: Seq<Seq<LineView>>,
    exps: Seq<(usize, usize)>,
    src: Option<Seq<SourceView>>,
) -> bool {
    hunks_upto(hs, exps, src, hs.len() as int).2
}


/// The number of line segments among `segs`.
pub open spec fn line_count(segs: Seq<SegView>) -> int
    decreases segs.len(),
{
    if segs.len() == 0 {
        0
    } else {
        line_count(segs.drop_last()) + match segs.last() {
            SegView::Line(_) => 1int,
            SegView::Collapsed(..) => 0int,
        }
    }
}

/// The number of lines the collapse bars among `segs` hide.
pub open spec fn hidden_count(segs: Seq<SegView>) -> int
    decreases segs.len(),
{
    if segs.len() == 0 {
        0
    } else {
        hidden_count(segs.drop_last()) + match segs.last() {
            SegView::Line(_) => 0int,
            SegView::Collapsed(c, _, _) => c,
        }
    }
}

proof fn lemma_counts_concat(a: Seq<SegView>, b: Seq<SegView>)
    ensures
        line_count(a + b) == line_count(a) + line_count(b),
        hidden_count(a + b) == hidden_count(a) + hidden_count(b),
    decreases b.len(),
{
    if b.len() > 0 {
        lemma_counts_concat(a, b.drop_last());
        assert((a + b).drop_last() =~= a + b.drop_last());
    } else {
        assert(a + b =~= a);
    }
}

proof fn lemma_counts_range(ls: Seq<LineView>, a: int, b: int)
    requires
        0 <= a <= b <= ls.len(),
    ensures
        line_count(hunk_range(ls, a, b)) == b - a,
        hidden_count(hunk_range(ls, a, b)) == 0,
    decreases b - a,
{
    if b > a {
        lemma_counts_range(ls, a, b - 1);
        assert(hunk_range(ls, a, b).drop_last() =~= hunk_range(ls, a, b - 1));
    }
}

/// Where a hunk's shown lines start and end, for `top` and `bot` extra
/// lines of context (without the full file).
pub open spec fn visible_range(ls: Seq<LineView>, top: int, bot: int) -> (int, int) {
    let n = ls.len() as int;
    (sat(first_change_from(ls, 0) - (DEFAULT_CONTEXT + top)), min(last_change_upto(ls, n) + DEFAULT_CONTEXT + bot + 1, n))
}

proof fn lemma_first_change_bounds(ls: Seq<LineView>, i: int)
    requires
        0 <= i <= ls.len(),
    ensures
        i <= first_change_from(ls, i) <= ls.len(),
        first_change_from(ls, i) < ls.len() ==> is_change(ls[first_change_from(ls, i)]),
    decreases ls.len() - i,
{
    if i < ls.len() && !is_change(ls[i]) {
        lemma_first_change_bounds(ls, i + 1);
    }
}

proof fn lemma_last_change_bounds(ls: Seq<LineView>, i: int, j: int)
    requires
        0 <= j < i <= ls.len(),
        is_change(ls[j]),
    ensures
        j <= last_change_upto(ls, i) < i,
    decreases i,
{
    if !is_change(ls[i - 1]) {
        lemma_last_change_bounds(ls, i - 1, j);
    }
}

/// More context shows more of a hunk. Without the full file, a hunk with a
/// change shows a bar for its hidden top, the lines of [`visible_range`],
/// and a bar for its hidden bottom; shown lines and hidden lines add up to
/// the hunk's length; and with at least as much context above and below,
/// the lines shown before are a run of those shown after.
pub proof fn lemma_more_context_shows_more(ls: Seq<LineView>, h: int, t1: int, b1: int, t2: int, b2: int, last: int)
    requires
        0 <= t1 <= t2,
        0 <= b1 <= b2,
        first_change_from(ls, 0) < ls.len(),
    ensures
        ({
            let n = ls.len() as int;
            let v1 = visible_range(ls, t1, b1);
            let v2 = visible_range(ls, t2, b2);
            &&& 0 <= v2.0 <= v1.0 <= v1.1 <= v2.1 <= n
            &&& hunk_step(ls, h, t1, b1, None, last).0 == bar(v1.0, h, ExpandDirection::Top) + hunk_range(ls, v1.0, v1.1)
                + bar(n - v1.1, h, ExpandDirection::Bottom)
            &&& hunk_range(ls, v1.0, v1.1) == hunk_range(ls, v2.0, v2.1).subrange(v1.0 - v2.0, v1.1 - v2.0)
            &&& line_count(hunk_step(ls, h, t1, b1, None, last).0) + hidden_count(hunk_step(ls, h, t1, b1, None, last).0)
                == n
        }),
{
    let n = ls.len() as int;
    lemma_first_change_bounds(ls, 0);
    let fc = first_change_from(ls, 0);
    lemma_last_change_bounds(ls, n, fc);
    let v1 = visible_range(ls, t1, b1);
    let v2 = visible_range(ls, t2, b2);
    assert(hunk_range(ls, v1.0, v1.1) =~= hunk_range(ls, v2.0, v2.1).subrange(v1.0 - v2.0, v1.1 - v2.0));
    let top = bar(v1.0, h, ExpandDirection::Top);
    let mid = hunk_range(ls, v1.0, v1.1);
    let bot = bar(n - v1.1, h, ExpandDirection::Bottom);
    lemma_counts_concat(top, mid);
    lemma_counts_concat(top + mid, bot);
    lemma_counts_range(ls, v1.0, v1.1);
    assert(line_count(top) == 0 && hidden_count(top) == v1.0) by {
        if v1.0 > 0 {
            assert(top.drop_last() =~= Seq::<SegView>::empty());
            assert(top.last() == SegView::Collapsed(v1.0, h, ExpandDirection::Top));
            assert(line_count(Seq::<SegView>::empty()) == 0);
            assert(hidden_count(Seq::<SegView>::empty()) == 0);
        } else {
            assert(top =~= Seq::<SegView>::empty());
        }
    }
    assert(line_count(bot) == 0 && hidden_count(bot) == n - v1.1) by {
        if n - v1.1 > 0 {
            assert(bot.drop_last() =~= Seq::<SegView>::empty());
            assert(bot.last() == SegView::Collapsed(n - v1.1, h, ExpandDirection::Bottom));
            assert(line_count(Seq::<SegView>::empty()) == 0);
            assert(hidden_count(Seq::<SegView>::empty()) == 0);
        } else {
            assert(bot =~= Seq::<SegView>::empty());
        }
    }
}

/// The lines among `segs`, in order.
pub open spec fn lines_of(segs: Seq<SegView>) -> Seq<LineView>
    decreases segs.len(),
{
    if segs.len() == 0 {
        Seq::empty()
    } else {
        lines_of(segs.drop_last()) + match segs.last() {
            SegView::Line(l) => seq![l],
            SegView::Collapsed(..) => Seq::<LineView>::empty(),
        }
    }
}

/// Whether `a` is `b` with some elements left out (a subsequence).
pub open spec fn is_subseq(a: Seq<LineView>, b: Seq<LineView>) -> bool
    decreases b.len(),
{
    if a.len() == 0 {
        true
    } else if b.len() == 0 {
        false
    } else {
        (a.last() == b.last() && is_subseq(a.drop_last(), b.drop_last())) || is_subseq(a, b.drop_last())
    }
}

/// The number of lines of all hunks.
pub open spec fn total_lines(hs: Seq<Seq<LineView>>) -> int
    decreases hs.len(),
{
    if hs.len() == 0 {
        0
    } else {
        total_lines(hs.drop_last()) + hs.last().len()
    }
}

proof fn lemma_lines_concat(a: Seq<SegView>, b: Seq<SegView>)
    ensures
        lines_of(a + b) == lines_of(a) + lines_of(b),
    decreases b.len(),
{
    if b.len() > 0 {
        lemma_lines_concat(a, b.drop_last());
        assert((a + b).drop_last() =~= a + b.drop_last());
        assert(lines_of(a + b) =~= lines_of(a) + lines_of(b));
    } else {
        assert(a + b =~= a);
        assert(lines_of(a) + lines_of(b) =~= lines_of(a));
    }
}

proof fn lemma_lines_bar(count: int, h: int, d: ExpandDirection)
    ensures
        lines_of(bar(count, h, d)) == Seq::<LineView>::empty(),
        line_count(bar(count, h, d)) == 0,
        hidden_count(bar(count, h, d)) == if count > 0 { count } else { 0 },
{
    let b = bar(count, h, d);
    if count > 0 {
        assert(b.drop_last() =~= Seq::<SegView>::empty());
        assert(lines_of(Seq::<SegView>::empty()) =~= Seq::<LineView>::empty());
        assert(line_count(Seq::<SegView>::empty()) == 0);
        assert(hidden_count(Seq::<SegView>::empty()) == 0);
        assert(lines_of(b) =~= Seq::<LineView>::empty());
    } else {
        assert(b =~= Seq::<SegView>::empty());
    }
}

proof fn lemma_lines_range(ls: Seq<LineView>, a: int, b: int)
    requires
        0 <= a <= b <= ls.len(),
    ensures
        lines_of(hunk_range(ls, a, b)) == ls.subrange(a, b),
    decreases b - a,
{
    if b > a {
        lemma_lines_range(ls, a, b - 1);
        assert(hunk_range(ls, a, b).drop_last() =~= hunk_range(ls, a, b - 1));
        assert(lines_of(hunk_range(ls, a, b)) =~= ls.subrange(a, b));
    } else {
        assert(hunk_range(ls, a, b) =~= Seq::<SegView>::empty());
        assert(ls.subrange(a, b) =~= Seq::<LineView>::empty());
    }
}

proof fn lemma_subseq_extend(a: Seq<LineView>, b: Seq<LineView>, c: Seq<LineView>)
    requires
        is_subseq(a, b),
    ensures
        is_subseq(a, b + c),
    decreases c.len(),
{
    if c.len() == 0 {
        assert(b + c =~= b);
    } else {
        lemma_subseq_extend(a, b, c.drop_last());
        assert((b + c).drop_last() =~= b + c.drop_last());
    }
}

proof fn lemma_subseq_concat(a1: Seq<LineView>, b1: Seq<LineView>, a2: Seq<LineView>, b2: Seq<LineView>)
    requires
        is_subseq(a1, b1),
        is_subseq(a2, b2),
    ensures
        is_subseq(a1 + a2, b1 + b2),
    decreases b2.len(),
{
    if a2.len() == 0 {
        assert(a1 + a2 =~= a1);
        lemma_subseq_extend(a1, b1, b2);
    } else {
        assert((b1 + b2).drop_last() =~= b1 + b2.drop_last());
        if a2.last() == b2.last() && is_subseq(a2.drop_last(), b2.drop_last()) {
            lemma_subseq_concat(a1, b1, a2.drop_last(), b2.drop_last());
            assert((a1 + a2).drop_last() =~= a1 + a2.drop_last());
        } else {
            lemma_subseq_concat(a1, b1, a2, b2.drop_last());
        }
    }
}

proof fn lemma_subseq_subrange(t: Seq<LineView>, i: int, j: int)
    requires
        0 <= i <= j <= t.len(),
    ensures
        is_subseq(t.subrange(i, j), t),
    decreases t.len(),
{
    if i < j {
        if j == t.len() {
            lemma_subseq_subrange(t.drop_last(), i, j - 1);
            assert(t.subrange(i, j).drop_last() =~= t.drop_last().subrange(i, j - 1));
        } else {
            lemma_subseq_subrange(t.drop_last(), i, j);
            assert(t.drop_last().subrange(i, j) =~= t.subrange(i, j));
        }
    }
}

/// What a hunk shows without the full file: its lines in a run (none when
/// it has no change), and shown plus hidden lines make up the hunk.
proof fn lemma_hunk_lines(ls: Seq<LineView>, h: int, t: int, b: int, last: int)
    requires
        0 <= t,
        0 <= b,
    ensures
        ({
            let st = hunk_step(ls, h, t, b, None, last).0;
            &&& line_count(st) + hidden_count(st) == ls.len()
            &&& first_change_from(ls, 0) < ls.len() ==> lines_of(st) == ls.subrange(
                visible_range(ls, t, b).0,
                visible_range(ls, t, b).1,
            )
            &&& first_change_from(ls, 0) >= ls.len() ==> lines_of(st) == Seq::<LineView>::empty()
        }),
{
    let n = ls.len() as int;
    let st = hunk_step(ls, h, t, b, None, last).0;
    if n == 0 {
        assert(st =~= Seq::<SegView>::empty());
    } else if first_change_from(ls, 0) >= n {
        let one = seq![SegView::Collapsed(n, h, ExpandDirection::Top)];
        assert(st == one);
        assert(one.drop_last() =~= Seq::<SegView>::empty());
        assert(line_count(Seq::<SegView>::empty()) == 0);
        assert(hidden_count(Seq::<SegView>::empty()) == 0);
        assert(lines_of(Seq::<SegView>::empty()) =~= Seq::<LineView>::empty());
        assert(one.last() == SegView::Collapsed(n, h, ExpandDirection::Top));
        assert(lines_of(one) =~= Seq::<LineView>::empty());
    } else {
        lemma_more_context_shows_more(ls, h, t, b, t, b, last);
        let v = visible_range(ls, t, b);
        lemma_lines_bar(v.0, h, ExpandDirection::Top);
        lemma_lines_bar(n - v.1, h, ExpandDirection::Bottom);
        lemma_lines_range(ls, v.0, v.1);
        lemma_lines_concat(bar(v.0, h, ExpandDirection::Top), hunk_range(ls, v.0, v.1));
        lemma_lines_concat(
            bar(v.0, h, ExpandDirection::Top) + hunk_range(ls, v.0, v.1),
            bar(n - v.1, h, ExpandDirection::Bottom),
        );
        assert(lines_of(st) =~= ls.subrange(v.0, v.1));
    }
}

/// The segments of the first `k` hunks (without the full file): more
/// context keeps every line shown, and the counts add up.
proof fn lemma_hunks_upto_lines(
    hs: Seq<Seq<LineView>>,
    e1: Seq<(usize, usize)>,
    e2: Seq<(usize, usize)>,
    k: int,
)
    requires
        0 <= k <= hs.len(),
        forall|h: int|
            0 <= h < hs.len() ==> expansion(e1, h).0 <= #[trigger] expansion(e2, h).0 && expansion(e1, h).1
                <= expansion(e2, h).1,
    ensures
        is_subseq(lines_of(hunks_upto(hs, e1, None, k).0), lines_of(hunks_upto(hs, e2, None, k).0)),
        line_count(hunks_upto(hs, e1, None, k).0) + hidden_count(hunks_upto(hs, e1, None, k).0)
            == total_lines(hs.take(k)),
    decreases k,
{
    if k == 0 {
        assert(hs.take(0) =~= Seq::<Seq<LineView>>::empty());
        assert(lines_of(Seq::<SegView>::empty()) =~= Seq::<LineView>::empty());
    } else {
        lemma_hunks_upto_lines(hs, e1, e2, k - 1);
        let p1 = hunks_upto(hs, e1, None, k - 1);
        let p2 = hunks_upto(hs, e2, None, k - 1);
        let x1 = expansion(e1, k - 1);
        let x2 = expansion(e2, k - 1);
        assert(x1.0 <= x2.0 && x1.1 <= x2.1);
        let ls = hs[k - 1];
        let s1 = hunk_step(ls, k - 1, x1.0, x1.1, None, p1.1).0;
        let s2 = hunk_step(ls, k - 1, x2.0, x2.1, None, p2.1).0;
        lemma_hunk_lines(ls, k - 1, x1.0, x1.1, p1.1);
        lemma_hunk_lines(ls, k - 1, x2.0, x2.1, p2.1);
        if first_change_from(ls, 0) < ls.len() {
            lemma_more_context_shows_more(ls, k - 1, x1.0, x1.1, x2.0, x2.1, p1.1);
            let v1 = visible_range(ls, x1.0, x1.1);
            let v2 = visible_range(ls, x2.0, x2.1);
            let w = ls.subrange(v2.0, v2.1);
            assert(ls.subrange(v1.0, v1.1) =~= w.subrange(v1.0 - v2.0, v1.1 - v2.0));
            lemma_subseq_subrange(w, v1.0 - v2.0, v1.1 - v2.0);
        }
        lemma_subseq_concat(lines_of(p1.0), lines_of(p2.0), lines_of(s1), lines_of(s2));
        lemma_lines_concat(p1.0, s1);
        lemma_lines_concat(p2.0, s2);
        lemma_counts_concat(p1.0, s1);
        assert(hs.take(k).drop_last() =~= hs.take(k - 1));
    }
}

/// More context only adds lines. Without the full file, when every hunk is
/// expanded at least as much above and below under `e2` as under `e1`, the
/// lines shown under `e1` are, in order, among those shown under `e2`; and
/// under any expansion the lines shown and the lines the bars hide add up to
/// the lines of all hunks.
pub proof fn lemma_more_context_keeps_lines(hs: Seq<Seq<LineView>>, e1: Seq<(usize, usize)>, e2: Seq<(usize, usize)>)
    requires
        forall|h: int|
            0 <= h < hs.len() ==> expansion(e1, h).0 <= #[trigger] expansion(e2, h).0 && expansion(e1, h).1
                <= expansion(e2, h).1,
    ensures
        is_subseq(lines_of(flatten_spec(hs, e1, None)), lines_of(flatten_spec(hs, e2, None))),
        line_count(flatten_spec(hs, e1, None)) + hidden_count(flatten_spec(hs, e1, None)) == total_lines(hs),
{
    lemma_hunks_upto_lines(hs, e1, e2, hs.len() as int);
    assert(hs.take(hs.len() as int) =~= hs);
}

/// The number of new-side (context or added) lines among `segs`.
pub open spec fn newside_count(segs: Seq<SegView>) -> int
    decreases segs.len(),
{
    if segs.len() == 0 {
        0
    } else {
        newside_count(segs.drop_last()) + match segs.last() {
            SegView::Line(l) => if l.kind != DiffLineKind::Removed { 1int } else { 0int },
            SegView::Collapsed(..) => 0int,
        }
    }
}

/// The number of new-side (context or added) lines among `ls[..i]`.
pub open spec fn newside_before(ls: Seq<LineView>, i: int) -> int
    decreases i,
{
    if i <= 0 || i > ls.len() {
        0
    } else {
        newside_before(ls, i - 1) + if ls[i - 1].kind != DiffLineKind::Removed { 1int } else { 0int }
    }
}

proof fn lemma_newside_nonneg(ls: Seq<LineView>, i: int)
    ensures
        newside_before(ls, i) >= 0,
    decreases i,
{
    if 0 < i <= ls.len() {
        lemma_newside_nonneg(ls, i - 1);
    }
}

/// The hunk's new-side lines carry the file line numbers `start`,
/// `start + 1`, ... in order, and its removed lines carry none.
#[verifier::opaque]
pub open spec fn numbered_from(ls: Seq<LineView>, start: int) -> bool {
    forall|i: int|
        0 <= i < ls.len() ==> if (#[trigger] ls[i]).kind == DiffLineKind::Removed {
            ls[i].new_lineno is None
        } else {
            start + newside_before(ls, i) <= u32::MAX && ls[i].new_lineno == Some((start + newside_before(ls, i)) as u32)
        }
}

/// The last file line of a hunk numbered from `start`.
pub open spec fn hunk_end(ls: Seq<LineView>, start: int) -> int {
    start + newside_before(ls, ls.len() as int) - 1
}

proof fn lemma_newside_concat(a: Seq<SegView>, b: Seq<SegView>)
    ensures
        newside_count(a + b) == newside_count(a) + newside_count(b),
    decreases b.len(),
{
    if b.len() > 0 {
        lemma_newside_concat(a, b.drop_last());
        assert((a + b).drop_last() =~= a + b.drop_last());
    } else {
        assert(a + b =~= a);
    }
}

proof fn lemma_bar_newside(count: int, h: int, d: ExpandDirection)
    ensures
        newside_count(bar(count, h, d)) == 0,
{
    assert(newside_count(Seq::<SegView>::empty()) == 0);
    if count > 0 {
        assert(bar(count, h, d).drop_last() =~= Seq::<SegView>::empty());
    } else {
        assert(bar(count, h, d) =~= Seq::<SegView>::empty());
    }
}

proof fn lemma_newside_range(ls: Seq<LineView>, a: int, b: int)
    requires
        0 <= a <= b <= ls.len(),
    ensures
        newside_count(hunk_range(ls, a, b)) == newside_before(ls, b) - newside_before(ls, a),
    decreases b - a,
{
    if b > a {
        lemma_newside_range(ls, a, b - 1);
        assert(hunk_range(ls, a, b).drop_last() =~= hunk_range(ls, a, b - 1));
    } else {
        assert(hunk_range(ls, a, b) =~= Seq::<SegView>::empty());
    }
}

proof fn lemma_newside_context(ls: Seq<LineView>, a: int, b: int)
    requires
        0 <= a <= b <= ls.len(),
        forall|j: int| a <= j < b ==> !is_change(#[trigger] ls[j]),
    ensures
        newside_before(ls, b) - newside_before(ls, a) == b - a,
    decreases b - a,
{
    if b > a {
        lemma_newside_context(ls, a, b - 1);
        assert(!is_change(ls[b - 1]));
    }
}

proof fn lemma_source_range_counts(s: Seq<SourceView>, a: int, b: int)
    requires
        1 <= a <= b <= s.len() + 1,
    ensures
        newside_count(source_range(s, a, b)) == b - a,
        hidden_count(source_range(s, a, b)) == 0,
    decreases b - a,
{
    if b > a {
        lemma_source_range_counts(s, a, b - 1);
        let one = source_seg(s, b - 1);
        assert(source_range(s, a, b) == source_range(s, a, b - 1) + one);
        assert(one.len() == 1);
        assert(one.drop_last() =~= Seq::<SegView>::empty());
        assert(newside_count(Seq::<SegView>::empty()) == 0);
        assert(hidden_count(Seq::<SegView>::empty()) == 0);
        assert(newside_count(one) == 1);
        assert(hidden_count(one) == 0);
        lemma_newside_concat(source_range(s, a, b - 1), one);
        lemma_counts_concat(source_range(s, a, b - 1), one);
    }
}

/// With the hunk numbered from `start`, the first new-side number from `i`
/// on is the next one to give.
proof fn lemma_first_new_numbered(ls: Seq<LineView>, start: int, i: int)
    requires
        numbered_from(ls, start),
        start >= 0,
        0 <= i <= ls.len(),
        newside_before(ls, i) < newside_before(ls, ls.len() as int),
    ensures
        first_new_from(ls, i) == start + newside_before(ls, i),
    decreases ls.len() - i,
{
    reveal(numbered_from);
    if i == ls.len() {
    } else {
        let l = ls[i];
        let v = start + newside_before(ls, i);
        assert(if l.kind == DiffLineKind::Removed {
            l.new_lineno is None
        } else {
            v <= u32::MAX && l.new_lineno == Some(v as u32)
        });
        assert(newside_before(ls, i) >= 0) by {
            lemma_newside_nonneg(ls, i);
        }
        if l.kind != DiffLineKind::Removed {
            assert(0 <= v <= u32::MAX);
            assert(l.new_lineno == Some(v as u32));
            assert((v as u32) as int == v);
        }
        if ls[i].kind == DiffLineKind::Removed {
            assert(newside_before(ls, i + 1) == newside_before(ls, i));
            lemma_first_new_numbered(ls, start, i + 1);
        }
    }
}

/// With the hunk numbered from `start`, the last new-side number before `i`
/// is the last one given.
proof fn lemma_last_new_numbered(ls: Seq<LineView>, start: int, i: int)
    requires
        numbered_from(ls, start),
        start >= 0,
        0 <= i <= ls.len(),
        newside_before(ls, i) > 0,
    ensures
        last_new_upto(ls, i) == start + newside_before(ls, i) - 1,
    decreases i,
{
    reveal(numbered_from);
    if i > 0 {
        let l = ls[i - 1];
        let v = start + newside_before(ls, i - 1);
        if l.kind != DiffLineKind::Removed {
            assert(0 <= v <= u32::MAX);
            assert(l.new_lineno == Some(v as u32));
            assert((v as u32) as int == v);
        } else {
            assert(newside_before(ls, i - 1) == newside_before(ls, i));
        }
        if ls[i - 1].kind == DiffLineKind::Removed {
            lemma_last_new_numbered(ls, start, i - 1);
        }
    }
}

/// A hunk accounts for every file line from the last one shown before it
/// to the last one it shows: when its new-side lines are numbered from
/// `start` (it has at least one), lie within the file `s`, and come after
/// the last file line shown so far (`last`), the lines it shows on the new
/// side plus the lines its collapse bars hide (the gap above it, and its
/// own hidden context) number exactly the file lines from `last + 1` to the
/// new last line shown; that line is at or after the hunk's end, at most
/// the extra context below it, and within the file.
pub proof fn lemma_hunk_accounts_for_file_lines(
    ls: Seq<LineView>,
    h: int,
    top: int,
    bot: int,
    s: Seq<SourceView>,
    last: int,
    start: int,
)
    requires
        numbered_from(ls, start),
        newside_before(ls, ls.len() as int) > 0,
        0 <= last < start,
        hunk_end(ls, start) <= s.len(),
        0 <= top,
        0 <= bot,
    ensures
        ({
            let st = hunk_step(ls, h, top, bot, Some(s), last);
            &&& newside_count(st.0) + hidden_count(st.0) == st.1 - last
            &&& hunk_end(ls, start) <= st.1 <= hunk_end(ls, start) + DEFAULT_CONTEXT + bot
            &&& st.1 <= s.len()
        }),
{
    let n = ls.len() as int;
    let nn = newside_before(ls, n);
    lemma_first_new_numbered(ls, start, 0);
    lemma_last_new_numbered(ls, start, n);
    let end = start + nn - 1;
    assert(first_new_from(ls, 0) == start);
    assert(last_new_upto(ls, n) == end);
    lemma_first_change_from(ls, 0);
    lemma_last_change_upto(ls, n);
    lemma_change_bounds(ls);
    let fc = first_change_from(ls, 0);
    let lc = last_change_upto(ls, n);
    let st = hunk_step(ls, h, top, bot, Some(s), last);
    assert(n > 0);
    if fc >= n {
        assert(st.0 == bar(end - last, h, ExpandDirection::Top));
        lemma_bar_newside(end - last, h, ExpandDirection::Top);
        lemma_lines_bar(end - last, h, ExpandDirection::Top);
    } else {
        let ctx_top = DEFAULT_CONTEXT + top;
        let ctx_bot = DEFAULT_CONTEXT + bot;
        let vis_start = sat(fc - ctx_top);
        let vis_end = min(lc + ctx_bot + 1, n);
        let over_top = sat(ctx_top - fc);
        let over_bot = sat(ctx_bot - (n - (lc + 1)));
        let b1 = bar(vis_start, h, ExpandDirection::Top);
        let mid = hunk_range(ls, vis_start, vis_end);
        let b2 = bar(n - vis_end, h, ExpandDirection::Bottom);
        let lines = b1 + mid + b2;
        let top_ln = if over_top > 0 { max(max(sat(start - over_top), last + 1), 1) } else { start };
        let bottom_ln = if over_bot > 0 { min(end + over_bot, s.len() as int) } else { end };
        let before = if over_top > 0 { source_range(s, top_ln, start) } else { Seq::empty() };
        let after = if over_bot > 0 { source_range(s, end + 1, bottom_ln + 1) } else { Seq::empty() };
        let gap = bar(top_ln - (last + 1), h, ExpandDirection::Top);
        assert(st.0 == gap + before + lines + after);
        assert(st.1 == bottom_ln);
        // The hunk's own lines: hidden context above and below, and the
        // shown run between.
        assert forall|j: int| 0 <= j < vis_start implies !is_change(#[trigger] ls[j]) by {
            assert(j < fc);
        }
        assert forall|j: int| vis_end <= j < n implies !is_change(#[trigger] ls[j]) by {
            assert(lc < j);
        }
        lemma_newside_context(ls, 0, vis_start);
        lemma_newside_context(ls, vis_end, n);
        lemma_newside_range(ls, vis_start, vis_end);
        lemma_counts_range(ls, vis_start, vis_end);
        lemma_bar_newside(vis_start, h, ExpandDirection::Top);
        lemma_lines_bar(vis_start, h, ExpandDirection::Top);
        lemma_bar_newside(n - vis_end, h, ExpandDirection::Bottom);
        lemma_lines_bar(n - vis_end, h, ExpandDirection::Bottom);
        lemma_newside_concat(b1, mid);
        lemma_counts_concat(b1, mid);
        lemma_newside_concat(b1 + mid, b2);
        lemma_counts_concat(b1 + mid, b2);
        assert(newside_count(lines) + hidden_count(lines) == nn);
        // The gap above, and the file lines shown around the hunk.
        assert(last + 1 <= top_ln <= start);
        lemma_bar_newside(top_ln - (last + 1), h, ExpandDirection::Top);
        lemma_lines_bar(top_ln - (last + 1), h, ExpandDirection::Top);
        if over_top > 0 {
            lemma_source_range_counts(s, top_ln, start);
        }
        assert(newside_count(before) + hidden_count(before) == start - top_ln);
        assert(end <= bottom_ln <= s.len());
        if over_bot > 0 {
            lemma_source_range_counts(s, end + 1, bottom_ln + 1);
        }
        assert(newside_count(after) + hidden_count(after) == bottom_ln - end);
        lemma_newside_concat(gap, before);
        lemma_counts_concat(gap, before);
        lemma_newside_concat(gap + before, lines);
        lemma_counts_concat(gap + before, lines);
        lemma_newside_concat(gap + before + lines, after);
        lemma_counts_concat(gap + before + lines, after);
    }
}

/// The hunks `hs` are numbered from `starts`, each with a new-side line and
/// within the file of `len` lines, and each starts after the previous one's
/// end plus the context (default and extra, by `exps`) shown below it.
pub open spec fn hunks_in_file(hs: Seq<Seq<LineView>>, starts: Seq<int>, exps: Seq<(usize, usize)>, len: int) -> bool {
    &&& starts.len() == hs.len()
    &&& forall|h: int|
        0 <= h < hs.len() ==> starts[h] >= 1 && numbered_from(#[trigger] hs[h], starts[h]) && newside_before(
            hs[h],
            hs[h].len() as int,
        ) > 0 && hunk_end(hs[h], starts[h]) <= len
    &&& forall|g: int, h: int|
        #![trigger hs[g], starts[h]]
        0 <= g && h == g + 1 && h < hs.len() ==> starts[h] > hunk_end(hs[g], starts[g]) + DEFAULT_CONTEXT + expansion(exps, g).1
}

/// What [`hunks_in_file`] says of hunk `h`.
proof fn lemma_in_file_at(hs: Seq<Seq<LineView>>, starts: Seq<int>, exps: Seq<(usize, usize)>, len: int, h: int)
    requires
        hunks_in_file(hs, starts, exps, len),
        0 <= h < hs.len(),
    ensures
        starts[h] >= 1,
        numbered_from(hs[h], starts[h]),
        newside_before(hs[h], hs[h].len() as int) > 0,
        hunk_end(hs[h], starts[h]) <= len,
        h > 0 ==> starts[h] > hunk_end(hs[h - 1], starts[h - 1]) + DEFAULT_CONTEXT + expansion(exps, h - 1).1,
{
    let x = hs[h];
    if h > 0 {
        let y = hs[h - 1];
        let z = starts[h];
    }
}

/// The first `k` hunks' segments with the full file `s` known (see
/// [`hunks_upto`]).
#[verifier::opaque]
spec fn upto_in_file(hs: Seq<Seq<LineView>>, exps: Seq<(usize, usize)>, s: Seq<SourceView>, k: int) -> (Seq<SegView>, int, bool) {
    hunks_upto(hs, exps, Some(s), k)
}

/// One hunk of a file laid out as [`hunks_in_file`] asks accounts for its
/// file lines: what the first `k` hunks show and hide grows by the file
/// lines up to the new last line shown.
#[verifier::rlimit(60)]
#[verifier::spinoff_prover]
proof fn lemma_step_in_file(hs: Seq<Seq<LineView>>, starts: Seq<int>, exps: Seq<(usize, usize)>, s: Seq<SourceView>, k: int)
    requires
        hunks_in_file(hs, starts, exps, s.len() as int),
        0 < k <= hs.len(),
        0 <= upto_in_file(hs, exps, s, k - 1).1 < starts[k - 1],
    ensures
        ({
            let prev = upto_in_file(hs, exps, s, k - 1);
            let r = upto_in_file(hs, exps, s, k);
            &&& newside_count(r.0) + hidden_count(r.0) == newside_count(prev.0) + hidden_count(prev.0) + r.1 - prev.1
            &&& hunk_end(hs[k - 1], starts[k - 1]) <= r.1 <= hunk_end(hs[k - 1], starts[k - 1]) + DEFAULT_CONTEXT
                + expansion(exps, k - 1).1
            &&& r.1 <= s.len()
        }),
{
    reveal(upto_in_file);
    let prev = upto_in_file(hs, exps, s, k - 1);
    let e = expansion(exps, k - 1);
    lemma_in_file_at(hs, starts, exps, s.len() as int, k - 1);
    lemma_hunk_accounts_for_file_lines(hs[k - 1], k - 1, e.0, e.1, s, prev.1, starts[k - 1]);
    let st = hunk_step(hs[k - 1], k - 1, e.0, e.1, Some(s), prev.1);
    lemma_newside_concat(prev.0, st.0);
    lemma_counts_concat(prev.0, st.0);
}

proof fn lemma_hunks_upto_account(hs: Seq<Seq<LineView>>, starts: Seq<int>, exps: Seq<(usize, usize)>, s: Seq<SourceView>, k: int)
    requires
        hunks_in_file(hs, starts, exps, s.len() as int),
        0 <= k <= hs.len(),
    ensures
        ({
            let r = upto_in_file(hs, exps, s, k);
            &&& newside_count(r.0) + hidden_count(r.0) == r.1
            &&& 0 <= r.1
            &&& k == 0 ==> r.1 == 0
            &&& k > 0 ==> hunk_end(hs[k - 1], starts[k - 1]) <= r.1 <= hunk_end(hs[k - 1], starts[k - 1])
                + DEFAULT_CONTEXT + expansion(exps, k - 1).1
            &&& r.1 <= s.len()
        }),
    decreases k,
{
    if k == 0 {
        reveal(upto_in_file);
        assert(newside_count(Seq::<SegView>::empty()) == 0);
        assert(hidden_count(Seq::<SegView>::empty()) == 0);
    } else {
        lemma_hunks_upto_account(hs, starts, exps, s, k - 1);
        let prev = upto_in_file(hs, exps, s, k - 1);
        lemma_in_file_at(hs, starts, exps, s.len() as int, k - 1);
        if k - 1 > 0 {
            lemma_in_file_at(hs, starts, exps, s.len() as int, k - 2);
            assert(prev.1 < starts[k - 1]);
        } else {
            assert(prev.1 == 0);
        }
        lemma_step_in_file(hs, starts, exps, s, k);
    }
}

/// With the full file known, the display accounts for every line of it:
/// when the hunks are numbered in order within the file and far enough
/// apart that the context shown below one does not reach the next, the
/// lines shown on the new side plus the lines every collapse bar hides
/// (above each hunk, inside it, and after the last) number exactly the
/// file's lines.
pub proof fn lemma_file_lines_accounted(hs: Seq<Seq<LineView>>, starts: Seq<int>, exps: Seq<(usize, usize)>, s: Seq<SourceView>)
    requires
        hs.len() > 0,
        hunks_in_file(hs, starts, exps, s.len() as int),
    ensures
        newside_count(flatten_spec(hs, exps, Some(s))) + hidden_count(flatten_spec(hs, exps, Some(s))) == s.len(),
{
    lemma_hunks_upto_account(hs, starts, exps, s, hs.len() as int);
    reveal(upto_in_file);
    let r = hunks_upto(hs, exps, Some(s), hs.len() as int);
    if s.len() > r.1 {
        let tail = seq![SegView::Collapsed(s.len() - r.1, hs.len() - 1, ExpandDirection::Bottom)];
        assert(tail.drop_last() =~= Seq::<SegView>::empty());
        assert(newside_count(Seq::<SegView>::empty()) == 0);
        assert(hidden_count(Seq::<SegView>::empty()) == 0);
        lemma_newside_concat(r.0, tail);
        lemma_counts_concat(r.0, tail);
    }
}

/// Without extra context and without the full file, a hunk with a change
/// shows its lines from three before its first change to three after its
/// last one (cut at the hunk's ends), with collapse bars for the lines
/// hidden above and below.
pub proof fn lemma_three_lines_of_context(ls: Seq<LineView>, h: int, last: int)
    requires
        first_change_from(ls, 0) < ls.len(),
    ensures
        ({
            let n = ls.len() as int;
            let a = if first_change_from(ls, 0) >= 3 { first_change_from(ls, 0) - 3 } else { 0 };
            let b = if last_change_upto(ls, n) + 4 <= n { last_change_upto(ls, n) + 4 } else { n };
            hunk_step(ls, h, 0, 0, None, last).0 == bar(a, h, ExpandDirection::Top) + hunk_range(ls, a, b) + bar(
                n - b,
                h,
                ExpandDirection::Bottom,
            )
        }),
{
    lemma_more_context_shows_more(ls, h, 0, 0, 0, 0, last);
}

/// The first new-side line number of a hunk, or 1.
fn first_new(lines: &Vec<DiffLine>) -> (r: usize)
    ensures
        r == first_new_from(lines@.map_values(|l: DiffLine| l@), 0),
{
    let ghost ls = lines@.map_values(|l: DiffLine| l@);
    let mut i: usize = 0;
    while i < lines.len()
        invariant
            ls == lines@.map_values(|l: DiffLine| l@),
            0 <= i <= lines.len(),
            first_new_from(ls, 0) == first_new_from(ls, i as int),
        decreases lines.len() - i,
    {
        match lines[i].new_lineno {
            Some(n) => {
                return n as usize;
            },
            None => {},
        }
        i += 1;
    }
    1
}

/// The last new-side line number of a hunk, or 1.
fn last_new(lines: &Vec<DiffLine>) -> (r: usize)
    ensures
        r == last_new_upto(lines@.map_values(|l: DiffLine| l@), lines.len() as int),
{
    let ghost ls = lines@.map_values(|l: DiffLine| l@);
    let mut i: usize = lines.len();
    while i > 0
        invariant
            ls == lines@.map_values(|l: DiffLine| l@),
            0 <= i <= lines.len(),
            last_new_upto(ls, lines.len() as int) == last_new_upto(ls, i as int),
        decreases i,
    {
        match lines[i - 1].new_lineno {
            Some(n) => {
                return n as usize;
            },
            None => {},
        }
        i -= 1;
    }
    1
}

/// Index of the first added or removed line of a hunk, or its length.
fn first_change(lines: &Vec<DiffLine>) -> (r: usize)
    ensures
        r == first_change_from(lines@.map_values(|l: DiffLine| l@), 0),
{
    let ghost ls = lines@.map_values(|l: DiffLine| l@);
    let mut i: usize = 0;
    while i < lines.len()
        invariant
            ls == lines@.map_values(|l: DiffLine| l@),
            0 <= i <= lines.len(),
            first_change_from(ls, 0) == first_change_from(ls, i as int),
        decreases lines.len() - i,
    {
        if lines[i].kind != DiffLineKind::Context {
            return i;
        }
        i += 1;
    }
    lines.len()
}

/// Index of the last added or removed line of a hunk; `None` when it has none.
fn last_change(lines: &Vec<DiffLine>) -> (r: Option<usize>)
    ensures
        match r {
            Some(i) => i == last_change_upto(
                lines@.map_values(|l: DiffLine| l@),
                lines.len() as int,
            ),
            None => last_change_upto(lines@.map_values(|l: DiffLine| l@), lines.len() as int)
                == -1,
        },
{
    let ghost ls = lines@.map_values(|l: DiffLine| l@);
    let mut i: usize = lines.len();
    while i > 0
        invariant
            ls == lines@.map_values(|l: DiffLine| l@),
            0 <= i <= lines.len(),
            last_change_upto(ls, lines.len() as int) == last_change_upto(ls, i as int),
        decreases i,
    {
        if lines[i - 1].kind != DiffLineKind::Context {
            return Some(i - 1);
        }
        i -= 1;
    }
    None
}

/// The first change at or after `i` lies at or before the last one before `j`
/// when there is any change in between.
proof fn lemma_change_bounds(ls: Seq<LineView>)
    ensures
        0 <= first_change_from(ls, 0) <= ls.len(),
        -1 <= last_change_upto(ls, ls.len() as int) < ls.len(),
        first_change_from(ls, 0) < ls.len() ==> first_change_from(ls, 0) <= last_change_upto(
            ls,
            ls.len() as int,
        ),
        first_change_from(ls, 0) < ls.len() ==> 0 <= last_change_upto(ls, ls.len() as int),
{
    lemma_first_change_from(ls, 0);
    lemma_last_change_upto(ls, ls.len() as int);
}

proof fn lemma_first_change_from(ls: Seq<LineView>, i: int)
    requires
        0 <= i <= ls.len(),
    ensures
        i <= first_change_from(ls, i) <= ls.len(),
        first_change_from(ls, i) < ls.len() ==> is_change(ls[first_change_from(ls, i)]),
        forall|k: int| i <= k < first_change_from(ls, i) ==> !is_change(#[trigger] ls[k]),
    decreases ls.len() - i,
{
    if i < ls.len() && !is_change(ls[i]) {
        lemma_first_change_from(ls, i + 1);
    }
}

proof fn lemma_last_change_upto(ls: Seq<LineView>, i: int)
    requires
        0 <= i <= ls.len(),
    ensures
        -1 <= last_change_upto(ls, i) < i,
        last_change_upto(ls, i) >= 0 ==> is_change(ls[last_change_upto(ls, i)]),
        forall|k: int| last_change_upto(ls, i) < k < i ==> !is_change(#[trigger] ls[k]),
    decreases i,
{
    if i > 0 && !is_change(ls[i - 1]) {
        lemma_last_change_upto(ls, i - 1);
    }
    if i > 0 && is_change(ls[i - 1]) {
    }
    if last_change_upto(ls, i) < 0 && first_change_from(ls, 0) < ls.len() && i == ls.len() {
        lemma_first_change_from(ls, 0);
    }
}

/// Appends a collapse bar when it hides at least one line.
fn push_bar(segs: &mut Vec<LineSegment>, count: usize, h: usize, d: ExpandDirection)
    ensures
        segs_view(final(segs)@) == segs_view(old(segs)@) + bar(count as int, h as int, d),
{
    let ghost pre = segs_view(segs@);
    if count > 0 {
        segs.push(LineSegment::CollapsedContext { count, hunk_idx: h, direction: d });
        assert(segs_view(segs@) =~= pre + bar(count as int, h as int, d));
    } else {
        assert(segs_view(segs@) =~= pre + bar(count as int, h as int, d));
    }
}

/// Appends source line `ln` (1-based) as a context line when it exists.
fn push_source_line(segs: &mut Vec<LineSegment>, src: &Vec<SourceLine>, ln: usize)
    requires
        ln >= 1,
    ensures
        segs_view(final(segs)@) == segs_view(old(segs)@) + source_seg(
            src@.map_values(|s: SourceLine| s@),
            ln as int,
        ),
{
    let ghost pre = segs_view(segs@);
    let ghost sv = src@.map_values(|s: SourceLine| s@);
    let idx = ln - 1;
    if idx < src.len() {
        let sl = &src[idx];
        let line = DiffLine {
            kind: DiffLineKind::Context,
            content: sl.content.clone(),
            old_lineno: None,
            new_lineno: Some(ln as u32),
            highlights: copy_opt_spans(&sl.highlights),
        };
        segs.push(LineSegment::Line(line));
        assert(sv[idx as int] == sl@);
        assert(segs_view(segs@) =~= pre + source_seg(sv, ln as int));
    } else {
        assert(segs_view(segs@) =~= pre + source_seg(sv, ln as int));
    }
}

/// Appends source lines `a..b` (1-based, end excluded) that exist.
fn push_source_range(segs: &mut Vec<LineSegment>, src: &Vec<SourceLine>, a: usize, b: usize)
    requires
        a >= 1,
    ensures
        segs_view(final(segs)@) == segs_view(old(segs)@) + source_range(
            src@.map_values(|s: SourceLine| s@),
            a as int,
            b as int,
        ),
{
    let ghost pre = segs_view(segs@);
    let ghost sv = src@.map_values(|s: SourceLine| s@);
    let mut ln = a;
    assert(source_range(sv, a as int, a as int) =~= Seq::<SegView>::empty());
    assert(segs_view(segs@) =~= pre + source_range(sv, a as int, a as int));
    while ln < b
        invariant
            a >= 1,
            a <= ln,
            ln <= b || ln == a,
            sv == src@.map_values(|s: SourceLine| s@),
            segs_view(segs@) == pre + source_range(sv, a as int, ln as int),
        decreases b - ln,
    {
        let ghost before = segs_view(segs@);
        push_source_line(segs, src, ln);
        assert(source_range(sv, a as int, ln + 1) == source_range(sv, a as int, ln as int)
            + source_seg(sv, ln as int));
        assert(segs_view(segs@) =~= pre + source_range(sv, a as int, ln + 1));
        ln += 1;
    }
    if b < a {
        assert(source_range(sv, a as int, b as int) =~= Seq::<SegView>::empty());
    }
}

/// Appends the hunk lines `lines[a..b]`.
fn push_hunk_range(segs: &mut Vec<LineSegment>, lines: &Vec<DiffLine>, a: usize, b: usize)
    requires
        a <= b <= lines.len(),
    ensures
        segs_view(final(segs)@) == segs_view(old(segs)@) + hunk_range(
            lines@.map_values(|l: DiffLine| l@),
            a as int,
            b as int,
        ),
{
    let ghost pre = segs_view(segs@);
    let ghost ls = lines@.map_values(|l: DiffLine| l@);
    let mut i = a;
    assert(hunk_range(ls, a as int, a as int) =~= Seq::<SegView>::empty());
    assert(segs_view(segs@) =~= pre + hunk_range(ls, a as int, a as int));
    while i < b
        invariant
            a <= i <= b <= lines.len(),
            ls == lines@.map_values(|l: DiffLine| l@),
            segs_view(segs@) == pre + hunk_range(ls, a as int, i as int),
        decreases b - i,
    {
        let l = lines[i].copy();
        assert(l@ == ls[i as int]);
        let ghost before = segs@;
        segs.push(LineSegment::Line(l));
        assert(segs@ == before.push(LineSegment::Line(l)));
        assert(segs_view(segs@) =~= segs_view(before).push(SegView::Line(ls[i as int])));
        assert(hunk_range(ls, a as int, i + 1) =~= hunk_range(ls, a as int, i as int).push(
            SegView::Line(ls[i as int]),
        ));
        assert(segs_view(segs@) =~= pre + hunk_range(ls, a as int, i + 1));
        i += 1;
    }
}


/// Appends the segments of hunk `h` (its `lines`, expanded by `top` and
/// `bot`) after the file line `last`, and returns the new last line shown.
#[verifier::rlimit(60)]
#[verifier::spinoff_prover]
fn push_hunk(
    segs: &mut Vec<LineSegment>,
    lines: &Vec<DiffLine>,
    h: usize,
    top: usize,
    bot: usize,
    src: &Option<Vec<SourceLine>>,
    last: usize,
) -> (new_last: usize)
    requires
        hunk_step(
            lines@.map_values(|l: DiffLine| l@),
            h as int,
            top as int,
            bot as int,
            opt_source_view(*src),
            last as int,
        ).2,
    ensures
        ({
            let st = hunk_step(
                lines@.map_values(|l: DiffLine| l@),
                h as int,
                top as int,
                bot as int,
                opt_source_view(*src),
                last as int,
            );
            &&& segs_view(final(segs)@) == segs_view(old(segs)@) + st.0
            &&& new_last == st.1
        }),
{
    let ghost ls = lines@.map_values(|l: DiffLine| l@);
    let ghost pre = segs_view(segs@);
    let ghost st = hunk_step(ls, h as int, top as int, bot as int, opt_source_view(*src), last as int);
    let n = lines.len();
    if n == 0 {
        assert(segs_view(segs@) =~= pre + st.0);
        return last;
    }
    let start_ln = first_new(lines);
    let end_ln = last_new(lines);
    let fc = first_change(lines);
    proof {
        lemma_change_bounds(ls);
    }
    if fc >= n {
        match src {
            Some(_) => {
                push_bar(segs, end_ln.saturating_sub(last), h, ExpandDirection::Top);
                return end_ln;
            },
            None => {
                push_bar(segs, n, h, ExpandDirection::Top);
                return last;
            },
        }
    }
    let lc = match last_change(lines) {
        Some(i) => i,
        None => 0,
    };
    let ctx_top = DEFAULT_CONTEXT + top;
    let ctx_bot = DEFAULT_CONTEXT + bot;
    let vis_start = fc.saturating_sub(ctx_top);
    let vis_end = if lc + ctx_bot + 1 < n { lc + ctx_bot + 1 } else { n };
    let over_top = ctx_top.saturating_sub(fc);
    let bottom_ctx = n.saturating_sub(lc + 1);
    let over_bot = ctx_bot.saturating_sub(bottom_ctx);
    match src {
        None => {
            push_bar(segs, vis_start, h, ExpandDirection::Top);
            push_hunk_range(segs, lines, vis_start, vis_end);
            push_bar(segs, n - vis_end, h, ExpandDirection::Bottom);
            assert(segs_view(segs@) =~= pre + st.0);
            last
        },
        Some(source) => {
            let ghost sv = source@.map_values(|s: SourceLine| s@);
            let top_ln = if over_top > 0 {
                let a = start_ln.saturating_sub(over_top);
                let b = if a > last + 1 { a } else { last + 1 };
                if b > 1 { b } else { 1 }
            } else {
                start_ln
            };
            push_bar(segs, top_ln.saturating_sub(last + 1), h, ExpandDirection::Top);
            let ghost after_gap = segs_view(segs@);
            if over_top > 0 {
                push_source_range(segs, source, top_ln, start_ln);
            }
            let ghost after_before = segs_view(segs@);
            push_bar(segs, vis_start, h, ExpandDirection::Top);
            push_hunk_range(segs, lines, vis_start, vis_end);
            push_bar(segs, n - vis_end, h, ExpandDirection::Bottom);
            let ghost after_lines = segs_view(segs@);
            let bottom_ln = if over_bot > 0 {
                let e = end_ln + over_bot;
                if e < source.len() { e } else { source.len() }
            } else {
                end_ln
            };
            if over_bot > 0 {
                if bottom_ln >= end_ln + 1 {
                    push_source_range(segs, source, end_ln + 1, bottom_ln);
                    push_source_line(segs, source, bottom_ln);
                    assert(source_range(sv, end_ln + 1, bottom_ln + 1) == source_range(
                        sv,
                        end_ln + 1,
                        bottom_ln as int,
                    ) + source_seg(sv, bottom_ln as int));
                } else {
                    assert(source_range(sv, end_ln + 1, bottom_ln + 1) =~= Seq::<SegView>::empty());
                }
            }
            assert(segs_view(segs@) =~= pre + st.0);
            bottom_ln
        },
    }
}

/// Every step of a flattening that fits, fits.
proof fn lemma_fits_prefix(
    hs: Seq<Seq<LineView>>,
    exps: Seq<(usize, usize)>,
    src: Option<Seq<SourceView>>,
    j: int,
    k: int,
)
    requires
        0 <= j < k <= hs.len(),
        hunks_upto(hs, exps, src, k).2,
    ensures
        hunks_upto(hs, exps, src, j + 1).2,
    decreases k,
{
    if j + 1 < k {
        lemma_fits_prefix(hs, exps, src, j, k - 1);
    }
}

/// Whether hunk `h`'s step of the flattening stays within `usize`.
fn hunk_fits(lines: &Vec<DiffLine>, h: usize, top: usize, bot: usize, src: &Option<Vec<SourceLine>>, last: usize) -> (r: bool)
    ensures
        r == hunk_step(
            lines@.map_values(|l: DiffLine| l@),
            h as int,
            top as int,
            bot as int,
            opt_source_view(*src),
            last as int,
        ).2,
{
    let ghost ls = lines@.map_values(|l: DiffLine| l@);
    let n = lines.len();
    if n == 0 {
        return true;
    }
    let fc = first_change(lines);
    proof {
        lemma_change_bounds(ls);
    }
    if fc >= n {
        return true;
    }
    let lc = match last_change(lines) {
        Some(i) => i,
        None => 0,
    };
    let max = usize::MAX as u128;
    let ctx_top = 3u128 + top as u128;
    let ctx_bot = 3u128 + bot as u128;
    let fits = ctx_top <= max && lc as u128 + ctx_bot + 1 <= max;
    match src {
        None => fits,
        Some(_) => {
            let end_ln = last_new(lines);
            let bottom_ctx = (n - (lc + 1)) as u128;
            let over_bot = if ctx_bot > bottom_ctx { ctx_bot - bottom_ctx } else { 0 };
            fits && (last as u128) + 1 <= max && (over_bot == 0 || end_ln as u128 + over_bot <= max)
        },
    }
}

/// Flattens a file's hunks into display segments, each hunk expanded by the
/// matching entry of `expansions` (extra lines above, below); `None` when
/// a line number of the computation would exceed `usize`.
pub fn flatten_file_lines(file: &DiffFile, expansions: &Vec<(usize, usize)>) -> (r: Option<Vec<LineSegment>>)
    ensures
        r is Some <==> flatten_fits(hunks_view(file), expansions@, source_view(file)),
        r matches Some(v) ==> segs_view(v@) == flatten_spec(hunks_view(file), expansions@, source_view(file)),
{
    let ghost hs = hunks_view(file);
    let ghost src = source_view(file);
    let mut segs: Vec<LineSegment> = Vec::new();
    let mut last: usize = 0;
    let mut h: usize = 0;
    assert(segs_view(segs@) =~= Seq::<SegView>::empty());
    while h < file.hunks.len()
        invariant
            0 <= h <= file.hunks.len(),
            hs == hunks_view(file),
            src == source_view(file),
            hunks_upto(hs, expansions@, src, h as int).2,
            segs_view(segs@) == hunks_upto(hs, expansions@, src, h as int).0,
            last == hunks_upto(hs, expansions@, src, h as int).1,
        decreases file.hunks.len() - h,
    {
        let (top, bot) = if h < expansions.len() { expansions[h] } else { (0, 0) };
        proof {
            assert(hs[h as int] == file.hunks@[h as int].lines@.map_values(|l: DiffLine| l@));
        }
        if !hunk_fits(&file.hunks[h].lines, h, top, bot, &file.source_lines, last) {
            proof {
                if hunks_upto(hs, expansions@, src, hs.len() as int).2 {
                    lemma_fits_prefix(hs, expansions@, src, h as int, hs.len() as int);
                }
            }
            return None;
        }
        last = push_hunk(&mut segs, &file.hunks[h].lines, h, top, bot, &file.source_lines, last);
        h += 1;
    }
    match &file.source_lines {
        Some(source) => {
            if file.hunks.len() > 0 && source.len() > last {
                let ghost before = segs_view(segs@);
                segs.push(
                    LineSegment::CollapsedContext {
                        count: source.len() - last,
                        hunk_idx: file.hunks.len() - 1,
                        direction: ExpandDirection::Bottom,
                    },
                );
                assert(segs_view(segs@) =~= before.push(
                    SegView::Collapsed(
                        source.len() - last,
                        file.hunks.len() - 1,
                        ExpandDirection::Bottom,
                    ),
                ));
            }
        },
        None => {},
    }
    Some(segs)
}

} // verus!
