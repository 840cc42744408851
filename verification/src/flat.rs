//! The flat row list of a diff panel: one header per file, then its
//! segments as rows (unified) or as side-by-side pairs (split), with the
//! text of every shown line kept for copying.
use vstd::prelude::*;
use crate::diff::{DiffLineKind, ExpandDirection, LineSegment, SegView, LineView, segs_view};
use crate::text::{trim_end_spec, str_trim_end};

verus! {

/// A row of the virtualized diff list.
#[derive(Clone, Copy, PartialEq, Eq, Debug, Structural)]
pub enum FlatRow {
    FileHeader { file_idx: usize },
    EmptyFile { file_idx: usize },
    Line { file_idx: usize, seg_idx: usize, global_line_idx: usize, is_last_in_file: bool },
    CollapsedContext {
        file_idx: usize,
        seg_idx: usize,
        count: usize,
        hunk_idx: usize,
        direction: ExpandDirection,
        is_last_in_file: bool,
    },
    /// A side-by-side row: the removed (left) and added (right) segments.
    SplitLine {
        file_idx: usize,
        left_seg: Option<usize>,
        right_seg: Option<usize>,
        global_line_idx: usize,
        is_last_in_file: bool,
    },
    LoadMore { remaining: usize },
}

/// What a row list is built from, per file: whether its body is collapsed,
/// shown as a single info row, or shown as segments.
#[derive(Clone, Copy, PartialEq, Eq, Debug, Structural)]
pub enum FileShape {
    Collapsed,
    Empty,
    Body,
}

pub open spec fn is_line_kind(s: SegView, k: DiffLineKind) -> bool {
    match s {
        SegView::Line(l) => l.kind == k,
        SegView::Collapsed(..) => false,
    }
}

/// The copy text of a line segment: its content without trailing whitespace.
pub open spec fn seg_text(s: SegView) -> Seq<char> {
    match s {
        SegView::Line(l) => trim_end_spec(l.content),
        SegView::Collapsed(..) => Seq::empty(),
    }
}

/// The rows of a file body in unified mode from segment `i` on, the copy
/// texts of its lines, and the global line index after them (starting at `g`).
pub open spec fn unified_from(f: int, segs: Seq<SegView>, i: int, g: int) -> (
    Seq<FlatRow>,
    Seq<Seq<char>>,
    int,
)
    decreases segs.len() - i,
{
    if i < 0 || i >= segs.len() {
        (Seq::empty(), Seq::empty(), g)
    } else {
        let is_last = i == segs.len() - 1;
        match segs[i] {
            SegView::Line(l) => {
                let rest = unified_from(f, segs, i + 1, g + 1);
                (
                    seq![
                        FlatRow::Line {
                            file_idx: f as usize,
                            seg_idx: i as usize,
                            global_line_idx: g as usize,
                            is_last_in_file: is_last,
                        },
                    ] + rest.0,
                    seq![trim_end_spec(l.content)] + rest.1,
                    rest.2,
                )
            },
            SegView::Collapsed(count, h, d) => {
                let rest = unified_from(f, segs, i + 1, g);
                (
                    seq![
                        FlatRow::CollapsedContext {
                            file_idx: f as usize,
                            seg_idx: i as usize,
                            count: count as usize,
                            hunk_idx: h as usize,
                            direction: d,
                            is_last_in_file: is_last,
                        },
                    ] + rest.0,
                    rest.1,
                    rest.2,
                )
            },
        }
    }
}

/// The end of the run of line segments of kind `k` starting at `i`.
pub open spec fn run_end(segs: Seq<SegView>, i: int, k: DiffLineKind) -> int
    decreases segs.len() - i,
{
    if 0 <= i < segs.len() && is_line_kind(segs[i], k) {
        run_end(segs, i + 1, k)
    } else {
        i
    }
}

/// Row `j` of the side-by-side pairing of removed lines `i..r` with added
/// lines `r..a`.
pub open spec fn pair_row(f: int, segs: Seq<SegView>, i: int, r: int, a: int, j: int, g: int) -> FlatRow {
    let m = max_int(r - i, a - r);
    FlatRow::SplitLine {
        file_idx: f as usize,
        left_seg: if j < r - i { Some((i + j) as usize) } else { None },
        right_seg: if j < a - r { Some((r + j) as usize) } else { None },
        global_line_idx: (g + j) as usize,
        is_last_in_file: a >= segs.len() && j == m - 1,
    }
}

pub open spec fn max_int(a: int, b: int) -> int {
    if a >= b { a } else { b }
}

/// The copy texts of the first `j` pairs, one per pair (its global line
/// index): the removed line's text, or the added line's where the pair has
/// no removed line.
pub open spec fn pair_texts(segs: Seq<SegView>, i: int, r: int, a: int, j: int) -> Seq<Seq<char>>
    decreases j,
{
    if j <= 0 {
        Seq::empty()
    } else {
        pair_texts(segs, i, r, a, j - 1).push(
            if j - 1 < r - i {
                seg_text(segs[i + j - 1])
            } else {
                seg_text(segs[r + j - 1])
            },
        )
    }
}

/// The rows of a file body in split mode from segment `i` on: context and
/// added lines get a row each (context on both sides), each run of removed
/// lines is paired with the run of added lines right after it; with the
/// copy texts and the global line index after them.
pub open spec fn split_from(f: int, segs: Seq<SegView>, i: int, g: int) -> (
    Seq<FlatRow>,
    Seq<Seq<char>>,
    int,
)
    decreases segs.len() - i,
{
    if i < 0 || i >= segs.len() {
        (Seq::empty(), Seq::empty(), g)
    } else {
        let is_last = i == segs.len() - 1;
        match segs[i] {
            SegView::Collapsed(count, h, d) => {
                let rest = split_from(f, segs, i + 1, g);
                (
                    seq![
                        FlatRow::CollapsedContext {
                            file_idx: f as usize,
                            seg_idx: i as usize,
                            count: count as usize,
                            hunk_idx: h as usize,
                            direction: d,
                            is_last_in_file: is_last,
                        },
                    ] + rest.0,
                    rest.1,
                    rest.2,
                )
            },
            SegView::Line(l) => {
                if l.kind == DiffLineKind::Removed {
                    let r = run_end(segs, i, DiffLineKind::Removed);
                    let a = run_end(segs, r, DiffLineKind::Added);
                    let m = max_int(r - i, a - r);
                    if a <= i || a > segs.len() {
                        (Seq::empty(), Seq::empty(), g)
                    } else {
                        let rest = split_from(f, segs, a, g + m);
                        (
                            Seq::new(m as nat, |j: int| pair_row(f, segs, i, r, a, j, g)) + rest.0,
                            pair_texts(segs, i, r, a, m) + rest.1,
                            rest.2,
                        )
                    }
                } else {
                    let rest = split_from(f, segs, i + 1, g + 1);
                    (
                        seq![
                            FlatRow::SplitLine {
                                file_idx: f as usize,
                                left_seg: if l.kind == DiffLineKind::Context {
                                    Some(i as usize)
                                } else {
                                    None
                                },
                                right_seg: Some(i as usize),
                                global_line_idx: g as usize,
                                is_last_in_file: is_last,
                            },
                        ] + rest.0,
                        seq![trim_end_spec(l.content)] + rest.1,
                        rest.2,
                    )
                }
            },
        }
    }
}


/// A file's rows: its header, then nothing (collapsed), an info row, or its
/// body rows; with the copy texts and the global line index after them.
pub open spec fn file_rows(f: int, segs: Seq<SegView>, shape: FileShape, split: bool, g: int) -> (
    Seq<FlatRow>,
    Seq<Seq<char>>,
    int,
) {
    let header = seq![FlatRow::FileHeader { file_idx: f as usize }];
    match shape {
        FileShape::Collapsed => (header, Seq::empty(), g),
        FileShape::Empty => (header.push(FlatRow::EmptyFile { file_idx: f as usize }), Seq::empty(), g),
        FileShape::Body => {
            let b = if split {
                split_from(f, segs, 0, g)
            } else {
                unified_from(f, segs, 0, g)
            };
            (header + b.0, b.1, b.2)
        },
    }
}

/// The rows of the first `k` files, the index of each file's header row,
/// the copy texts, and the global line index after them.
pub open spec fn rows_upto(
    all: Seq<Seq<SegView>>,
    shapes: Seq<FileShape>,
    split: bool,
    k: int,
) -> (Seq<FlatRow>, Seq<usize>, Seq<Seq<char>>, int)
    decreases k,
{
    if k <= 0 {
        (Seq::empty(), Seq::empty(), Seq::empty(), 0)
    } else {
        let prev = rows_upto(all, shapes, split, k - 1);
        let fr = file_rows(k - 1, all[k - 1], shapes[k - 1], split, prev.3);
        (prev.0 + fr.0, prev.1.push(prev.0.len() as usize), prev.2 + fr.1, fr.2)
    }
}

/// One copy text per pair.
proof fn lemma_pair_texts_len(segs: Seq<SegView>, i: int, r: int, a: int, j: int)
    requires
        j >= 0,
    ensures
        pair_texts(segs, i, r, a, j).len() == j,
    decreases j,
{
    if j > 0 {
        lemma_pair_texts_len(segs, i, r, a, j - 1);
    }
}

/// Unified rows give one copy text per global line index.
proof fn lemma_unified_texts_len(f: int, segs: Seq<SegView>, i: int, g: int)
    ensures
        unified_from(f, segs, i, g).1.len() == unified_from(f, segs, i, g).2 - g,
    decreases segs.len() - i,
{
    if 0 <= i < segs.len() {
        match segs[i] {
            SegView::Line(_) => lemma_unified_texts_len(f, segs, i + 1, g + 1),
            SegView::Collapsed(..) => lemma_unified_texts_len(f, segs, i + 1, g),
        }
    }
}

/// Split rows give one copy text per global line index.
proof fn lemma_split_texts_len(f: int, segs: Seq<SegView>, i: int, g: int)
    ensures
        split_from(f, segs, i, g).1.len() == split_from(f, segs, i, g).2 - g,
    decreases segs.len() - i,
{
    if 0 <= i < segs.len() {
        match segs[i] {
            SegView::Collapsed(..) => lemma_split_texts_len(f, segs, i + 1, g),
            SegView::Line(l) => {
                if l.kind == DiffLineKind::Removed {
                    let r = run_end(segs, i, DiffLineKind::Removed);
                    let a = run_end(segs, r, DiffLineKind::Added);
                    let m = max_int(r - i, a - r);
                    if !(a <= i || a > segs.len()) {
                        lemma_split_texts_len(f, segs, a, g + m);
                        lemma_pair_texts_len(segs, i, r, a, m);
                    }
                } else {
                    lemma_split_texts_len(f, segs, i + 1, g + 1);
                }
            },
        }
    }
}

/// The row list keeps one copy text per global line index, in unified and
/// in split mode: there are as many copy texts as global line indices given
/// out.
pub proof fn lemma_one_text_per_line(all: Seq<Seq<SegView>>, shapes: Seq<FileShape>, split: bool, k: int)
    requires
        0 <= k <= all.len(),
        k <= shapes.len(),
    ensures
        rows_upto(all, shapes, split, k).2.len() == rows_upto(all, shapes, split, k).3,
    decreases k,
{
    if k > 0 {
        lemma_one_text_per_line(all, shapes, split, k - 1);
        let prev = rows_upto(all, shapes, split, k - 1);
        if split {
            lemma_split_texts_len(k - 1, all[k - 1], 0, prev.3);
        } else {
            lemma_unified_texts_len(k - 1, all[k - 1], 0, prev.3);
        }
    }
}

/// A row's sides show the right lines of its file's segments `segs`: the
/// left (old) side of a side-by-side row only a context or removed line,
/// its right (new) side only a context or added line, and a context line
/// on both sides of the same row.
pub open spec fn sides_ok(segs: Seq<SegView>, row: FlatRow) -> bool {
    match row {
        FlatRow::SplitLine { left_seg, right_seg, .. } => {
            &&& (left_seg matches Some(a) ==> a < segs.len() && (is_line_kind(segs[a as int], DiffLineKind::Context)
                || is_line_kind(segs[a as int], DiffLineKind::Removed)))
            &&& (right_seg matches Some(b) ==> b < segs.len() && (is_line_kind(segs[b as int], DiffLineKind::Context)
                || is_line_kind(segs[b as int], DiffLineKind::Added)))
            &&& (left_seg matches Some(a) ==> is_line_kind(segs[a as int], DiffLineKind::Context) ==> right_seg == Some(a))
            &&& (right_seg matches Some(b) ==> is_line_kind(segs[b as int], DiffLineKind::Context) ==> left_seg == Some(b))
        },
        _ => true,
    }
}

/// Every segment of a run of kind `k` is a line of that kind.
proof fn lemma_run_kind(segs: Seq<SegView>, i: int, k: DiffLineKind)
    requires
        0 <= i,
    ensures
        i <= run_end(segs, i, k) <= if i <= segs.len() { segs.len() as int } else { i },
        forall|x: int| i <= x < run_end(segs, i, k) ==> is_line_kind(#[trigger] segs[x], k),
    decreases segs.len() - i,
{
    if 0 <= i < segs.len() && is_line_kind(segs[i], k) {
        lemma_run_kind(segs, i + 1, k);
    }
}

/// Unified rows hold no side-by-side row.
proof fn lemma_unified_sides(f: int, segs: Seq<SegView>, i: int, g: int)
    ensures
        forall|x: int| 0 <= x < unified_from(f, segs, i, g).0.len() ==> !(#[trigger] unified_from(f, segs, i, g).0[x] is SplitLine),
    decreases segs.len() - i,
{
    if 0 <= i < segs.len() {
        match segs[i] {
            SegView::Line(_) => lemma_unified_sides(f, segs, i + 1, g + 1),
            SegView::Collapsed(..) => lemma_unified_sides(f, segs, i + 1, g),
        }
        let rows = unified_from(f, segs, i, g).0;
        let rest = match segs[i] {
            SegView::Line(_) => unified_from(f, segs, i + 1, g + 1).0,
            SegView::Collapsed(..) => unified_from(f, segs, i + 1, g).0,
        };
        assert forall|x: int| 0 <= x < rows.len() implies !(#[trigger] rows[x] is SplitLine) by {
            if x > 0 {
                assert(rows[x] == rest[x - 1]);
            }
        }
    }
}

/// Split rows show removed lines only on the left and added lines only on
/// the right.
proof fn lemma_split_sides(f: int, segs: Seq<SegView>, i: int, g: int)
    requires
        0 <= i,
        segs.len() <= usize::MAX,
    ensures
        forall|x: int| 0 <= x < split_from(f, segs, i, g).0.len() ==> sides_ok(segs, #[trigger] split_from(f, segs, i, g).0[x]),
    decreases segs.len() - i,
{
    if 0 <= i < segs.len() {
        let rows = split_from(f, segs, i, g).0;
        match segs[i] {
            SegView::Collapsed(..) => {
                lemma_split_sides(f, segs, i + 1, g);
                let rest = split_from(f, segs, i + 1, g).0;
                assert forall|x: int| 0 <= x < rows.len() implies sides_ok(segs, #[trigger] rows[x]) by {
                    if x > 0 {
                        assert(rows[x] == rest[x - 1]);
                    }
                }
            },
            SegView::Line(l) => {
                if l.kind == DiffLineKind::Removed {
                    let r = run_end(segs, i, DiffLineKind::Removed);
                    lemma_run_kind(segs, i, DiffLineKind::Removed);
                    let a = run_end(segs, r, DiffLineKind::Added);
                    lemma_run_kind(segs, r, DiffLineKind::Added);
                    let m = max_int(r - i, a - r);
                    if !(a <= i || a > segs.len()) {
                        lemma_split_sides(f, segs, a, g + m);
                        let rest = split_from(f, segs, a, g + m).0;
                        let pairs = Seq::new(m as nat, |j: int| pair_row(f, segs, i, r, a, j, g));
                        assert(rows == pairs + rest);
                        assert forall|x: int| 0 <= x < rows.len() implies sides_ok(segs, #[trigger] rows[x]) by {
                            if x < m {
                                assert(rows[x] == pair_row(f, segs, i, r, a, x, g));
                                if x < r - i {
                                    assert(is_line_kind(segs[i + x], DiffLineKind::Removed));
                                }
                                if x < a - r {
                                    assert(is_line_kind(segs[r + x], DiffLineKind::Added));
                                }
                            } else {
                                assert(rows[x] == rest[x - m]);
                            }
                        }
                    }
                } else {
                    lemma_split_sides(f, segs, i + 1, g + 1);
                    let rest = split_from(f, segs, i + 1, g + 1).0;
                    assert forall|x: int| 0 <= x < rows.len() implies sides_ok(segs, #[trigger] rows[x]) by {
                        if x > 0 {
                            assert(rows[x] == rest[x - 1]);
                        }
                    }
                }
            },
        }
    }
}

/// In the side-by-side view the left column never shows an added line and
/// the right column never a removed one: every side-by-side row of file `f`
/// points, on its left, at a context or removed line of that file's
/// segments, and on its right at a context or added one.
pub proof fn lemma_split_sides_hold(all: Seq<Seq<SegView>>, shapes: Seq<FileShape>, split: bool, k: int)
    requires
        0 <= k <= all.len(),
        k <= shapes.len(),
        all.len() <= usize::MAX,
        forall|f: int| 0 <= f < all.len() ==> (#[trigger] all[f]).len() <= usize::MAX,
    ensures
        forall|x: int|
            #![trigger rows_upto(all, shapes, split, k).0[x]]
            0 <= x < rows_upto(all, shapes, split, k).0.len() ==> match rows_upto(all, shapes, split, k).0[x] {
                FlatRow::SplitLine { file_idx, .. } => file_idx < k && sides_ok(
                    all[file_idx as int],
                    rows_upto(all, shapes, split, k).0[x],
                ),
                _ => true,
            },
    decreases k,
{
    if k > 0 {
        lemma_split_sides_hold(all, shapes, split, k - 1);
        let prev = rows_upto(all, shapes, split, k - 1);
        let fr = file_rows(k - 1, all[k - 1], shapes[k - 1], split, prev.3);
        let rows = rows_upto(all, shapes, split, k).0;
        assert(rows == prev.0 + fr.0);
        let b = if split {
            split_from(k - 1, all[k - 1], 0, prev.3)
        } else {
            unified_from(k - 1, all[k - 1], 0, prev.3)
        };
        if split {
            lemma_split_sides(k - 1, all[k - 1], 0, prev.3);
        } else {
            lemma_unified_sides(k - 1, all[k - 1], 0, prev.3);
        }
        lemma_split_file_idx(k - 1, all[k - 1], 0, prev.3);
        assert forall|x: int|
            #![trigger rows[x]]
            0 <= x < rows.len() implies match rows[x] {
                FlatRow::SplitLine { file_idx, .. } => file_idx < k && sides_ok(all[file_idx as int], rows[x]),
                _ => true,
            } by {
            if x < prev.0.len() {
                assert(rows[x] == prev.0[x]);
            } else {
                let y = x - prev.0.len();
                assert(rows[x] == fr.0[y]);
                if shapes[k - 1] == FileShape::Body {
                    assert(fr.0 == seq![FlatRow::FileHeader { file_idx: (k - 1) as usize }] + b.0);
                    if y > 0 {
                        assert(fr.0[y] == b.0[y - 1]);
                        if split {
                            assert(sides_ok(all[k - 1], b.0[y - 1]));
                            assert(b.0[y - 1] matches FlatRow::SplitLine { file_idx, .. } ==> file_idx == (k - 1) as usize);
                        } else {
                            assert(!(b.0[y - 1] is SplitLine));
                        }
                    }
                }
            }
        }
    }
}

/// Some side-by-side row of file `f` among `rows` shows segment `x`, on
/// the left or on the right.
pub open spec fn shown_side_by_side(rows: Seq<FlatRow>, f: int, x: int) -> bool {
    exists|j: int|
        0 <= j < rows.len() && (#[trigger] rows[j] matches FlatRow::SplitLine { file_idx, left_seg, right_seg, .. } && file_idx
            == f as usize && (left_seg == Some(x as usize) || right_seg == Some(x as usize)))
}

/// Split rows from segment `i` on show every line segment from `i` on.
proof fn lemma_split_shows_all(f: int, segs: Seq<SegView>, i: int, g: int)
    requires
        0 <= i,
        segs.len() <= usize::MAX,
    ensures
        forall|x: int|
            i <= x < segs.len() && (#[trigger] segs[x] is Line) ==> shown_side_by_side(split_from(f, segs, i, g).0, f, x),
    decreases segs.len() - i,
{
    if 0 <= i < segs.len() {
        let rows = split_from(f, segs, i, g).0;
        match segs[i] {
            SegView::Collapsed(..) => {
                lemma_split_shows_all(f, segs, i + 1, g);
                let rest = split_from(f, segs, i + 1, g).0;
                assert forall|x: int| i <= x < segs.len() && (#[trigger] segs[x] is Line) implies shown_side_by_side(rows, f, x) by {
                    assert(x > i);
                    let j = choose|j: int|
                        0 <= j < rest.len() && (#[trigger] rest[j] matches FlatRow::SplitLine { file_idx, left_seg, right_seg, .. }
                            && file_idx == f as usize && (left_seg == Some(x as usize) || right_seg == Some(x as usize)));
                    assert(rows[j + 1] == rest[j]);
                }
            },
            SegView::Line(l) => {
                if l.kind == DiffLineKind::Removed {
                    let r = run_end(segs, i, DiffLineKind::Removed);
                    lemma_run_kind(segs, i, DiffLineKind::Removed);
                    lemma_run_kind(segs, i + 1, DiffLineKind::Removed);
                    let a = run_end(segs, r, DiffLineKind::Added);
                    lemma_run_kind(segs, r, DiffLineKind::Added);
                    let m = max_int(r - i, a - r);
                    assert(i < r <= a <= segs.len());
                    lemma_split_shows_all(f, segs, a, g + m);
                    let rest = split_from(f, segs, a, g + m).0;
                    let pairs = Seq::new(m as nat, |j: int| pair_row(f, segs, i, r, a, j, g));
                    assert(rows == pairs + rest);
                    assert forall|x: int| i <= x < segs.len() && (#[trigger] segs[x] is Line) implies shown_side_by_side(rows, f, x) by {
                        if x < r {
                            assert(rows[x - i] == pair_row(f, segs, i, r, a, x - i, g));
                        } else if x < a {
                            assert(rows[x - r] == pair_row(f, segs, i, r, a, x - r, g));
                        } else {
                            let j = choose|j: int|
                                0 <= j < rest.len() && (#[trigger] rest[j] matches FlatRow::SplitLine { file_idx, left_seg, right_seg, .. }
                                    && file_idx == f as usize && (left_seg == Some(x as usize) || right_seg == Some(x as usize)));
                            assert(rows[j + m] == rest[j]);
                        }
                    }
                } else {
                    lemma_split_shows_all(f, segs, i + 1, g + 1);
                    let rest = split_from(f, segs, i + 1, g + 1).0;
                    assert forall|x: int| i <= x < segs.len() && (#[trigger] segs[x] is Line) implies shown_side_by_side(rows, f, x) by {
                        if x == i {
                            assert(rows[0] is SplitLine);
                        } else {
                            let j = choose|j: int|
                                0 <= j < rest.len() && (#[trigger] rest[j] matches FlatRow::SplitLine { file_idx, left_seg, right_seg, .. }
                                    && file_idx == f as usize && (left_seg == Some(x as usize) || right_seg == Some(x as usize)));
                            assert(rows[j + 1] == rest[j]);
                        }
                    }
                }
            },
        }
    }
}

/// The side-by-side view drops no line: in split mode, every line segment
/// of every file shown with its body is on the left or the right of some
/// side-by-side row of that file.
pub proof fn lemma_split_shows_every_line(all: Seq<Seq<SegView>>, shapes: Seq<FileShape>, k: int)
    requires
        0 <= k <= all.len(),
        k <= shapes.len(),
        all.len() <= usize::MAX,
        forall|f: int| 0 <= f < all.len() ==> (#[trigger] all[f]).len() <= usize::MAX,
    ensures
        forall|f: int, x: int|
            0 <= f < k && shapes[f] == FileShape::Body && 0 <= x < all[f].len() && (#[trigger] all[f][x] is Line)
                ==> shown_side_by_side(rows_upto(all, shapes, true, k).0, f, x),
    decreases k,
{
    if k > 0 {
        lemma_split_shows_every_line(all, shapes, k - 1);
        let prev = rows_upto(all, shapes, true, k - 1);
        let fr = file_rows(k - 1, all[k - 1], shapes[k - 1], true, prev.3);
        let rows = rows_upto(all, shapes, true, k).0;
        assert(rows == prev.0 + fr.0);
        let b = split_from(k - 1, all[k - 1], 0, prev.3);
        lemma_split_shows_all(k - 1, all[k - 1], 0, prev.3);
        assert forall|f: int, x: int|
            0 <= f < k && shapes[f] == FileShape::Body && 0 <= x < all[f].len() && (#[trigger] all[f][x] is Line)
                implies shown_side_by_side(rows, f, x) by {
            if f < k - 1 {
                let j = choose|j: int|
                    0 <= j < prev.0.len() && (#[trigger] prev.0[j] matches FlatRow::SplitLine { file_idx, left_seg, right_seg, .. }
                        && file_idx == f as usize && (left_seg == Some(x as usize) || right_seg == Some(x as usize)));
                assert(rows[j] == prev.0[j]);
            } else {
                assert(fr.0 == seq![FlatRow::FileHeader { file_idx: (k - 1) as usize }] + b.0);
                let j = choose|j: int|
                    0 <= j < b.0.len() && (#[trigger] b.0[j] matches FlatRow::SplitLine { file_idx, left_seg, right_seg, .. }
                        && file_idx == f as usize && (left_seg == Some(x as usize) || right_seg == Some(x as usize)));
                assert(rows[prev.0.len() + 1 + j] == b.0[j]);
            }
        }
    }
}

/// Side-by-side rows of a file body carry that file's index.
proof fn lemma_split_file_idx(f: int, segs: Seq<SegView>, i: int, g: int)
    requires
        0 <= i,
    ensures
        forall|x: int|
            0 <= x < split_from(f, segs, i, g).0.len() ==> (#[trigger] split_from(f, segs, i, g).0[x] matches FlatRow::SplitLine {
                file_idx,
                ..
            } ==> file_idx == f as usize),
    decreases segs.len() - i,
{
    if 0 <= i < segs.len() {
        let rows = split_from(f, segs, i, g).0;
        match segs[i] {
            SegView::Collapsed(..) => {
                lemma_split_file_idx(f, segs, i + 1, g);
                let rest = split_from(f, segs, i + 1, g).0;
                assert forall|x: int| 0 <= x < rows.len() implies (#[trigger] rows[x] matches FlatRow::SplitLine {
                    file_idx,
                    ..
                } ==> file_idx == f as usize) by {
                    if x > 0 {
                        assert(rows[x] == rest[x - 1]);
                    }
                }
            },
            SegView::Line(l) => {
                if l.kind == DiffLineKind::Removed {
                    let r = run_end(segs, i, DiffLineKind::Removed);
                    let a = run_end(segs, r, DiffLineKind::Added);
                    lemma_run_kind(segs, i, DiffLineKind::Removed);
                    let m = max_int(r - i, a - r);
                    if !(a <= i || a > segs.len()) {
                        lemma_split_file_idx(f, segs, a, g + m);
                        let rest = split_from(f, segs, a, g + m).0;
                        let pairs = Seq::new(m as nat, |j: int| pair_row(f, segs, i, r, a, j, g));
                        assert(rows == pairs + rest);
                        assert forall|x: int| 0 <= x < rows.len() implies (#[trigger] rows[x] matches FlatRow::SplitLine {
                            file_idx,
                            ..
                        } ==> file_idx == f as usize) by {
                            if x < m {
                                assert(rows[x] == pair_row(f, segs, i, r, a, x, g));
                            } else {
                                assert(rows[x] == rest[x - m]);
                            }
                        }
                    }
                } else {
                    lemma_split_file_idx(f, segs, i + 1, g + 1);
                    let rest = split_from(f, segs, i + 1, g + 1).0;
                    assert forall|x: int| 0 <= x < rows.len() implies (#[trigger] rows[x] matches FlatRow::SplitLine {
                        file_idx,
                        ..
                    } ==> file_idx == f as usize) by {
                        if x > 0 {
                            assert(rows[x] == rest[x - 1]);
                        }
                    }
                }
            },
        }
    }
}

pub open spec fn texts_view(v: Seq<String>) -> Seq<Seq<char>> {
    v.map_values(|s: String| s@)
}

pub open spec fn all_segs_view(v: Seq<Vec<LineSegment>>) -> Seq<Seq<SegView>> {
    v.map_values(|s: Vec<LineSegment>| segs_view(s@))
}

/// Pushes the copy text of a line.
fn push_text(texts: &mut Vec<String>, content: &String)
    ensures
        texts_view(final(texts)@) == texts_view(old(texts)@).push(trim_end_spec(content@)),
{
    let t = str_trim_end(content.as_str()).to_owned();
    let ghost before = texts@;
    texts.push(t);
    assert(texts_view(texts@) =~= texts_view(before).push(trim_end_spec(content@)));
}

/// Appends a file body's rows in unified mode.
fn push_unified(
    rows: &mut Vec<FlatRow>,
    texts: &mut Vec<String>,
    f: usize,
    segs: &Vec<LineSegment>,
    g: usize,
) -> (g2: usize)
    requires
        g <= old(texts)@.len(),
    ensures
        ({
            let u = unified_from(f as int, segs_view(segs@), 0, g as int);
            &&& final(rows)@ == old(rows)@ + u.0
            &&& texts_view(final(texts)@) == texts_view(old(texts)@) + u.1
            &&& g2 == u.2
            &&& g2 <= final(texts)@.len()
        }),
{
    let ghost sv = segs_view(segs@);
    let ghost rows0 = rows@;
    let ghost texts0 = texts_view(texts@);
    let ghost total = unified_from(f as int, sv, 0, g as int);
    let n = segs.len();
    let mut i: usize = 0;
    let mut gc = g;
    assert(rows@ + total.0 =~= rows0 + total.0);
    assert(texts_view(texts@) + total.1 =~= texts0 + total.1);
    while i < n
        invariant
            n == segs.len(),
            sv == segs_view(segs@),
            total == unified_from(f as int, sv, 0, g as int),
            0 <= i <= n,
            gc <= texts@.len(),
            rows@ + unified_from(f as int, sv, i as int, gc as int).0 == rows0 + total.0,
            texts_view(texts@) + unified_from(f as int, sv, i as int, gc as int).1 == texts0
                + total.1,
            unified_from(f as int, sv, i as int, gc as int).2 == total.2,
        decreases n - i,
    {
        let ghost rest = unified_from(f as int, sv, i as int, gc as int);
        let ghost rows_b = rows@;
        let ghost texts_b = texts_view(texts@);
        let is_last = i == n - 1;
        match &segs[i] {
            LineSegment::Line(l) => {
                let ghost next = unified_from(f as int, sv, i + 1, gc + 1);
                assert(sv[i as int] == SegView::Line(l@));
                push_text(texts, &l.content);
                let tl = texts.len();
                let row = FlatRow::Line {
                    file_idx: f,
                    seg_idx: i,
                    global_line_idx: gc,
                    is_last_in_file: is_last,
                };
                rows.push(row);
                assert(rest.0 == seq![row] + next.0);
                assert(rows@ + next.0 =~= rows_b + rest.0);
                assert(rest.1 == seq![trim_end_spec(l@.content)] + next.1);
                assert(texts_view(texts@) + next.1 =~= texts_b + rest.1);
                gc = gc + 1;
            },
            LineSegment::CollapsedContext { count, hunk_idx, direction } => {
                let ghost next = unified_from(f as int, sv, i + 1, gc as int);
                assert(sv[i as int] == SegView::Collapsed(*count as int, *hunk_idx as int, *direction));
                let row = FlatRow::CollapsedContext {
                    file_idx: f,
                    seg_idx: i,
                    count: *count,
                    hunk_idx: *hunk_idx,
                    direction: *direction,
                    is_last_in_file: is_last,
                };
                rows.push(row);
                assert(rest.0 == seq![row] + next.0);
                assert(rows@ + next.0 =~= rows_b + rest.0);
                assert(texts_view(texts@) + next.1 =~= texts_b + rest.1);
            },
        }
        i += 1;
    }
    assert(rows@ =~= rows0 + total.0);
    assert(texts_view(texts@) =~= texts0 + total.1);
    gc
}


/// A run of segments of one kind ends within the list, after `i`, on a
/// segment of another kind or at the end.
proof fn lemma_run_end(segs: Seq<SegView>, i: int, k: DiffLineKind)
    requires
        0 <= i <= segs.len(),
    ensures
        i <= run_end(segs, i, k) <= segs.len(),
        forall|t: int| i <= t < run_end(segs, i, k) ==> is_line_kind(#[trigger] segs[t], k),
        run_end(segs, i, k) < segs.len() ==> !is_line_kind(segs[run_end(segs, i, k)], k),
    decreases segs.len() - i,
{
    if i < segs.len() && is_line_kind(segs[i], k) {
        lemma_run_end(segs, i + 1, k);
    }
}

/// Finds where the run of line segments of kind `k` starting at `i` ends.
fn find_run_end(segs: &Vec<LineSegment>, i: usize, k: DiffLineKind) -> (r: usize)
    requires
        i <= segs.len(),
    ensures
        r == run_end(segs_view(segs@), i as int, k),
{
    let ghost sv = segs_view(segs@);
    let mut r = i;
    while r < segs.len()
        invariant
            sv == segs_view(segs@),
            i <= r <= segs.len(),
            run_end(sv, i as int, k) == run_end(sv, r as int, k),
        decreases segs.len() - r,
    {
        match &segs[r] {
            LineSegment::Line(l) => {
                if l.kind != k {
                    return r;
                }
            },
            LineSegment::CollapsedContext { .. } => {
                return r;
            },
        }
        r += 1;
    }
    r
}

/// Appends the side-by-side rows pairing removed lines `i..r` with added
/// lines `r..a`, with their copy texts.
fn push_pairs(
    rows: &mut Vec<FlatRow>,
    texts: &mut Vec<String>,
    f: usize,
    segs: &Vec<LineSegment>,
    i: usize,
    r: usize,
    a: usize,
    g: usize,
) -> (m: usize)
    requires
        i < r <= a <= segs.len(),
        g <= old(texts)@.len(),
        forall|t: int| i <= t < r ==> is_line_kind(#[trigger] segs_view(segs@)[t], DiffLineKind::Removed),
        forall|t: int| r <= t < a ==> is_line_kind(#[trigger] segs_view(segs@)[t], DiffLineKind::Added),
    ensures
        m == max_int(r - i, a - r),
        final(rows)@ == old(rows)@ + Seq::new(
            m as nat,
            |j: int| pair_row(f as int, segs_view(segs@), i as int, r as int, a as int, j, g as int),
        ),
        texts_view(final(texts)@) == texts_view(old(texts)@) + pair_texts(
            segs_view(segs@),
            i as int,
            r as int,
            a as int,
            m as int,
        ),
        g + m <= final(texts)@.len(),
{
    let ghost sv = segs_view(segs@);
    let ghost rows0 = rows@;
    let ghost texts0 = texts_view(texts@);
    let nr = r - i;
    let na = a - r;
    let m = if nr >= na { nr } else { na };
    let ghost pairs = Seq::new(
        m as nat,
        |j: int| pair_row(f as int, sv, i as int, r as int, a as int, j, g as int),
    );
    let mut j: usize = 0;
    assert(rows@ =~= rows0 + pairs.subrange(0, 0));
    while j < m
        invariant
            sv == segs_view(segs@),
            i < r <= a <= segs.len(),
            nr == r - i,
            na == a - r,
            m == max_int(r - i, a - r),
            pairs == Seq::new(
                m as nat,
                |j: int| pair_row(f as int, sv, i as int, r as int, a as int, j, g as int),
            ),
            forall|t: int| i <= t < r ==> is_line_kind(#[trigger] sv[t], DiffLineKind::Removed),
            forall|t: int| r <= t < a ==> is_line_kind(#[trigger] sv[t], DiffLineKind::Added),
            0 <= j <= m,
            g + j <= texts@.len(),
            rows@ == rows0 + pairs.subrange(0, j as int),
            texts_view(texts@) == texts0 + pair_texts(sv, i as int, r as int, a as int, j as int),
        decreases m - j,
    {
        let ghost texts_b = texts_view(texts@);
        let left = if j < nr { Some(i + j) } else { None };
        let right = if j < na { Some(r + j) } else { None };
        let k = if j < nr { i + j } else { r + j };
        assert(is_line_kind(sv[k as int], DiffLineKind::Removed) || is_line_kind(sv[k as int], DiffLineKind::Added));
        match &segs[k] {
            LineSegment::Line(l) => {
                push_text(texts, &l.content);
            },
            LineSegment::CollapsedContext { .. } => {},
        }
        assert(texts_view(texts@) =~= texts0 + pair_texts(sv, i as int, r as int, a as int, j + 1));
        let tl = texts.len();
        let row = FlatRow::SplitLine {
            file_idx: f,
            left_seg: left,
            right_seg: right,
            global_line_idx: g + j,
            is_last_in_file: a >= segs.len() && j == m - 1,
        };
        rows.push(row);
        assert(pairs[j as int] == row);
        assert(rows@ =~= rows0 + pairs.subrange(0, j + 1));
        j += 1;
    }
    assert(pairs.subrange(0, m as int) =~= pairs);
    m
}

/// Appends a file body's rows in split mode.
#[verifier::rlimit(40)]
fn push_split(
    rows: &mut Vec<FlatRow>,
    texts: &mut Vec<String>,
    f: usize,
    segs: &Vec<LineSegment>,
    g: usize,
) -> (g2: usize)
    requires
        g <= old(texts)@.len(),
    ensures
        ({
            let u = split_from(f as int, segs_view(segs@), 0, g as int);
            &&& final(rows)@ == old(rows)@ + u.0
            &&& texts_view(final(texts)@) == texts_view(old(texts)@) + u.1
            &&& g2 == u.2
            &&& g2 <= final(texts)@.len()
        }),
{
    let ghost sv = segs_view(segs@);
    let ghost rows0 = rows@;
    let ghost texts0 = texts_view(texts@);
    let ghost total = split_from(f as int, sv, 0, g as int);
    let n = segs.len();
    let mut i: usize = 0;
    let mut gc = g;
    assert(rows@ + total.0 =~= rows0 + total.0);
    assert(texts_view(texts@) + total.1 =~= texts0 + total.1);
    while i < n
        invariant
            n == segs.len(),
            sv == segs_view(segs@),
            total == split_from(f as int, sv, 0, g as int),
            0 <= i <= n,
            gc <= texts@.len(),
            rows@ + split_from(f as int, sv, i as int, gc as int).0 == rows0 + total.0,
            texts_view(texts@) + split_from(f as int, sv, i as int, gc as int).1 == texts0
                + total.1,
            split_from(f as int, sv, i as int, gc as int).2 == total.2,
        decreases n - i,
    {
        let ghost rest = split_from(f as int, sv, i as int, gc as int);
        let ghost rows_b = rows@;
        let ghost texts_b = texts_view(texts@);
        let is_last = i == n - 1;
        match &segs[i] {
            LineSegment::CollapsedContext { count, hunk_idx, direction } => {
                let ghost next = split_from(f as int, sv, i + 1, gc as int);
                assert(sv[i as int] == SegView::Collapsed(*count as int, *hunk_idx as int, *direction));
                let row = FlatRow::CollapsedContext {
                    file_idx: f,
                    seg_idx: i,
                    count: *count,
                    hunk_idx: *hunk_idx,
                    direction: *direction,
                    is_last_in_file: is_last,
                };
                rows.push(row);
                assert(rest.0 == seq![row] + next.0);
                assert(rows@ + next.0 =~= rows_b + rest.0);
                assert(texts_view(texts@) + next.1 =~= texts_b + rest.1);
                i += 1;
            },
            LineSegment::Line(l) => {
                assert(sv[i as int] == SegView::Line(l@));
                if l.kind == DiffLineKind::Removed {
                    let r = find_run_end(segs, i, DiffLineKind::Removed);
                    proof {
                        lemma_run_end(sv, i as int, DiffLineKind::Removed);
                    }
                    let a = find_run_end(segs, r, DiffLineKind::Added);
                    proof {
                        lemma_run_end(sv, r as int, DiffLineKind::Added);
                    }
                    let m = push_pairs(rows, texts, f, segs, i, r, a, gc);
                    let ghost next = split_from(f as int, sv, a as int, gc + m);
                    assert(rest.0 == Seq::new(
                        m as nat,
                        |j: int| pair_row(f as int, sv, i as int, r as int, a as int, j, gc as int),
                    ) + next.0);
                    assert(rows@ + next.0 =~= rows_b + rest.0);
                    assert(texts_view(texts@) + next.1 =~= texts_b + rest.1);
                    let tl = texts.len();
                    gc = gc + m;
                    i = a;
                } else {
                    let ghost next = split_from(f as int, sv, i + 1, gc + 1);
                    push_text(texts, &l.content);
                    let tl = texts.len();
                    let left = if l.kind == DiffLineKind::Context { Some(i) } else { None };
                    let row = FlatRow::SplitLine {
                        file_idx: f,
                        left_seg: left,
                        right_seg: Some(i),
                        global_line_idx: gc,
                        is_last_in_file: is_last,
                    };
                    rows.push(row);
                    assert(rest.0 == seq![row] + next.0);
                    assert(rows@ + next.0 =~= rows_b + rest.0);
                    assert(texts_view(texts@) + next.1 =~= texts_b + rest.1);
                    gc = gc + 1;
                    i += 1;
                }
            },
        }
    }
    assert(rows@ =~= rows0 + total.0);
    assert(texts_view(texts@) =~= texts0 + total.1);
    gc
}


/// Builds the row list of files `0..k` from their segments and shapes: the
/// rows, the index of each file's header row, and the copy text of every
/// shown line (indexed by global line index in unified mode).
pub fn build_flat_rows(
    segments: &Vec<Vec<LineSegment>>,
    shapes: &Vec<FileShape>,
    split: bool,
    k: usize,
) -> (r: (Vec<FlatRow>, Vec<usize>, Vec<String>))
    requires
        k <= segments.len(),
        k <= shapes.len(),
    ensures
        ({
            let spec_r = rows_upto(all_segs_view(segments@), shapes@, split, k as int);
            &&& r.0@ == spec_r.0
            &&& r.1@ == spec_r.1
            &&& texts_view(r.2@) == spec_r.2
        }),
{
    let ghost all = all_segs_view(segments@);
    let mut rows: Vec<FlatRow> = Vec::new();
    let mut starts: Vec<usize> = Vec::new();
    let mut texts: Vec<String> = Vec::new();
    let mut g: usize = 0;
    let mut f: usize = 0;
    assert(texts_view(texts@) =~= Seq::<Seq<char>>::empty());
    while f < k
        invariant
            k <= segments.len(),
            k <= shapes.len(),
            all == all_segs_view(segments@),
            0 <= f <= k,
            g <= texts@.len(),
            rows@ == rows_upto(all, shapes@, split, f as int).0,
            starts@ == rows_upto(all, shapes@, split, f as int).1,
            texts_view(texts@) == rows_upto(all, shapes@, split, f as int).2,
            g == rows_upto(all, shapes@, split, f as int).3,
        decreases k - f,
    {
        let ghost prev_rows = rows@;
        let ghost prev_texts = texts_view(texts@);
        let ghost fr = file_rows(f as int, all[f as int], shapes@[f as int], split, g as int);
        starts.push(rows.len());
        rows.push(FlatRow::FileHeader { file_idx: f });
        assert(all[f as int] == segs_view(segments@[f as int]@));
        match shapes[f] {
            FileShape::Collapsed => {},
            FileShape::Empty => {
                rows.push(FlatRow::EmptyFile { file_idx: f });
            },
            FileShape::Body => {
                if split {
                    g = push_split(&mut rows, &mut texts, f, &segments[f], g);
                } else {
                    g = push_unified(&mut rows, &mut texts, f, &segments[f], g);
                }
            },
        }
        assert(rows@ =~= prev_rows + fr.0);
        assert(texts_view(texts@) =~= prev_texts + fr.1);
        f += 1;
    }
    (rows, starts, texts)
}

} // verus!
