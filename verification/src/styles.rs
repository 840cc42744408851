//! Overlapping styled ranges of a line merged into disjoint segments: where
//! ranges overlap, each attribute comes from the last range that sets it,
//! and neighbouring segments of the same style join.
use vstd::prelude::*;

verus! {

/// A text style: each attribute unset or set to a value (the caller's
/// numbering of colours, weights and so on).
#[derive(Clone, Copy, PartialEq, Eq, Debug, Structural)]
pub struct Style {
    pub color: Option<u32>,
    pub background_color: Option<u32>,
    pub font_weight: Option<u32>,
    pub font_style: Option<u32>,
    pub underline: Option<u32>,
    pub strikethrough: Option<u32>,
    pub fade_out: Option<u32>,
}

/// No attribute set.
pub open spec fn unstyled() -> Style {
    Style {
        color: None,
        background_color: None,
        font_weight: None,
        font_style: None,
        underline: None,
        strikethrough: None,
        fade_out: None,
    }
}

/// `m` with every attribute that `s` sets taken from `s`.
pub open spec fn overlay(m: Style, s: Style) -> Style {
    Style {
        color: if s.color is Some { s.color } else { m.color },
        background_color: if s.background_color is Some { s.background_color } else { m.background_color },
        font_weight: if s.font_weight is Some { s.font_weight } else { m.font_weight },
        font_style: if s.font_style is Some { s.font_style } else { m.font_style },
        underline: if s.underline is Some { s.underline } else { m.underline },
        strikethrough: if s.strikethrough is Some { s.strikethrough } else { m.strikethrough },
        fade_out: if s.fade_out is Some { s.fade_out } else { m.fade_out },
    }
}

/// A styled byte range.
pub type Styled = ((usize, usize), Style);

/// `x` is where some range starts or ends.
pub open spec fn is_bound(hs: Seq<Styled>, x: usize) -> bool {
    exists|i: int| 0 <= i < hs.len() && ((#[trigger] hs[i]).0.0 == x || hs[i].0.1 == x)
}

/// `pts` lists every range boundary once, in increasing order.
pub open spec fn sorted_bounds(hs: Seq<Styled>, pts: Seq<usize>) -> bool {
    &&& forall|i: int, j: int| 0 <= i < j < pts.len() ==> #[trigger] pts[i] < #[trigger] pts[j]
    &&& forall|x: usize| pts.contains(x) <==> is_bound(hs, x)
}

/// Whether any of the first `n` ranges covers `a..b`, and their style
/// there: each covering range laid over the ones before it.
pub open spec fn merged(hs: Seq<Styled>, a: usize, b: usize, n: int) -> (bool, Style)
    decreases n,
{
    if n <= 0 {
        (false, unstyled())
    } else {
        let (any, m) = merged(hs, a, b, n - 1);
        let h = hs[n - 1];
        if h.0.0 <= a && h.0.1 >= b {
            (true, overlay(m, h.1))
        } else {
            (any, m)
        }
    }
}

/// The covered segments between consecutive boundaries, over the first
/// `k` gaps.
pub open spec fn segments(hs: Seq<Styled>, pts: Seq<usize>, k: int) -> Seq<Styled>
    decreases k,
{
    if k <= 0 {
        seq![]
    } else {
        let prev = segments(hs, pts, k - 1);
        let a = pts[k - 1];
        let b = pts[k];
        let (any, m) = merged(hs, a, b, hs.len() as int);
        if a != b && any {
            prev.push(((a, b), m))
        } else {
            prev
        }
    }
}

/// Segments with each one that continues the previous in the same style
/// joined onto it.
pub open spec fn coalesce(rs: Seq<Styled>) -> Seq<Styled>
    decreases rs.len(),
{
    if rs.len() == 0 {
        seq![]
    } else {
        let c = coalesce(rs.drop_last());
        let x = rs.last();
        if c.len() > 0 && c.last().0.1 == x.0.0 && c.last().1 == x.1 {
            c.update(c.len() - 1, ((c.last().0.0, x.0.1), x.1))
        } else {
            c.push(x)
        }
    }
}

/// Nonempty ranges in increasing order that do not overlap.
pub open spec fn ranges_ordered(rs: Seq<Styled>) -> bool {
    &&& forall|i: int| 0 <= i < rs.len() ==> (#[trigger] rs[i]).0.0 < rs[i].0.1
    &&& forall|i: int, j: int| 0 <= i < j < rs.len() ==> (#[trigger] rs[i]).0.1 <= (#[trigger] rs[j]).0.0
}

/// The segments between increasing boundaries are ordered and end by the
/// last boundary used.
proof fn lemma_segments_ordered(hs: Seq<Styled>, pts: Seq<usize>, k: int)
    requires
        forall|i: int, j: int| 0 <= i < j < pts.len() ==> #[trigger] pts[i] < #[trigger] pts[j],
        0 <= k < pts.len(),
    ensures
        ranges_ordered(segments(hs, pts, k)),
        forall|i: int| 0 <= i < segments(hs, pts, k).len() ==> (#[trigger] segments(hs, pts, k)[i]).0.1 <= pts[k],
    decreases k,
{
    if k > 0 {
        lemma_segments_ordered(hs, pts, k - 1);
        assert(pts[k - 1] < pts[k]);
        if k - 1 > 0 {
            assert(pts[k - 2] < pts[k - 1]);
        }
    }
}

/// Joining neighbours keeps the ranges ordered, and the last one ends where
/// the last given range ends.
proof fn lemma_coalesce_ordered(rs: Seq<Styled>)
    requires
        ranges_ordered(rs),
    ensures
        ranges_ordered(coalesce(rs)),
        rs.len() > 0 ==> coalesce(rs).len() > 0 && coalesce(rs).last().0.1 == rs.last().0.1,
        rs.len() == 0 ==> coalesce(rs).len() == 0,
    decreases rs.len(),
{
    if rs.len() > 0 {
        let d = rs.drop_last();
        assert(ranges_ordered(d)) by {
            assert forall|i: int, j: int| 0 <= i < j < d.len() implies (#[trigger] d[i]).0.1 <= (#[trigger] d[j]).0.0 by {
                assert(d[i] == rs[i] && d[j] == rs[j]);
            }
            assert forall|i: int| 0 <= i < d.len() implies (#[trigger] d[i]).0.0 < d[i].0.1 by {
                assert(d[i] == rs[i]);
            }
        }
        lemma_coalesce_ordered(d);
        let c = coalesce(d);
        let x = rs.last();
        assert(x.0.0 < x.0.1);
        if c.len() > 0 {
            assert(c.last().0.1 == rs[rs.len() - 2].0.1);
            assert(rs[rs.len() - 2].0.1 <= x.0.0);
            assert forall|i: int| 0 <= i < c.len() implies (#[trigger] c[i]).0.1 <= c.last().0.1 by {
                if i < c.len() - 1 {
                    assert(c[i].0.1 <= c[c.len() - 1].0.0);
                }
            }
        }
    }
}

/// Whether some of the first `n` ranges cover byte `x`, and the style
/// there: each covering range laid over the ones before it.
pub open spec fn style_at(hs: Seq<Styled>, x: int, n: int) -> (bool, Style)
    decreases n,
{
    if n <= 0 {
        (false, unstyled())
    } else {
        let (any, m) = style_at(hs, x, n - 1);
        let h = hs[n - 1];
        if h.0.0 <= x < h.0.1 {
            (true, overlay(m, h.1))
        } else {
            (any, m)
        }
    }
}

/// Some range of `rs` holds byte `x`, with the style `st`.
pub open spec fn styled_at(rs: Seq<Styled>, x: int, st: Style) -> bool {
    exists|i: int| 0 <= i < rs.len() && rs[i].0.0 <= x < rs[i].0.1 && (#[trigger] rs[i]).1 == st
}

/// The ranges `r` style every byte as the ranges `hs` do: a byte that a
/// range of `r` holds is covered by `hs`, with the style [`style_at`] gives
/// it, and every byte `hs` covers is held by a range of `r` with that style.
pub open spec fn same_styles(hs: Seq<Styled>, r: Seq<Styled>) -> bool {
    &&& forall|x: int, i: int|
        #![trigger r[i], style_at(hs, x, hs.len() as int)]
        0 <= i < r.len() && r[i].0.0 <= x < r[i].0.1 ==> style_at(hs, x, hs.len() as int) == (true, r[i].1)
    &&& forall|x: int|
        #[trigger] style_at(hs, x, hs.len() as int).0 ==> styled_at(r, x, style_at(hs, x, hs.len() as int).1)
}

/// Inside the gap between consecutive boundaries, a byte gets the style of
/// the whole gap.
proof fn lemma_gap_style(hs: Seq<Styled>, pts: Seq<usize>, k: int, x: int, m: int)
    requires
        sorted_bounds(hs, pts),
        0 < k < pts.len(),
        pts[k - 1] <= x < pts[k],
        0 <= m <= hs.len(),
    ensures
        style_at(hs, x, m) == merged(hs, pts[k - 1], pts[k], m),
    decreases m,
{
    if m > 0 {
        lemma_gap_style(hs, pts, k, x, m - 1);
        let h = hs[m - 1];
        assert(is_bound(hs, h.0.0));
        assert(is_bound(hs, h.0.1));
        assert(pts.contains(h.0.0));
        assert(pts.contains(h.0.1));
        let t = choose|t: int| 0 <= t < pts.len() && pts[t] == h.0.0;
        let u = choose|u: int| 0 <= u < pts.len() && pts[u] == h.0.1;
        if t < k - 1 {
            assert(pts[t] < pts[k - 1]);
        } else if t > k - 1 {
            assert(pts[t] >= pts[k]) by {
                if t > k {
                    assert(pts[k] < pts[t]);
                }
            }
        }
        if u < k - 1 {
            assert(pts[u] < pts[k - 1]);
        } else if u > k {
            assert(pts[k] < pts[u]);
        }
    }
}

/// Outside the first and last boundary no range covers a byte.
proof fn lemma_outside_uncovered(hs: Seq<Styled>, pts: Seq<usize>, x: int, m: int)
    requires
        sorted_bounds(hs, pts),
        pts.len() > 0,
        x < pts[0] || x >= pts[pts.len() - 1],
        0 <= m <= hs.len(),
    ensures
        !style_at(hs, x, m).0,
    decreases m,
{
    if m > 0 {
        lemma_outside_uncovered(hs, pts, x, m - 1);
        let h = hs[m - 1];
        assert(is_bound(hs, h.0.0));
        assert(is_bound(hs, h.0.1));
        assert(pts.contains(h.0.0));
        assert(pts.contains(h.0.1));
        let t = choose|t: int| 0 <= t < pts.len() && pts[t] == h.0.0;
        let u = choose|u: int| 0 <= u < pts.len() && pts[u] == h.0.1;
        if t > 0 {
            assert(pts[0] < pts[t]);
        }
        if u < pts.len() - 1 {
            assert(pts[u] < pts[pts.len() - 1]);
        }
    }
}

/// The segments over the first `k` gaps style each byte as the ranges do,
/// and hold every covered byte up to the `k`-th boundary.
proof fn lemma_segments_styles(hs: Seq<Styled>, pts: Seq<usize>, k: int)
    requires
        sorted_bounds(hs, pts),
        0 <= k < pts.len(),
    ensures
        forall|x: int, i: int|
            #![trigger segments(hs, pts, k)[i], style_at(hs, x, hs.len() as int)]
            0 <= i < segments(hs, pts, k).len() && segments(hs, pts, k)[i].0.0 <= x < segments(hs, pts, k)[i].0.1
                ==> style_at(hs, x, hs.len() as int) == (true, segments(hs, pts, k)[i].1),
        forall|x: int|
            pts[0] <= x < pts[k] && #[trigger] style_at(hs, x, hs.len() as int).0 ==> styled_at(
                segments(hs, pts, k),
                x,
                style_at(hs, x, hs.len() as int).1,
            ),
    decreases k,
{
    let n = hs.len() as int;
    if k > 0 {
        lemma_segments_styles(hs, pts, k - 1);
        let prev = segments(hs, pts, k - 1);
        let cur = segments(hs, pts, k);
        let a = pts[k - 1];
        let b = pts[k];
        assert(a < b);
        let (any, m) = merged(hs, a, b, n);
        assert forall|x: int, i: int|
            #![trigger cur[i], style_at(hs, x, n)]
            0 <= i < cur.len() && cur[i].0.0 <= x < cur[i].0.1 implies style_at(hs, x, n) == (true, cur[i].1) by {
            if i < prev.len() {
                assert(cur[i] == prev[i]);
            } else {
                lemma_gap_style(hs, pts, k, x, n);
            }
        }
        assert forall|x: int| pts[0] <= x < pts[k] && #[trigger] style_at(hs, x, n).0 implies styled_at(
            cur,
            x,
            style_at(hs, x, n).1,
        ) by {
            if x < a {
                let i = choose|i: int| 0 <= i < prev.len() && prev[i].0.0 <= x < prev[i].0.1 && (#[trigger] prev[i]).1
                    == style_at(hs, x, n).1;
                assert(cur[i] == prev[i]);
            } else {
                lemma_gap_style(hs, pts, k, x, n);
                assert(cur[cur.len() - 1] == ((a, b), m));
            }
        }
    }
}

/// Joining neighbours of the same style keeps the style of every byte.
proof fn lemma_coalesce_styles(rs: Seq<Styled>)
    requires
        ranges_ordered(rs),
    ensures
        forall|x: int, i: int|
            #![trigger coalesce(rs)[i], styled_at(rs, x, coalesce(rs)[i].1)]
            0 <= i < coalesce(rs).len() && coalesce(rs)[i].0.0 <= x < coalesce(rs)[i].0.1 ==> styled_at(
                rs,
                x,
                coalesce(rs)[i].1,
            ),
        forall|x: int, j: int|
            #![trigger rs[j], styled_at(coalesce(rs), x, rs[j].1)]
            0 <= j < rs.len() && rs[j].0.0 <= x < rs[j].0.1 ==> styled_at(coalesce(rs), x, rs[j].1),
    decreases rs.len(),
{
    if rs.len() > 0 {
        let d = rs.drop_last();
        assert(ranges_ordered(d)) by {
            assert forall|i: int, j: int| 0 <= i < j < d.len() implies (#[trigger] d[i]).0.1 <= (#[trigger] d[j]).0.0 by {
                assert(d[i] == rs[i] && d[j] == rs[j]);
            }
            assert forall|i: int| 0 <= i < d.len() implies (#[trigger] d[i]).0.0 < d[i].0.1 by {
                assert(d[i] == rs[i]);
            }
        }
        lemma_coalesce_styles(d);
        lemma_coalesce_ordered(d);
        let c = coalesce(d);
        let x = rs.last();
        let cr = coalesce(rs);
        if c.len() > 0 && c.last().0.1 == x.0.0 && c.last().1 == x.1 {
            let l = c.len() - 1;
            assert forall|y: int, i: int| 0 <= i < cr.len() && cr[i].0.0 <= y < cr[i].0.1 implies #[trigger] styled_at(rs, y, cr[i].1) by {
                if i < l {
                    assert(cr[i] == c[i]);
                    assert(styled_at(d, y, c[i].1));
                    let j = choose|j: int| 0 <= j < d.len() && d[j].0.0 <= y < d[j].0.1 && (#[trigger] d[j]).1 == c[i].1;
                    assert(rs[j] == d[j]);
                } else if y < x.0.0 {
                    assert(c[l].0.0 <= y < c[l].0.1);
                    assert(styled_at(d, y, c[l].1));
                    let j = choose|j: int| 0 <= j < d.len() && d[j].0.0 <= y < d[j].0.1 && (#[trigger] d[j]).1 == c[l].1;
                    assert(rs[j] == d[j]);
                } else {
                    assert(rs[rs.len() - 1] == x);
                }
            }
            assert forall|y: int, j: int| 0 <= j < rs.len() && rs[j].0.0 <= y < rs[j].0.1 implies #[trigger] styled_at(cr, y, rs[j].1) by {
                if j < rs.len() - 1 {
                    assert(d[j] == rs[j]);
                    assert(styled_at(c, y, d[j].1));
                    let i = choose|i: int| 0 <= i < c.len() && c[i].0.0 <= y < c[i].0.1 && (#[trigger] c[i]).1 == d[j].1;
                    if i < l {
                        assert(cr[i] == c[i]);
                    } else {
                        assert(cr[l].0.0 <= y < cr[l].0.1);
                    }
                } else {
                    assert(cr[l].0.0 <= y < cr[l].0.1);
                }
            }
        } else {
            assert forall|y: int, i: int| 0 <= i < cr.len() && cr[i].0.0 <= y < cr[i].0.1 implies #[trigger] styled_at(rs, y, cr[i].1) by {
                if i < c.len() {
                    assert(cr[i] == c[i]);
                    assert(styled_at(d, y, c[i].1));
                    let j = choose|j: int| 0 <= j < d.len() && d[j].0.0 <= y < d[j].0.1 && (#[trigger] d[j]).1 == c[i].1;
                    assert(rs[j] == d[j]);
                } else {
                    assert(rs[rs.len() - 1] == x);
                }
            }
            assert forall|y: int, j: int| 0 <= j < rs.len() && rs[j].0.0 <= y < rs[j].0.1 implies #[trigger] styled_at(cr, y, rs[j].1) by {
                if j < rs.len() - 1 {
                    assert(d[j] == rs[j]);
                    assert(styled_at(c, y, d[j].1));
                    let i = choose|i: int| 0 <= i < c.len() && c[i].0.0 <= y < c[i].0.1 && (#[trigger] c[i]).1 == d[j].1;
                    assert(cr[i] == c[i]);
                } else {
                    assert(cr[c.len() as int] == x);
                }
            }
        }
    }
}

/// Merging keeps the style of every byte: the result of
/// [`merge_highlights`] styles each byte as the given ranges do.
proof fn lemma_merge_styles(hs: Seq<Styled>, pts: Seq<usize>)
    requires
        sorted_bounds(hs, pts),
        pts.len() >= 2,
    ensures
        same_styles(hs, coalesce(segments(hs, pts, pts.len() - 1))),
{
    let n = hs.len() as int;
    let k = pts.len() - 1;
    let segs = segments(hs, pts, k);
    let r = coalesce(segs);
    lemma_segments_styles(hs, pts, k);
    lemma_segments_ordered(hs, pts, k);
    lemma_coalesce_styles(segs);
    assert forall|x: int, i: int|
        #![trigger r[i], style_at(hs, x, n)]
        0 <= i < r.len() && r[i].0.0 <= x < r[i].0.1 implies style_at(hs, x, n) == (true, r[i].1) by {
        assert(styled_at(segs, x, r[i].1));
        let j = choose|j: int| 0 <= j < segs.len() && segs[j].0.0 <= x < segs[j].0.1 && (#[trigger] segs[j]).1 == r[i].1;
    }
    assert forall|x: int| #[trigger] style_at(hs, x, n).0 implies styled_at(r, x, style_at(hs, x, n).1) by {
        if x < pts[0] || x >= pts[k] {
            lemma_outside_uncovered(hs, pts, x, n);
        }
        let j = choose|j: int| 0 <= j < segs.len() && segs[j].0.0 <= x < segs[j].0.1 && (#[trigger] segs[j]).1
            == style_at(hs, x, n).1;
        assert(styled_at(r, x, segs[j].1));
    }
}

/// Ranges that merging leaves as they are style each byte as they do: a
/// single range, or ranges that all start and end at one offset.
proof fn lemma_unchanged_styles(hs: Seq<Styled>, pts: Seq<usize>)
    requires
        hs.len() <= 1 || (sorted_bounds(hs, pts) && pts.len() == 1),
    ensures
        same_styles(hs, hs),
{
    let n = hs.len() as int;
    if hs.len() <= 1 {
        assert forall|x: int, i: int|
            #![trigger hs[i], style_at(hs, x, n)]
            0 <= i < hs.len() && hs[i].0.0 <= x < hs[i].0.1 implies style_at(hs, x, n) == (true, hs[i].1) by {
            assert(style_at(hs, x, 0) == (false, unstyled()));
            assert(overlay(unstyled(), hs[0].1) == hs[0].1);
        }
        assert forall|x: int| #[trigger] style_at(hs, x, n).0 implies styled_at(hs, x, style_at(hs, x, n).1) by {
            assert(style_at(hs, x, 0) == (false, unstyled()));
            assert(overlay(unstyled(), hs[0].1) == hs[0].1);
            assert(hs[0].0.0 <= x < hs[0].0.1);
        }
    } else {
        assert forall|x: int, i: int|
            #![trigger hs[i], style_at(hs, x, n)]
            0 <= i < hs.len() && hs[i].0.0 <= x < hs[i].0.1 implies style_at(hs, x, n) == (true, hs[i].1) by {
            assert(is_bound(hs, hs[i].0.0));
            assert(is_bound(hs, hs[i].0.1));
            assert(pts.contains(hs[i].0.0));
            assert(pts.contains(hs[i].0.1));
        }
        assert forall|x: int| #[trigger] style_at(hs, x, n).0 implies styled_at(hs, x, style_at(hs, x, n).1) by {
            lemma_outside_uncovered(hs, pts, x, n);
        }
    }
}

/// The boundaries of the ranges, sorted, each once.
fn bounds_of(hs: &Vec<Styled>) -> (pts: Vec<usize>)
    ensures
        sorted_bounds(hs@, pts@),
{
    let mut pts: Vec<usize> = Vec::new();
    let mut i: usize = 0;
    while i < hs.len()
        invariant
            0 <= i <= hs@.len(),
            forall|a: int, b: int| 0 <= a < b < pts@.len() ==> #[trigger] pts@[a] < #[trigger] pts@[b],
            forall|x: usize| pts@.contains(x) <==> is_bound(hs@.take(i as int), x),
        decreases hs@.len() - i,
    {
        let ghost before = hs@.take(i as int);
        let ghost after = hs@.take(i + 1);
        assert forall|x: usize| is_bound(after, x) <==> (is_bound(before, x) || x == hs@[i as int].0.0 || x
            == hs@[i as int].0.1) by {
            if is_bound(after, x) {
                let j = choose|j: int| 0 <= j < after.len() && ((#[trigger] after[j]).0.0 == x || after[j].0.1 == x);
                if j < i {
                    assert(before[j] == after[j]);
                }
            }
            if is_bound(before, x) {
                let j = choose|j: int| 0 <= j < before.len() && ((#[trigger] before[j]).0.0 == x || before[j].0.1 == x);
                assert(after[j] == before[j]);
            }
            if x == hs@[i as int].0.0 || x == hs@[i as int].0.1 {
                assert(after[i as int] == hs@[i as int]);
            }
        }
        let (r, _) = hs[i];
        insert_sorted(&mut pts, r.0);
        insert_sorted(&mut pts, r.1);
        i += 1;
    }
    assert(hs@.take(i as int) =~= hs@);
    pts
}

/// Adds `v` to a strictly increasing list unless present.
fn insert_sorted(pts: &mut Vec<usize>, v: usize)
    requires
        forall|a: int, b: int| 0 <= a < b < old(pts)@.len() ==> #[trigger] old(pts)@[a] < #[trigger] old(pts)@[b],
    ensures
        forall|a: int, b: int| 0 <= a < b < final(pts)@.len() ==> #[trigger] final(pts)@[a] < #[trigger] final(pts)@[b],
        forall|x: usize| final(pts)@.contains(x) <==> (old(pts)@.contains(x) || x == v),
{
    let mut k: usize = 0;
    while k < pts.len() && pts[k] < v
        invariant
            0 <= k <= pts@.len(),
            *pts == *old(pts),
            forall|a: int| 0 <= a < k ==> #[trigger] pts@[a] < v,
        decreases pts@.len() - k,
    {
        k += 1;
    }
    if k < pts.len() && pts[k] == v {
        assert(pts@[k as int] == v);
        assert(pts@.contains(v));
        return;
    }
    let ghost before = pts@;
    assert(before == old(pts)@);
    pts.insert(k, v);
    proof {
        assert forall|a: int, b: int| 0 <= a < b < pts@.len() implies #[trigger] pts@[a] < #[trigger] pts@[b] by {
            if a < k && b == k {
            } else if a < k && b > k {
                assert(pts@[b] == before[b - 1]);
                assert(before[a] < before[b - 1] || a == b - 1);
            } else if a == k {
                assert(pts@[b] == before[b - 1]);
                if b - 1 > k {
                    assert(before[k as int] < before[b - 1]);
                }
            } else if a > k {
                assert(pts@[a] == before[a - 1]);
                assert(pts@[b] == before[b - 1]);
            }
        }
        assert forall|x: usize| #[trigger] pts@.contains(x) <==> (before.contains(x) || x == v) by {
            if pts@.contains(x) {
                let j = choose|j: int| 0 <= j < pts@.len() && pts@[j] == x;
                if j < k {
                    assert(before[j] == x);
                } else if j > k {
                    assert(before[j - 1] == x);
                }
            }
            if before.contains(x) {
                let j = choose|j: int| 0 <= j < before.len() && before[j] == x;
                if j < k {
                    assert(pts@[j] == x);
                } else {
                    assert(pts@[j + 1] == x);
                }
            }
            if x == v {
                assert(pts@[k as int] == v);
            }
        }
        assert(forall|x: usize| #[trigger] pts@.contains(x) <==> (old(pts)@.contains(x) || x == v));
    }
}

/// The style of the ranges covering `a..b` (see [`merged`]).
fn merge_at(hs: &Vec<Styled>, a: usize, b: usize) -> (r: (bool, Style))
    ensures
        r == merged(hs@, a, b, hs@.len() as int),
{
    let mut any = false;
    let mut m = Style {
        color: None,
        background_color: None,
        font_weight: None,
        font_style: None,
        underline: None,
        strikethrough: None,
        fade_out: None,
    };
    let mut i: usize = 0;
    while i < hs.len()
        invariant
            0 <= i <= hs@.len(),
            (any, m) == merged(hs@, a, b, i as int),
        decreases hs@.len() - i,
    {
        let (r, s) = hs[i];
        if r.0 <= a && r.1 >= b {
            m = Style {
                color: if s.color.is_some() { s.color } else { m.color },
                background_color: if s.background_color.is_some() { s.background_color } else { m.background_color },
                font_weight: if s.font_weight.is_some() { s.font_weight } else { m.font_weight },
                font_style: if s.font_style.is_some() { s.font_style } else { m.font_style },
                underline: if s.underline.is_some() { s.underline } else { m.underline },
                strikethrough: if s.strikethrough.is_some() { s.strikethrough } else { m.strikethrough },
                fade_out: if s.fade_out.is_some() { s.fade_out } else { m.fade_out },
            };
            any = true;
        }
        i += 1;
    }
    (any, m)
}

/// Merges overlapping styled ranges (see [`segments`] and [`coalesce`]):
/// the line is cut at every range boundary, each piece covered by some
/// range gets the ranges' styles laid over each other in order, and
/// neighbouring pieces of the same style join, giving nonempty ranges in
/// increasing order that do not overlap. Zero or one range, or
/// ranges with fewer than two distinct boundaries, come back unchanged.
pub fn merge_highlights(highlights: Vec<Styled>) -> (r: Vec<Styled>)
    ensures
        highlights@.len() <= 1 ==> r@ == highlights@,
        highlights@.len() > 1 ==> exists|pts: Seq<usize>| #[trigger] sorted_bounds(highlights@, pts) && if pts.len() < 2 {
            r@ == highlights@
        } else {
            r@ == coalesce(segments(highlights@, pts, pts.len() - 1)) && ranges_ordered(r@)
        },
        same_styles(highlights@, r@),
{
    if highlights.len() <= 1 {
        proof {
            lemma_unchanged_styles(highlights@, Seq::empty());
        }
        return highlights;
    }
    let pts = bounds_of(&highlights);
    if pts.len() < 2 {
        proof {
            let h = highlights@[0];
            assert(is_bound(highlights@, h.0.0));
            assert(pts@.contains(h.0.0));
            lemma_unchanged_styles(highlights@, pts@);
        }
        return highlights;
    }
    let ghost hs = highlights@;
    let mut result: Vec<Styled> = Vec::new();
    let mut w: usize = 0;
    while w + 1 < pts.len()
        invariant
            0 <= w < pts@.len(),
            hs == highlights@,
            result@ == segments(hs, pts@, w as int),
        decreases pts@.len() - w,
    {
        let a = pts[w];
        let b = pts[w + 1];
        if a != b {
            let (any, m) = merge_at(&highlights, a, b);
            if any {
                result.push(((a, b), m));
            }
        }
        w += 1;
    }
    let mut out: Vec<Styled> = Vec::new();
    let mut k: usize = 0;
    assert(result@.take(0) =~= Seq::<Styled>::empty());
    while k < result.len()
        invariant
            0 <= k <= result@.len(),
            out@ == coalesce(result@.take(k as int)),
        decreases result@.len() - k,
    {
        let x = result[k];
        assert(result@.take(k + 1).drop_last() =~= result@.take(k as int));
        assert(result@.take(k + 1).last() == x);
        let n = out.len();
        if n > 0 && out[n - 1].0.1 == x.0.0 && out[n - 1].1 == x.1 {
            let last = out[n - 1];
            out.set(n - 1, ((last.0.0, x.0.1), x.1));
        } else {
            out.push(x);
        }
        k += 1;
    }
    assert(result@.take(k as int) =~= result@);
    proof {
        lemma_segments_ordered(hs, pts@, pts@.len() - 1);
        lemma_coalesce_ordered(result@);
        lemma_merge_styles(hs, pts@);
    }
    out
}

} // verus!
