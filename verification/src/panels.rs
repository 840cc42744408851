//! The state of the two diff panels (working tree and pull request):
//! which files and hunks are collapsed or expanded, the flat row cache,
//! line selection for copying, and per-panel totals.
use vstd::prelude::*;
use crate::diff::{
    DiffFile, DiffLineKind, FileStatus, LineSegment, SegView, ExpandDirection, EXPAND_STEP, hunks_view,
    source_view, flatten_spec, flatten_fits, flatten_file_lines, segs_view, count_kind_hunks,
};
use crate::flat::{FlatRow, FileShape, build_flat_rows, rows_upto, all_segs_view, texts_view};
use crate::github::{GhStatus, PrInfo, PrReviewComment, ThreadInfo};
use crate::text::{lines_view, lowercase, lowercase_str, str_eq};
use vstd::utf8::encode_utf8;
use crate::file_viewer::{search_lines, search_steppable, all_search_matches};
use std::collections::{HashMap, HashSet};

verus! {

/// Which changes the working-tree panel shows.
#[derive(Clone, Copy, PartialEq, Eq, Debug, Structural)]
pub enum DiffSection {
    Staged,
    Unstaged,
}

/// The value stored for `key` in an association list (the last entry for
/// it), if any.
pub open spec fn lookup<K>(entries: Seq<(K, (usize, usize))>, key: K) -> Option<(usize, usize)>
    decreases entries.len(),
{
    if entries.len() == 0 {
        None
    } else if entries.last().0 == key {
        Some(entries.last().1)
    } else {
        lookup(entries.drop_last(), key)
    }
}

/// The expansion stored for `key`, (0, 0) when none is.
pub open spec fn expansion_of<K>(entries: Seq<(K, (usize, usize))>, key: K) -> (usize, usize) {
    match lookup(entries, key) {
        Some(v) => v,
        None => (0, 0),
    }
}

/// Whether `key` is in the list.
pub open spec fn listed<K>(v: Seq<K>, key: K) -> bool {
    exists|i: int| 0 <= i < v.len() && v[i] == key
}

/// No key is in the list twice.
pub open spec fn no_repeats<K>(v: Seq<K>) -> bool {
    forall|i: int, j: int| 0 <= i < j < v.len() ==> v[i] != v[j]
}

/// The keys of an association list.
pub open spec fn keys_of<K>(entries: Seq<(K, (usize, usize))>) -> Seq<K> {
    entries.map_values(|e: (K, (usize, usize))| e.0)
}

/// Replacing the value of the last entry for `key` changes what `key`
/// looks up, and nothing else.
proof fn lemma_lookup_update<K>(s: Seq<(K, (usize, usize))>, i: int, key: K, v: (usize, usize), k: K)
    requires
        0 <= i < s.len(),
        s[i].0 == key,
        forall|j: int| i < j < s.len() ==> #[trigger] s[j].0 != key,
    ensures
        lookup(s.update(i, (key, v)), k) == if k == key { Some(v) } else { lookup(s, k) },
    decreases s.len(),
{
    let t = s.update(i, (key, v));
    if i == s.len() - 1 {
        assert(t.drop_last() =~= s.drop_last());
    } else {
        assert(t.drop_last() =~= s.drop_last().update(i, (key, v)));
        assert(s[s.len() - 1].0 != key);
        lemma_lookup_update(s.drop_last(), i, key, v, k);
    }
}

/// A key that looks up nothing is in no entry.
proof fn lemma_lookup_none<K>(s: Seq<(K, (usize, usize))>, key: K)
    requires
        lookup(s, key) is None,
    ensures
        forall|j: int| 0 <= j < s.len() ==> #[trigger] s[j].0 != key,
    decreases s.len(),
{
    if s.len() > 0 {
        lemma_lookup_none(s.drop_last(), key);
        assert forall|j: int| 0 <= j < s.len() implies #[trigger] s[j].0 != key by {
            if j < s.len() - 1 {
                assert(s.drop_last()[j] == s[j]);
            }
        }
    }
}

/// The segments the flattening gives a file of shape `shape`.
pub open spec fn segs_for(f: &DiffFile, shape: FileShape, exps: Seq<(usize, usize)>) -> Seq<SegView> {
    if shape == FileShape::Body {
        flatten_spec(hunks_view(f), exps, source_view(f))
    } else {
        Seq::empty()
    }
}

/// The global line indices `a` and `e` select line `i` (either order).
pub open spec fn selected(anchor: Option<usize>, end: Option<usize>, i: int) -> bool {
    match (anchor, end) {
        (Some(a), Some(e)) => (if a <= e { a as int } else { e as int }) <= i <= (if a <= e {
            e as int
        } else {
            a as int
        }),
        _ => false,
    }
}

/// Whether line `global_idx` lies in the copy selection.
pub fn is_line_selected(anchor: Option<usize>, end: Option<usize>, global_idx: usize) -> (r: bool)
    ensures
        r == selected(anchor, end, global_idx as int),
{
    match (anchor, end) {
        (Some(a), Some(e)) => {
            let lo = if a <= e { a } else { e };
            let hi = if a <= e { e } else { a };
            global_idx >= lo && global_idx <= hi
        },
        _ => false,
    }
}

/// Lines joined with line feeds.
pub open spec fn join_chars(ls: Seq<Seq<char>>) -> Seq<char>
    decreases ls.len(),
{
    if ls.len() == 0 {
        Seq::empty()
    } else if ls.len() == 1 {
        ls[0]
    } else {
        join_chars(ls.drop_last()) + "\n"@ + ls.last()
    }
}

/// The copy lines the selection covers.
pub open spec fn selected_lines(anchor: usize, end: usize, contents: Seq<Seq<char>>) -> Seq<Seq<char>> {
    let lo = if anchor <= end { anchor as int } else { end as int };
    let hi = if anchor <= end { end as int } else { anchor as int };
    if lo >= contents.len() {
        Seq::empty()
    } else {
        contents.subrange(lo, if hi + 1 < contents.len() { hi + 1 } else { contents.len() as int })
    }
}

/// The text the copy selection copies: its lines joined with line feeds,
/// or nothing when there is no selection or the text is empty.
pub open spec fn copy_text_spec(anchor: Option<usize>, end: Option<usize>, contents: Seq<Seq<char>>) -> Option<
    Seq<char>,
> {
    match (anchor, end) {
        (Some(a), Some(e)) => {
            let t = join_chars(selected_lines(a, e, contents));
            if t.len() > 0 { Some(t) } else { None }
        },
        _ => None,
    }
}

/// The text of the selected copy lines, if any.
pub fn selected_copy_text(anchor: Option<usize>, end: Option<usize>, contents: &Vec<String>) -> (r: Option<String>)
    ensures
        match (r, copy_text_spec(anchor, end, texts_view(contents@))) {
            (Some(t), Some(s)) => t@ == s,
            (None, None) => true,
            _ => false,
        },
{
    let (a, e) = match (anchor, end) {
        (Some(a), Some(e)) => (a, e),
        _ => {
            return None;
        },
    };
    let ghost cv = texts_view(contents@);
    let lo = if a <= e { a } else { e };
    let hi = if a <= e { e } else { a };
    let ghost sel = selected_lines(a, e, cv);
    let mut text = String::new();
    if lo < contents.len() {
        let stop = if hi < contents.len() - 1 { hi + 1 } else { contents.len() };
        let mut i = lo;
        assert(sel.subrange(0, 0) =~= Seq::<Seq<char>>::empty());
        while i < stop
            invariant
                lo <= i <= stop <= contents.len(),
                cv == texts_view(contents@),
                sel == cv.subrange(lo as int, stop as int),
                text@ == join_chars(sel.subrange(0, i - lo)),
            decreases stop - i,
        {
            if i > lo {
                text.append("\n");
            }
            text.append(contents[i].as_str());
            proof {
                let p = sel.subrange(0, i + 1 - lo);
                assert(p.drop_last() =~= sel.subrange(0, i - lo));
                assert(p.last() == contents@[i as int]@);
                if i == lo {
                    assert(p =~= seq![contents@[i as int]@]);
                }
            }
            i += 1;
        }
        assert(sel.subrange(0, stop - lo) =~= sel);
    } else {
        assert(sel =~= Seq::<Seq<char>>::empty());
    }
    if text.as_str().is_empty() {
        None
    } else {
        Some(text)
    }
}

/// The global line index of row `row_ix`, for line rows.
pub open spec fn row_gli(row: FlatRow) -> Option<usize> {
    match row {
        FlatRow::Line { global_line_idx, .. } => Some(global_line_idx),
        FlatRow::SplitLine { global_line_idx, .. } => Some(global_line_idx),
        _ => None,
    }
}

/// The global line index of a row, when it shows a line.
pub fn gli_for_row(rows: &Vec<FlatRow>, row_ix: usize) -> (r: Option<usize>)
    ensures
        r == if row_ix < rows@.len() { row_gli(rows@[row_ix as int]) } else { None },
{
    if row_ix >= rows.len() {
        return None;
    }
    match rows[row_ix] {
        FlatRow::Line { global_line_idx, .. } => Some(global_line_idx),
        FlatRow::SplitLine { global_line_idx, .. } => Some(global_line_idx),
        _ => None,
    }
}

/// Looks up a working-tree hunk's expansion entry.
fn find_git_entry(entries: &Vec<((DiffSection, usize, usize), (usize, usize))>, key: (DiffSection, usize, usize)) -> (r: Option<usize>)
    ensures
        match r {
            Some(i) => i < entries@.len() && entries@[i as int].0 == key && lookup(entries@, key) == Some(
                entries@[i as int].1,
            ) && forall|j: int| i < j < entries@.len() ==> #[trigger] entries@[j].0 != key,
            None => lookup(entries@, key) is None,
        },
{
    let mut i = entries.len();
    assert(entries@.subrange(0, i as int) =~= entries@);
    while i > 0
        invariant
            0 <= i <= entries.len(),
            lookup(entries@, key) == lookup(entries@.subrange(0, i as int), key),
            forall|j: int| i <= j < entries@.len() ==> #[trigger] entries@[j].0 != key,
        decreases i,
    {
        let ghost sub = entries@.subrange(0, i as int);
        let k = entries[i - 1].0;
        if k.0 == key.0 && k.1 == key.1 && k.2 == key.2 {
            assert(sub.last() == entries@[i - 1]);
            return Some(i - 1);
        }
        assert(sub.drop_last() =~= entries@.subrange(0, i - 1));
        i -= 1;
    }
    assert(entries@.subrange(0, 0) =~= Seq::<((DiffSection, usize, usize), (usize, usize))>::empty());
    None
}

/// Looks up a pull-request hunk's expansion entry.
fn find_pr_entry(entries: &Vec<((usize, usize), (usize, usize))>, key: (usize, usize)) -> (r: Option<usize>)
    ensures
        match r {
            Some(i) => i < entries@.len() && entries@[i as int].0 == key && lookup(entries@, key) == Some(
                entries@[i as int].1,
            ) && forall|j: int| i < j < entries@.len() ==> #[trigger] entries@[j].0 != key,
            None => lookup(entries@, key) is None,
        },
{
    let mut i = entries.len();
    assert(entries@.subrange(0, i as int) =~= entries@);
    while i > 0
        invariant
            0 <= i <= entries.len(),
            lookup(entries@, key) == lookup(entries@.subrange(0, i as int), key),
            forall|j: int| i <= j < entries@.len() ==> #[trigger] entries@[j].0 != key,
        decreases i,
    {
        let ghost sub = entries@.subrange(0, i as int);
        let k = entries[i - 1].0;
        if k.0 == key.0 && k.1 == key.1 {
            assert(sub.last() == entries@[i - 1]);
            return Some(i - 1);
        }
        assert(sub.drop_last() =~= entries@.subrange(0, i - 1));
        i -= 1;
    }
    assert(entries@.subrange(0, 0) =~= Seq::<((usize, usize), (usize, usize))>::empty());
    None
}


/// Files shown per batch; "load more" adds another batch.
pub const FILE_RENDER_BATCH: usize = 20;

/// The per-hunk expansions of a working-tree file.
pub open spec fn git_exps(
    entries: Seq<((DiffSection, usize, usize), (usize, usize))>,
    s: DiffSection,
    f: int,
    nh: int,
) -> Seq<(usize, usize)> {
    Seq::new(nh as nat, |h: int| expansion_of(entries, (s, f as usize, h as usize)))
}

/// The per-hunk expansions of a pull-request file.
pub open spec fn pr_exps(entries: Seq<((usize, usize), (usize, usize))>, f: int, nh: int) -> Seq<(usize, usize)> {
    Seq::new(nh as nat, |h: int| expansion_of(entries, (f as usize, h as usize)))
}

/// Both diff panels flatten a file alike: when, for every hunk of the file,
/// the working-tree panel's expansion of that hunk of file `f` in section
/// `s` is the pull-request panel's expansion of that hunk of file `f`, the
/// file gets the same segments in both.
pub proof fn lemma_panels_flatten_alike(
    git: Seq<((DiffSection, usize, usize), (usize, usize))>,
    pr: Seq<((usize, usize), (usize, usize))>,
    s: DiffSection,
    f: int,
    file: DiffFile,
    shape: FileShape,
)
    requires
        forall|h: int|
            0 <= h < file.hunks@.len() ==> #[trigger] expansion_of(git, (s, f as usize, h as usize))
                == expansion_of(pr, (f as usize, h as usize)),
    ensures
        segs_for(&file, shape, git_exps(git, s, f, file.hunks@.len() as int)) == segs_for(
            &file,
            shape,
            pr_exps(pr, f, file.hunks@.len() as int),
        ),
{
    assert(git_exps(git, s, f, file.hunks@.len() as int) =~= pr_exps(pr, f, file.hunks@.len() as int));
}

/// The working-tree panel's state.
pub struct GitDiffPanel {
    pub branch: String,
    pub staged_files: Vec<DiffFile>,
    pub unstaged_files: Vec<DiffFile>,
    /// Which section's diffs the content area shows.
    pub active_section: DiffSection,
    /// Files whose body is collapsed (header still shown), by section and index.
    pub collapsed_files: Vec<(DiffSection, usize)>,
    /// Extra context per hunk: (section, file, hunk) to (above, below).
    pub expanded_context: Vec<((DiffSection, usize, usize), (usize, usize))>,
    /// How many files are shown (grows with "load more").
    pub rendered_file_limit: usize,
    pub copy_selecting: bool,
    pub copy_anchor_line: Option<usize>,
    pub copy_end_line: Option<usize>,
    /// Text of each shown line, by global line index, for copying.
    pub copy_line_contents: Vec<String>,
    pub cached_file_segments: Vec<Vec<LineSegment>>,
    pub flat_rows: Vec<FlatRow>,
    /// Index of each shown file's header row.
    pub flat_file_starts: Vec<usize>,
    pub flat_cache_dirty: bool,
}

impl GitDiffPanel {
    /// The files of the shown section.
    pub open spec fn active_spec(&self) -> Seq<DiffFile> {
        match self.active_section {
            DiffSection::Staged => self.staged_files@,
            DiffSection::Unstaged => self.unstaged_files@,
        }
    }

    /// The shape of shown file `f`.
    pub open spec fn shape_spec(&self, f: int) -> FileShape {
        if listed(self.collapsed_files@, (self.active_section, f as usize)) {
            FileShape::Collapsed
        } else if self.active_spec()[f].hunks@.len() == 0 {
            FileShape::Empty
        } else {
            FileShape::Body
        }
    }

    /// An empty panel (no repository).
    pub fn empty() -> (p: Self)
        ensures
            p.branch@.len() == 0,
            p.staged_files@.len() == 0 && p.unstaged_files@.len() == 0,
            p.active_section == DiffSection::Unstaged,
            p.rendered_file_limit == FILE_RENDER_BATCH,
            p.flat_cache_dirty,
    {
        Self::with_files(String::new(), Vec::new(), Vec::new())
    }

    /// A panel over a repository's branch and staged and unstaged files;
    /// it shows the staged section when it has files.
    pub fn with_files(branch: String, staged_files: Vec<DiffFile>, unstaged_files: Vec<DiffFile>) -> (p: Self)
        ensures
            p.branch == branch,
            p.staged_files@ == staged_files@,
            p.unstaged_files@ == unstaged_files@,
            p.active_section == if staged_files@.len() > 0 { DiffSection::Staged } else { DiffSection::Unstaged },
            p.collapsed_files@.len() == 0,
            p.expanded_context@.len() == 0,
            p.rendered_file_limit == FILE_RENDER_BATCH,
            p.copy_anchor_line is None && p.copy_end_line is None,
            p.flat_rows@.len() == 0,
            p.flat_cache_dirty,
    {
        let active_section = if staged_files.len() > 0 { DiffSection::Staged } else { DiffSection::Unstaged };
        GitDiffPanel {
            branch,
            staged_files,
            unstaged_files,
            active_section,
            collapsed_files: Vec::new(),
            expanded_context: Vec::new(),
            rendered_file_limit: FILE_RENDER_BATCH,
            copy_selecting: false,
            copy_anchor_line: None,
            copy_end_line: None,
            copy_line_contents: Vec::new(),
            cached_file_segments: Vec::new(),
            flat_rows: Vec::new(),
            flat_file_starts: Vec::new(),
            flat_cache_dirty: true,
        }
    }

    /// Number of files, staged and unstaged.
    pub fn file_count(&self) -> (n: usize)
        requires
            self.staged_files@.len() + self.unstaged_files@.len() <= usize::MAX,
        ensures
            n == self.staged_files@.len() + self.unstaged_files@.len(),
    {
        self.staged_files.len() + self.unstaged_files.len()
    }

    /// New diffs from the repository; expansions are kept, the cache is
    /// rebuilt before the next render.
    pub fn refresh(&mut self, branch: String, staged_files: Vec<DiffFile>, unstaged_files: Vec<DiffFile>)
        ensures
            final(self).branch == branch,
            final(self).staged_files@ == staged_files@,
            final(self).unstaged_files@ == unstaged_files@,
            final(self).expanded_context@ == old(self).expanded_context@,
            final(self).collapsed_files@ == old(self).collapsed_files@,
            final(self).active_section == old(self).active_section,
            final(self).rendered_file_limit == old(self).rendered_file_limit,
            final(self).flat_cache_dirty,
    {
        self.branch = branch;
        self.staged_files = staged_files;
        self.unstaged_files = unstaged_files;
        self.flat_cache_dirty = true;
    }

    /// After staging, unstaging or reverting: expansions dropped and the
    /// first batch of files shown again.
    pub fn reset_expanded_context(&mut self)
        ensures
            final(self).expanded_context@.len() == 0,
            final(self).rendered_file_limit == FILE_RENDER_BATCH,
            final(self).flat_cache_dirty,
            final(self).staged_files@ == old(self).staged_files@,
            final(self).unstaged_files@ == old(self).unstaged_files@,
            final(self).collapsed_files@ == old(self).collapsed_files@,
            final(self).active_section == old(self).active_section,
    {
        self.expanded_context = Vec::new();
        self.rendered_file_limit = FILE_RENDER_BATCH;
        self.flat_cache_dirty = true;
    }

    /// The files of the shown section.
    pub fn active_files(&self) -> (r: &Vec<DiffFile>)
        ensures
            r@ == self.active_spec(),
    {
        match self.active_section {
            DiffSection::Staged => &self.staged_files,
            DiffSection::Unstaged => &self.unstaged_files,
        }
    }

    /// Whether line `global_idx` lies in the copy selection.
    pub fn is_line_selected(&self, global_idx: usize) -> (r: bool)
        ensures
            r == selected(self.copy_anchor_line, self.copy_end_line, global_idx as int),
    {
        is_line_selected(self.copy_anchor_line, self.copy_end_line, global_idx)
    }

    /// The text to copy for the selected lines, if any.
    pub fn copy_selected_text(&self) -> (r: Option<String>)
        ensures
            match (r, copy_text_spec(self.copy_anchor_line, self.copy_end_line, texts_view(self.copy_line_contents@))) {
                (Some(t), Some(s)) => t@ == s,
                (None, None) => true,
                _ => false,
            },
    {
        selected_copy_text(self.copy_anchor_line, self.copy_end_line, &self.copy_line_contents)
    }

    /// Collapses a file's body, or shows it again.
    pub fn toggle_file_collapsed(&mut self, file_idx: usize)
        ensures
            listed(final(self).collapsed_files@, (old(self).active_section, file_idx)) == !listed(
                old(self).collapsed_files@,
                (old(self).active_section, file_idx),
            ),
            forall|k: (DiffSection, usize)| k != (old(self).active_section, file_idx) ==> listed(
                final(self).collapsed_files@,
                k,
            ) == listed(old(self).collapsed_files@, k),
            no_repeats(old(self).collapsed_files@) ==> no_repeats(final(self).collapsed_files@),
            final(self).flat_cache_dirty,
            final(self).active_section == old(self).active_section,
            final(self).staged_files@ == old(self).staged_files@,
            final(self).unstaged_files@ == old(self).unstaged_files@,
            final(self).expanded_context@ == old(self).expanded_context@,
    {
        let key = (self.active_section, file_idx);
        let (removed, v) = toggle_member(&self.collapsed_files, key);
        self.collapsed_files = v;
        self.flat_cache_dirty = true;
    }

    /// One click on a collapse bar: `EXPAND_STEP` more lines of context on
    /// that side of the hunk; `false` (and nothing changed) when the count
    /// would overflow.
    pub fn expand_context(&mut self, file_idx: usize, hunk_idx: usize, direction: ExpandDirection) -> (ok: bool)
        ensures
            ({
                let key = (old(self).active_section, file_idx, hunk_idx);
                let e = expansion_of(old(self).expanded_context@, key);
                let over = match direction {
                    ExpandDirection::Top => e.0 + EXPAND_STEP > usize::MAX,
                    ExpandDirection::Bottom => e.1 + EXPAND_STEP > usize::MAX,
                };
                &&& ok == !over
                &&& ok ==> expansion_of(final(self).expanded_context@, key) == match direction {
                    ExpandDirection::Top => ((e.0 + EXPAND_STEP) as usize, e.1),
                    ExpandDirection::Bottom => (e.0, (e.1 + EXPAND_STEP) as usize),
                }
                &&& ok ==> forall|k: (DiffSection, usize, usize)| k != key ==> #[trigger] expansion_of(
                    final(self).expanded_context@,
                    k,
                ) == expansion_of(old(self).expanded_context@, k)
                &&& ok ==> final(self).flat_cache_dirty
                &&& !ok ==> final(self).expanded_context@ == old(self).expanded_context@
            }),
            no_repeats(keys_of(old(self).expanded_context@)) ==> no_repeats(keys_of(final(self).expanded_context@)),
            final(self).active_section == old(self).active_section,
            final(self).staged_files@ == old(self).staged_files@,
            final(self).unstaged_files@ == old(self).unstaged_files@,
            final(self).collapsed_files@ == old(self).collapsed_files@,
    {
        let key = (self.active_section, file_idx, hunk_idx);
        let found = find_git_entry(&self.expanded_context, key);
        let cur = match found {
            Some(i) => self.expanded_context[i].1,
            None => (0, 0),
        };
        let new = match direction {
            ExpandDirection::Top => {
                if cur.0 > usize::MAX - EXPAND_STEP {
                    return false;
                }
                (cur.0 + EXPAND_STEP, cur.1)
            },
            ExpandDirection::Bottom => {
                if cur.1 > usize::MAX - EXPAND_STEP {
                    return false;
                }
                (cur.0, cur.1 + EXPAND_STEP)
            },
        };
        let ghost before = self.expanded_context@;
        match found {
            Some(i) => {
                self.expanded_context.set(i, (key, new));
                proof {
                    assert forall|k| #[trigger] lookup(self.expanded_context@, k) == if k == key {
                        Some(new)
                    } else {
                        lookup(before, k)
                    } by {
                        lemma_lookup_update(before, i as int, key, new, k);
                    }
                    assert(keys_of(self.expanded_context@) =~= keys_of(before));
                }
            },
            None => {
                self.expanded_context.push((key, new));
                proof {
                    assert(self.expanded_context@.drop_last() =~= before);
                    lemma_lookup_none(before, key);
                    assert(keys_of(self.expanded_context@) =~= keys_of(before).push(key));
                    assert(no_repeats(keys_of(before)) ==> no_repeats(keys_of(self.expanded_context@))) by {
                        if no_repeats(keys_of(before)) {
                            assert forall|a: int, b: int| 0 <= a < b < keys_of(self.expanded_context@).len() implies keys_of(self.expanded_context@)[a] != keys_of(self.expanded_context@)[b] by {
                                if b == before.len() {
                                    assert(before[a].0 != key);
                                }
                            }
                        }
                    }
                }
            },
        }
        self.flat_cache_dirty = true;
        true
    }

    /// "Load more": another batch of files is shown.
    pub fn load_more(&mut self)
        ensures
            old(self).rendered_file_limit < old(self).active_spec().len() ==> final(self).rendered_file_limit
                == if old(self).rendered_file_limit + FILE_RENDER_BATCH <= usize::MAX {
                old(self).rendered_file_limit + FILE_RENDER_BATCH
            } else {
                usize::MAX as int
            },
            old(self).rendered_file_limit >= old(self).active_spec().len() ==> final(self).rendered_file_limit
                == old(self).rendered_file_limit,
            final(self).active_section == old(self).active_section,
            final(self).staged_files@ == old(self).staged_files@,
            final(self).unstaged_files@ == old(self).unstaged_files@,
    {
        let total = self.active_files().len();
        if self.rendered_file_limit < total {
            self.rendered_file_limit = self.rendered_file_limit.saturating_add(FILE_RENDER_BATCH);
            self.flat_cache_dirty = true;
        }
    }
}

/// Adds `key` to the list, or removes it when present; returns whether it
/// was removed.
fn toggle_member(v: &Vec<(DiffSection, usize)>, key: (DiffSection, usize)) -> (r: (bool, Vec<(DiffSection, usize)>))
    ensures
        r.0 == listed(v@, key),
        listed(r.1@, key) == !listed(v@, key),
        forall|k: (DiffSection, usize)| k != key ==> listed(r.1@, k) == listed(v@, k),
        no_repeats(v@) ==> no_repeats(r.1@),
{
    let mut out: Vec<(DiffSection, usize)> = Vec::new();
    let mut found = false;
    let mut i: usize = 0;
    while i < v.len()
        invariant
            0 <= i <= v.len(),
            found == listed(v@.subrange(0, i as int), key),
            forall|k: (DiffSection, usize)| #[trigger] listed(out@, k) <==> (listed(v@.subrange(0, i as int), k) && k != key),
            no_repeats(v@) ==> no_repeats(out@),
        decreases v.len() - i,
    {
        let e = v[i];
        let ghost before = out@;
        let ghost sub = v@.subrange(0, i as int);
        let ghost sub1 = v@.subrange(0, i + 1);
        assert(sub1 =~= sub.push(e));
        assert forall|k: (DiffSection, usize)| #[trigger] listed(sub1, k) <==> (listed(sub, k) || k == e) by {
            if listed(sub1, k) {
                let j = choose|j: int| 0 <= j < sub1.len() && sub1[j] == k;
                if j < sub.len() {
                    assert(sub[j] == k);
                }
            }
            if listed(sub, k) {
                let j = choose|j: int| 0 <= j < sub.len() && sub[j] == k;
                assert(sub1[j] == k);
            }
            if k == e {
                assert(sub1[i as int] == k);
            }
        }
        if e.0 == key.0 && e.1 == key.1 {
            found = true;
        } else {
            assert(no_repeats(v@) ==> !listed(sub, e)) by {
                if no_repeats(v@) && listed(sub, e) {
                    let j = choose|j: int| 0 <= j < sub.len() && sub[j] == e;
                    assert(v@[j] == v@[i as int]);
                }
            }
            out.push(e);
            assert(no_repeats(v@) ==> no_repeats(out@)) by {
                if no_repeats(v@) {
                    assert forall|a: int, b: int| 0 <= a < b < out@.len() implies out@[a] != out@[b] by {
                        if b == out@.len() - 1 {
                            if out@[a] == out@[b] {
                                assert(before[a] == e);
                                assert(listed(before, e));
                            }
                        } else {
                            assert(out@[a] == before[a] && out@[b] == before[b]);
                        }
                    }
                }
            }
            assert forall|k: (DiffSection, usize)| #[trigger] listed(out@, k) <==> (listed(before, k) || k == e) by {
                if listed(out@, k) {
                    let j = choose|j: int| 0 <= j < out@.len() && out@[j] == k;
                    if j < before.len() {
                        assert(before[j] == k);
                    }
                }
                if listed(before, k) {
                    let j = choose|j: int| 0 <= j < before.len() && before[j] == k;
                    assert(out@[j] == k);
                }
                if k == e {
                    assert(out@[before.len() as int] == k);
                }
            }
        }
        i += 1;
    }
    assert(v@.subrange(0, v.len() as int) =~= v@);
    if !found {
        let ghost before = out@;
        assert(!listed(before, key));
        out.push(key);
        assert(no_repeats(v@) ==> no_repeats(out@)) by {
            if no_repeats(v@) {
                assert forall|a: int, b: int| 0 <= a < b < out@.len() implies out@[a] != out@[b] by {
                    if b == out@.len() - 1 {
                        if out@[a] == out@[b] {
                            assert(before[a] == key);
                        }
                    } else {
                        assert(out@[a] == before[a] && out@[b] == before[b]);
                    }
                }
            }
        }
        assert forall|k: (DiffSection, usize)| #[trigger] listed(out@, k) <==> (listed(before, k) || k == key) by {
            if listed(out@, k) {
                let j = choose|j: int| 0 <= j < out@.len() && out@[j] == k;
                if j < before.len() {
                    assert(before[j] == k);
                }
            }
            if listed(before, k) {
                let j = choose|j: int| 0 <= j < before.len() && before[j] == k;
                assert(out@[j] == k);
            }
            if k == key {
                assert(out@[before.len() as int] == k);
            }
        }
    }
    (found, out)
}


/// Whether `key` is in the list.
fn is_member(v: &Vec<(DiffSection, usize)>, key: (DiffSection, usize)) -> (r: bool)
    ensures
        r == listed(v@, key),
{
    let mut i: usize = 0;
    while i < v.len()
        invariant
            0 <= i <= v.len(),
            forall|j: int| 0 <= j < i ==> v@[j] != key,
        decreases v.len() - i,
    {
        let e = v[i];
        if e.0 == key.0 && e.1 == key.1 {
            return true;
        }
        i += 1;
    }
    false
}

/// The per-hunk expansions of a working-tree file.
fn git_file_exps(
    entries: &Vec<((DiffSection, usize, usize), (usize, usize))>,
    s: DiffSection,
    f: usize,
    nh: usize,
) -> (r: Vec<(usize, usize)>)
    ensures
        r@ == git_exps(entries@, s, f as int, nh as int),
{
    let mut r: Vec<(usize, usize)> = Vec::new();
    let mut h: usize = 0;
    while h < nh
        invariant
            0 <= h <= nh,
            r@ == git_exps(entries@, s, f as int, h as int),
        decreases nh - h,
    {
        let e = match find_git_entry(entries, (s, f, h)) {
            Some(i) => entries[i].1,
            None => (0, 0),
        };
        r.push(e);
        assert(r@ =~= git_exps(entries@, s, f as int, h + 1));
        h += 1;
    }
    r
}

/// The per-hunk expansions of a pull-request file.
fn pr_file_exps(entries: &Vec<((usize, usize), (usize, usize))>, f: usize, nh: usize) -> (r: Vec<(usize, usize)>)
    ensures
        r@ == pr_exps(entries@, f as int, nh as int),
{
    let mut r: Vec<(usize, usize)> = Vec::new();
    let mut h: usize = 0;
    while h < nh
        invariant
            0 <= h <= nh,
            r@ == pr_exps(entries@, f as int, h as int),
        decreases nh - h,
    {
        let e = match find_pr_entry(entries, (f, h)) {
            Some(i) => entries[i].1,
            None => (0, 0),
        };
        r.push(e);
        assert(r@ =~= pr_exps(entries@, f as int, h + 1));
        h += 1;
    }
    r
}

impl GitDiffPanel {
    /// How many files the row list shows.
    pub open spec fn shown(&self) -> int {
        if self.rendered_file_limit < self.active_spec().len() {
            self.rendered_file_limit as int
        } else {
            self.active_spec().len() as int
        }
    }

    /// The expansions of shown file `f`.
    pub open spec fn exps_spec(&self, f: int) -> Seq<(usize, usize)> {
        git_exps(self.expanded_context@, self.active_section, f, self.active_spec()[f].hunks@.len() as int)
    }

    /// Every shown file's flattening stays within `usize`.
    pub open spec fn flat_fits(&self) -> bool {
        forall|f: int| 0 <= f < self.shown() && #[trigger] self.shape_spec(f) == FileShape::Body ==> flatten_fits(
            hunks_view(&self.active_spec()[f]),
            self.exps_spec(f),
            source_view(&self.active_spec()[f]),
        )
    }

    /// The row list, copy texts and header indices the cache holds after a
    /// rebuild: one header per shown file, then its collapsed, empty or
    /// unified body, and a "load more" row when files are left out.
    pub open spec fn rows_spec(&self) -> (Seq<FlatRow>, Seq<usize>, Seq<Seq<char>>) {
        let files = self.active_spec();
        let k = self.shown();
        let shapes = Seq::new(k as nat, |f: int| self.shape_spec(f));
        let segs = Seq::new(k as nat, |f: int| segs_for(&files[f], shapes[f], self.exps_spec(f)));
        let r = rows_upto(segs, shapes, false, k);
        (
            if files.len() > k {
                r.0.push(FlatRow::LoadMore { remaining: (files.len() - k) as usize })
            } else {
                r.0
            },
            r.1,
            r.2,
        )
    }

    /// Rebuilds the flat row cache (see [`Self::rows_spec`]); `false`, with
    /// the cache unchanged, when a line number would exceed `usize`.
    pub fn rebuild_flat_cache(&mut self) -> (ok: bool)
        ensures
            ok == old(self).flat_fits(),
            ok ==> {
                &&& final(self).flat_rows@ == old(self).rows_spec().0
                &&& final(self).flat_file_starts@ == old(self).rows_spec().1
                &&& texts_view(final(self).copy_line_contents@) == old(self).rows_spec().2
                &&& !final(self).flat_cache_dirty
            },
            final(self).staged_files@ == old(self).staged_files@,
            final(self).unstaged_files@ == old(self).unstaged_files@,
            final(self).active_section == old(self).active_section,
            final(self).collapsed_files@ == old(self).collapsed_files@,
            final(self).expanded_context@ == old(self).expanded_context@,
            final(self).rendered_file_limit == old(self).rendered_file_limit,
    {
        let section = self.active_section;
        let files = self.active_files();
        let n = files.len();
        let k = if self.rendered_file_limit < n { self.rendered_file_limit } else { n };
        let ghost shapes_s = Seq::new(k as nat, |f: int| self.shape_spec(f));
        let ghost segs_s = Seq::new(k as nat, |f: int| segs_for(&files@[f], shapes_s[f], self.exps_spec(f)));
        let mut segments: Vec<Vec<LineSegment>> = Vec::new();
        let mut shapes: Vec<FileShape> = Vec::new();
        let mut f: usize = 0;
        while f < k
            invariant
                0 <= f <= k <= n,
                n == files@.len(),
                files@ == self.active_spec(),
                section == self.active_section,
                k == self.shown(),
                shapes_s == Seq::new(k as nat, |f: int| self.shape_spec(f)),
                segs_s == Seq::new(k as nat, |f: int| segs_for(&files@[f], shapes_s[f], self.exps_spec(f))),
                shapes@ == shapes_s.subrange(0, f as int),
                all_segs_view(segments@) == segs_s.subrange(0, f as int),
                forall|g: int| 0 <= g < f && #[trigger] self.shape_spec(g) == FileShape::Body ==> flatten_fits(
                    hunks_view(&self.active_spec()[g]),
                    self.exps_spec(g),
                    source_view(&self.active_spec()[g]),
                ),
            decreases k - f,
        {
            let file = &files[f];
            let shape = if is_member(&self.collapsed_files, (section, f)) {
                FileShape::Collapsed
            } else if file.hunks.len() == 0 {
                FileShape::Empty
            } else {
                FileShape::Body
            };
            assert(shape == shapes_s[f as int]);
            let ghost before = all_segs_view(segments@);
            if shape == FileShape::Body {
                let exps = git_file_exps(&self.expanded_context, section, f, file.hunks.len());
                match flatten_file_lines(file, &exps) {
                    None => {
                        return false;
                    },
                    Some(v) => {
                        assert(exps@ == self.exps_spec(f as int));
                        assert(segs_view(v@) == segs_s[f as int]);
                        segments.push(v);
                        assert(all_segs_view(segments@) =~= before.push(segs_s[f as int]));
                    },
                }
            } else {
                let e: Vec<LineSegment> = Vec::new();
                assert(segs_view(e@) =~= Seq::<SegView>::empty());
                segments.push(e);
                assert(all_segs_view(segments@) =~= before.push(segs_s[f as int]));
            }
            shapes.push(shape);
            assert(shapes@ =~= shapes_s.subrange(0, f + 1));
            assert(segs_s.subrange(0, f + 1) =~= before.push(segs_s[f as int]));
            f += 1;
        }
        assert(shapes@ =~= shapes_s);
        assert(all_segs_view(segments@) =~= segs_s);
        let (mut rows, starts, texts) = build_flat_rows(&segments, &shapes, false, k);
        if n > k {
            rows.push(FlatRow::LoadMore { remaining: n - k });
        }
        self.flat_rows = rows;
        self.flat_file_starts = starts;
        self.copy_line_contents = texts;
        self.cached_file_segments = segments;
        self.flat_cache_dirty = false;
        true
    }

    /// Number of added lines over both sections.
    pub fn total_additions(&self) -> (n: usize)
        requires
            total_kind(self.staged_files@, DiffLineKind::Added) + total_kind(self.unstaged_files@, DiffLineKind::Added)
                <= usize::MAX,
        ensures
            n == total_kind(self.staged_files@, DiffLineKind::Added) + total_kind(
                self.unstaged_files@,
                DiffLineKind::Added,
            ),
    {
        let a = sum_kind(&self.staged_files, DiffLineKind::Added);
        let b = sum_kind(&self.unstaged_files, DiffLineKind::Added);
        a + b
    }

    /// Number of removed lines over both sections.
    pub fn total_deletions(&self) -> (n: usize)
        requires
            total_kind(self.staged_files@, DiffLineKind::Removed) + total_kind(self.unstaged_files@, DiffLineKind::Removed)
                <= usize::MAX,
        ensures
            n == total_kind(self.staged_files@, DiffLineKind::Removed) + total_kind(
                self.unstaged_files@,
                DiffLineKind::Removed,
            ),
    {
        let a = sum_kind(&self.staged_files, DiffLineKind::Removed);
        let b = sum_kind(&self.unstaged_files, DiffLineKind::Removed);
        a + b
    }
}

/// Lines of kind `k` over all files.
pub open spec fn total_kind(files: Seq<DiffFile>, k: DiffLineKind) -> nat
    decreases files.len(),
{
    if files.len() == 0 {
        0
    } else {
        total_kind(files.drop_last(), k) + count_kind_hunks(hunks_view(&files.last()), k)
    }
}

proof fn lemma_total_prefix(files: Seq<DiffFile>, i: int, k: DiffLineKind)
    requires
        0 <= i <= files.len(),
    ensures
        total_kind(files.subrange(0, i), k) <= total_kind(files, k),
    decreases files.len(),
{
    if i < files.len() {
        assert(files.drop_last().subrange(0, i) =~= files.subrange(0, i));
        lemma_total_prefix(files.drop_last(), i, k);
    } else {
        assert(files.subrange(0, i) =~= files);
    }
}

/// Counts the lines of kind `k` over all files.
fn sum_kind(files: &Vec<DiffFile>, k: DiffLineKind) -> (n: usize)
    requires
        total_kind(files@, k) <= usize::MAX,
    ensures
        n == total_kind(files@, k),
{
    let mut n: usize = 0;
    let mut i: usize = 0;
    while i < files.len()
        invariant
            0 <= i <= files.len(),
            total_kind(files@, k) <= usize::MAX,
            n == total_kind(files@.subrange(0, i as int), k),
        decreases files.len() - i,
    {
        let ghost sub = files@.subrange(0, i + 1);
        assert(sub.drop_last() =~= files@.subrange(0, i as int));
        assert(sub.last() == files@[i as int]);
        proof {
            lemma_total_prefix(files@, i + 1, k);
        }
        let c = files[i].count_lines_of(k);
        n = n + c;
        i += 1;
    }
    assert(files@.subrange(0, files.len() as int) =~= files@);
    n
}

/// Unified (interleaved) or split (side-by-side) diff rows.
#[derive(Clone, Copy, PartialEq, Eq, Debug, Structural)]
pub enum DiffViewMode {
    Unified,
    Split,
}

/// Which side of a split diff a review comment is on.
#[derive(Clone, Copy, PartialEq, Eq, Debug, Structural)]
pub enum CommentSide {
    Left,
    Right,
}

impl CommentSide {
    /// The side as the GitHub API names it.
    pub fn api_str(&self) -> (s: &'static str)
        ensures
            s@ == match self {
                CommentSide::Left => "LEFT"@,
                CommentSide::Right => "RIGHT"@,
            },
    {
        match self {
            CommentSide::Left => "LEFT",
            CommentSide::Right => "RIGHT",
        }
    }
}

/// The pull-request panel's state.
pub struct PrDiffPanel {
    pub branch: String,
    pub base_ref: String,
    pub diff_files: Vec<DiffFile>,
    pub pr_info: Option<PrInfo>,
    pub pr_comments: Vec<PrReviewComment>,
    pub gh_status: GhStatus,
    pub loading: bool,
    pub collapsed_files: HashSet<usize>,
    /// Extra context per hunk: (file, hunk) to (above, below).
    pub expanded_context: Vec<((usize, usize), (usize, usize))>,
    pub copy_selecting: bool,
    pub copy_anchor_line: Option<usize>,
    pub copy_end_line: Option<usize>,
    pub copy_line_contents: Vec<String>,
    pub cached_file_segments: Vec<Vec<LineSegment>>,
    pub flat_rows: Vec<FlatRow>,
    pub flat_file_starts: Vec<usize>,
    pub flat_cache_dirty: bool,
    /// First comment ids of the resolved review threads.
    pub resolved_thread_ids: HashSet<u64>,
    /// Review thread node ids by first comment id.
    pub thread_node_ids: HashMap<u64, String>,
    pub view_mode: DiffViewMode,
    pub search_active: bool,
    pub search_query: String,
    /// Matches as (global line index, start byte, end byte).
    pub search_matches: Vec<(usize, usize, usize)>,
    pub search_match_ix: usize,
    /// The repository's working directory, when the panel has one.
    pub work_dir: Option<String>,
    /// The line range a comment is being written for: path, first and
    /// last line, side.
    pub active_comment_line: Option<(String, u32, u32, CommentSide)>,
    pub submitting_comment: bool,
    /// The comment being replied to: its id and index.
    pub reply_to: Option<(u64, usize)>,
    pub submitting_reply: bool,
    /// Resolved threads (by first comment id) shown expanded anyway.
    pub expanded_resolved: HashSet<u64>,
}

impl PrDiffPanel {
    /// An empty panel on `branch`, comparing against `main`.
    pub fn empty(branch: String) -> (p: Self)
        ensures
            p.branch == branch,
            p.base_ref@ == "main"@,
            p.diff_files@.len() == 0,
            p.pr_info is None,
            p.gh_status == GhStatus::Unknown,
            p.view_mode == DiffViewMode::Unified,
            p.flat_cache_dirty,
            !p.search_active,
    {
        PrDiffPanel {
            branch,
            base_ref: "main".to_owned(),
            diff_files: Vec::new(),
            pr_info: None,
            pr_comments: Vec::new(),
            gh_status: GhStatus::Unknown,
            loading: false,
            collapsed_files: HashSet::new(),
            expanded_context: Vec::new(),
            copy_selecting: false,
            copy_anchor_line: None,
            copy_end_line: None,
            copy_line_contents: Vec::new(),
            cached_file_segments: Vec::new(),
            flat_rows: Vec::new(),
            flat_file_starts: Vec::new(),
            flat_cache_dirty: true,
            resolved_thread_ids: HashSet::new(),
            thread_node_ids: HashMap::new(),
            view_mode: DiffViewMode::Unified,
            search_active: false,
            search_query: String::new(),
            search_matches: Vec::new(),
            search_match_ix: 0,
            work_dir: None,
            active_comment_line: None,
            submitting_comment: false,
            reply_to: None,
            submitting_reply: false,
            expanded_resolved: HashSet::new(),
        }
    }

    /// Whether rows are side by side.
    pub fn is_split_view(&self) -> (r: bool)
        ensures
            r == (self.view_mode == DiffViewMode::Split),
    {
        self.view_mode == DiffViewMode::Split
    }

    /// Switches between unified and split rows; a change marks the row
    /// cache for rebuilding.
    pub fn set_split_view(&mut self, split: bool)
        ensures
            final(self).view_mode == if split { DiffViewMode::Split } else { DiffViewMode::Unified },
            old(self).view_mode != final(self).view_mode ==> final(self).flat_cache_dirty,
            old(self).view_mode == final(self).view_mode ==> *final(self) == *old(self),
            (*final(self)) == (PrDiffPanel {
                view_mode: final(self).view_mode,
                flat_cache_dirty: final(self).flat_cache_dirty,
                ..*old(self)
            }),
    {
        let mode = if split { DiffViewMode::Split } else { DiffViewMode::Unified };
        if self.view_mode != mode {
            self.view_mode = mode;
            self.flat_cache_dirty = true;
        }
    }

    /// Number of files in the diff.
    pub fn file_count(&self) -> (n: usize)
        ensures
            n == self.diff_files@.len(),
    {
        self.diff_files.len()
    }

    /// Comments can be posted: `gh` works and a PR is open.
    pub fn can_comment(&self) -> (r: bool)
        ensures
            r == (self.gh_status == GhStatus::Available && self.pr_info is Some),
    {
        self.gh_status == GhStatus::Available && self.pr_info.is_some()
    }

    /// The CLI's status and the open PR, if any, are known; the base branch
    /// becomes the PR's.
    pub fn apply_pr_status(&mut self, gh_status: GhStatus, pr_info: Option<PrInfo>)
        ensures
            final(self).gh_status == gh_status,
            final(self).pr_info == pr_info,
            match pr_info {
                Some(p) => final(self).base_ref@ == p.base_ref_name@,
                None => final(self).base_ref == old(self).base_ref,
            },
            final(self).diff_files@ == old(self).diff_files@,
    {
        self.gh_status = gh_status;
        match &pr_info {
            Some(p) => {
                if !crate::text::str_eq(p.base_ref_name.as_str(), self.base_ref.as_str()) {
                    self.base_ref = p.base_ref_name.clone();
                }
            },
            None => {},
        }
        self.pr_info = pr_info;
    }

    /// The branch diff against the base was recomputed: expansions are
    /// dropped and the row cache is to be rebuilt.
    pub fn apply_branch_diff(&mut self, files: Vec<DiffFile>)
        ensures
            final(self).diff_files@ == files@,
            final(self).expanded_context@.len() == 0,
            final(self).flat_cache_dirty,
            final(self).collapsed_files@ == old(self).collapsed_files@,
            final(self).view_mode == old(self).view_mode,
    {
        self.diff_files = files;
        self.expanded_context = Vec::new();
        self.flat_cache_dirty = true;
    }

    /// The review comments and thread state arrived (no thread state
    /// clears it); loading is over.
    pub fn apply_review_data(&mut self, comments: Vec<PrReviewComment>, thread_info: Option<ThreadInfo>)
        ensures
            final(self).pr_comments@ == comments@,
            match thread_info {
                Some(t) => final(self).resolved_thread_ids@ == t.resolved_ids@ && final(self).thread_node_ids@
                    == t.thread_node_ids@,
                None => final(self).resolved_thread_ids@.is_empty() && final(self).thread_node_ids@.len() == 0,
            },
            !final(self).loading,
            final(self).diff_files@ == old(self).diff_files@,
    {
        self.pr_comments = comments;
        match thread_info {
            Some(info) => {
                self.resolved_thread_ids = info.resolved_ids;
                self.thread_node_ids = info.thread_node_ids;
            },
            None => {
                self.resolved_thread_ids = HashSet::new();
                self.thread_node_ids = HashMap::new();
                assert(self.thread_node_ids@ == Map::<u64, String>::empty());
            },
        }
        self.loading = false;
    }

    /// Number of unresolved top-level review comments.
    pub fn unresolved_comment_count(&self) -> (n: usize)
        ensures
            n == unresolved_count(self.pr_comments@, self.resolved_thread_ids@, self.pr_comments@.len() as int),
    {
        let mut n: usize = 0;
        let mut i: usize = 0;
        while i < self.pr_comments.len()
            invariant
                0 <= i <= self.pr_comments.len(),
                n == unresolved_count(self.pr_comments@, self.resolved_thread_ids@, i as int),
                n <= i,
            decreases self.pr_comments.len() - i,
        {
            let c = &self.pr_comments[i];
            if c.in_reply_to_id.is_none() && !self.resolved_thread_ids.contains(&c.id) {
                n += 1;
            }
            i += 1;
        }
        n
    }

    /// The shape of file `f`: collapsed, an info row (renamed or no
    /// hunks), or its segments.
    pub open spec fn shape_spec(&self, f: int) -> FileShape {
        if self.collapsed_files@.contains(f as usize) {
            FileShape::Collapsed
        } else if self.diff_files@[f].status == FileStatus::Renamed || self.diff_files@[f].hunks@.len() == 0 {
            FileShape::Empty
        } else {
            FileShape::Body
        }
    }

    pub open spec fn exps_spec(&self, f: int) -> Seq<(usize, usize)> {
        pr_exps(self.expanded_context@, f, self.diff_files@[f].hunks@.len() as int)
    }

    /// Every file's flattening stays within `usize`.
    pub open spec fn flat_fits(&self) -> bool {
        forall|f: int| 0 <= f < self.diff_files@.len() && #[trigger] self.shape_spec(f) == FileShape::Body
            ==> flatten_fits(hunks_view(&self.diff_files@[f]), self.exps_spec(f), source_view(&self.diff_files@[f]))
    }

    /// The rows, header indices and copy texts after a rebuild.
    pub open spec fn rows_spec(&self) -> (Seq<FlatRow>, Seq<usize>, Seq<Seq<char>>) {
        let files = self.diff_files@;
        let k = files.len() as int;
        let shapes = Seq::new(k as nat, |f: int| self.shape_spec(f));
        let segs = Seq::new(k as nat, |f: int| segs_for(&files[f], shapes[f], self.exps_spec(f)));
        let r = rows_upto(segs, shapes, self.view_mode == DiffViewMode::Split, k);
        (r.0, r.1, r.2)
    }

    /// Rebuilds the flat row cache (see [`Self::rows_spec`]); `false`, with
    /// the cache unchanged, when a line number would exceed `usize`.
    pub fn rebuild_flat_cache(&mut self) -> (ok: bool)
        ensures
            ok == old(self).flat_fits(),
            ok ==> {
                &&& final(self).flat_rows@ == old(self).rows_spec().0
                &&& final(self).flat_file_starts@ == old(self).rows_spec().1
                &&& texts_view(final(self).copy_line_contents@) == old(self).rows_spec().2
                &&& !final(self).flat_cache_dirty
            },
            final(self).diff_files@ == old(self).diff_files@,
            final(self).collapsed_files@ == old(self).collapsed_files@,
            final(self).expanded_context@ == old(self).expanded_context@,
            final(self).view_mode == old(self).view_mode,
            final(self).search_active == old(self).search_active,
            final(self).search_query == old(self).search_query,
    {
        let files = &self.diff_files;
        let n = files.len();
        let ghost shapes_s = Seq::new(n as nat, |f: int| self.shape_spec(f));
        let ghost segs_s = Seq::new(n as nat, |f: int| segs_for(&files@[f], shapes_s[f], self.exps_spec(f)));
        let mut segments: Vec<Vec<LineSegment>> = Vec::new();
        let mut shapes: Vec<FileShape> = Vec::new();
        let mut f: usize = 0;
        while f < n
            invariant
                0 <= f <= n,
                n == files@.len(),
                files@ == self.diff_files@,
                shapes_s == Seq::new(n as nat, |f: int| self.shape_spec(f)),
                segs_s == Seq::new(n as nat, |f: int| segs_for(&files@[f], shapes_s[f], self.exps_spec(f))),
                shapes@ == shapes_s.subrange(0, f as int),
                all_segs_view(segments@) == segs_s.subrange(0, f as int),
                forall|g: int| 0 <= g < f && #[trigger] self.shape_spec(g) == FileShape::Body ==> flatten_fits(
                    hunks_view(&self.diff_files@[g]),
                    self.exps_spec(g),
                    source_view(&self.diff_files@[g]),
                ),
            decreases n - f,
        {
            let file = &files[f];
            let shape = if self.collapsed_files.contains(&f) {
                FileShape::Collapsed
            } else if file.status == FileStatus::Renamed || file.hunks.len() == 0 {
                FileShape::Empty
            } else {
                FileShape::Body
            };
            assert(shape == shapes_s[f as int]);
            let ghost before = all_segs_view(segments@);
            if shape == FileShape::Body {
                let exps = pr_file_exps(&self.expanded_context, f, file.hunks.len());
                match flatten_file_lines(file, &exps) {
                    None => {
                        return false;
                    },
                    Some(v) => {
                        assert(exps@ == self.exps_spec(f as int));
                        assert(segs_view(v@) == segs_s[f as int]);
                        segments.push(v);
                        assert(all_segs_view(segments@) =~= before.push(segs_s[f as int]));
                    },
                }
            } else {
                let e: Vec<LineSegment> = Vec::new();
                assert(segs_view(e@) =~= Seq::<SegView>::empty());
                segments.push(e);
                assert(all_segs_view(segments@) =~= before.push(segs_s[f as int]));
            }
            shapes.push(shape);
            assert(shapes@ =~= shapes_s.subrange(0, f + 1));
            assert(segs_s.subrange(0, f + 1) =~= before.push(segs_s[f as int]));
            f += 1;
        }
        assert(shapes@ =~= shapes_s);
        assert(all_segs_view(segments@) =~= segs_s);
        let split = self.view_mode == DiffViewMode::Split;
        let (rows, starts, texts) = build_flat_rows(&segments, &shapes, split, n);
        self.flat_rows = rows;
        self.flat_file_starts = starts;
        self.copy_line_contents = texts;
        self.cached_file_segments = segments;
        self.flat_cache_dirty = false;
        true
    }

    /// Whether line `global_idx` lies in the copy selection.
    pub fn is_line_selected(&self, global_idx: usize) -> (r: bool)
        ensures
            r == selected(self.copy_anchor_line, self.copy_end_line, global_idx as int),
    {
        is_line_selected(self.copy_anchor_line, self.copy_end_line, global_idx)
    }

    /// The text to copy for the selected lines, if any.
    pub fn copy_selected_text(&self) -> (r: Option<String>)
        ensures
            match (r, copy_text_spec(self.copy_anchor_line, self.copy_end_line, texts_view(self.copy_line_contents@))) {
                (Some(t), Some(s)) => t@ == s,
                (None, None) => true,
                _ => false,
            },
    {
        selected_copy_text(self.copy_anchor_line, self.copy_end_line, &self.copy_line_contents)
    }

    /// The global line index of row `row_ix`, for line rows.
    pub fn gli_for_row(&self, row_ix: usize) -> (r: Option<usize>)
        ensures
            r == if row_ix < self.flat_rows@.len() { row_gli(self.flat_rows@[row_ix as int]) } else { None },
    {
        gli_for_row(&self.flat_rows, row_ix)
    }

    /// Collapses a file's body, or shows it again.
    pub fn toggle_file_collapsed(&mut self, file_idx: usize)
        ensures
            final(self).collapsed_files@ == if old(self).collapsed_files@.contains(file_idx) {
                old(self).collapsed_files@.remove(file_idx)
            } else {
                old(self).collapsed_files@.insert(file_idx)
            },
            final(self).flat_cache_dirty,
            final(self).diff_files@ == old(self).diff_files@,
            final(self).expanded_context@ == old(self).expanded_context@,
    {
        if self.collapsed_files.contains(&file_idx) {
            self.collapsed_files.remove(&file_idx);
        } else {
            self.collapsed_files.insert(file_idx);
        }
        self.flat_cache_dirty = true;
    }

    /// One click on a collapse bar: `EXPAND_STEP` more lines of context on
    /// that side of the hunk; `false` (and nothing changed) when the count
    /// would overflow.
    pub fn expand_context(&mut self, file_idx: usize, hunk_idx: usize, direction: ExpandDirection) -> (ok: bool)
        ensures
            ({
                let key = (file_idx, hunk_idx);
                let e = expansion_of(old(self).expanded_context@, key);
                let over = match direction {
                    ExpandDirection::Top => e.0 + EXPAND_STEP > usize::MAX,
                    ExpandDirection::Bottom => e.1 + EXPAND_STEP > usize::MAX,
                };
                &&& ok == !over
                &&& ok ==> expansion_of(final(self).expanded_context@, key) == match direction {
                    ExpandDirection::Top => ((e.0 + EXPAND_STEP) as usize, e.1),
                    ExpandDirection::Bottom => (e.0, (e.1 + EXPAND_STEP) as usize),
                }
                &&& ok ==> forall|k: (usize, usize)| k != key ==> #[trigger] expansion_of(
                    final(self).expanded_context@,
                    k,
                ) == expansion_of(old(self).expanded_context@, k)
                &&& ok ==> final(self).flat_cache_dirty
                &&& !ok ==> final(self).expanded_context@ == old(self).expanded_context@
            }),
            no_repeats(keys_of(old(self).expanded_context@)) ==> no_repeats(keys_of(final(self).expanded_context@)),
            final(self).diff_files@ == old(self).diff_files@,
            final(self).collapsed_files@ == old(self).collapsed_files@,
    {
        let key = (file_idx, hunk_idx);
        let found = find_pr_entry(&self.expanded_context, key);
        let cur = match found {
            Some(i) => self.expanded_context[i].1,
            None => (0, 0),
        };
        let new = match direction {
            ExpandDirection::Top => {
                if cur.0 > usize::MAX - EXPAND_STEP {
                    return false;
                }
                (cur.0 + EXPAND_STEP, cur.1)
            },
            ExpandDirection::Bottom => {
                if cur.1 > usize::MAX - EXPAND_STEP {
                    return false;
                }
                (cur.0, cur.1 + EXPAND_STEP)
            },
        };
        let ghost before = self.expanded_context@;
        match found {
            Some(i) => {
                self.expanded_context.set(i, (key, new));
                proof {
                    assert forall|k| #[trigger] lookup(self.expanded_context@, k) == if k == key {
                        Some(new)
                    } else {
                        lookup(before, k)
                    } by {
                        lemma_lookup_update(before, i as int, key, new, k);
                    }
                    assert(keys_of(self.expanded_context@) =~= keys_of(before));
                }
            },
            None => {
                self.expanded_context.push((key, new));
                proof {
                    assert(self.expanded_context@.drop_last() =~= before);
                    lemma_lookup_none(before, key);
                    assert(keys_of(self.expanded_context@) =~= keys_of(before).push(key));
                    assert(no_repeats(keys_of(before)) ==> no_repeats(keys_of(self.expanded_context@))) by {
                        if no_repeats(keys_of(before)) {
                            assert forall|a: int, b: int| 0 <= a < b < keys_of(self.expanded_context@).len() implies keys_of(self.expanded_context@)[a] != keys_of(self.expanded_context@)[b] by {
                                if b == before.len() {
                                    assert(before[a].0 != key);
                                }
                            }
                        }
                    }
                }
            },
        }
        self.flat_cache_dirty = true;
        true
    }

    /// Number of added lines in the diff.
    pub fn total_additions(&self) -> (n: usize)
        requires
            total_kind(self.diff_files@, DiffLineKind::Added) <= usize::MAX,
        ensures
            n == total_kind(self.diff_files@, DiffLineKind::Added),
    {
        sum_kind(&self.diff_files, DiffLineKind::Added)
    }

    /// Number of removed lines in the diff.
    pub fn total_deletions(&self) -> (n: usize)
        requires
            total_kind(self.diff_files@, DiffLineKind::Removed) <= usize::MAX,
        ensures
            n == total_kind(self.diff_files@, DiffLineKind::Removed),
    {
        sum_kind(&self.diff_files, DiffLineKind::Removed)
    }

    /// The header's figures (files, additions, deletions): GitHub's when the
    /// pull request is known, else those of the local diff.
    pub fn header_totals(&self) -> (r: (usize, usize, usize))
        requires
            self.pr_info is None ==> total_kind(self.diff_files@, DiffLineKind::Added) <= usize::MAX
                && total_kind(self.diff_files@, DiffLineKind::Removed) <= usize::MAX,
        ensures
            r == match self.pr_info {
                Some(pr) => (pr.changed_files as usize, pr.additions as usize, pr.deletions as usize),
                None => (
                    self.diff_files@.len() as usize,
                    total_kind(self.diff_files@, DiffLineKind::Added) as usize,
                    total_kind(self.diff_files@, DiffLineKind::Removed) as usize,
                ),
            },
    {
        match &self.pr_info {
            Some(pr) => (pr.changed_files as usize, pr.additions as usize, pr.deletions as usize),
            None => (self.diff_files.len(), self.total_additions(), self.total_deletions()),
        }
    }
}

/// Unresolved top-level comments among the first `k`.
pub open spec fn unresolved_count(cs: Seq<PrReviewComment>, resolved: Set<u64>, k: int) -> nat
    decreases k,
{
    if k <= 0 {
        0
    } else {
        unresolved_count(cs, resolved, k - 1) + if cs[k - 1].in_reply_to_id is None && !resolved.contains(
            cs[k - 1].id,
        ) {
            1nat
        } else {
            0nat
        }
    }
}

/// The UTF-8 bytes of each text.
pub open spec fn texts_bytes(ts: Seq<String>) -> Seq<Seq<u8>> {
    Seq::new(ts.len(), |i: int| encode_utf8(ts[i]@))
}

/// The UTF-8 bytes of each text, as byte lines.
fn texts_to_bytes(ts: &Vec<String>) -> (r: Vec<Vec<u8>>)
    ensures
        lines_view(r@) == texts_bytes(ts@),
{
    let mut r: Vec<Vec<u8>> = Vec::new();
    let mut i: usize = 0;
    while i < ts.len()
        invariant
            0 <= i <= ts.len(),
            r@.len() == i,
            forall|k: int| 0 <= k < i ==> (#[trigger] r@[k])@ == encode_utf8(ts@[k]@),
        decreases ts.len() - i,
    {
        let b = vstd::slice::slice_to_vec(ts[i].as_str().as_bytes());
        r.push(b);
        i += 1;
    }
    assert(lines_view(r@) =~= texts_bytes(ts@));
    r
}

/// Whether `c` is a top-level comment on `line` of `path`, on `side` (a
/// comment that names no side is on the right).
pub open spec fn comment_on(c: PrReviewComment, path: Seq<char>, line: u32, side: Seq<char>) -> bool {
    &&& c.in_reply_to_id is None
    &&& c.line == Some(line)
    &&& c.path@ == path
    &&& match c.side {
        Some(s) => s@ == side,
        None => side == "RIGHT"@,
    }
}

/// Indices, in order, of those of the first `k` comments that are on the line.
pub open spec fn comments_on(cs: Seq<PrReviewComment>, path: Seq<char>, line: u32, side: Seq<char>, k: int) -> Seq<usize>
    decreases k,
{
    if k <= 0 {
        seq![]
    } else if comment_on(cs[k - 1], path, line, side) {
        comments_on(cs, path, line, side, k - 1).push((k - 1) as usize)
    } else {
        comments_on(cs, path, line, side, k - 1)
    }
}

impl PrDiffPanel {
    /// Indices of the top-level review comments on `line` of `path`, on
    /// `side` ("LEFT" or "RIGHT"), in the order they came.
    pub fn comment_indices(&self, path: &str, line: u32, side: &str) -> (r: Vec<usize>)
        ensures
            r@ == comments_on(self.pr_comments@, path@, line, side@, self.pr_comments@.len() as int),
    {
        let mut r: Vec<usize> = Vec::new();
        let mut i: usize = 0;
        while i < self.pr_comments.len()
            invariant
                0 <= i <= self.pr_comments.len(),
                r@ == comments_on(self.pr_comments@, path@, line, side@, i as int),
            decreases self.pr_comments.len() - i,
        {
            let c = &self.pr_comments[i];
            let side_ok = match &c.side {
                Some(s) => str_eq(s.as_str(), side),
                None => str_eq("RIGHT", side),
            };
            if c.in_reply_to_id.is_none() && c.line == Some(line) && str_eq(c.path.as_str(), path) && side_ok {
                r.push(i);
            }
            i += 1;
        }
        r
    }

    /// Whether a line has top-level review comments.
    pub fn has_comments(&self, path: &str, line: u32, side: &str) -> (r: bool)
        ensures
            r == (comments_on(self.pr_comments@, path@, line, side@, self.pr_comments@.len() as int).len() > 0),
    {
        self.comment_indices(path, line, side).len() > 0
    }

    /// The lowercased query the search looks for, as bytes.
    pub open spec fn query_bytes(&self) -> Seq<u8> {
        encode_utf8(lowercase(self.search_query@))
    }

    /// Recomputes the case-insensitive matches of the search query over the
    /// copy texts, keeping the active match index within range. Returns
    /// `false`, with no matches, where the scan cannot step past a match
    /// (see [`search_steppable`]).
    pub fn find_search_matches(&mut self) -> (ok: bool)
        ensures
            (*final(self)) == (PrDiffPanel {
                search_matches: final(self).search_matches,
                search_match_ix: final(self).search_match_ix,
                ..*old(self)
            }),
            old(self).search_query@.len() == 0 ==> ok && final(self).search_matches@.len() == 0
                && final(self).search_match_ix == old(self).search_match_ix,
            old(self).search_query@.len() > 0 ==> ok == search_steppable(
                texts_bytes(old(self).copy_line_contents@),
                old(self).query_bytes(),
                old(self).query_bytes().len() as int,
            ),
            old(self).search_query@.len() > 0 && !ok ==> final(self).search_matches@.len() == 0
                && final(self).search_match_ix == 0,
            old(self).search_query@.len() > 0 && ok ==> {
                &&& all_search_matches(
                    texts_bytes(old(self).copy_line_contents@),
                    old(self).query_bytes(),
                    old(self).query_bytes().len() as int,
                    final(self).search_matches@,
                )
                &&& final(self).search_match_ix == (if final(self).search_matches@.len() == 0 {
                    0
                } else if old(self).search_match_ix < final(self).search_matches@.len() - 1 {
                    old(self).search_match_ix
                } else {
                    (final(self).search_matches@.len() - 1) as usize
                })
            },
    {
        self.search_matches = Vec::new();
        if self.search_query.as_str().is_empty() {
            return true;
        }
        let q = lowercase_str(self.search_query.as_str());
        let qlen = q.len();
        let lines = texts_to_bytes(&self.copy_line_contents);
        match search_lines(&lines, &q, qlen) {
            Some(results) => {
                self.search_matches = results;
                if self.search_matches.len() > 0 {
                    let last = self.search_matches.len() - 1;
                    if self.search_match_ix > last {
                        self.search_match_ix = last;
                    }
                } else {
                    self.search_match_ix = 0;
                }
                true
            },
            None => {
                self.search_match_ix = 0;
                false
            },
        }
    }

    /// Enter in the search box: the next match, wrapping around.
    pub fn search_next(&mut self)
        requires
            old(self).search_match_ix < usize::MAX,
        ensures
            (*final(self)) == (PrDiffPanel { search_match_ix: final(self).search_match_ix, ..*old(self) }),
            old(self).search_matches@.len() == 0 ==> final(self).search_match_ix == old(self).search_match_ix,
            old(self).search_matches@.len() > 0 ==> final(self).search_match_ix == (old(self).search_match_ix + 1)
                % (old(self).search_matches@.len() as int),
    {
        if self.search_matches.len() == 0 {
            return;
        }
        self.search_match_ix = (self.search_match_ix + 1) % self.search_matches.len();
    }

    /// After the query changes: the first match becomes the active one.
    pub fn search_find_nearest(&mut self)
        ensures
            (*final(self)) == (PrDiffPanel { search_match_ix: final(self).search_match_ix, ..*old(self) }),
            old(self).search_matches@.len() == 0 ==> final(self).search_match_ix == old(self).search_match_ix,
            old(self).search_matches@.len() > 0 ==> final(self).search_match_ix == 0,
    {
        if self.search_matches.len() == 0 {
            return;
        }
        self.search_match_ix = 0;
    }

    /// The first row that shows the line of the active match, which the view
    /// scrolls to.
    pub fn active_match_row(&self) -> (r: Option<usize>)
        ensures
            !(self.search_match_ix < self.search_matches@.len()) ==> r is None,
            self.search_match_ix < self.search_matches@.len() ==> {
                let gli = self.search_matches@[self.search_match_ix as int].0;
                match r {
                    Some(i) => i < self.flat_rows@.len() && row_gli(self.flat_rows@[i as int]) == Some(gli)
                        && forall|k: int| 0 <= k < i ==> row_gli(#[trigger] self.flat_rows@[k]) != Some(gli),
                    None => forall|k: int| 0 <= k < self.flat_rows@.len() ==> row_gli(#[trigger] self.flat_rows@[k]) != Some(gli),
                }
            },
    {
        if self.search_match_ix >= self.search_matches.len() {
            return None;
        }
        let gli = self.search_matches[self.search_match_ix].0;
        let mut i: usize = 0;
        while i < self.flat_rows.len()
            invariant
                0 <= i <= self.flat_rows@.len(),
                self.search_match_ix < self.search_matches@.len(),
                gli == self.search_matches@[self.search_match_ix as int].0,
                forall|k: int| 0 <= k < i ==> row_gli(#[trigger] self.flat_rows@[k]) != Some(gli),
            decreases self.flat_rows.len() - i,
        {
            if gli_for_row(&self.flat_rows, i) == Some(gli) {
                return Some(i);
            }
            i += 1;
        }
        None
    }

    /// The matches on global line `gli`, as (start, end, whether it is the
    /// active match); none while the search is closed or empty.
    pub fn search_highlights_for_gli(&self, gli: usize) -> (r: Vec<(usize, usize, bool)>)
        ensures
            !self.search_active || self.search_query@.len() == 0 ==> r@.len() == 0,
            self.search_active && self.search_query@.len() > 0 ==> r@ == highlights_on(
                self.search_matches@,
                gli,
                self.search_match_ix,
                self.search_matches@.len() as int,
            ),
    {
        let mut out: Vec<(usize, usize, bool)> = Vec::new();
        if !self.search_active || self.search_query.as_str().is_empty() {
            return out;
        }
        let mut ix: usize = 0;
        while ix < self.search_matches.len()
            invariant
                0 <= ix <= self.search_matches@.len(),
                out@ == highlights_on(self.search_matches@, gli, self.search_match_ix, ix as int),
            decreases self.search_matches.len() - ix,
        {
            let (m_gli, start, end) = self.search_matches[ix];
            if m_gli == gli {
                out.push((start, end, ix == self.search_match_ix));
            }
            ix += 1;
        }
        out
    }

    /// Opens the search box: active, with an empty query and no matches.
    pub fn open_search(&mut self)
        ensures
            (*final(self)) == (PrDiffPanel {
                search_active: true,
                search_query: final(self).search_query,
                search_matches: final(self).search_matches,
                search_match_ix: 0,
                ..*old(self)
            }),
            final(self).search_query@.len() == 0,
            final(self).search_matches@.len() == 0,
    {
        self.search_active = true;
        self.search_query = String::new();
        self.search_matches = Vec::new();
        self.search_match_ix = 0;
    }

    /// Closes the search box, dropping the query and the matches.
    pub fn close_search(&mut self)
        ensures
            (*final(self)) == (PrDiffPanel {
                search_active: false,
                search_query: final(self).search_query,
                search_matches: final(self).search_matches,
                search_match_ix: 0,
                ..*old(self)
            }),
            final(self).search_query@.len() == 0,
            final(self).search_matches@.len() == 0,
    {
        self.search_active = false;
        self.search_query = String::new();
        self.search_matches = Vec::new();
        self.search_match_ix = 0;
    }

    /// Cmd+F: closes the search when it is open, else opens it.
    pub fn handle_find(&mut self)
        ensures
            (*final(self)) == (PrDiffPanel {
                search_active: !old(self).search_active,
                search_query: final(self).search_query,
                search_matches: final(self).search_matches,
                search_match_ix: 0,
                ..*old(self)
            }),
            final(self).search_query@.len() == 0,
            final(self).search_matches@.len() == 0,
    {
        if self.search_active {
            self.close_search();
        } else {
            self.open_search();
        }
    }

    /// A new text in the search box: when it differs from the query, searches
    /// again and selects the first match. Returns `false` where the search
    /// could not run (see [`PrDiffPanel::find_search_matches`]).
    pub fn set_search_query(&mut self, text: String) -> (ok: bool)
        ensures
            old(self).search_query@ == text@ ==> ok && *final(self) == *old(self),
            old(self).search_query@ != text@ ==> {
                let q = encode_utf8(lowercase(text@));
                &&& final(self).search_query@ == text@
                &&& final(self).copy_line_contents@ == old(self).copy_line_contents@
                &&& final(self).flat_rows@ == old(self).flat_rows@
                &&& final(self).search_active == old(self).search_active
                &&& text@.len() > 0 ==> ok == search_steppable(texts_bytes(old(self).copy_line_contents@), q, q.len() as int)
                &&& text@.len() == 0 ==> ok && final(self).search_matches@.len() == 0
                &&& ok && text@.len() > 0 ==> all_search_matches(
                    texts_bytes(old(self).copy_line_contents@),
                    q,
                    q.len() as int,
                    final(self).search_matches@,
                )
                &&& ok && final(self).search_matches@.len() > 0 ==> final(self).search_match_ix == 0
                &&& !ok ==> final(self).search_matches@.len() == 0
            },
    {
        if str_eq(self.search_query.as_str(), text.as_str()) {
            return true;
        }
        self.search_query = text;
        let ok = self.find_search_matches();
        self.search_find_nearest();
        ok
    }
}

/// The highlights on line `gli` among the first `k` matches.
pub open spec fn highlights_on(ms: Seq<(usize, usize, usize)>, gli: usize, active: usize, k: int) -> Seq<(usize, usize, bool)>
    decreases k,
{
    if k <= 0 {
        seq![]
    } else if ms[k - 1].0 == gli {
        highlights_on(ms, gli, active, k - 1).push((ms[k - 1].1, ms[k - 1].2, (k - 1) == active))
    } else {
        highlights_on(ms, gli, active, k - 1)
    }
}

} // verus!
