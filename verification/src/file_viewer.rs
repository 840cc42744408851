//! The text buffer behind the file viewer: lines of bytes, a cursor kept on
//! character boundaries, undo/redo history with coalescing, vim modes,
//! selections, word lookup and in-file search.
use vstd::prelude::*;
use vstd::string::StringSliceAdditionalSpecFns;
use vstd::utf8::{encode_utf8, is_continuation_byte, is_ascii_chars, is_ascii_chars_encode_utf8};
use crate::syntax::{detect_language, language_for, last_segment};
use crate::references::{order_groups, order_groups_by_path, sorted_by_path, FileReference, RefView, ReferencesPanel, ClickDecision, Decided, decided, decision_view, decide_cmd_click, references_in_lines, refs_in, refs_view, groups_view, flat, total_refs, copy_group};
use crate::text::lossy_decode;
use crate::text::{lead_ws_from, ws_char_len, join_lines, join_nl, path_extension, extension_of, lemma_lead_ws_bound, leading_ws, blank, leading_ws_len, str_eq, lower_bytes, lowercase, lowercase_line, lowercase_str, occurs_at, find_from, splice, splice_bytes, NL, no_nl, split_nl, lemma_split_nl, lemma_split_nl_no_nl, lemma_ascii_bytes, lemma_split_nl_single, split_lines, all_whitespace, unicode_ws, boundary, is_boundary, clone_lines, lines_view, ascii_ws, word_byte, is_ascii_ws, is_word_byte};

verus! {

/// A well-formed buffer: at least one line, and no line holds a line feed.
pub open spec fn lines_ok(ls: Seq<Seq<u8>>) -> bool {
    &&& ls.len() >= 1
    &&& forall|i: int| 0 <= i < ls.len() ==> no_nl(#[trigger] ls[i])
}

/// Length of line `row`, or 0 past the end of the buffer.
pub open spec fn line_len_of(ls: Seq<Seq<u8>>, row: int) -> int {
    if 0 <= row < ls.len() { ls[row].len() as int } else { 0 }
}

/// The largest boundary of `line` strictly before `col` (0 when `col` is 0).
pub open spec fn is_prev_boundary(line: Seq<u8>, col: int, r: int) -> bool {
    if col == 0 {
        r == 0
    } else {
        &&& 0 <= r < col
        &&& boundary(line, r)
        &&& forall|k: int| r < k < col ==> !boundary(line, k)
    }
}

/// The smallest boundary of `line` strictly after `col`, or the line's end
/// when `col` is at or past it.
pub open spec fn is_next_boundary(line: Seq<u8>, col: int, r: int) -> bool {
    if col >= line.len() {
        r == line.len()
    } else {
        &&& col < r <= line.len()
        &&& boundary(line, r)
        &&& forall|k: int| col < k < r ==> !boundary(line, k)
    }
}

/// The largest boundary of `line` at or before `min(col, len)`.
pub open spec fn is_clamped(line: Seq<u8>, col: int, r: int) -> bool {
    let m = if col > line.len() { line.len() as int } else { col };
    &&& 0 <= r <= m
    &&& boundary(line, r)
    &&& forall|k: int| r < k <= m ==> !boundary(line, k)
}

/// The editing mode of the vim emulation.
#[derive(Clone, Copy, PartialEq, Eq, Debug, Structural)]
pub enum VimMode {
    Normal,
    Insert,
    Visual,
    VisualLine,
}

impl VimMode {
    /// The status-bar label of the mode.
    pub fn label(&self) -> (s: &'static str)
        ensures
            s@ == match *self {
                VimMode::Normal => "NORMAL"@,
                VimMode::Insert => "INSERT"@,
                VimMode::Visual => "VISUAL"@,
                VimMode::VisualLine => "V-LINE"@,
            },
    {
        match self {
            VimMode::Normal => "NORMAL",
            VimMode::Insert => "INSERT",
            VimMode::Visual => "VISUAL",
            VimMode::VisualLine => "V-LINE",
        }
    }
}

/// A mouse selection between two (row, byte column) positions.
#[derive(Clone, Copy, Debug)]
pub struct Selection {
    pub start_row: usize,
    pub start_col: usize,
    pub end_row: usize,
    pub end_col: usize,
}

/// `(r1, c1)` comes no later than `(r2, c2)`.
pub open spec fn pos_le(r1: int, c1: int, r2: int, c2: int) -> bool {
    r1 < r2 || (r1 == r2 && c1 <= c2)
}

impl Selection {
    /// The two ends in document order.
    pub open spec fn ordered_spec(self) -> (usize, usize, usize, usize) {
        if pos_le(self.start_row as int, self.start_col as int, self.end_row as int, self.end_col as int) {
            (self.start_row, self.start_col, self.end_row, self.end_col)
        } else {
            (self.end_row, self.end_col, self.start_row, self.start_col)
        }
    }

    /// Returns (start_row, start_col, end_row, end_col) ordered so start <= end.
    pub fn ordered(&self) -> (r: (usize, usize, usize, usize))
        ensures
            r == self.ordered_spec(),
    {
        if self.start_row < self.end_row
            || (self.start_row == self.end_row && self.start_col <= self.end_col)
        {
            (self.start_row, self.start_col, self.end_row, self.end_col)
        } else {
            (self.end_row, self.end_col, self.start_row, self.start_col)
        }
    }

    /// The selected column range on `row` for a line of `line_len` bytes.
    pub open spec fn col_range_spec(self, row: int, line_len: int) -> Option<(int, int)> {
        let (sr, sc, er, ec) = self.ordered_spec();
        if row < sr || row > er {
            None
        } else {
            let start: int = if row == sr { sc as int } else { 0 };
            let end: int = if row == er { ec as int } else { line_len };
            if start >= end && !(row > sr && row < er && line_len == 0) {
                if line_len == 0 { Some((0, 1)) } else { None }
            } else {
                Some((start, end))
            }
        }
    }

    /// Returns the selected column range for a given row, or None if this row is not selected.
    /// An empty line inside the selection gets a one-column highlight.
    pub fn col_range_for_row(&self, row: usize, line_len: usize) -> (r: Option<(usize, usize)>)
        ensures
            match r {
                None => self.col_range_spec(row as int, line_len as int) is None,
                Some((a, b)) => self.col_range_spec(row as int, line_len as int) == Some((a as int, b as int)),
            },
    {
        let (sr, sc, er, ec) = self.ordered();
        if row < sr || row > er {
            return None;
        }
        let start = if row == sr { sc } else { 0 };
        let end = if row == er { ec } else { line_len };
        if start >= end && !(row > sr && row < er && line_len == 0) {
            if line_len == 0 && row >= sr && row <= er {
                return Some((0, 1));
            }
            return None;
        }
        Some((start, end))
    }
}

/// Classifies edits so consecutive same-kind operations share one undo group.
#[derive(Clone, Copy, PartialEq, Eq, Debug, Structural)]
pub enum EditKind {
    InsertChar,
    InsertWhitespace,
    InsertNewline,
    DeleteBackward,
    DeleteForward,
    /// Any edit that always gets its own undo group (paste, vim commands, ...).
    Other,
}

/// A snapshot of the buffer and cursor kept on the undo or redo stack.
pub struct UndoEntry {
    pub buffer: Vec<Vec<u8>>,
    pub cursor_row: usize,
    pub cursor_col: usize,
}

impl UndoEntry {
    pub open spec fn view_lines(&self) -> Seq<Seq<u8>> {
        lines_view(self.buffer@)
    }
}

/// An undo snapshot as plain values: (lines, cursor row, cursor column).
pub open spec fn entry_view(e: UndoEntry) -> (Seq<Seq<u8>>, usize, usize) {
    (e.view_lines(), e.cursor_row, e.cursor_col)
}

/// A stack of snapshots as plain values.
pub open spec fn stack_view(es: Seq<UndoEntry>) -> Seq<(Seq<Seq<u8>>, usize, usize)> {
    es.map_values(|e: UndoEntry| entry_view(e))
}

/// The undo stack after pushing `snap`: the oldest snapshot is dropped when
/// the stack would exceed its limit.
pub open spec fn push_capped(
    stack: Seq<(Seq<Seq<u8>>, usize, usize)>,
    snap: (Seq<Seq<u8>>, usize, usize),
) -> Seq<(Seq<Seq<u8>>, usize, usize)> {
    let pushed = stack.push(snap);
    if pushed.len() > UNDO_LIMIT { pushed.subrange(1, pushed.len() as int) } else { pushed }
}

/// Whether an edit of `kind`, `elapsed_ms` after the previous edit of kind
/// `prev`, starts a new undo group.
pub open spec fn breaks_group(prev: Option<EditKind>, kind: EditKind, elapsed_ms: int) -> bool {
    match prev {
        None => true,
        Some(p) => {
            ||| p != kind
            ||| kind == EditKind::InsertNewline
            ||| elapsed_ms > COALESCE_PAUSE_MS
            ||| (p == EditKind::InsertChar && kind == EditKind::InsertWhitespace)
            ||| (p == EditKind::InsertWhitespace && kind == EditKind::InsertChar)
            ||| kind == EditKind::Other
        },
    }
}

/// Milliseconds from `then` to `now`, zero when the clock went backwards.
pub open spec fn elapsed(now: u64, then: u64) -> int {
    if now >= then { now - then } else { 0 }
}

/// Entries whose buffers are well formed.
pub open spec fn entries_ok(es: Seq<UndoEntry>) -> bool {
    forall|i: int| 0 <= i < es.len() ==> lines_ok(#[trigger] es[i].view_lines())
}

/// Most undo snapshots kept; older ones are dropped.
pub const UNDO_LIMIT: usize = 500;

/// Pause, in milliseconds, after which typing starts a new undo group.
pub const COALESCE_PAUSE_MS: u64 = 1000;

/// The editable state of a file viewer.
pub struct FileViewer {
    pub path: String,
    pub language: Option<String>,
    /// Workspace root for cross-file search, set by the parent after construction.
    pub workspace_root: Option<String>,
    pub dirty: bool,
    buffer: Vec<Vec<u8>>,
    cursor_row: usize,
    cursor_col: usize,
    undo_stack: Vec<UndoEntry>,
    redo_stack: Vec<UndoEntry>,
    last_edit_kind: Option<EditKind>,
    /// Time of the last edit, in milliseconds on the caller's clock.
    last_edit_ms: u64,
    vim_mode: VimMode,
    vim_pending: Option<char>,
    visual_anchor_row: usize,
    visual_anchor_col: usize,
    mouse_selecting: bool,
    selection: Option<Selection>,
    /// Positions (row, start byte, end byte) of the highlighted word's occurrences.
    highlighted_occurrences: Vec<(usize, usize, usize)>,
    highlighted_word: Option<Vec<u8>>,
    /// Target flashed after a jump: (row, start byte, end byte).
    nav_highlight: Option<(usize, usize, usize)>,
    pub search_active: bool,
    pub search_query: String,
    /// (row, start byte, end byte) of each search match.
    search_matches: Vec<(usize, usize, usize)>,
    search_match_ix: usize,
}

impl FileViewer {
    pub closed spec fn path_view(&self) -> Seq<char> {
        self.path@
    }

    pub closed spec fn language_view(&self) -> Option<Seq<char>> {
        match self.language {
            Some(l) => Some(l@),
            None => None,
        }
    }

    pub closed spec fn is_dirty(&self) -> bool {
        self.dirty
    }

    pub closed spec fn searching(&self) -> bool {
        self.search_active
    }

    pub closed spec fn query(&self) -> Seq<char> {
        self.search_query@
    }

    pub closed spec fn buf(&self) -> Seq<Seq<u8>> {
        lines_view(self.buffer@)
    }

    pub closed spec fn row(&self) -> int {
        self.cursor_row as int
    }

    pub closed spec fn col(&self) -> int {
        self.cursor_col as int
    }

    pub closed spec fn undo_entries(&self) -> Seq<UndoEntry> {
        self.undo_stack@
    }

    pub closed spec fn redo_entries(&self) -> Seq<UndoEntry> {
        self.redo_stack@
    }

    pub closed spec fn mode(&self) -> VimMode {
        self.vim_mode
    }

    pub closed spec fn pending(&self) -> Option<char> {
        self.vim_pending
    }

    pub closed spec fn last_kind(&self) -> Option<EditKind> {
        self.last_edit_kind
    }

    pub closed spec fn last_ms(&self) -> u64 {
        self.last_edit_ms
    }

    pub closed spec fn anchor(&self) -> (int, int) {
        (self.visual_anchor_row as int, self.visual_anchor_col as int)
    }

    pub closed spec fn sel(&self) -> Option<Selection> {
        self.selection
    }

    pub closed spec fn matches(&self) -> Seq<(usize, usize, usize)> {
        self.search_matches@
    }

    pub closed spec fn match_ix(&self) -> int {
        self.search_match_ix as int
    }

    pub closed spec fn highlighted(&self) -> Option<Seq<u8>> {
        match self.highlighted_word {
            Some(w) => Some(w@),
            None => None,
        }
    }

    pub closed spec fn occurrences(&self) -> Seq<(usize, usize, usize)> {
        self.highlighted_occurrences@
    }

    pub closed spec fn selecting(&self) -> bool {
        self.mouse_selecting
    }

    pub closed spec fn nav(&self) -> Option<(usize, usize, usize)> {
        self.nav_highlight
    }

    /// The invariant kept by every operation: a well-formed buffer with the
    /// cursor on an existing row, and well-formed history snapshots.
    pub closed spec fn wf(&self) -> bool {
        &&& lines_ok(self.buf())
        &&& self.cursor_row < self.buffer.len()
        &&& entries_ok(self.undo_stack@)
        &&& entries_ok(self.redo_stack@)
    }

    /// The cursor column lies within its line.
    pub closed spec fn col_in_line(&self) -> bool {
        self.col() <= self.buf()[self.row()].len()
    }

    /// The cursor column lies within its line, on a character boundary.
    pub closed spec fn cursor_ok(&self) -> bool {
        &&& 0 <= self.col() <= self.buf()[self.row()].len()
        &&& boundary(self.buf()[self.row()], self.col())
    }

    /// What [`Self::cursor_ok`] and [`Self::wf`] say in terms of the views.
    pub proof fn lemma_cursor_ok(&self)
        requires
            self.wf(),
        ensures
            0 <= self.row() < self.buf().len(),
            lines_ok(self.buf()),
            self.cursor_ok() <==> (0 <= self.col() <= self.buf()[self.row()].len() && boundary(
                self.buf()[self.row()],
                self.col(),
            )),
            self.snapshot().1 == self.row(),
            self.snapshot().2 == self.col(),
    {
    }

    /// Every field but the cursor is the same in `self` and `o`.
    pub closed spec fn frame(&self, o: &Self) -> bool {
        &&& self.path == o.path
        &&& self.language == o.language
        &&& self.workspace_root == o.workspace_root
        &&& self.dirty == o.dirty
        &&& self.buffer@ == o.buffer@
        &&& self.undo_stack@ == o.undo_stack@
        &&& self.redo_stack@ == o.redo_stack@
        &&& self.last_edit_kind == o.last_edit_kind
        &&& self.last_edit_ms == o.last_edit_ms
        &&& self.vim_mode == o.vim_mode
        &&& self.vim_pending == o.vim_pending
        &&& self.visual_anchor_row == o.visual_anchor_row
        &&& self.visual_anchor_col == o.visual_anchor_col
        &&& self.mouse_selecting == o.mouse_selecting
        &&& self.selection == o.selection
        &&& self.highlighted_occurrences@ == o.highlighted_occurrences@
        &&& self.highlighted_word == o.highlighted_word
        &&& self.nav_highlight == o.nav_highlight
        &&& self.search_active == o.search_active
        &&& self.search_query == o.search_query
        &&& self.search_matches@ == o.search_matches@
        &&& self.search_match_ix == o.search_match_ix
    }

    /// The frame keeps the buffer, the history and the modes.
    pub proof fn lemma_frame(&self, o: &Self)
        requires
            self.frame(o),
        ensures
            self.buf() == o.buf(),
            self.undo_entries() == o.undo_entries(),
            self.redo_entries() == o.redo_entries(),
            self.is_dirty() == o.is_dirty(),
            self.mode() == o.mode(),
            self.pending() == o.pending(),
            self.sel() == o.sel(),
            self.anchor() == o.anchor(),
            self.last_kind() == o.last_kind(),
            self.matches() == o.matches(),
            self.match_ix() == o.match_ix(),
            self.searching() == o.searching(),
            self.path_view() == o.path_view(),
    {
    }

    fn blank(path: String, language: Option<String>, dirty: bool) -> (v: Self)
        ensures
            v.wf(),
            v.buf() == seq![Seq::<u8>::empty()],
            v.row() == 0,
            v.col() == 0,
            v.path == path,
            v.language == language,
            v.dirty == dirty,
            v.undo_entries().len() == 0,
            v.redo_entries().len() == 0,
            v.mode() == VimMode::Normal,
            v.pending() is None,
            v.last_kind() is None,
            v.sel() is None,
            v.matches().len() == 0,
            !v.search_active,
    {
        let mut buffer: Vec<Vec<u8>> = Vec::new();
        buffer.push(Vec::new());
        let v = FileViewer {
            path,
            language,
            workspace_root: None,
            dirty,
            buffer,
            cursor_row: 0,
            cursor_col: 0,
            undo_stack: Vec::new(),
            redo_stack: Vec::new(),
            last_edit_kind: None,
            last_edit_ms: 0,
            vim_mode: VimMode::Normal,
            vim_pending: None,
            visual_anchor_row: 0,
            visual_anchor_col: 0,
            mouse_selecting: false,
            selection: None,
            highlighted_occurrences: Vec::new(),
            highlighted_word: None,
            nav_highlight: None,
            search_active: false,
            search_query: String::new(),
            search_matches: Vec::new(),
            search_match_ix: 0,
        };
        assert(v.buf() =~= seq![Seq::<u8>::empty()]);
        v
    }

    /// A viewer for a new, unsaved file: one empty line, marked dirty.
    pub fn new_empty(path: String) -> (v: Self)
        ensures
            v.wf(),
            v.buf() == seq![Seq::<u8>::empty()],
            v.row() == 0 && v.col() == 0,
            v.path_view() == path@,
            v.language_view() is None,
            v.is_dirty(),
            v.undo_entries().len() == 0 && v.redo_entries().len() == 0,
            v.mode() == VimMode::Normal,
    {
        Self::blank(path, None, true)
    }

    /// Line `row`'s length in bytes, or 0 past the end.
    pub fn line_len(&self, row: usize) -> (n: usize)
        requires
            self.wf(),
        ensures
            n == line_len_of(self.buf(), row as int),
    {
        if row < self.buffer.len() {
            self.buffer[row].len()
        } else {
            0
        }
    }

    /// The buffer's lines.
    pub fn lines(&self) -> (r: &Vec<Vec<u8>>)
        ensures
            lines_view(r@) == self.buf(),
    {
        &self.buffer
    }

    pub fn cursor_row(&self) -> (r: usize)
        ensures
            r == self.row(),
    {
        self.cursor_row
    }

    pub fn cursor_col(&self) -> (r: usize)
        ensures
            r == self.col(),
    {
        self.cursor_col
    }

    pub fn vim_mode(&self) -> (m: VimMode)
        ensures
            m == self.mode(),
    {
        self.vim_mode
    }

    pub fn selection(&self) -> (s: Option<Selection>)
        ensures
            s == self.sel(),
    {
        self.selection
    }

    /// Largest character boundary before `col` on `row` (0 at the line start).
    pub fn prev_char_boundary(&self, row: usize, col: usize) -> (r: usize)
        requires
            self.wf(),
            row < self.buf().len(),
        ensures
            is_prev_boundary(self.buf()[row as int], col as int, r as int),
    {
        if col == 0 {
            return 0;
        }
        let line = &self.buffer[row];
        proof {
            assert(line@ == self.buf()[row as int]);
        }
        let mut c = col - 1;
        while c > 0 && !is_boundary(line, c)
            invariant
                0 <= c < col,
                forall|k: int| c < k < col ==> !boundary(line@, k),
            decreases c,
        {
            c -= 1;
        }
        c
    }

    /// Smallest character boundary after `col` on `row` (the line end when past it).
    pub fn next_char_boundary(&self, row: usize, col: usize) -> (r: usize)
        requires
            self.wf(),
            row < self.buf().len(),
        ensures
            is_next_boundary(self.buf()[row as int], col as int, r as int),
    {
        let line = &self.buffer[row];
        proof {
            assert(line@ == self.buf()[row as int]);
        }
        if col >= line.len() {
            return line.len();
        }
        let mut c = col + 1;
        while c < line.len() && !is_boundary(line, c)
            invariant
                col < c <= line.len(),
                forall|k: int| col < k < c ==> !boundary(line@, k),
            decreases line.len() - c,
        {
            c += 1;
        }
        c
    }

    /// Pulls the cursor column back into its line and onto a boundary.
    fn clamp_col(&mut self)
        requires
            old(self).wf(),
        ensures
            final(self).wf(),
            final(self).row() == old(self).row(),
            is_clamped(old(self).buf()[old(self).row()], old(self).col(), final(self).col()),
            final(self).cursor_ok(),
            final(self).frame(old(self)),
    {
        let len = self.line_len(self.cursor_row);
        if self.cursor_col > len {
            self.cursor_col = len;
        }
        let ghost m = self.cursor_col as int;
        let row = self.cursor_row;
        proof {
            assert(self.buffer[row as int]@ == self.buf()[row as int]);
        }
        while self.cursor_col > 0 && !is_boundary(&self.buffer[row], self.cursor_col)
            invariant
                self.wf(),
                self.cursor_row == row,
                row == old(self).cursor_row,
                self.frame(old(self)),
                self.buffer[row as int]@ == self.buf()[row as int],
                0 <= self.cursor_col <= m,
                m <= self.buf()[row as int].len(),
                m == (if old(self).col() > old(self).buf()[row as int].len() { old(self).buf()[row as int].len() as int } else { old(self).col() }),
                forall|k: int| self.cursor_col < k <= m ==> !boundary(self.buf()[row as int], k),
            decreases self.cursor_col,
        {
            self.cursor_col = self.cursor_col - 1;
        }
    }
}

/// Index of the first byte of `line` that is not ASCII whitespace, or 0 when
/// every byte is.
pub open spec fn first_non_blank(line: Seq<u8>, r: int) -> bool {
    if exists|i: int| 0 <= i < line.len() && !ascii_ws(line[i]) {
        &&& 0 <= r < line.len()
        &&& !ascii_ws(line[r])
        &&& forall|i: int| 0 <= i < r ==> ascii_ws(line[i])
    } else {
        r == 0
    }
}

impl FileViewer {
    /// Left arrow: one character back, or to the end of the previous line.
    pub fn move_left(&mut self)
        requires
            old(self).wf(),
        ensures
            moved_left(old(self), final(self)),

    {
        if self.cursor_col > 0 {
            self.cursor_col = self.prev_char_boundary(self.cursor_row, self.cursor_col);
        } else if self.cursor_row > 0 {
            self.cursor_row -= 1;
            self.cursor_col = self.line_len(self.cursor_row);
        }
    }

    /// Right arrow: one character forward, or to the start of the next line.
    pub fn move_right(&mut self)
        requires
            old(self).wf(),
        ensures
            moved_right(old(self), final(self)),

    {
        let len = self.line_len(self.cursor_row);
        if self.cursor_col < len {
            self.cursor_col = self.next_char_boundary(self.cursor_row, self.cursor_col);
        } else if self.cursor_row + 1 < self.buffer.len() {
            self.cursor_row += 1;
            self.cursor_col = 0;
        }
    }

    /// Up arrow: previous row, column clamped onto it.
    pub fn move_up(&mut self)
        requires
            old(self).wf(),
        ensures
            moved_up(old(self), final(self)),

    {
        if self.cursor_row > 0 {
            self.cursor_row -= 1;
            self.clamp_col();
        }
    }

    /// Down arrow: next row, column clamped onto it.
    pub fn move_down(&mut self)
        requires
            old(self).wf(),
        ensures
            moved_down(old(self), final(self)),

    {
        if self.cursor_row + 1 < self.buffer.len() {
            self.cursor_row += 1;
            self.clamp_col();
        }
    }

    pub fn move_to_line_start(&mut self)
        requires
            old(self).wf(),
        ensures
            moved_line_start(old(self), final(self)),

    {
        self.cursor_col = 0;
    }

    pub fn move_to_line_end(&mut self)
        requires
            old(self).wf(),
        ensures
            moved_line_end(old(self), final(self)),

    {
        self.cursor_col = self.line_len(self.cursor_row);
    }

    pub fn move_to_buffer_start(&mut self)
        requires
            old(self).wf(),
        ensures
            moved_buffer_start(old(self), final(self)),

    {
        self.cursor_row = 0;
        self.cursor_col = 0;
    }

    pub fn move_to_buffer_end(&mut self)
        requires
            old(self).wf(),
        ensures
            moved_buffer_end(old(self), final(self)),

    {
        self.cursor_row = self.buffer.len() - 1;
        self.cursor_col = self.line_len(self.cursor_row);
    }

    /// `^` in vim: the first non-whitespace byte of the line (0 for a blank line).
    pub fn move_to_first_non_blank(&mut self)
        requires
            old(self).wf(),
        ensures
            moved_first_non_blank(old(self), final(self)),

    {
        let line = &self.buffer[self.cursor_row];
        let ghost l = line@;
        proof {
            assert(l == self.buf()[self.row()]);
        }
        let mut i: usize = 0;
        while i < line.len() && is_ascii_ws(line[i])
            invariant
                0 <= i <= line.len(),
                l == line@,
                forall|k: int| 0 <= k < i ==> ascii_ws(l[k]),
            decreases line.len() - i,
        {
            i += 1;
        }
        if i < line.len() {
            self.cursor_col = i;
        } else {
            self.cursor_col = 0;
        }
    }
}

impl FileViewer {
    /// The undo stack as plain values.
    pub open spec fn undo_view(&self) -> Seq<(Seq<Seq<u8>>, usize, usize)> {
        stack_view(self.undo_entries())
    }

    /// The redo stack as plain values.
    pub open spec fn redo_view(&self) -> Seq<(Seq<Seq<u8>>, usize, usize)> {
        stack_view(self.redo_entries())
    }

    /// The current buffer and cursor as a snapshot.
    pub open spec fn snapshot(&self) -> (Seq<Seq<u8>>, usize, usize) {
        (self.buf(), self.row() as usize, self.col() as usize)
    }

    /// Fields other than the buffer, cursor, history and edit clock are kept.
    pub closed spec fn keeps_view_state(&self, o: &Self) -> bool {
        &&& self.path == o.path
        &&& self.language == o.language
        &&& self.workspace_root == o.workspace_root
        &&& self.vim_mode == o.vim_mode
        &&& self.vim_pending == o.vim_pending
        &&& self.visual_anchor_row == o.visual_anchor_row
        &&& self.visual_anchor_col == o.visual_anchor_col
        &&& self.mouse_selecting == o.mouse_selecting
        &&& self.selection == o.selection
        &&& self.highlighted_occurrences@ == o.highlighted_occurrences@
        &&& self.highlighted_word == o.highlighted_word
        &&& self.nav_highlight == o.nav_highlight
        &&& self.search_active == o.search_active
        &&& self.search_query == o.search_query
        &&& self.search_matches@ == o.search_matches@
        &&& self.search_match_ix == o.search_match_ix
    }

    /// As [`Self::keeps_view_state`], except for the vim mode.
    pub closed spec fn keeps_view_state_but_mode(&self, o: &Self) -> bool {
        &&& self.path == o.path
        &&& self.language == o.language
        &&& self.workspace_root == o.workspace_root
        &&& self.vim_pending == o.vim_pending
        &&& self.visual_anchor_row == o.visual_anchor_row
        &&& self.visual_anchor_col == o.visual_anchor_col
        &&& self.mouse_selecting == o.mouse_selecting
        &&& self.selection == o.selection
        &&& self.highlighted_occurrences@ == o.highlighted_occurrences@
        &&& self.highlighted_word == o.highlighted_word
        &&& self.nav_highlight == o.nav_highlight
        &&& self.search_active == o.search_active
        &&& self.search_query == o.search_query
        &&& self.search_matches@ == o.search_matches@
        &&& self.search_match_ix == o.search_match_ix
    }

    /// As [`Self::keeps_view_state`], except for the selection.
    pub closed spec fn keeps_view_state_but_sel(&self, o: &Self) -> bool {
        &&& self.path == o.path
        &&& self.language == o.language
        &&& self.workspace_root == o.workspace_root
        &&& self.vim_mode == o.vim_mode
        &&& self.vim_pending == o.vim_pending
        &&& self.visual_anchor_row == o.visual_anchor_row
        &&& self.visual_anchor_col == o.visual_anchor_col
        &&& self.mouse_selecting == o.mouse_selecting
        &&& self.highlighted_occurrences@ == o.highlighted_occurrences@
        &&& self.highlighted_word == o.highlighted_word
        &&& self.nav_highlight == o.nav_highlight
        &&& self.search_active == o.search_active
        &&& self.search_query == o.search_query
        &&& self.search_matches@ == o.search_matches@
        &&& self.search_match_ix == o.search_match_ix
    }

    pub proof fn lemma_keeps_view_state(&self, o: &Self)
        requires
            self.keeps_view_state(o),
        ensures
            self.mode() == o.mode(),
            self.pending() == o.pending(),
            self.sel() == o.sel(),
            self.anchor() == o.anchor(),
            self.matches() == o.matches(),
            self.searching() == o.searching(),
            self.path_view() == o.path_view(),
    {
    }

    /// Snapshots the buffer and cursor onto the undo stack and clears redo.
    fn push_undo_entry(&mut self)
        requires
            old(self).wf(),
        ensures
            final(self).wf(),
            final(self).undo_view() == push_capped(old(self).undo_view(), old(self).snapshot()),
            final(self).redo_view().len() == 0,
            final(self).buf() == old(self).buf(),
            final(self).row() == old(self).row(),
            final(self).col() == old(self).col(),
            final(self).is_dirty() == old(self).is_dirty(),
            final(self).last_kind() == old(self).last_kind(),
            final(self).last_ms() == old(self).last_ms(),
            final(self).keeps_view_state(old(self)),
    {
        let entry = UndoEntry {
            buffer: clone_lines(&self.buffer),
            cursor_row: self.cursor_row,
            cursor_col: self.cursor_col,
        };
        let ghost old_undo = self.undo_stack@;
        self.undo_stack.push(entry);
        self.redo_stack.clear();
        proof {
            assert(stack_view(self.undo_stack@) =~= stack_view(old_undo).push(old(self).snapshot()));
        }
        if self.undo_stack.len() > UNDO_LIMIT {
            let ghost pushed = self.undo_stack@;
            self.undo_stack.remove(0);
            proof {
                assert(self.undo_stack@ =~= pushed.subrange(1, pushed.len() as int));
                assert(stack_view(self.undo_stack@) =~= stack_view(pushed).subrange(1, pushed.len() as int));
            }
        }
        proof {
            assert(stack_view(self.redo_stack@) =~= Seq::empty());
        }
    }

    /// Forces a new undo group (vim commands, paste, multi-line edits).
    fn save_undo(&mut self, now_ms: u64)
        requires
            old(self).wf(),
        ensures
            final(self).wf(),
            final(self).undo_view() == push_capped(old(self).undo_view(), old(self).snapshot()),
            final(self).redo_view().len() == 0,
            final(self).buf() == old(self).buf(),
            final(self).row() == old(self).row(),
            final(self).col() == old(self).col(),
            final(self).is_dirty() == old(self).is_dirty(),
            final(self).last_kind() == Some(EditKind::Other),
            final(self).last_ms() == now_ms,
            final(self).keeps_view_state(old(self)),
    {
        self.push_undo_entry();
        self.last_edit_kind = Some(EditKind::Other);
        self.last_edit_ms = now_ms;
    }

    /// Coalescing undo: a new snapshot only when the edit kind changes, on
    /// newlines, after a pause, or at a word boundary while typing.
    fn save_undo_coalesced(&mut self, kind: EditKind, now_ms: u64)
        requires
            old(self).wf(),
        ensures
            final(self).wf(),
            breaks_group(old(self).last_kind(), kind, elapsed(now_ms, old(self).last_ms())) ==> {
                &&& final(self).undo_view() == push_capped(old(self).undo_view(), old(self).snapshot())
                &&& final(self).redo_view().len() == 0
            },
            !breaks_group(old(self).last_kind(), kind, elapsed(now_ms, old(self).last_ms())) ==> {
                &&& final(self).undo_view() == old(self).undo_view()
                &&& final(self).redo_view() == old(self).redo_view()
            },
            final(self).buf() == old(self).buf(),
            final(self).row() == old(self).row(),
            final(self).col() == old(self).col(),
            final(self).is_dirty() == old(self).is_dirty(),
            final(self).last_kind() == Some(kind),
            final(self).last_ms() == now_ms,
            final(self).keeps_view_state(old(self)),
    {
        let elapsed_ms: u64 = now_ms.saturating_sub(self.last_edit_ms);
        let should_break = match self.last_edit_kind {
            None => true,
            Some(prev_kind) => {
                if prev_kind != kind {
                    true
                } else if kind == EditKind::InsertNewline {
                    true
                } else if elapsed_ms > COALESCE_PAUSE_MS {
                    true
                } else if prev_kind == EditKind::InsertChar && kind == EditKind::InsertWhitespace {
                    true
                } else if prev_kind == EditKind::InsertWhitespace && kind == EditKind::InsertChar {
                    true
                } else if kind == EditKind::Other {
                    true
                } else {
                    false
                }
            },
        };
        if should_break {
            self.push_undo_entry();
        }
        self.last_edit_kind = Some(kind);
        self.last_edit_ms = now_ms;
    }
}

/// The buffer after inserting the pieces `parts` (text split at line feeds)
/// at (row, col): the first piece joins the head of the line, the last piece
/// the tail, and the pieces between become lines of their own.
pub open spec fn insert_lines(ls: Seq<Seq<u8>>, row: int, col: int, parts: Seq<Seq<u8>>) -> Seq<Seq<u8>> {
    let line = ls[row];
    let k = parts.len() as int;
    if k > 1 {
        ls.subrange(0, row) + seq![line.subrange(0, col) + parts[0]] + parts.subrange(1, k - 1)
            + seq![parts[k - 1] + line.subrange(col, line.len() as int)] + ls.subrange(
            row + 1,
            ls.len() as int,
        )
    } else {
        ls.update(row, splice(line, col, col, parts[0]))
    }
}

/// The cursor after [`insert_lines`]: the end of the inserted text.
pub open spec fn insert_cursor(row: int, col: int, parts: Seq<Seq<u8>>) -> (int, int) {
    let k = parts.len() as int;
    if k > 1 { (row + k - 1, parts[k - 1].len() as int) } else { (row, col + parts[0].len()) }
}

/// The history after an edit of `kind` at time `now` on `old`.
pub open spec fn recorded(new: &FileViewer, old: &FileViewer, kind: EditKind, now: u64) -> bool {
    &&& if breaks_group(old.last_kind(), kind, elapsed(now, old.last_ms())) {
        &&& new.undo_view() == push_capped(old.undo_view(), old.snapshot())
        &&& new.redo_view().len() == 0
    } else {
        &&& new.undo_view() == old.undo_view()
        &&& new.redo_view() == old.redo_view()
    }
    &&& new.last_kind() == Some(kind)
    &&& new.last_ms() == now
}

/// Lines made of line-feed-free pieces have no line feed.
proof fn lemma_concat_no_nl(a: Seq<u8>, b: Seq<u8>)
    requires
        no_nl(a),
        no_nl(b),
    ensures
        no_nl(a + b),
{
    assert forall|i: int| 0 <= i < (a + b).len() implies (a + b)[i] != NL by {
        if i < a.len() {
            assert((a + b)[i] == a[i]);
        } else {
            assert((a + b)[i] == b[i - a.len()]);
        }
    }
}

proof fn lemma_sub_no_nl(a: Seq<u8>, i: int, j: int)
    requires
        no_nl(a),
        0 <= i <= j <= a.len(),
    ensures
        no_nl(a.subrange(i, j)),
{
    assert forall|k: int| 0 <= k < j - i implies a.subrange(i, j)[k] != NL by {
        assert(a.subrange(i, j)[k] == a[i + k]);
    }
}

proof fn lemma_splice_no_nl(line: Seq<u8>, a: int, b: int, mid: Seq<u8>)
    requires
        no_nl(line),
        no_nl(mid),
        0 <= a <= b <= line.len(),
    ensures
        no_nl(splice(line, a, b, mid)),
{
    lemma_sub_no_nl(line, 0, a);
    lemma_sub_no_nl(line, b, line.len() as int);
    lemma_concat_no_nl(line.subrange(0, a), mid);
    lemma_concat_no_nl(line.subrange(0, a) + mid, line.subrange(b, line.len() as int));
}

impl FileViewer {
    /// Types or pastes `text` at the cursor. Multi-line text always opens its
    /// own undo group; single-line text coalesces with the typing run
    /// (whitespace and non-whitespace runs are separate groups).
    #[verifier::spinoff_prover]
    #[verifier::rlimit(50)]
    pub fn insert_text(&mut self, text: &str, now_ms: u64)
        requires
            old(self).wf(),
            old(self).cursor_ok(),
        ensures
            inserted_text(old(self), final(self), text, now_ms),

    {
        let bytes = text.as_bytes();
        let parts = split_lines(bytes);
        proof {
            lemma_split_nl(bytes@);
        }
        let ghost ls = self.buf();
        let ghost row = self.row();
        let ghost col = self.col();
        let ghost pv = split_nl(bytes@);
        let k = parts.len();
        assert(lines_view(parts@)[0] == parts@[0]@);
        if k > 1 {
            self.save_undo(now_ms);
            assert(entries_ok(self.undo_stack@));
            let r = self.cursor_row;
            let c = self.cursor_col;
            let head = splice_bytes(&self.buffer[r], c, self.buffer[r].len(), &parts[0]);
            let last = &parts[k - 1];
            assert(last@ == pv[k - 1]);
            let tail = splice_bytes(&self.buffer[r], 0, c, last.as_slice());
            proof {
                assert(head@ =~= ls[row].subrange(0, col) + pv[0]);
                assert(tail@ =~= pv[k - 1] + ls[row].subrange(col, ls[row].len() as int));
            }
            self.buffer.set(r, head);
            let ghost snap = *self;
            let mut i: usize = 1;
            while i < k - 1
                invariant
                    1 <= i <= k - 1,
                    k == parts.len(),
                    k == pv.len(),
                    lines_view(parts@) == pv,
                    r == row,
                    0 <= row < ls.len(),
                    0 <= col <= ls[row].len(),
                    self.buffer.len() == ls.len() + i - 1,
                    self.undo_stack@ == snap.undo_stack@,
                    self.redo_stack@ == snap.redo_stack@,
                    self.keeps_view_state(&snap),
                    self.last_edit_kind == snap.last_edit_kind,
                    self.last_edit_ms == snap.last_edit_ms,
                    self.cursor_row == snap.cursor_row,
                    self.cursor_col == snap.cursor_col,
                    self.dirty == snap.dirty,
                    entries_ok(self.undo_stack@),
                    entries_ok(self.redo_stack@),
                    lines_view(self.buffer@) == ls.subrange(0, row) + seq![ls[row].subrange(0, col) + pv[0]]
                        + pv.subrange(1, i as int) + ls.subrange(row + 1, ls.len() as int),
                decreases k - 1 - i,
            {
                let p = parts[i].clone();
                assert(p@ == pv[i as int]);
                let ghost before = self.buffer@;
                self.buffer.insert(r + i, p);
                assert(lines_view(self.buffer@) =~= lines_view(before).insert(r + i, pv[i as int]));
                assert(pv.subrange(1, i + 1) =~= pv.subrange(1, i as int).push(pv[i as int]));
                assert(lines_view(self.buffer@) =~= ls.subrange(0, row) + seq![ls[row].subrange(0, col) + pv[0]]
                    + pv.subrange(1, i + 1) + ls.subrange(row + 1, ls.len() as int));
                i += 1;
            }
            assert(i == k - 1);
            let ghost before = self.buffer@;
            let new_row = r + (k - 1);
            self.buffer.insert(new_row, tail);
            assert(lines_view(self.buffer@) =~= lines_view(before).insert(new_row as int, tail@));
            self.cursor_row = new_row;
            self.cursor_col = last.len();
            proof {
                assert(lines_view(self.buffer@) =~= insert_lines(ls, row, col, pv));
            }
        } else {
            let ws = all_whitespace(text);
            let kind = if ws { EditKind::InsertWhitespace } else { EditKind::InsertChar };
            self.save_undo_coalesced(kind, now_ms);
            let r = self.cursor_row;
            let c = self.cursor_col;
            let nl = splice_bytes(&self.buffer[r], c, c, bytes);
            proof {
                assert(self.buffer@[r as int]@ == ls[row]);
                lemma_split_nl_single(bytes@);
                assert(bytes@ == pv[0]);
            }
            let nl_len = nl.len();
            assert(c + bytes.len() <= nl_len);
            self.buffer.set(r, nl);
            self.cursor_col = c + bytes.len();
            proof {
                assert(lines_view(self.buffer@) =~= insert_lines(ls, row, col, pv));
            }
        }
        self.dirty = true;
        proof {
            let nb = self.buf();
            let line = ls[row];
            assert(no_nl(line));
            assert forall|j: int| 0 <= j < nb.len() implies no_nl(#[trigger] nb[j]) by {
                if k > 1 {
                    if j < row {
                        assert(nb[j] == ls[j]);
                    } else if j == row {
                        lemma_sub_no_nl(line, 0, col);
                        lemma_concat_no_nl(line.subrange(0, col), pv[0]);
                    } else if j < row + k - 1 {
                        assert(nb[j] == pv[j - row]);
                    } else if j == row + k - 1 {
                        lemma_sub_no_nl(line, col, line.len() as int);
                        lemma_concat_no_nl(pv[k - 1], line.subrange(col, line.len() as int));
                    } else {
                        assert(nb[j] == ls[j - k + 1]);
                    }
                } else {
                    if j == row {
                        lemma_splice_no_nl(line, col, col, pv[0]);
                    } else {
                        assert(nb[j] == ls[j]);
                    }
                }
            }
            assert(lines_ok(nb));
            assert(self.cursor_row < self.buffer.len());
            assert(entries_ok(self.undo_stack@));
            assert(entries_ok(self.redo_stack@));
        }
    }
}

/// Line `row` joined with the line after it.
pub open spec fn join_next(ls: Seq<Seq<u8>>, row: int) -> Seq<Seq<u8>> {
    ls.subrange(0, row) + seq![ls[row] + ls[row + 1]] + ls.subrange(row + 2, ls.len() as int)
}

proof fn lemma_join_next_ok(ls: Seq<Seq<u8>>, row: int)
    requires
        lines_ok(ls),
        0 <= row < ls.len() - 1,
    ensures
        lines_ok(join_next(ls, row)),
{
    let nb = join_next(ls, row);
    assert(no_nl(ls[row]) && no_nl(ls[row + 1]));
    lemma_concat_no_nl(ls[row], ls[row + 1]);
    assert forall|j: int| 0 <= j < nb.len() implies no_nl(#[trigger] nb[j]) by {
        if j < row {
            assert(nb[j] == ls[j]);
        } else if j > row {
            assert(nb[j] == ls[j + 1]);
        }
    }
}

proof fn lemma_update_ok(ls: Seq<Seq<u8>>, row: int, l: Seq<u8>)
    requires
        lines_ok(ls),
        0 <= row < ls.len(),
        no_nl(l),
    ensures
        lines_ok(ls.update(row, l)),
{
    let nb = ls.update(row, l);
    assert forall|j: int| 0 <= j < nb.len() implies no_nl(#[trigger] nb[j]) by {
        if j != row {
            assert(nb[j] == ls[j]);
        }
    }
}

impl FileViewer {
    /// Enter: splits the line at the cursor; the cursor starts the new line.
    pub fn insert_newline(&mut self, now_ms: u64)
        requires
            old(self).wf(),
            old(self).cursor_ok(),
        ensures
            inserted_newline(old(self), final(self), now_ms),

    {
        let ghost ls = self.buf();
        let ghost row = self.row();
        let ghost col = self.col();
        self.save_undo_coalesced(EditKind::InsertNewline, now_ms);
        let r = self.cursor_row;
        let c = self.cursor_col;
        proof {
            assert(self.buffer@[r as int]@ == ls[row]);
        }
        let len = self.buffer[r].len();
        let head = splice_bytes(&self.buffer[r], c, len, &[]);
        let rest = splice_bytes(&self.buffer[r], 0, c, &[]);
        self.buffer.set(r, head);
        let ghost before = self.buffer@;
        self.buffer.insert(r + 1, rest);
        self.cursor_row = r + 1;
        self.cursor_col = 0;
        self.dirty = true;
        proof {
            let e = Seq::<u8>::empty();
            let parts = seq![e, e];
            assert(lines_view(self.buffer@) =~= lines_view(before).insert(r + 1, rest@));
            assert(parts.subrange(1, 1) =~= Seq::<Seq<u8>>::empty());
            assert(head@ =~= ls[row].subrange(0, col) + e);
            assert(rest@ =~= e + ls[row].subrange(col, ls[row].len() as int));
            assert(lines_view(self.buffer@) =~= insert_lines(ls, row, col, parts));
            let line = ls[row];
            assert(no_nl(line));
            lemma_sub_no_nl(line, 0, col);
            lemma_sub_no_nl(line, col, line.len() as int);
            assert(head@ =~= line.subrange(0, col));
            assert(rest@ =~= line.subrange(col, line.len() as int));
            let nb = self.buf();
            assert forall|j: int| 0 <= j < nb.len() implies no_nl(#[trigger] nb[j]) by {
                if j < row {
                    assert(nb[j] == ls[j]);
                } else if j > row + 1 {
                    assert(nb[j] == ls[j - 1]);
                }
            }
        }
    }

    /// Backspace: deletes the character before the cursor, or joins the line
    /// with the previous one at column 0.
    pub fn delete_backward(&mut self, now_ms: u64)
        requires
            old(self).wf(),
            old(self).cursor_ok(),
        ensures
            deleted_backward(old(self), final(self), now_ms),

    {
        let ghost ls = self.buf();
        let ghost row = self.row();
        let ghost col = self.col();
        if self.cursor_col > 0 {
            self.save_undo_coalesced(EditKind::DeleteBackward, now_ms);
            let r = self.cursor_row;
            let c = self.cursor_col;
            let prev = self.prev_char_boundary(r, c);
            proof {
                assert(self.buffer@[r as int]@ == ls[row]);
            }
            let nl = splice_bytes(&self.buffer[r], prev, c, &[]);
            self.buffer.set(r, nl);
            self.cursor_col = prev;
            self.dirty = true;
            proof {
                assert(lines_view(self.buffer@) =~= ls.update(row, nl@));
                assert(nl@ =~= splice(ls[row], prev as int, col, Seq::empty()));
                lemma_splice_no_nl(ls[row], prev as int, col, Seq::empty());
                lemma_update_ok(ls, row, nl@);
            }
        } else if self.cursor_row > 0 {
            self.save_undo(now_ms);
            let r = self.cursor_row;
            let line = self.buffer.remove(r);
            let pr = r - 1;
            proof {
                assert(line@ == ls[row]);
                assert(self.buffer@[pr as int]@ == ls[row - 1]);
            }
            let plen = self.buffer[pr].len();
            let joined = splice_bytes(&self.buffer[pr], plen, plen, line.as_slice());
            let ghost removed = self.buffer@;
            self.buffer.set(pr, joined);
            self.cursor_row = pr;
            self.cursor_col = plen;
            self.dirty = true;
            proof {
                assert(joined@ =~= ls[row - 1] + ls[row]);
                assert(lines_view(self.buffer@) =~= join_next(ls, row - 1));
                lemma_join_next_ok(ls, row - 1);
            }
        }
    }

    /// Delete: removes the character after the cursor, or joins the next line
    /// at the line end.
    pub fn delete_forward(&mut self, now_ms: u64)
        requires
            old(self).wf(),
            old(self).cursor_ok(),
        ensures
            deleted_forward(old(self), final(self), now_ms),

    {
        let ghost ls = self.buf();
        let ghost row = self.row();
        let ghost col = self.col();
        let len = self.line_len(self.cursor_row);
        if self.cursor_col < len {
            self.save_undo_coalesced(EditKind::DeleteForward, now_ms);
            let r = self.cursor_row;
            let c = self.cursor_col;
            let next = self.next_char_boundary(r, c);
            proof {
                assert(self.buffer@[r as int]@ == ls[row]);
            }
            let nl = splice_bytes(&self.buffer[r], c, next, &[]);
            self.buffer.set(r, nl);
            self.dirty = true;
            proof {
                assert(lines_view(self.buffer@) =~= ls.update(row, nl@));
                assert(nl@ =~= splice(ls[row], col, next as int, Seq::empty()));
                lemma_splice_no_nl(ls[row], col, next as int, Seq::empty());
                lemma_update_ok(ls, row, nl@);
                assert(is_next_boundary(ls[row], col, next as int));
            }
        } else if self.cursor_row + 1 < self.buffer.len() {
            self.save_undo(now_ms);
            let r = self.cursor_row;
            let next_line = self.buffer.remove(r + 1);
            proof {
                assert(next_line@ == ls[row + 1]);
                assert(self.buffer@[r as int]@ == ls[row]);
            }
            let l = self.buffer[r].len();
            let joined = splice_bytes(&self.buffer[r], l, l, next_line.as_slice());
            self.buffer.set(r, joined);
            self.dirty = true;
            proof {
                assert(joined@ =~= ls[row] + ls[row + 1]);
                assert(lines_view(self.buffer@) =~= join_next(ls, row));
                lemma_join_next_ok(ls, row);
            }
        }
    }

    /// Tab inserts four spaces.
    pub fn insert_tab(&mut self, now_ms: u64)
        requires
            old(self).wf(),
            old(self).cursor_ok(),
        ensures
            inserted_tab(old(self), final(self), now_ms),

    {
        let tab = "    ";
        proof {
            reveal_strlit("    ");
            let sp: Seq<u8> = seq![32u8, 32u8, 32u8, 32u8];
            lemma_ascii_bytes(tab);
            assert(tab.spec_bytes() =~= sp);
            lemma_split_nl_no_nl(sp);
            assert(unicode_ws(' '));
        }
        self.insert_text(tab, now_ms);
    }
}

/// Byte classes of the word motions.
pub const WS_CLASS: u8 = 0u8;
pub const WORD_CLASS: u8 = 1u8;
pub const PUNCT_CLASS: u8 = 2u8;

/// Punctuation-like bytes: neither word bytes nor whitespace.
pub open spec fn punct_byte(b: u8) -> bool {
    !word_byte(b) && !ascii_ws(b)
}

/// Membership of byte `b` in class `cls`.
pub open spec fn in_class(b: u8, cls: u8) -> bool {
    if cls == WS_CLASS {
        ascii_ws(b)
    } else if cls == WORD_CLASS {
        word_byte(b)
    } else {
        punct_byte(b)
    }
}

/// The class a word motion treats as one word with `b`.
pub open spec fn class_of(b: u8) -> u8 {
    if word_byte(b) { WORD_CLASS } else { PUNCT_CLASS }
}

/// `j` ends the run of bytes of class `cls` that starts at `i`.
pub open spec fn run_end(line: Seq<u8>, i: int, j: int, cls: u8) -> bool {
    &&& i <= j <= line.len()
    &&& forall|k: int| i <= k < j ==> in_class(#[trigger] line[k], cls)
    &&& (j == line.len() || !in_class(line[j], cls))
}

/// `j` starts the run of bytes of class `cls` that ends just before `i`.
pub open spec fn run_start(line: Seq<u8>, i: int, j: int, cls: u8) -> bool {
    &&& 0 <= j <= i
    &&& forall|k: int| j <= k < i ==> in_class(#[trigger] line[k], cls)
    &&& (j == 0 || !in_class(line[j - 1], cls))
}

impl FileViewer {
    /// `w`: past the current word (or punctuation run) and the whitespace after
    /// it; at the line end, to the start of the next line.
    pub fn move_word_forward(&mut self)
        requires
            old(self).wf(),
        ensures
            moved_word_forward(old(self), final(self)),

    {
        let len = self.buffer[self.cursor_row].len();
        if self.cursor_col >= len {
            if self.cursor_row + 1 < self.buffer.len() {
                self.cursor_row += 1;
                self.cursor_col = 0;
            }
            return;
        }
        let line = &self.buffer[self.cursor_row];
        let ghost l = line@;
        proof {
            assert(l == old(self).buf()[old(self).row()]);
        }
        let start = self.cursor_col;
        let mut col = self.cursor_col;
        if is_word_byte(line[col]) {
            while col < len && is_word_byte(line[col])
                invariant
                    start <= col <= len,
                    len == l.len(),
                    l == line@,
                    forall|k: int| start <= k < col ==> word_byte(#[trigger] l[k]),
                decreases len - col,
            {
                col += 1;
            }
        } else {
            while col < len && !is_word_byte(line[col]) && !is_ascii_ws(line[col])
                invariant
                    start <= col <= len,
                    len == l.len(),
                    l == line@,
                    forall|k: int| start <= k < col ==> punct_byte(#[trigger] l[k]),
                decreases len - col,
            {
                col += 1;
            }
        }
        let ghost m = col as int;
        assert(run_end(l, start as int, m, class_of(l[start as int])));
        while col < len && is_ascii_ws(line[col])
            invariant
                m <= col <= len,
                len == l.len(),
                l == line@,
                forall|k: int| m <= k < col ==> ascii_ws(#[trigger] l[k]),
            decreases len - col,
        {
            col += 1;
        }
        assert(run_end(l, m, col as int, WS_CLASS));
        self.cursor_col = col;
    }

    /// `b`: back over whitespace, then to the start of the word (or
    /// punctuation run) before it; at column 0, to the end of the previous line.
    pub fn move_word_backward(&mut self)
        requires
            old(self).wf(),
            old(self).col_in_line(),
        ensures
            moved_word_backward(old(self), final(self)),

    {
        if self.cursor_col == 0 {
            if self.cursor_row > 0 {
                self.cursor_row -= 1;
                self.cursor_col = self.line_len(self.cursor_row);
            }
            return;
        }
        let line = &self.buffer[self.cursor_row];
        let ghost l = line@;
        proof {
            assert(l == old(self).buf()[old(self).row()]);
        }
        let start = self.cursor_col;
        let mut col = self.cursor_col;
        while col > 0 && is_ascii_ws(line[col - 1])
            invariant
                0 <= col <= start,
                start <= l.len(),
                l == line@,
                forall|k: int| col <= k < start ==> ascii_ws(#[trigger] l[k]),
            decreases col,
        {
            col -= 1;
        }
        let ghost m = col as int;
        assert(run_start(l, start as int, m, WS_CLASS));
        if col > 0 && is_word_byte(line[col - 1]) {
            while col > 0 && is_word_byte(line[col - 1])
                invariant
                    0 <= col <= m,
                    m <= l.len(),
                    l == line@,
                    forall|k: int| col <= k < m ==> word_byte(#[trigger] l[k]),
                decreases col,
            {
                col -= 1;
            }
        } else {
            while col > 0 && !is_word_byte(line[col - 1]) && !is_ascii_ws(line[col - 1])
                invariant
                    0 <= col <= m,
                    m <= l.len(),
                    l == line@,
                    forall|k: int| col <= k < m ==> punct_byte(#[trigger] l[k]),
                decreases col,
            {
                col -= 1;
            }
        }
        self.cursor_col = col;
    }

    /// `e`: to the last byte of the next word (or punctuation run) after
    /// skipping whitespace; near the line end, to the start of the next line.
    pub fn move_word_end(&mut self)
        requires
            old(self).wf(),
        ensures
            moved_word_end(old(self), final(self)),

    {
        let len = self.buffer[self.cursor_row].len();
        if len == 0 || self.cursor_col >= len - 1 {
            if self.cursor_row + 1 < self.buffer.len() {
                self.cursor_row += 1;
                self.cursor_col = 0;
            }
            return;
        }
        let line = &self.buffer[self.cursor_row];
        let ghost l = line@;
        proof {
            assert(l == old(self).buf()[old(self).row()]);
        }
        let start = self.cursor_col + 1;
        let mut col = start;
        while col < len && is_ascii_ws(line[col])
            invariant
                start <= col <= len,
                len == l.len(),
                l == line@,
                forall|k: int| start <= k < col ==> ascii_ws(#[trigger] l[k]),
            decreases len - col,
        {
            col += 1;
        }
        let ghost m = col as int;
        assert(run_end(l, start as int, m, WS_CLASS));
        if col < len && is_word_byte(line[col]) {
            while col + 1 < len && is_word_byte(line[col + 1])
                invariant
                    m <= col < len,
                    len == l.len(),
                    l == line@,
                    word_byte(l[m]),
                    forall|k: int| m <= k <= col ==> word_byte(#[trigger] l[k]),
                decreases len - col,
            {
                col += 1;
            }
            assert(run_end(l, m, col + 1, class_of(l[m])));
        } else {
            if col < len {
                while col + 1 < len && !is_word_byte(line[col + 1]) && !is_ascii_ws(line[col + 1])
                    invariant
                        m <= col < len,
                        len == l.len(),
                        l == line@,
                        punct_byte(l[m]),
                        forall|k: int| m <= k <= col ==> punct_byte(#[trigger] l[k]),
                    decreases len - col,
                {
                    col += 1;
                }
                assert(run_end(l, m, col + 1, class_of(l[m])));
            }
        }
        self.cursor_col = col;
    }
}

impl FileViewer {
    /// `dd`: removes the cursor's line (an only line is emptied instead).
    pub fn delete_line(&mut self, now_ms: u64)
        requires
            old(self).wf(),
        ensures
            deleted_line(old(self), final(self), now_ms),

    {
        let ghost ls = self.buf();
        self.save_undo(now_ms);
        if self.buffer.len() > 1 {
            let ghost before = self.buffer@;
            self.buffer.remove(self.cursor_row);
            if self.cursor_row >= self.buffer.len() {
                self.cursor_row = self.buffer.len() - 1;
            }
            proof {
                assert(lines_view(self.buffer@) =~= ls.remove(old(self).row()));
                let nb = self.buf();
                assert forall|j: int| 0 <= j < nb.len() implies no_nl(#[trigger] nb[j]) by {
                    if j < old(self).row() {
                        assert(nb[j] == ls[j]);
                    } else {
                        assert(nb[j] == ls[j + 1]);
                    }
                }
            }
        } else {
            self.buffer.set(0, Vec::new());
            self.cursor_col = 0;
            proof {
                assert(lines_view(self.buffer@) =~= seq![Seq::<u8>::empty()]);
                assert(no_nl(Seq::<u8>::empty()));
            }
        }
        self.clamp_col();
        self.dirty = true;
    }

    /// `o`: opens an empty line below the cursor and enters insert mode.
    pub fn open_line_below(&mut self, now_ms: u64)
        requires
            old(self).wf(),
        ensures
            opened_line_below(old(self), final(self), now_ms),

    {
        let ghost ls = self.buf();
        self.save_undo(now_ms);
        let ghost before = self.buffer@;
        self.buffer.insert(self.cursor_row + 1, Vec::new());
        self.cursor_row += 1;
        self.cursor_col = 0;
        self.dirty = true;
        self.vim_mode = VimMode::Insert;
        proof {
            assert(lines_view(self.buffer@) =~= ls.insert(old(self).row() + 1, Seq::<u8>::empty()));
            let nb = self.buf();
            assert(no_nl(Seq::<u8>::empty()));
            assert forall|j: int| 0 <= j < nb.len() implies no_nl(#[trigger] nb[j]) by {
                if j <= old(self).row() {
                    assert(nb[j] == ls[j]);
                } else if j > old(self).row() + 1 {
                    assert(nb[j] == ls[j - 1]);
                }
            }
        }
    }

    /// `O`: opens an empty line above the cursor and enters insert mode.
    pub fn open_line_above(&mut self, now_ms: u64)
        requires
            old(self).wf(),
        ensures
            opened_line_above(old(self), final(self), now_ms),

    {
        let ghost ls = self.buf();
        self.save_undo(now_ms);
        self.buffer.insert(self.cursor_row, Vec::new());
        self.cursor_col = 0;
        self.dirty = true;
        self.vim_mode = VimMode::Insert;
        proof {
            assert(lines_view(self.buffer@) =~= ls.insert(old(self).row(), Seq::<u8>::empty()));
            let nb = self.buf();
            assert(no_nl(Seq::<u8>::empty()));
            assert forall|j: int| 0 <= j < nb.len() implies no_nl(#[trigger] nb[j]) by {
                if j < old(self).row() {
                    assert(nb[j] == ls[j]);
                } else if j > old(self).row() {
                    assert(nb[j] == ls[j - 1]);
                }
            }
        }
    }

    /// `x`: deletes the character under the cursor, then clamps the column.
    pub fn delete_char_at_cursor(&mut self, now_ms: u64)
        requires
            old(self).wf(),
            old(self).cursor_ok(),
        ensures
            deleted_char_at_cursor(old(self), final(self), now_ms),

    {
        let ghost ls = self.buf();
        let ghost row = self.row();
        let ghost col = self.col();
        let len = self.line_len(self.cursor_row);
        if self.cursor_col < len {
            self.save_undo(now_ms);
            let r = self.cursor_row;
            let c = self.cursor_col;
            let next = self.next_char_boundary(r, c);
            proof {
                assert(self.buffer@[r as int]@ == ls[row]);
            }
            let nl = splice_bytes(&self.buffer[r], c, next, &[]);
            self.buffer.set(r, nl);
            self.dirty = true;
            proof {
                assert(lines_view(self.buffer@) =~= ls.update(row, nl@));
                assert(nl@ =~= splice(ls[row], col, next as int, Seq::empty()));
                lemma_splice_no_nl(ls[row], col, next as int, Seq::empty());
                lemma_update_ok(ls, row, nl@);
                assert(is_next_boundary(ls[row], col, next as int));
            }
            self.clamp_col();
        }
    }
}

/// `new` is `old` after restoring the top snapshot of `from` (the stack that
/// shrinks) and saving `old`'s buffer and cursor onto `to` (the one that
/// grows): the common shape of undo and redo.
pub open spec fn restored(
    new_buf: Seq<Seq<u8>>,
    new_row: int,
    new_col: int,
    from: Seq<(Seq<Seq<u8>>, usize, usize)>,
) -> bool {
    let top = from.last();
    &&& new_buf == top.0
    &&& new_row == (if top.1 >= top.0.len() { top.0.len() - 1 } else { top.1 as int })
    &&& is_clamped(new_buf[new_row], top.2 as int, new_col)
}

impl FileViewer {
    /// Undo moves the top undo snapshot into the buffer and the current
    /// state onto the redo stack.
    pub open spec fn undone(&self, old: &Self) -> bool {
        if old.undo_view().len() > 0 {
            &&& restored(self.buf(), self.row(), self.col(), old.undo_view())
            &&& self.undo_view() == old.undo_view().drop_last()
            &&& self.redo_view() == old.redo_view().push(old.snapshot())
            &&& self.is_dirty()
            &&& self.last_kind() is None
        } else {
            &&& self.buf() == old.buf()
            &&& self.row() == old.row()
            &&& self.col() == old.col()
            &&& self.undo_view() == old.undo_view()
            &&& self.redo_view() == old.redo_view()
            &&& self.is_dirty() == old.is_dirty()
            &&& self.last_kind() == old.last_kind()
        }
    }

    /// Redo moves the top redo snapshot into the buffer and the current
    /// state onto the undo stack.
    pub open spec fn redone(&self, old: &Self) -> bool {
        if old.redo_view().len() > 0 {
            &&& restored(self.buf(), self.row(), self.col(), old.redo_view())
            &&& self.redo_view() == old.redo_view().drop_last()
            &&& self.undo_view() == old.undo_view().push(old.snapshot())
            &&& self.is_dirty()
            &&& self.last_kind() is None
        } else {
            &&& self.buf() == old.buf()
            &&& self.row() == old.row()
            &&& self.col() == old.col()
            &&& self.undo_view() == old.undo_view()
            &&& self.redo_view() == old.redo_view()
            &&& self.is_dirty() == old.is_dirty()
            &&& self.last_kind() == old.last_kind()
        }
    }

    /// Cmd+Z / `u`: restores the last undo snapshot.
    pub fn undo(&mut self)
        requires
            old(self).wf(),
        ensures
            did_undo(old(self), final(self)),

    {
        if self.undo_stack.len() > 0 {
            let ghost u0 = self.undo_stack@;
            let ghost r0 = self.redo_stack@;
            let entry = self.undo_stack.pop().unwrap();
            proof {
                assert(u0[u0.len() - 1] == entry);
                assert(lines_ok(entry.view_lines()));
                assert(stack_view(self.undo_stack@) =~= stack_view(u0).drop_last());
            }
            let snap = UndoEntry {
                buffer: clone_lines(&self.buffer),
                cursor_row: self.cursor_row,
                cursor_col: self.cursor_col,
            };
            self.redo_stack.push(snap);
            proof {
                assert(stack_view(self.redo_stack@) =~= stack_view(r0).push(old(self).snapshot()));
                assert forall|i: int| 0 <= i < self.redo_stack@.len() implies lines_ok(#[trigger] self.redo_stack@[i].view_lines()) by {
                    if i < r0.len() {
                        assert(self.redo_stack@[i] == r0[i]);
                    }
                }
                assert forall|i: int| 0 <= i < self.undo_stack@.len() implies lines_ok(#[trigger] self.undo_stack@[i].view_lines()) by {
                    assert(self.undo_stack@[i] == u0[i]);
                }
            }
            let UndoEntry { buffer, cursor_row, cursor_col } = entry;
            self.buffer = buffer;
            self.cursor_row = if cursor_row >= self.buffer.len() { self.buffer.len() - 1 } else { cursor_row };
            self.cursor_col = cursor_col;
            self.clamp_col();
            self.dirty = true;
            self.last_edit_kind = None;
        }
    }

    /// Shift+Cmd+Z / Ctrl+R: reapplies the last undone snapshot.
    pub fn redo(&mut self)
        requires
            old(self).wf(),
        ensures
            did_redo(old(self), final(self)),

    {
        if self.redo_stack.len() > 0 {
            let ghost u0 = self.undo_stack@;
            let ghost r0 = self.redo_stack@;
            let entry = self.redo_stack.pop().unwrap();
            proof {
                assert(r0[r0.len() - 1] == entry);
                assert(lines_ok(entry.view_lines()));
                assert(stack_view(self.redo_stack@) =~= stack_view(r0).drop_last());
            }
            let snap = UndoEntry {
                buffer: clone_lines(&self.buffer),
                cursor_row: self.cursor_row,
                cursor_col: self.cursor_col,
            };
            self.undo_stack.push(snap);
            proof {
                assert(stack_view(self.undo_stack@) =~= stack_view(u0).push(old(self).snapshot()));
                assert forall|i: int| 0 <= i < self.undo_stack@.len() implies lines_ok(#[trigger] self.undo_stack@[i].view_lines()) by {
                    if i < u0.len() {
                        assert(self.undo_stack@[i] == u0[i]);
                    }
                }
                assert forall|i: int| 0 <= i < self.redo_stack@.len() implies lines_ok(#[trigger] self.redo_stack@[i].view_lines()) by {
                    assert(self.redo_stack@[i] == r0[i]);
                }
            }
            let UndoEntry { buffer, cursor_row, cursor_col } = entry;
            self.buffer = buffer;
            self.cursor_row = if cursor_row >= self.buffer.len() { self.buffer.len() - 1 } else { cursor_row };
            self.cursor_col = cursor_col;
            self.clamp_col();
            self.dirty = true;
            self.last_edit_kind = None;
        }
    }
}

/// Clamping a column already on a boundary within the line keeps it.
pub proof fn lemma_clamped_identity(line: Seq<u8>, c: int, r: int)
    requires
        is_clamped(line, c, r),
        0 <= c <= line.len(),
        boundary(line, c),
    ensures
        r == c,
{
}

/// The snapshot pushed last is on top of the stack, capped or not.
pub proof fn lemma_push_capped_top(
    stack: Seq<(Seq<Seq<u8>>, usize, usize)>,
    snap: (Seq<Seq<u8>>, usize, usize),
)
    ensures
        push_capped(stack, snap).len() > 0,
        push_capped(stack, snap).last() == snap,
        push_capped(stack, snap).len() <= UNDO_LIMIT || stack.len() >= UNDO_LIMIT,
{
}

/// Undo right after an edit that opened a new undo group gives back the
/// buffer and cursor from before the edit.
pub proof fn law_undo_reverts_edit(
    before: &FileViewer,
    edited: &FileViewer,
    undone: &FileViewer,
    kind: EditKind,
    now_ms: u64,
)
    requires
        before.wf(),
        before.cursor_ok(),
        recorded(edited, before, kind, now_ms),
        breaks_group(before.last_kind(), kind, elapsed(now_ms, before.last_ms())),
        undone.undone(edited),
    ensures
        undone.buf() == before.buf(),
        undone.row() == before.row(),
        undone.col() == before.col(),
        undone.undo_view() == push_capped(before.undo_view(), before.snapshot()).drop_last(),
{
    lemma_push_capped_top(before.undo_view(), before.snapshot());
    before.lemma_cursor_ok();
    let top = edited.undo_view().last();
    assert(top == before.snapshot());
    lemma_clamped_identity(before.buf()[before.row()], before.col(), undone.col());
}

/// Redo right after undo gives back the buffer, cursor and redo history.
pub proof fn law_redo_after_undo(start: &FileViewer, undone: &FileViewer, redone: &FileViewer)
    requires
        start.wf(),
        start.cursor_ok(),
        start.undo_view().len() > 0,
        undone.undone(start),
        redone.redone(undone),
    ensures
        redone.buf() == start.buf(),
        redone.row() == start.row(),
        redone.col() == start.col(),
        redone.redo_view() == start.redo_view(),
{
    start.lemma_cursor_ok();
    assert(undone.redo_view().last() == start.snapshot());
    lemma_clamped_identity(start.buf()[start.row()], start.col(), redone.col());
    assert(redone.redo_view() =~= start.redo_view());
}

/// Undo right after redo gives back the buffer, cursor and undo history.
pub proof fn law_undo_after_redo(start: &FileViewer, redone: &FileViewer, undone: &FileViewer)
    requires
        start.wf(),
        start.cursor_ok(),
        start.redo_view().len() > 0,
        redone.redone(start),
        undone.undone(redone),
    ensures
        undone.buf() == start.buf(),
        undone.row() == start.row(),
        undone.col() == start.col(),
        undone.undo_view() == start.undo_view(),
{
    start.lemma_cursor_ok();
    assert(redone.undo_view().last() == start.snapshot());
    lemma_clamped_identity(start.buf()[start.row()], start.col(), undone.col());
    assert(undone.undo_view() =~= start.undo_view());
}

/// `String::truncate`: keeps the first `n` bytes (no effect past the end).
pub open spec fn trunc(l: Seq<u8>, n: int) -> Seq<u8> {
    if n >= l.len() { l } else { l.subrange(0, n) }
}

/// `min(c + 1, len)`: one past an inclusive column, within the line.
pub open spec fn incl_end(c: int, len: int) -> int {
    if c < len { c + 1 } else { len }
}

/// The buffer after deleting from (sr, sc) up to, not including, `end` on row
/// `er` (`end` already limited to that line), keeping the head of row `sr`
/// and the tail of row `er`.
pub open spec fn delete_span(ls: Seq<Seq<u8>>, sr: int, sc: int, er: int, end: int) -> Seq<Seq<u8>> {
    if sr == er {
        let start = if sc < end { sc } else { end };
        ls.update(sr, splice(ls[sr], start, end, Seq::empty()))
    } else {
        ls.subrange(0, sr) + seq![trunc(ls[sr], sc) + ls[er].subrange(end, ls[er].len() as int)]
            + ls.subrange(er + 1, ls.len() as int)
    }
}

/// `delete_span` will not split a character: the cut points are boundaries.
pub open spec fn span_cuttable(ls: Seq<Seq<u8>>, sr: int, sc: int, er: int, end: int) -> bool {
    &&& 0 <= sr <= er < ls.len()
    &&& 0 <= end <= ls[er].len()
    &&& boundary(ls[er], end)
    &&& if sr == er {
        sc < end ==> boundary(ls[sr], sc)
    } else {
        sc < ls[sr].len() ==> boundary(ls[sr], sc)
    }
}

proof fn lemma_delete_span_ok(ls: Seq<Seq<u8>>, sr: int, sc: int, er: int, end: int)
    requires
        lines_ok(ls),
        span_cuttable(ls, sr, sc, er, end),
        0 <= sc,
    ensures
        lines_ok(delete_span(ls, sr, sc, er, end)),
        delete_span(ls, sr, sc, er, end).len() == ls.len() - (er - sr),
{
    let nb = delete_span(ls, sr, sc, er, end);
    if sr == er {
        let start = if sc < end { sc } else { end };
        lemma_splice_no_nl(ls[sr], start, end, Seq::empty());
        lemma_update_ok(ls, sr, splice(ls[sr], start, end, Seq::empty()));
    } else {
        assert(no_nl(ls[sr]) && no_nl(ls[er]));
        if sc < ls[sr].len() {
            lemma_sub_no_nl(ls[sr], 0, sc);
        }
        lemma_sub_no_nl(ls[er], end, ls[er].len() as int);
        lemma_concat_no_nl(trunc(ls[sr], sc), ls[er].subrange(end, ls[er].len() as int));
        assert forall|j: int| 0 <= j < nb.len() implies no_nl(#[trigger] nb[j]) by {
            if j < sr {
                assert(nb[j] == ls[j]);
            } else if j > sr {
                assert(nb[j] == ls[j + er - sr]);
            }
        }
    }
}

impl FileViewer {
    /// Deletes the span (sr, sc)..(er, end) and puts the cursor at (sr, sc),
    /// clamped.
    fn delete_span_at(&mut self, sr: usize, sc: usize, er: usize, end: usize)
        requires
            old(self).wf(),
            span_cuttable(old(self).buf(), sr as int, sc as int, er as int, end as int),
        ensures
            final(self).wf(),
            final(self).buf() == delete_span(old(self).buf(), sr as int, sc as int, er as int, end as int),
            final(self).row() == sr,
            is_clamped(final(self).buf()[sr as int], sc as int, final(self).col()),
            final(self).cursor_ok(),
            final(self).undo_view() == old(self).undo_view(),
            final(self).redo_view() == old(self).redo_view(),
            final(self).last_kind() == old(self).last_kind(),
            final(self).last_ms() == old(self).last_ms(),
            final(self).is_dirty() == old(self).is_dirty(),
            final(self).keeps_view_state(old(self)),
    {
        let ghost ls = self.buf();
        proof {
            assert(self.buffer@[sr as int]@ == ls[sr as int]);
            assert(self.buffer@[er as int]@ == ls[er as int]);
        }
        if sr == er {
            let start = if sc < end { sc } else { end };
            let nl = splice_bytes(&self.buffer[sr], start, end, &[]);
            self.buffer.set(sr, nl);
            proof {
                assert(lines_view(self.buffer@) =~= delete_span(ls, sr as int, sc as int, er as int, end as int));
            }
        } else {
            let er_len = self.buffer[er].len();
            let tail = splice_bytes(&self.buffer[er], 0, end, &[]);
            let sr_len = self.buffer[sr].len();
            let keep = if sc < sr_len { sc } else { sr_len };
            let nl = splice_bytes(&self.buffer[sr], keep, sr_len, tail.as_slice());
            self.buffer.set(sr, nl);
            let ghost after_set = self.buffer@;
            let mut i = sr + 1;
            while i <= er
                invariant
                    sr < i <= er + 1,
                    er < ls.len(),
                    ls.len() == old(self).buffer.len(),
                    self.buffer@.len() == ls.len() - (i - sr - 1),
                    lines_view(self.buffer@) == lines_view(after_set).subrange(0, sr + 1) + lines_view(after_set).subrange(i as int, ls.len() as int),
                    lines_view(after_set).len() == ls.len(),
                    self.undo_stack@ == old(self).undo_stack@,
                    self.redo_stack@ == old(self).redo_stack@,
                    self.keeps_view_state(old(self)),
                    self.last_edit_kind == old(self).last_edit_kind,
                    self.last_edit_ms == old(self).last_edit_ms,
                    self.dirty == old(self).dirty,
                    self.cursor_row == old(self).cursor_row,
                    self.cursor_col == old(self).cursor_col,
                decreases er + 1 - i,
            {
                let ghost b = self.buffer@;
                self.buffer.remove(sr + 1);
                assert(lines_view(self.buffer@) =~= lines_view(b).remove(sr + 1));
                assert(lines_view(self.buffer@) =~= lines_view(after_set).subrange(0, sr + 1) + lines_view(after_set).subrange(i + 1, ls.len() as int));
                i += 1;
            }
            proof {
                assert(tail@ =~= ls[er as int].subrange(end as int, ls[er as int].len() as int));
                assert(nl@ =~= trunc(ls[sr as int], sc as int) + tail@);
                assert(lines_view(self.buffer@) =~= delete_span(ls, sr as int, sc as int, er as int, end as int));
            }
        }
        proof {
            lemma_delete_span_ok(ls, sr as int, sc as int, er as int, end as int);
        }
        self.cursor_row = sr;
        self.cursor_col = sc;
        self.clamp_col();
    }

    /// Rows covered by a visual-line selection: anchor to cursor, in order.
    pub fn visual_line_range(&self) -> (r: (usize, usize))
        ensures
            r.0 as int == (if self.anchor().0 < self.row() { self.anchor().0 } else { self.row() }),
            r.1 as int == (if self.anchor().0 < self.row() { self.row() } else { self.anchor().0 }),
    {
        let a = self.visual_anchor_row;
        let b = self.cursor_row;
        (if a < b { a } else { b }, if a < b { b } else { a })
    }

    /// The visual selection from anchor to cursor, in document order.
    pub fn visual_range(&self) -> (r: (usize, usize, usize, usize))
        ensures
            pos_le(self.anchor().0, self.anchor().1, self.row(), self.col()) ==> r == (
                self.anchor().0 as usize,
                self.anchor().1 as usize,
                self.row() as usize,
                self.col() as usize,
            ),
            !pos_le(self.anchor().0, self.anchor().1, self.row(), self.col()) ==> r == (
                self.row() as usize,
                self.col() as usize,
                self.anchor().0 as usize,
                self.anchor().1 as usize,
            ),
    {
        let (sr, sc) = (self.visual_anchor_row, self.visual_anchor_col);
        let (er, ec) = (self.cursor_row, self.cursor_col);
        if sr < er || (sr == er && sc <= ec) {
            (sr, sc, er, ec)
        } else {
            (er, ec, sr, sc)
        }
    }

    /// `d` in visual-line mode: deletes the selected rows (all rows leave one
    /// empty line).
    pub fn delete_visual_line_selection(&mut self, now_ms: u64)
        requires
            old(self).wf(),
            old(self).anchor().0 < old(self).buf().len(),
        ensures
            deleted_visual_lines(old(self), final(self), now_ms),

    {
        let ghost ls = self.buf();
        self.save_undo(now_ms);
        let (start_row, end_row) = self.visual_line_range();
        let count = end_row - start_row + 1;
        if count >= self.buffer.len() {
            self.buffer.clear();
            self.buffer.push(Vec::new());
            self.cursor_row = 0;
            self.cursor_col = 0;
            proof {
                assert(lines_view(self.buffer@) =~= seq![Seq::<u8>::empty()]);
                assert(no_nl(Seq::<u8>::empty()));
            }
        } else {
            let ghost start_buf = self.buffer@;
            let ghost snap = *self;
            let mut i: usize = 0;
            while i < count
                invariant
                    0 <= i <= count,
                    count == end_row - start_row + 1,
                    end_row < ls.len(),
                    start_buf.len() == ls.len(),
                    lines_view(start_buf) == ls,
                    count < ls.len(),
                    self.buffer@ == start_buf.subrange(0, start_row as int) + start_buf.subrange(start_row + i, ls.len() as int),
                    self.undo_stack@ == snap.undo_stack@,
                    self.redo_stack@ == snap.redo_stack@,
                    self.keeps_view_state(&snap),
                    self.last_edit_kind == snap.last_edit_kind,
                    self.last_edit_ms == snap.last_edit_ms,
                    self.dirty == snap.dirty,
                    self.cursor_row == snap.cursor_row,
                    self.cursor_col == snap.cursor_col,
                    entries_ok(self.undo_stack@),
                    entries_ok(self.redo_stack@),
                decreases count - i,
            {
                self.buffer.remove(start_row);
                assert(self.buffer@ =~= start_buf.subrange(0, start_row as int) + start_buf.subrange(start_row + i + 1, ls.len() as int));
                i += 1;
            }
            proof {
                let nb = ls.subrange(0, start_row as int) + ls.subrange(end_row + 1, ls.len() as int);
                assert(lines_view(self.buffer@) =~= nb);
                assert forall|j: int| 0 <= j < nb.len() implies no_nl(#[trigger] nb[j]) by {
                    if j < start_row {
                        assert(nb[j] == ls[j]);
                    } else {
                        assert(nb[j] == ls[j + count]);
                    }
                }
            }
            self.cursor_row = if start_row < self.buffer.len() { start_row } else { self.buffer.len() - 1 };
            self.clamp_col();
        }
        self.dirty = true;
    }
}

/// `"\\n" + ls[a] + "\\n" + ls[a+1] + ... + "\\n" + ls[b-1]`.
pub open spec fn nl_rows(ls: Seq<Seq<u8>>, a: int, b: int) -> Seq<u8>
    decreases b - a,
{
    if b <= a {
        Seq::empty()
    } else {
        nl_rows(ls, a, b - 1) + seq![NL] + ls[b - 1]
    }
}

/// The text of a selection from (sr, sc) to (er, ec), rows joined by line feeds.
pub open spec fn selected_bytes(ls: Seq<Seq<u8>>, sr: int, sc: int, er: int, ec: int) -> Seq<u8> {
    if sr == er {
        let end = if ec < ls[sr].len() { ec } else { ls[sr].len() as int };
        let start = if sc < end { sc } else { end };
        ls[sr].subrange(start, end)
    } else {
        let end = if ec < ls[er].len() { ec } else { ls[er].len() as int };
        ls[sr].subrange(sc, ls[sr].len() as int) + nl_rows(ls, sr + 1, er) + seq![NL] + ls[er].subrange(0, end)
    }
}

/// The selected text can be cut out of the lines without splitting a character.
pub open spec fn selection_sliceable(ls: Seq<Seq<u8>>, sr: int, sc: int, er: int, ec: int) -> bool {
    &&& 0 <= sr <= er < ls.len()
    &&& if sr == er {
        let end = if ec < ls[sr].len() { ec } else { ls[sr].len() as int };
        let start = if sc < end { sc } else { end };
        boundary(ls[sr], start) && boundary(ls[sr], end)
    } else {
        let end = if ec < ls[er].len() { ec } else { ls[er].len() as int };
        sc <= ls[sr].len() && boundary(ls[sr], sc) && boundary(ls[er], end)
    }
}

impl FileViewer {
    /// The visual selection's ends in document order.
    pub open spec fn vis_range(&self) -> (int, int, int, int) {
        if pos_le(self.anchor().0, self.anchor().1, self.row(), self.col()) {
            (self.anchor().0, self.anchor().1, self.row(), self.col())
        } else {
            (self.row(), self.col(), self.anchor().0, self.anchor().1)
        }
    }

    /// The cut points of `d` in visual mode: the cursor character is included.
    pub open spec fn vis_end(&self) -> int {
        let (sr, sc, er, ec) = self.vis_range();
        incl_end(ec, self.buf()[er].len() as int)
    }

    /// `d` in visual mode: deletes from the start of the visual range through
    /// the character at its end.
    pub fn delete_visual_selection(&mut self, now_ms: u64)
        requires
            old(self).wf(),
            span_cuttable(
                old(self).buf(),
                old(self).vis_range().0,
                old(self).vis_range().1,
                old(self).vis_range().2,
                old(self).vis_end(),
            ),
        ensures
            deleted_visual_selection(old(self), final(self), now_ms),

    {
        self.save_undo(now_ms);
        let (start_row, start_col, end_row, end_col) = self.visual_range();
        let len = self.buffer[end_row].len();
        let end = if end_col < len { end_col + 1 } else { len };
        self.delete_span_at(start_row, start_col, end_row, end);
        self.dirty = true;
    }

    /// The selection ends in document order (none when nothing is selected).
    pub open spec fn sel_range(&self) -> (int, int, int, int) {
        let o = self.sel()->0.ordered_spec();
        (o.0 as int, o.1 as int, o.2 as int, o.3 as int)
    }

    /// Deletes the mouse selection, if any, leaving the cursor at its start.
    pub fn delete_selection(&mut self, now_ms: u64)
        requires
            old(self).wf(),
            old(self).sel() is Some ==> ({
                let (sr, sc, er, ec) = old(self).sel_range();
                &&& 0 <= er < old(self).buf().len()
                &&& span_cuttable(
                    old(self).buf(),
                    sr,
                    sc,
                    er,
                    if ec < old(self).buf()[er].len() { ec } else { old(self).buf()[er].len() as int },
                )
            }),
        ensures
            deleted_selection(old(self), final(self), now_ms),

    {
        if let Some(sel) = self.selection {
            self.selection = None;
            let (sr, sc, er, ec) = sel.ordered();
            self.save_undo(now_ms);
            let len = self.buffer[er].len();
            let end = if ec < len { ec } else { len };
            self.delete_span_at(sr, sc, er, end);
            self.dirty = true;
        }
    }

    /// Cmd+A: selects the whole buffer and puts the cursor at its end.
    pub fn select_all(&mut self)
        requires
            old(self).wf(),
        ensures
            selected_all(old(self), final(self)),

    {
        let last_row = self.buffer.len() - 1;
        let last_col = self.line_len(last_row);
        self.selection = Some(Selection { start_row: 0, start_col: 0, end_row: last_row, end_col: last_col });
        self.cursor_row = last_row;
        self.cursor_col = last_col;
    }

    /// The text of the mouse selection, rows joined by line feeds.
    pub fn selected_text(&self) -> (r: Option<Vec<u8>>)
        requires
            self.wf(),
            self.sel() is Some ==> selection_sliceable(
                self.buf(),
                self.sel_range().0,
                self.sel_range().1,
                self.sel_range().2,
                self.sel_range().3,
            ),
        ensures
            self.sel() is None ==> r is None,
            self.sel() is Some ==> r is Some && r->0@ == selected_bytes(
                self.buf(),
                self.sel_range().0,
                self.sel_range().1,
                self.sel_range().2,
                self.sel_range().3,
            ),
    {
        let sel = match self.selection {
            Some(s) => s,
            None => return None,
        };
        let (sr, sc, er, ec) = sel.ordered();
        let ghost ls = self.buf();
        proof {
            assert(self.buffer@[sr as int]@ == ls[sr as int]);
            assert(self.buffer@[er as int]@ == ls[er as int]);
        }
        if sr == er {
            let len = self.buffer[sr].len();
            let end = if ec < len { ec } else { len };
            let start = if sc < end { sc } else { end };
            let t = splice_bytes(&self.buffer[sr], 0, 0, &[]);
            let t = splice_bytes(&t, end, len, &[]);
            let t = splice_bytes(&t, 0, start, &[]);
            proof {
                assert(t@ =~= ls[sr as int].subrange(start as int, end as int));
            }
            Some(t)
        } else {
            let first_len = self.buffer[sr].len();
            let mut text = splice_bytes(&self.buffer[sr], 0, sc, &[]);
            proof {
                assert(text@ =~= ls[sr as int].subrange(sc as int, ls[sr as int].len() as int) + nl_rows(ls, sr + 1, sr + 1));
            }
            let mut row = sr + 1;
            while row < er
                invariant
                    sr < row <= er,
                    er < ls.len(),
                    lines_view(self.buffer@) == ls,
                    text@ == ls[sr as int].subrange(sc as int, ls[sr as int].len() as int) + nl_rows(ls, sr + 1, row as int),
                decreases er - row,
            {
                let nl_arr: [u8; 1] = [NL];
                let t2 = splice_bytes(&text, text.len(), text.len(), nl_arr.as_slice());
                assert(self.buffer@[row as int]@ == ls[row as int]);
                let t3 = splice_bytes(&t2, t2.len(), t2.len(), self.buffer[row].as_slice());
                proof {
                    assert(t3@ =~= ls[sr as int].subrange(sc as int, ls[sr as int].len() as int) + nl_rows(ls, sr + 1, row + 1));
                }
                text = t3;
                row += 1;
            }
            let len = self.buffer[er].len();
            let end = if ec < len { ec } else { len };
            let head = splice_bytes(&self.buffer[er], end, len, &[]);
            let nl_arr: [u8; 1] = [NL];
            let t2 = splice_bytes(&text, text.len(), text.len(), nl_arr.as_slice());
            let t3 = splice_bytes(&t2, t2.len(), t2.len(), head.as_slice());
            proof {
                assert(t3@ =~= selected_bytes(ls, sr as int, sc as int, er as int, ec as int));
            }
            Some(t3)
        }
    }

    /// Jumps to a 1-based line (clamped to the buffer), at the start of an
    /// optional column range that is then flashed.
    pub fn navigate_to_line(&mut self, line: usize, col_range: Option<(usize, usize)>)
        requires
            old(self).wf(),
        ensures
            final(self).wf(),
            final(self).row() == (if line == 0 { 0 } else if line - 1 > old(self).buf().len() - 1 {
                old(self).buf().len() - 1
            } else {
                line - 1
            }),
            final(self).col() == (match col_range {
                Some((s, _)) => s as int,
                None => 0,
            }),
            match col_range {
                Some((a, b)) => final(self).nav() == Some((final(self).row() as usize, a, b)),
                None => final(self).nav() == old(self).nav(),
            },
            final(self).buf() == old(self).buf(),
            final(self).sel() == old(self).sel(),
            final(self).undo_view() == old(self).undo_view(),
            final(self).redo_view() == old(self).redo_view(),
    {
        let l = line.saturating_sub(1);
        let last = self.buffer.len() - 1;
        let row = if l > last { last } else { l };
        self.cursor_row = row;
        self.cursor_col = match col_range {
            Some((s, _)) => s,
            None => 0,
        };
        if let Some((col_start, col_end)) = col_range {
            self.nav_highlight = Some((row, col_start, col_end));
        }
    }
}

/// The word-byte position a double click or lookup at `col` starts from:
/// `col` itself on a word byte, else the byte before it.
pub open spec fn word_anchor(line: Seq<u8>, col: int) -> Option<int> {
    if col > line.len() || line.len() == 0 {
        None
    } else if col < line.len() && word_byte(line[col]) {
        Some(col)
    } else if col > 0 && word_byte(line[col - 1]) {
        Some(col - 1)
    } else {
        None
    }
}

/// A whole-word occurrence of `w` in `line` at `s`: not preceded or
/// followed by a word byte.
pub open spec fn whole_word_at(line: Seq<u8>, w: Seq<u8>, s: int) -> bool {
    &&& occurs_at(line, w, s)
    &&& (s == 0 || !word_byte(line[s - 1]))
    &&& (s + w.len() >= line.len() || !word_byte(line[s + w.len()]))
}

/// `(r1, c1)` comes strictly before `(r2, c2)`.
pub open spec fn pos_lt(a: (usize, usize, usize), b: (usize, usize, usize)) -> bool {
    a.0 < b.0 || (a.0 == b.0 && a.1 < b.1)
}

/// `occ` lists every whole-word occurrence of `w` in `ls`, in document order.
pub open spec fn all_occurrences(ls: Seq<Seq<u8>>, w: Seq<u8>, occ: Seq<(usize, usize, usize)>) -> bool {
    &&& forall|k: int| 0 <= k < occ.len() ==> {
        let (r, a, b) = #[trigger] occ[k];
        &&& r < ls.len()
        &&& whole_word_at(ls[r as int], w, a as int)
        &&& b == a + w.len()
    }
    &&& forall|k: int, j: int| 0 <= k < j < occ.len() ==> pos_lt(#[trigger] occ[k], #[trigger] occ[j])
    &&& forall|r: int, a: int| 0 <= r < ls.len() && #[trigger] whole_word_at(ls[r], w, a) ==> exists|k: int|
        0 <= k < occ.len() && #[trigger] occ[k] == (r as usize, a as usize, (a + w.len()) as usize)
}

impl FileViewer {
    /// The (start, end) bytes of the word at (row, col), trying the byte
    /// before `col` when `col` is not on a word byte.
    pub fn word_at(&self, row: usize, col: usize) -> (r: Option<(usize, usize)>)
        requires
            self.wf(),
        ensures
            row >= self.buf().len() ==> r is None,
            row < self.buf().len() ==> match word_anchor(self.buf()[row as int], col as int) {
                None => r is None,
                Some(p) => match r {
                    Some((a, b)) => run_start(self.buf()[row as int], p + 1, a as int, WORD_CLASS)
                        && run_end(self.buf()[row as int], p, b as int, WORD_CLASS),
                    None => false,
                },
            },
    {
        if row >= self.buffer.len() {
            return None;
        }
        let line = &self.buffer[row];
        let ghost l = line@;
        proof {
            assert(l == self.buf()[row as int]);
        }
        let len = line.len();
        if col > len || len == 0 {
            return None;
        }
        let pos = if col >= len || !is_word_byte(line[col]) {
            if col > 0 && is_word_byte(line[col - 1]) {
                col - 1
            } else {
                return None;
            }
        } else {
            col
        };
        let mut start = pos;
        while start > 0 && is_word_byte(line[start - 1])
            invariant
                0 <= start <= pos,
                pos < len,
                len == l.len(),
                l == line@,
                word_byte(l[pos as int]),
                forall|k: int| start <= k <= pos ==> word_byte(#[trigger] l[k]),
            decreases start,
        {
            start -= 1;
        }
        let mut end = pos;
        while end < len && is_word_byte(line[end])
            invariant
                pos <= end <= len,
                len == l.len(),
                l == line@,
                forall|k: int| pos <= k < end ==> word_byte(#[trigger] l[k]),
            decreases len - end,
        {
            end += 1;
        }
        assert(run_start(l, pos + 1, start as int, WORD_CLASS));
        assert(run_end(l, pos as int, end as int, WORD_CLASS));
        Some((start, end))
    }

    /// Every whole-word occurrence of `word` in the buffer, as (row, start, end).
    pub fn find_all_occurrences(&self, word: &[u8]) -> (occ: Vec<(usize, usize, usize)>)
        requires
            self.wf(),
            word@.len() > 0,
        ensures
            all_occurrences(self.buf(), word@, occ@),
    {
        occurrences_in(&self.buffer, word)
    }
}

/// Every whole-word occurrence of `word` in `lines`, as (row, start, end),
/// in document order.
pub fn occurrences_in(lines: &Vec<Vec<u8>>, word: &[u8]) -> (occ: Vec<(usize, usize, usize)>)
    requires
        word@.len() > 0,
    ensures
        all_occurrences(lines_view(lines@), word@, occ@),
{
    let ghost ls = lines_view(lines@);
    let ghost w = word@;
    let mut results: Vec<(usize, usize, usize)> = Vec::new();
    let mut row: usize = 0;
    while row < lines.len()
        invariant
            0 <= row <= lines.len(),
            lines_view(lines@) == ls,
            w == word@,
            w.len() > 0,
            forall|k: int| 0 <= k < results@.len() ==> {
                let (r, a, b) = #[trigger] results@[k];
                &&& r < row
                &&& whole_word_at(ls[r as int], w, a as int)
                &&& b == a + w.len()
            },
            forall|k: int, j: int| 0 <= k < j < results@.len() ==> pos_lt(#[trigger] results@[k], #[trigger] results@[j]),
            forall|r: int, a: int| 0 <= r < row && #[trigger] whole_word_at(ls[r], w, a) ==> exists|k: int|
                0 <= k < results@.len() && #[trigger] results@[k] == (r as usize, a as usize, (a + w.len()) as usize),
        decreases lines.len() - row,
    {
        let line = &lines[row];
        let ghost l = line@;
        assert(l == ls[row as int]);
        let ghost base = results@.len();
        let mut search_from: usize = 0;
        loop
            invariant
                0 <= row < ls.len(),
                l == line@,
                l == ls[row as int],
                w == word@,
                w.len() > 0,
                base <= results@.len(),
                search_from <= l.len() + 1,
                forall|k: int| 0 <= k < results@.len() ==> {
                    let (r, a, b) = #[trigger] results@[k];
                    &&& r <= row
                    &&& whole_word_at(ls[r as int], w, a as int)
                    &&& b == a + w.len()
                    &&& (k >= base ==> r == row && a < search_from)
                    &&& (k < base ==> r < row)
                },
                forall|k: int, j: int| 0 <= k < j < results@.len() ==> pos_lt(#[trigger] results@[k], #[trigger] results@[j]),
                forall|r: int, a: int| 0 <= r < row && #[trigger] whole_word_at(ls[r], w, a) ==> exists|k: int|
                    0 <= k < results@.len() && #[trigger] results@[k] == (r as usize, a as usize, (a + w.len()) as usize),
                forall|a: int| 0 <= a < search_from && #[trigger] whole_word_at(ls[row as int], w, a) ==> exists|k: int|
                    0 <= k < results@.len() && #[trigger] results@[k] == (row, a as usize, (a + w.len()) as usize),
            ensures
                forall|k: int| 0 <= k < results@.len() ==> {
                    let (r, a, b) = #[trigger] results@[k];
                    &&& r <= row
                    &&& whole_word_at(ls[r as int], w, a as int)
                    &&& b == a + w.len()
                },
                forall|k: int, j: int| 0 <= k < j < results@.len() ==> pos_lt(#[trigger] results@[k], #[trigger] results@[j]),
                forall|r: int, a: int| 0 <= r < row && #[trigger] whole_word_at(ls[r], w, a) ==> exists|k: int|
                    0 <= k < results@.len() && #[trigger] results@[k] == (r as usize, a as usize, (a + w.len()) as usize),
                forall|a: int| 0 <= a && #[trigger] whole_word_at(ls[row as int], w, a) ==> exists|k: int|
                    0 <= k < results@.len() && #[trigger] results@[k] == (row, a as usize, (a + w.len()) as usize),
            decreases l.len() + 1 - search_from,
        {
            let found = if search_from <= line.len() {
                find_from(line.as_slice(), word, search_from)
            } else {
                None
            };
            match found {
                None => {
                    assert forall|a: int| 0 <= a && #[trigger] whole_word_at(ls[row as int], w, a) implies exists|k: int|
                        0 <= k < results@.len() && #[trigger] results@[k] == (row, a as usize, (a + w.len()) as usize) by {
                        if a >= search_from {
                            assert(!occurs_at(l, w, a));
                        }
                    }
                    break;
                },
                Some(start) => {
                    let end = start + word.len();
                    let before_ok = start == 0 || !is_word_byte(line[start - 1]);
                    let after_ok = end >= line.len() || !is_word_byte(line[end]);
                    let ghost pre = results@;
                    if before_ok && after_ok {
                        results.push((row, start, end));
                        assert(results@[results@.len() - 1] == (row, start, end));
                    }
                    assert forall|a: int| 0 <= a < start + 1 && #[trigger] whole_word_at(ls[row as int], w, a) implies exists|k: int|
                        0 <= k < results@.len() && #[trigger] results@[k] == (row, a as usize, (a + w.len()) as usize) by {
                        if a < search_from {
                            let k0 = choose|k: int| 0 <= k < pre.len() && #[trigger] pre[k] == (row, a as usize, (a + w.len()) as usize);
                            assert(results@[k0] == pre[k0]);
                        } else if a < start {
                            assert(!occurs_at(l, w, a));
                        } else {
                            assert(results@[results@.len() - 1] == (row, a as usize, (a + w.len()) as usize));
                        }
                    }
                    assert forall|r: int, a: int| 0 <= r < row && #[trigger] whole_word_at(ls[r], w, a) implies exists|k: int|
                        0 <= k < results@.len() && #[trigger] results@[k] == (r as usize, a as usize, (a + w.len()) as usize) by {
                        let k0 = choose|k: int| 0 <= k < pre.len() && #[trigger] pre[k] == (r as usize, a as usize, (a + w.len()) as usize);
                        assert(results@[k0] == pre[k0]);
                    }
                    search_from = start + 1;
                },
            }
        }
        proof {
            assert forall|r: int, a: int| 0 <= r < row + 1 && #[trigger] whole_word_at(ls[r], w, a) implies exists|k: int|
                0 <= k < results@.len() && #[trigger] results@[k] == (r as usize, a as usize, (a + w.len()) as usize) by {
                if r == row {
                    assert(0 <= a);
                }
            }
        }
        row += 1;
    }
    results
}

impl FileViewer {
    /// Highlights every occurrence of the word at the cursor (words of two
    /// bytes or more); clears the highlight otherwise.
    pub fn highlight_word_at_cursor(&mut self)
        requires
            old(self).wf(),
        ensures
            final(self).wf(),
            final(self).buf() == old(self).buf(),
            final(self).row() == old(self).row(),
            final(self).col() == old(self).col(),
            final(self).sel() == old(self).sel(),
            final(self).undo_view() == old(self).undo_view(),
            final(self).redo_view() == old(self).redo_view(),
            final(self).last_kind() == old(self).last_kind(),
            final(self).nav() == old(self).nav(),
            final(self).selecting() == old(self).selecting(),
            final(self).mode() == old(self).mode(),
            ({
                let line = old(self).buf()[old(self).row()];
                match word_anchor(line, old(self).col()) {
                    Some(p) => exists|a: int, b: int|
                        run_start(line, p + 1, a, WORD_CLASS) && run_end(line, p, b, WORD_CLASS) && if b - a >= 2 {
                            &&& final(self).highlighted() == Some(line.subrange(a, b))
                            &&& all_occurrences(old(self).buf(), line.subrange(a, b), final(self).occurrences())
                        } else {
                            final(self).highlighted() is None && final(self).occurrences().len() == 0
                        },
                    None => final(self).highlighted() is None && final(self).occurrences().len() == 0,
                }
            }),
    {
        if let Some((start, end)) = self.word_at(self.cursor_row, self.cursor_col) {
            let ghost line = self.buf()[self.row()];
            proof {
                assert(self.buffer@[self.cursor_row as int]@ == line);
            }
            let len = self.buffer[self.cursor_row].len();
            let t = splice_bytes(&self.buffer[self.cursor_row], end, len, &[]);
            let word = splice_bytes(&t, 0, start, &[]);
            assert(word@ =~= line.subrange(start as int, end as int));
            if word.len() >= 2 {
                let occurrences = self.find_all_occurrences(word.as_slice());
                self.highlighted_word = Some(word);
                self.highlighted_occurrences = occurrences;
            } else {
                self.highlighted_word = None;
                self.highlighted_occurrences = Vec::new();
            }
        } else {
            self.highlighted_word = None;
            self.highlighted_occurrences = Vec::new();
        }
    }

    /// Clears word highlights.
    pub fn clear_highlights(&mut self)
        requires
            old(self).wf(),
        ensures
            cleared_highlights(old(self), final(self)),

    {
        self.highlighted_word = None;
        self.highlighted_occurrences = Vec::new();
    }

    /// Clears the mouse selection (e.g. when the user starts typing).
    pub fn clear_selection(&mut self)
        requires
            old(self).wf(),
        ensures
            cleared_selection(old(self), final(self)),

    {
        self.selection = None;
        self.mouse_selecting = false;
    }

    /// Mouse press at buffer position (row, col): a double click selects the
    /// word there and highlights its occurrences; a single click places the
    /// cursor and starts a drag selection.
    pub fn mouse_down(&mut self, row: usize, col: usize, click_count: usize)
        requires
            old(self).wf(),
            row < old(self).buf().len(),
        ensures
            final(self).wf(),
            final(self).buf() == old(self).buf(),
            final(self).undo_view() == old(self).undo_view(),
            final(self).redo_view() == old(self).redo_view(),
            final(self).last_kind() is None,
            final(self).nav() is None,
            final(self).row() == row,
            click_count == 2 ==> !final(self).selecting() && match word_anchor(old(self).buf()[row as int], col as int) {
                Some(p) => exists|a: int, b: int|
                    #![trigger run_start(old(self).buf()[row as int], p + 1, a, WORD_CLASS), run_end(old(self).buf()[row as int], p, b, WORD_CLASS)]
                    run_start(old(self).buf()[row as int], p + 1, a, WORD_CLASS)
                        && run_end(old(self).buf()[row as int], p, b, WORD_CLASS)
                        && final(self).sel() == Some(Selection { start_row: row, start_col: a as usize, end_row: row, end_col: b as usize })
                        && final(self).col() == b,
                None => final(self).col() == col && final(self).sel() == old(self).sel(),
            },
            click_count != 2 ==> {
                &&& final(self).col() == col
                &&& final(self).selecting()
                &&& final(self).sel() == Some(Selection { start_row: row, start_col: col, end_row: row, end_col: col })
                &&& final(self).highlighted() is None
            },
    {
        self.last_edit_kind = None;
        self.nav_highlight = None;
        if click_count == 2 {
            self.cursor_row = row;
            self.cursor_col = col;
            if let Some((start, end)) = self.word_at(row, col) {
                self.selection = Some(Selection { start_row: row, start_col: start, end_row: row, end_col: end });
                self.cursor_col = end;
                self.highlight_word_at_cursor();
            }
            self.mouse_selecting = false;
            return;
        }
        self.clear_highlights();
        self.cursor_row = row;
        self.cursor_col = col;
        self.mouse_selecting = true;
        self.selection = Some(Selection { start_row: row, start_col: col, end_row: row, end_col: col });
    }

    /// Mouse drag to (row, col): extends the drag selection, if one is active.
    pub fn mouse_drag(&mut self, row: usize, col: usize)
        requires
            old(self).wf(),
            row < old(self).buf().len(),
        ensures
            final(self).wf(),
            final(self).buf() == old(self).buf(),
            final(self).undo_view() == old(self).undo_view(),
            final(self).redo_view() == old(self).redo_view(),
            final(self).selecting() == old(self).selecting(),
            !old(self).selecting() ==> final(self).row() == old(self).row() && final(self).col() == old(self).col()
                && final(self).sel() == old(self).sel(),
            old(self).selecting() ==> final(self).row() == row && final(self).col() == col && match old(self).sel() {
                Some(s) => final(self).sel() == Some(Selection { end_row: row, end_col: col, ..s }),
                None => final(self).sel() is None,
            },
    {
        if !self.mouse_selecting {
            return;
        }
        self.cursor_row = row;
        self.cursor_col = col;
        if let Some(sel) = self.selection {
            self.selection = Some(Selection { end_row: row, end_col: col, ..sel });
        }
    }

    /// Mouse release at (row, col): ends the drag; a selection that covers
    /// nothing is dropped.
    pub fn mouse_up(&mut self, row: usize, col: usize)
        requires
            old(self).wf(),
            row < old(self).buf().len(),
        ensures
            final(self).wf(),
            final(self).buf() == old(self).buf(),
            final(self).undo_view() == old(self).undo_view(),
            final(self).redo_view() == old(self).redo_view(),
            !final(self).selecting(),
            !old(self).selecting() ==> final(self).row() == old(self).row() && final(self).col() == old(self).col()
                && final(self).sel() == old(self).sel(),
            old(self).selecting() ==> final(self).row() == row && final(self).col() == col && match old(self).sel() {
                Some(s) => if s.start_row == row && s.start_col == col {
                    final(self).sel() is None
                } else {
                    final(self).sel() == Some(Selection { end_row: row, end_col: col, ..s })
                },
                None => final(self).sel() is None,
            },
    {
        if !self.mouse_selecting {
            return;
        }
        self.cursor_row = row;
        self.cursor_col = col;
        if let Some(sel) = self.selection {
            self.selection = Some(Selection { end_row: row, end_col: col, ..sel });
        }
        self.mouse_selecting = false;
        if let Some(sel) = self.selection {
            if sel.start_row == sel.end_row && sel.start_col == sel.end_col {
                self.selection = None;
            }
        }
    }
}

/// `ms` lists, in document order, every place the lowercased query `q`
/// occurs in a lowercased line, as (row, start, start + `qlen`).
pub open spec fn all_search_matches(ls: Seq<Seq<u8>>, q: Seq<u8>, qlen: int, ms: Seq<(usize, usize, usize)>) -> bool {
    &&& forall|k: int| 0 <= k < ms.len() ==> {
        let (r, a, b) = #[trigger] ms[k];
        &&& r < ls.len()
        &&& occurs_at(lower_bytes(ls[r as int]), q, a as int)
        &&& b == a + qlen
    }
    &&& forall|k: int, j: int| 0 <= k < j < ms.len() ==> pos_lt(#[trigger] ms[k], #[trigger] ms[j])
    &&& forall|r: int, a: int| 0 <= r < ls.len() && #[trigger] occurs_at(lower_bytes(ls[r]), q, a) ==> exists|k: int|
        0 <= k < ms.len() && #[trigger] ms[k] == (r as usize, a as usize, (a + qlen) as usize)
}

/// Searching can step past every match: after a match at `a` the scan
/// resumes at `a + 1`, which `str` slicing needs on a character boundary.
pub open spec fn search_steppable(ls: Seq<Seq<u8>>, q: Seq<u8>, qlen: int) -> bool {
    forall|r: int, a: int| 0 <= r < ls.len() && #[trigger] occurs_at(lower_bytes(ls[r]), q, a) ==> {
        &&& boundary(lower_bytes(ls[r]), a + 1)
        &&& a + qlen <= usize::MAX
    }
}


/// Every place the (lowercased) query `q` occurs in the lowercased lines,
/// as (row, start, start + `qlen`), in document order; `None` where the
/// scan could not step past a match (see [`search_steppable`]).
pub fn search_lines(lines: &Vec<Vec<u8>>, q: &Vec<u8>, qlen: usize) -> (results: Option<Vec<(usize, usize, usize)>>)
    ensures
        results is Some <==> search_steppable(lines_view(lines@), q@, qlen as int),
        results matches Some(v) ==> all_search_matches(lines_view(lines@), q@, qlen as int, v@),
{
    let ghost ls = lines_view(lines@);
    let ghost w = q@;
    let mut results: Vec<(usize, usize, usize)> = Vec::new();
    let mut row: usize = 0;
    while row < lines.len()
        invariant
            0 <= row <= lines.len(),
            lines_view(lines@) == ls,
            w == q@,
            forall|r: int, a: int| 0 <= r < row && #[trigger] occurs_at(lower_bytes(ls[r]), w, a) ==> {
                &&& boundary(lower_bytes(ls[r]), a + 1)
                &&& a + qlen <= usize::MAX
            },
            forall|k: int| 0 <= k < results@.len() ==> {
                let (r, a, b) = #[trigger] results@[k];
                &&& r < row
                &&& occurs_at(lower_bytes(ls[r as int]), w, a as int)
                &&& b == a + qlen
            },
            forall|k: int, j: int| 0 <= k < j < results@.len() ==> pos_lt(#[trigger] results@[k], #[trigger] results@[j]),
            forall|r: int, a: int| 0 <= r < row && #[trigger] occurs_at(lower_bytes(ls[r]), w, a) ==> exists|k: int|
                0 <= k < results@.len() && #[trigger] results@[k] == (r as usize, a as usize, (a + qlen) as usize),
        decreases lines.len() - row,
    {
        let line = lowercase_line(lines[row].as_slice());
        let ghost l = line@;
        assert(l == lower_bytes(ls[row as int]));
        let ghost base = results@.len();
        let mut search_from: usize = 0;
        loop
            invariant
                0 <= row < ls.len(),
                lines_view(lines@) == ls,
                l == line@,
                l == lower_bytes(ls[row as int]),
                w == q@,
                base <= results@.len(),
                search_from <= l.len() + 1,
                forall|r: int, a: int| 0 <= r < row && #[trigger] occurs_at(lower_bytes(ls[r]), w, a) ==> {
                    &&& boundary(lower_bytes(ls[r]), a + 1)
                    &&& a + qlen <= usize::MAX
                },
                forall|a: int| 0 <= a < search_from && #[trigger] occurs_at(lower_bytes(ls[row as int]), w, a) ==> {
                    &&& boundary(lower_bytes(ls[row as int]), a + 1)
                    &&& a + qlen <= usize::MAX
                },
                forall|k: int| 0 <= k < results@.len() ==> {
                    let (r, a, b) = #[trigger] results@[k];
                    &&& r <= row
                    &&& occurs_at(lower_bytes(ls[r as int]), w, a as int)
                    &&& b == a + qlen
                    &&& (k >= base ==> r == row && a < search_from)
                    &&& (k < base ==> r < row)
                },
                forall|k: int, j: int| 0 <= k < j < results@.len() ==> pos_lt(#[trigger] results@[k], #[trigger] results@[j]),
                forall|r: int, a: int| 0 <= r < row && #[trigger] occurs_at(lower_bytes(ls[r]), w, a) ==> exists|k: int|
                    0 <= k < results@.len() && #[trigger] results@[k] == (r as usize, a as usize, (a + qlen) as usize),
                forall|a: int| 0 <= a < search_from && #[trigger] occurs_at(lower_bytes(ls[row as int]), w, a) ==> exists|k: int|
                    0 <= k < results@.len() && #[trigger] results@[k] == (row, a as usize, (a + qlen) as usize),
            ensures
                forall|r: int, a: int| 0 <= r <= row && #[trigger] occurs_at(lower_bytes(ls[r]), w, a) ==> {
                    &&& boundary(lower_bytes(ls[r]), a + 1)
                    &&& a + qlen <= usize::MAX
                },
                forall|k: int| 0 <= k < results@.len() ==> {
                    let (r, a, b) = #[trigger] results@[k];
                    &&& r <= row
                    &&& occurs_at(lower_bytes(ls[r as int]), w, a as int)
                    &&& b == a + qlen
                },
                forall|k: int, j: int| 0 <= k < j < results@.len() ==> pos_lt(#[trigger] results@[k], #[trigger] results@[j]),
                forall|r: int, a: int| 0 <= r < row && #[trigger] occurs_at(lower_bytes(ls[r]), w, a) ==> exists|k: int|
                    0 <= k < results@.len() && #[trigger] results@[k] == (r as usize, a as usize, (a + qlen) as usize),
                forall|a: int| 0 <= a && #[trigger] occurs_at(lower_bytes(ls[row as int]), w, a) ==> exists|k: int|
                    0 <= k < results@.len() && #[trigger] results@[k] == (row, a as usize, (a + qlen) as usize),
            decreases l.len() + 1 - search_from,
        {
            let found = if search_from <= line.len() {
                find_from(line.as_slice(), q.as_slice(), search_from)
            } else {
                None
            };
            match found {
                None => {
                    assert forall|a: int| 0 <= a && #[trigger] occurs_at(lower_bytes(ls[row as int]), w, a) implies exists|k: int|
                        0 <= k < results@.len() && #[trigger] results@[k] == (row, a as usize, (a + qlen) as usize) by {
                        if a >= search_from {
                            assert(!occurs_at(l, w, a));
                        }
                    }
                    assert forall|r: int, a: int| 0 <= r <= row && #[trigger] occurs_at(lower_bytes(ls[r]), w, a) implies {
                        &&& boundary(lower_bytes(ls[r]), a + 1)
                        &&& a + qlen <= usize::MAX
                    } by {
                        if r == row && a >= search_from {
                            assert(!occurs_at(l, w, a));
                        }
                    }
                    break;
                },
                Some(start) => {
                    assert(occurs_at(lower_bytes(ls[row as int]), w, start as int));
                    if start == usize::MAX || !is_boundary(&line, start + 1) || start > usize::MAX - qlen {
                        assert(!search_steppable(ls, w, qlen as int));
                        assert(!search_steppable(lines_view(lines@), q@, qlen as int));
                        return None;
                    }
                    let end = start + qlen;
                    let ghost pre = results@;
                    results.push((row, start, end));
                    assert(results@[results@.len() - 1] == (row, start, end));
                    assert forall|a: int| 0 <= a < start + 1 && #[trigger] occurs_at(lower_bytes(ls[row as int]), w, a) implies exists|k: int|
                        0 <= k < results@.len() && #[trigger] results@[k] == (row, a as usize, (a + qlen) as usize) by {
                        if a < search_from {
                            let k0 = choose|k: int| 0 <= k < pre.len() && #[trigger] pre[k] == (row, a as usize, (a + qlen) as usize);
                            assert(results@[k0] == pre[k0]);
                        } else if a < start {
                            assert(!occurs_at(l, w, a));
                        } else {
                            assert(results@[results@.len() - 1] == (row, a as usize, (a + qlen) as usize));
                        }
                    }
                    assert forall|a: int| 0 <= a < start + 1 && #[trigger] occurs_at(lower_bytes(ls[row as int]), w, a) implies {
                        &&& boundary(lower_bytes(ls[row as int]), a + 1)
                        &&& a + qlen <= usize::MAX
                    } by {
                        if search_from <= a < start {
                            assert(!occurs_at(l, w, a));
                        }
                    }
                    assert forall|r: int, a: int| 0 <= r < row && #[trigger] occurs_at(lower_bytes(ls[r]), w, a) implies exists|k: int|
                        0 <= k < results@.len() && #[trigger] results@[k] == (r as usize, a as usize, (a + qlen) as usize) by {
                        let k0 = choose|k: int| 0 <= k < pre.len() && #[trigger] pre[k] == (r as usize, a as usize, (a + qlen) as usize);
                        assert(results@[k0] == pre[k0]);
                    }
                    search_from = start + 1;
                },
            }
        }
        proof {
            assert forall|r: int, a: int| 0 <= r < row + 1 && #[trigger] occurs_at(lower_bytes(ls[r]), w, a) implies exists|k: int|
                0 <= k < results@.len() && #[trigger] results@[k] == (r as usize, a as usize, (a + qlen) as usize) by {
                if r == row {
                    assert(0 <= a);
                }
            }
        }
        row += 1;
    }
    Some(results)
}

impl FileViewer {
    /// Every match row lies in the buffer.
    pub open spec fn matches_in_buffer(&self) -> bool {
        forall|k: int| 0 <= k < self.matches().len() ==> (#[trigger] self.matches()[k]).0 < self.buf().len()
    }

    /// Recomputes the case-insensitive matches of the search query, keeping
    /// the active match index within range.
    /// Returns `false`, with no matches, where the scan cannot step past a
    /// match (see [`search_steppable`]).
    pub fn find_search_matches(&mut self) -> (ok: bool)
        requires
            old(self).wf(),
            encode_utf8(old(self).query()).len() <= usize::MAX,
        ensures
            ok == (old(self).query().len() == 0 || search_steppable(
                old(self).buf(),
                encode_utf8(lowercase(old(self).query())),
                encode_utf8(old(self).query()).len() as int,
            )),
            !ok ==> final(self).matches().len() == 0 && final(self).match_ix() == 0,
            final(self).wf(),
            final(self).buf() == old(self).buf(),
            final(self).row() == old(self).row(),
            final(self).col() == old(self).col(),
            final(self).query() == old(self).query(),
            final(self).searching() == old(self).searching(),
            final(self).sel() == old(self).sel(),
            final(self).undo_view() == old(self).undo_view(),
            final(self).redo_view() == old(self).redo_view(),
            final(self).matches_in_buffer(),
            old(self).query().len() == 0 ==> final(self).matches().len() == 0 && final(self).match_ix() == old(self).match_ix(),
            old(self).query().len() > 0 && ok ==> {
                &&& all_search_matches(
                    old(self).buf(),
                    encode_utf8(lowercase(old(self).query())),
                    encode_utf8(old(self).query()).len() as int,
                    final(self).matches(),
                )
                &&& final(self).match_ix() == (if final(self).matches().len() == 0 {
                    0
                } else if old(self).match_ix() < final(self).matches().len() - 1 {
                    old(self).match_ix()
                } else {
                    final(self).matches().len() - 1
                })
            },
    {
        self.search_matches = Vec::new();
        if self.search_query.as_str().is_empty() {
            return true;
        }
        let qs = self.search_query.as_str();
        let qlen = qs.len();
        assert(qs@ == old(self).query());
        assert(qs.spec_bytes() == encode_utf8(qs@));
        let q = lowercase_str(qs);
        match search_lines(&self.buffer, &q, qlen) {
            Some(results) => {
                self.search_matches = results;
                if self.search_matches.len() > 0 {
                    let last = self.search_matches.len() - 1;
                    if self.search_match_ix > last {
                        self.search_match_ix = last;
                    }
                } else {
                    self.search_match_ix = 0;
                }
                true
            },
            None => {
                self.search_match_ix = 0;
                false
            },
        }
    }
}

impl FileViewer {
    /// Moves the cursor to the active search match, if there is one.
    pub fn jump_to_search_match(&mut self)
        requires
            old(self).wf(),
            old(self).matches_in_buffer(),
        ensures
            final(self).wf(),
            final(self).matches() == old(self).matches(),
            final(self).match_ix() == old(self).match_ix(),
            final(self).buf() == old(self).buf(),
            final(self).sel() == old(self).sel(),
            final(self).undo_view() == old(self).undo_view(),
            final(self).redo_view() == old(self).redo_view(),
            final(self).query() == old(self).query(),
            final(self).searching() == old(self).searching(),
            0 <= old(self).match_ix() < old(self).matches().len() ==> final(self).row() == old(self).matches()[old(self).match_ix()].0
                && final(self).col() == old(self).matches()[old(self).match_ix()].1,
            !(0 <= old(self).match_ix() < old(self).matches().len()) ==> final(self).row() == old(self).row()
                && final(self).col() == old(self).col(),
    {
        if self.search_match_ix < self.search_matches.len() {
            let (row, col, _) = self.search_matches[self.search_match_ix];
            self.cursor_row = row;
            self.cursor_col = col;
        }
    }

    /// Enter in the search box: the next match, wrapping around.
    pub fn search_next(&mut self)
        requires
            old(self).wf(),
            old(self).matches_in_buffer(),
            old(self).match_ix() < usize::MAX,
        ensures
            final(self).wf(),
            final(self).matches() == old(self).matches(),
            final(self).buf() == old(self).buf(),
            final(self).query() == old(self).query(),
            final(self).searching() == old(self).searching(),
            old(self).matches().len() == 0 ==> final(self).match_ix() == old(self).match_ix()
                && final(self).row() == old(self).row() && final(self).col() == old(self).col(),
            old(self).matches().len() > 0 ==> {
                let ix = (old(self).match_ix() + 1) % (old(self).matches().len() as int);
                &&& final(self).match_ix() == ix
                &&& final(self).row() == old(self).matches()[ix].0
                &&& final(self).col() == old(self).matches()[ix].1
            },
    {
        if self.search_matches.len() == 0 {
            return;
        }
        self.search_match_ix = (self.search_match_ix + 1) % self.search_matches.len();
        self.jump_to_search_match();
    }

    /// Selects the first match at or after the cursor (wrapping to the first
    /// match) and jumps to it.
    pub fn search_find_nearest_match(&mut self)
        requires
            old(self).wf(),
            old(self).matches_in_buffer(),
        ensures
            final(self).wf(),
            final(self).matches() == old(self).matches(),
            final(self).buf() == old(self).buf(),
            final(self).query() == old(self).query(),
            final(self).searching() == old(self).searching(),
            old(self).matches().len() == 0 ==> final(self).match_ix() == old(self).match_ix()
                && final(self).row() == old(self).row() && final(self).col() == old(self).col(),
            old(self).matches().len() > 0 ==> {
                let ms = old(self).matches();
                let ix = final(self).match_ix();
                &&& 0 <= ix < ms.len()
                &&& final(self).row() == ms[ix].0 && final(self).col() == ms[ix].1
                &&& forall|k: int| 0 <= k < ix ==> !pos_le(old(self).row(), old(self).col(), #[trigger] ms[k].0 as int, ms[k].1 as int)
                &&& (ix > 0 || pos_le(old(self).row(), old(self).col(), ms[0].0 as int, ms[0].1 as int) || forall|k: int|
                    0 <= k < ms.len() ==> !pos_le(old(self).row(), old(self).col(), #[trigger] ms[k].0 as int, ms[k].1 as int))
                &&& (ix > 0 ==> pos_le(old(self).row(), old(self).col(), ms[ix].0 as int, ms[ix].1 as int))
            },
    {
        if self.search_matches.len() == 0 {
            return;
        }
        let mut ix: usize = 0;
        while ix < self.search_matches.len()
            invariant
                0 <= ix <= self.search_matches.len(),
                self.search_matches@ == old(self).search_matches@,
                self.cursor_row == old(self).cursor_row,
                self.cursor_col == old(self).cursor_col,
                self.wf(),
                self.frame(old(self)),
                old(self).matches_in_buffer(),
                forall|k: int| 0 <= k < ix ==> !pos_le(old(self).row(), old(self).col(), #[trigger] self.search_matches@[k].0 as int, self.search_matches@[k].1 as int),
            decreases self.search_matches.len() - ix,
        {
            let (row, col, _) = self.search_matches[ix];
            if row > self.cursor_row || (row == self.cursor_row && col >= self.cursor_col) {
                proof {
                    self.lemma_frame(old(self));
                }
                self.search_match_ix = ix;
                self.jump_to_search_match();
                return;
            }
            ix += 1;
        }
        proof {
            self.lemma_frame(old(self));
        }
        self.search_match_ix = 0;
        self.jump_to_search_match();
    }

    /// Opens the in-file search with an empty query.
    pub fn open_search(&mut self)
        requires
            old(self).wf(),
        ensures
            final(self).wf(),
            final(self).searching(),
            final(self).query().len() == 0,
            final(self).matches().len() == 0,
            final(self).match_ix() == 0,
            final(self).buf() == old(self).buf(),
            final(self).row() == old(self).row(),
            final(self).col() == old(self).col(),
            final(self).sel() == old(self).sel(),
            final(self).undo_view() == old(self).undo_view(),
            final(self).redo_view() == old(self).redo_view(),
    {
        self.search_active = true;
        self.search_query = String::new();
        self.search_matches = Vec::new();
        self.search_match_ix = 0;
    }

    /// Closes the in-file search and forgets its query and matches.
    pub fn close_search(&mut self)
        requires
            old(self).wf(),
        ensures
            final(self).wf(),
            !final(self).searching(),
            final(self).query().len() == 0,
            final(self).matches().len() == 0,
            final(self).match_ix() == 0,
            final(self).buf() == old(self).buf(),
            final(self).row() == old(self).row(),
            final(self).col() == old(self).col(),
            final(self).sel() == old(self).sel(),
            final(self).undo_view() == old(self).undo_view(),
            final(self).redo_view() == old(self).redo_view(),
            final(self).same_text_state(old(self)),
            final(self).view_same_but(old(self), false, false, false, true),
    {
        self.search_active = false;
        self.search_query = String::new();
        self.search_matches = Vec::new();
        self.search_match_ix = 0;
    }

    /// Cmd+F: closes the search when it is open, else opens it with an
    /// empty query.
    pub fn handle_find(&mut self)
        requires
            old(self).wf(),
        ensures
            final(self).wf(),
            final(self).searching() == !old(self).searching(),
            final(self).query().len() == 0,
            final(self).matches().len() == 0,
            final(self).match_ix() == 0,
            final(self).buf() == old(self).buf(),
            final(self).row() == old(self).row(),
            final(self).col() == old(self).col(),
            final(self).sel() == old(self).sel(),
            final(self).undo_view() == old(self).undo_view(),
            final(self).redo_view() == old(self).redo_view(),
    {
        if self.search_active {
            self.close_search();
        } else {
            self.open_search();
        }
    }

    /// The search box's text changed: a new query recomputes the matches and
    /// jumps to the nearest one; the same query does nothing.
    /// Returns `false` where the new query could not be searched (see
    /// [`FileViewer::find_search_matches`]).
    pub fn set_search_query(&mut self, text: String) -> (ok: bool)
        requires
            old(self).wf(),
            encode_utf8(text@).len() <= usize::MAX,
        ensures
            final(self).wf(),
            final(self).query() == text@,
            final(self).buf() == old(self).buf(),
            final(self).searching() == old(self).searching(),
            text@ != old(self).query() ==> final(self).matches_in_buffer() && ok == (text@.len() == 0 || search_steppable(
                old(self).buf(),
                encode_utf8(lowercase(text@)),
                encode_utf8(text@).len() as int,
            )) && (!ok ==> final(self).matches().len() == 0) && (text@.len() > 0 && ok ==> all_search_matches(
                old(self).buf(),
                encode_utf8(lowercase(text@)),
                encode_utf8(text@).len() as int,
                final(self).matches(),
            )),
            text@ == old(self).query() ==> ok && final(self).matches() == old(self).matches()
                && final(self).row() == old(self).row() && final(self).col() == old(self).col(),
    {
        if !str_eq(self.search_query.as_str(), text.as_str()) {
            self.search_query = text;
            let ok = self.find_search_matches();
            self.search_find_nearest_match();
            ok
        } else {
            true
        }
    }
}

/// `m` is the smallest leading-whitespace width among the non-blank rows
/// `s..=e`, one of which has exactly that width.
pub open spec fn is_min_indent(ls: Seq<Seq<u8>>, s: int, e: int, m: int) -> bool {
    &&& exists|r: int| s <= r <= e && !blank(#[trigger] ls[r]) && leading_ws(ls[r]) == m
    &&& forall|r: int| s <= r <= e && !blank(#[trigger] ls[r]) ==> m <= leading_ws(ls[r])
}

/// Line `l` carries the comment token `p` at column `m`.
pub open spec fn commented_at(l: Seq<u8>, m: int, p: Seq<u8>) -> bool {
    &&& m <= l.len()
    &&& boundary(l, m)
    &&& m + p.len() <= l.len()
    &&& l.subrange(m, m + p.len()) == p
}

/// Line `l` with the token `p` (and one following space) removed at `m`, or
/// with `p` and a space inserted there.
pub open spec fn toggled(l: Seq<u8>, m: int, p: Seq<u8>, uncomment: bool) -> Seq<u8> {
    if uncomment {
        let after = m + p.len();
        let end = if after < l.len() && l[after] == 32 { after + 1 } else { after };
        splice(l, m, end, Seq::empty())
    } else {
        splice(l, m, m, p.push(32u8))
    }
}

/// The rows `s..=e` with every non-blank row toggled.
pub open spec fn toggle_rows(ls: Seq<Seq<u8>>, s: int, e: int, m: int, p: Seq<u8>, uncomment: bool) -> Seq<Seq<u8>> {
    Seq::new(ls.len(), |r: int| if s <= r <= e && !blank(ls[r]) { toggled(ls[r], m, p, uncomment) } else { ls[r] })
}

/// A comment token of printable ASCII bytes other than the space.
pub open spec fn token_ok(p: Seq<u8>) -> bool {
    p.len() > 0 && forall|i: int| 0 <= i < p.len() ==> 33 <= #[trigger] p[i] <= 126
}

/// The bytes of `l` before `m` are spaces or tabs.
pub open spec fn ascii_indent(l: Seq<u8>, m: int) -> bool {
    0 <= m <= l.len() && forall|i: int| 0 <= i < m ==> (#[trigger] l[i] == 32 || l[i] == 9)
}

/// Spaces and tabs from `i` up to `k` count one byte each of leading
/// whitespace.
proof fn lemma_lead_ws_ascii(l: Seq<u8>, i: int, k: int)
    requires
        0 <= i <= k <= l.len(),
        forall|j: int| i <= j < k ==> (#[trigger] l[j] == 32 || l[j] == 9),
    ensures
        lead_ws_from(l, i) == (k - i) + lead_ws_from(l, k),
    decreases k - i,
{
    if i < k {
        assert(ws_char_len(l, i) == 1);
        lemma_lead_ws_ascii(l, i + 1, k);
    }
}

/// The smallest indent of the non-blank rows is unique.
proof fn lemma_min_indent_unique(ls: Seq<Seq<u8>>, s: int, e: int, m1: int, m2: int)
    requires
        is_min_indent(ls, s, e, m1),
        is_min_indent(ls, s, e, m2),
    ensures
        m1 == m2,
{
    let r1 = choose|r: int| s <= r <= e && !blank(#[trigger] ls[r]) && leading_ws(ls[r]) == m1;
    let r2 = choose|r: int| s <= r <= e && !blank(#[trigger] ls[r]) && leading_ws(ls[r]) == m2;
}

/// A commented row: the token and a space inserted at `m`, which leaves
/// exactly `m` bytes of leading whitespace, and removing them gives the row
/// back.
proof fn lemma_toggle_row(l: Seq<u8>, m: int, p: Seq<u8>)
    requires
        token_ok(p),
        ascii_indent(l, m),
    ensures
        leading_ws(toggled(l, m, p, false)) == m,
        commented_at(toggled(l, m, p, false), m, p),
        toggled(toggled(l, m, p, false), m, p, true) == l,
{
    let l2 = toggled(l, m, p, false);
    let q = p.push(32u8);
    assert(l2 == l.subrange(0, m) + q + l.subrange(m, l.len() as int));
    assert(l2.len() == l.len() + p.len() + 1);
    assert forall|j: int| 0 <= j < m implies (#[trigger] l2[j] == 32 || l2[j] == 9) by {
        assert(l2[j] == l[j]);
    }
    lemma_lead_ws_ascii(l2, 0, m);
    assert(l2[m] == p[0]);
    assert(33 <= p[0] <= 126);
    assert(ws_char_len(l2, m) == 0);
    assert(lead_ws_from(l2, m) == 0);
    if m > 0 {
        assert(!is_continuation_byte(l2[m]));
    }
    assert(l2.subrange(m, m + p.len()) =~= p);
    let after = m + p.len();
    assert(l2[after] == 32);
    assert(splice(l2, m, after + 1, Seq::empty()) =~= l);
}

/// Commenting rows and then uncommenting them gives the rows back. Where
/// the non-blank rows `s..=e` (at least one) have only spaces and tabs up to
/// their smallest indent `m`, and not all carry the token `p` there, the
/// toggle inserts it: every non-blank row then carries it at indent `m`,
/// which stays the smallest indent, so the next toggle removes it and the
/// rows are as before.
pub proof fn lemma_comment_round_trip(ls: Seq<Seq<u8>>, s: int, e: int, m: int, p: Seq<u8>)
    requires
        0 <= s <= e < ls.len(),
        is_min_indent(ls, s, e, m),
        token_ok(p),
        forall|r: int| s <= r <= e && !blank(#[trigger] ls[r]) ==> ascii_indent(ls[r], m),
        !(forall|r: int| s <= r <= e && !blank(#[trigger] ls[r]) ==> commented_at(ls[r], m, p)),
    ensures
        ({
            let ls2 = toggle_rows(ls, s, e, m, p, false);
            &&& ls2.len() == ls.len()
            &&& forall|r: int| 0 <= r < ls.len() ==> blank(#[trigger] ls2[r]) == blank(ls[r])
            &&& is_min_indent(ls2, s, e, m)
            &&& forall|r: int| s <= r <= e && !blank(#[trigger] ls2[r]) ==> commented_at(ls2[r], m, p)
            &&& toggle_rows(ls2, s, e, m, p, true) == ls
        }),
{
    let ls2 = toggle_rows(ls, s, e, m, p, false);
    assert forall|r: int| 0 <= r < ls.len() implies blank(#[trigger] ls2[r]) == blank(ls[r]) && (s <= r <= e && !blank(ls[r])
        ==> leading_ws(ls2[r]) == m && commented_at(ls2[r], m, p) && toggled(ls2[r], m, p, true) == ls[r]) by {
        if s <= r <= e && !blank(ls[r]) {
            lemma_toggle_row(ls[r], m, p);
            assert(ls2[r].len() > m);
        }
    }
    let w = choose|r: int| s <= r <= e && !blank(#[trigger] ls[r]) && leading_ws(ls[r]) == m;
    assert(s <= w <= e && !blank(ls2[w]) && leading_ws(ls2[w]) == m);
    assert(toggle_rows(ls2, s, e, m, p, true) =~= ls);
}

/// Toggling a line comment twice on the same rows gives the buffer back,
/// where the first toggle comments them out (see
/// [`lemma_comment_round_trip`]).
#[verifier::rlimit(100)]
#[verifier::spinoff_prover]
pub proof fn lemma_toggle_comment_twice(o: &FileViewer, n1: &FileViewer, n2: &FileViewer, p: Seq<u8>, t1: u64, t2: u64)
    requires
        toggled_comment(o, n1, p, t1),
        toggled_comment(n1, n2, p, t2),
        token_ok(p),
        ({
            let (s, e) = o.comment_span();
            &&& s <= e
            &&& exists|r: int| s <= r <= e && !blank(#[trigger] o.buf()[r])
            &&& forall|m: int| #[trigger] is_min_indent(o.buf(), s, e, m) ==> {
                &&& forall|r: int| s <= r <= e && !blank(#[trigger] o.buf()[r]) ==> ascii_indent(o.buf()[r], m)
                &&& !(forall|r: int| s <= r <= e && !blank(#[trigger] o.buf()[r]) ==> commented_at(o.buf()[r], m, p))
            }
        }),
    ensures
        n2.buf() == o.buf(),
{
    let (s, e) = o.comment_span();
    let ls = o.buf();
    let r0 = choose|r: int| s <= r <= e && !blank(#[trigger] ls[r]);
    assert(!(forall|r: int| s <= r <= e ==> blank(#[trigger] ls[r])));
    let m = choose|m: int| #[trigger] is_min_indent(ls, s, e, m) && {
        let uncomment = forall|r: int| s <= r <= e && !blank(#[trigger] ls[r]) ==> commented_at(ls[r], m, p);
        &&& n1.buf() == toggle_rows(ls, s, e, m, p, uncomment)
        &&& n1.row() == o.row()
        &&& n1.keeps_view_state(o)
    };
    assert(0 <= s);
    lemma_comment_round_trip(ls, s, e, m, p);
    let ls2 = n1.buf();
    assert(n1.comment_span() == o.comment_span());
    assert(!blank(ls2[r0]));
    assert(!(forall|r: int| s <= r <= e ==> blank(#[trigger] ls2[r])));
    let m2 = choose|m2: int| #[trigger] is_min_indent(ls2, s, e, m2) && {
        let uncomment = forall|r: int| s <= r <= e && !blank(#[trigger] ls2[r]) ==> commented_at(ls2[r], m2, p);
        &&& n2.buf() == toggle_rows(ls2, s, e, m2, p, uncomment)
    };
    lemma_min_indent_unique(ls2, s, e, m, m2);
}

/// Cmd+/ twice on the same rows gives the buffer back, where the first
/// press comments them out: for a file whose language has the comment token
/// `p`, when both presses are handled as [`FileViewer::toggle_line_comment`]
/// states it, and the rows it acts on hold a non-blank row, all indented
/// with spaces and tabs up to their smallest indent, and not all already
/// commented there.
pub proof fn lemma_toggle_line_comment_twice(
    o: &FileViewer,
    n1: &FileViewer,
    n2: &FileViewer,
    p: Seq<char>,
    t1: u64,
    t2: u64,
    r1: KeyResult,
    r2: KeyResult,
)
    requires
        viewer_prefix(o) == Some(p),
        viewer_prefix(n1) == Some(p),
        guarded(comment_ready(o), exists|t: &str| t@ == p && #[trigger] toggled_comment(o, n1, t.spec_bytes(), t1), r1),
        guarded(comment_ready(n1), exists|t: &str| t@ == p && #[trigger] toggled_comment(n1, n2, t.spec_bytes(), t2), r2),
        r1 == KeyResult::Handled,
        r2 == KeyResult::Handled,
        ({
            let (s, e) = o.comment_span();
            let pb = encode_utf8(p);
            &&& s <= e
            &&& exists|r: int| s <= r <= e && !blank(#[trigger] o.buf()[r])
            &&& forall|m: int| #[trigger] is_min_indent(o.buf(), s, e, m) ==> {
                &&& forall|r: int| s <= r <= e && !blank(#[trigger] o.buf()[r]) ==> ascii_indent(o.buf()[r], m)
                &&& !(forall|r: int| s <= r <= e && !blank(#[trigger] o.buf()[r]) ==> commented_at(o.buf()[r], m, pb))
            }
        }),
    ensures
        n2.buf() == o.buf(),
{
    let pb = encode_utf8(p);
    let ta = choose|t: &str| t@ == p && #[trigger] toggled_comment(o, n1, t.spec_bytes(), t1);
    let tb = choose|t: &str| t@ == p && #[trigger] toggled_comment(n1, n2, t.spec_bytes(), t2);
    assert(ta.spec_bytes() == pb && tb.spec_bytes() == pb);
    reveal_strlit("//");
    reveal_strlit("#");
    reveal_strlit("--");
    let ext = path_extension(o.path_view())->0;
    assert(comment_prefix_for(ext) == Some(p));
    assert(p == "//"@ || p == "#"@ || p == "--"@);
    assert(is_ascii_chars(p));
    is_ascii_chars_encode_utf8(p);
    assert(token_ok(pb));
    lemma_toggle_comment_twice(o, n1, n2, pb, t1, t2);
}

impl FileViewer {
    /// The first and last row a line-comment toggle acts on: the selection's
    /// rows (not counting a last row selected only at column 0), or the
    /// cursor's row; the last row is limited to the buffer.
    pub open spec fn comment_span(&self) -> (int, int) {
        let (s, e) = match self.sel() {
            Some(sel) => {
                let (sr, sc, er, ec) = sel.ordered_spec();
                (sr as int, if er > sr && ec == 0 { er - 1 } else { er as int })
            },
            None => (self.row(), self.row()),
        };
        (s, if e > self.buf().len() - 1 { self.buf().len() - 1 } else { e })
    }

    /// Toggles the line comment `prefix` on the rows of [`Self::comment_span`],
    /// at the smallest indent of their non-blank rows: removed when every
    /// non-blank row already carries it there, added otherwise.
    #[verifier::rlimit(60)]
    pub fn toggle_line_comment_with(&mut self, prefix: &[u8], now_ms: u64)
        requires
            old(self).wf(),
            prefix@.len() > 0,
            no_nl(prefix@),
            forall|i: int| 0 <= i < prefix@.len() ==> prefix@[i] < 128,
            ({
                let (s, e) = old(self).comment_span();
                forall|m: int, r: int| #![trigger is_min_indent(old(self).buf(), s, e, m), old(self).buf()[r]]
                    is_min_indent(old(self).buf(), s, e, m) && s <= r <= e && !blank(old(self).buf()[r]) ==> boundary(old(self).buf()[r], m)
            }),
        ensures
            toggled_comment(old(self), final(self), prefix@, now_ms),

    {
        let ghost ls = self.buf();
        let ghost span = self.comment_span();
        let (start_row, end_row0) = match self.selection {
            Some(sel) => {
                let (sr, _sc, er, ec) = sel.ordered();
                let end = if er > sr && ec == 0 { er - 1 } else { er };
                (sr, end)
            },
            None => (self.cursor_row, self.cursor_row),
        };
        let last = self.buffer.len() - 1;
        let end_row = if end_row0 > last { last } else { end_row0 };
        assert(span == (start_row as int, end_row as int));
        if start_row > end_row {
            return;
        }
        assert(ls.len() == self.buffer.len());
        // Smallest indent among non-blank rows.
        let mut min_indent: Option<usize> = None;
        let mut r = start_row;
        while r <= end_row
            invariant
                start_row <= r <= end_row + 1,
                end_row < ls.len(),
                ls.len() <= usize::MAX,
                lines_view(self.buffer@) == ls,
                match min_indent {
                    None => forall|k: int| start_row <= k < r ==> blank(#[trigger] ls[k]),
                    Some(m) => (exists|k: int| start_row <= k < r && !blank(#[trigger] ls[k]) && leading_ws(ls[k]) == m)
                        && forall|k: int| start_row <= k < r && !blank(#[trigger] ls[k]) ==> m <= leading_ws(ls[k]),
                },
            decreases end_row + 1 - r,
        {
            assert(self.buffer@[r as int]@ == ls[r as int]);
            let lw = leading_ws_len(self.buffer[r].as_slice());
            if lw != self.buffer[r].len() {
                min_indent = match min_indent {
                    None => Some(lw),
                    Some(m) => Some(if lw < m { lw } else { m }),
                };
            }
            r += 1;
        }
        let m = match min_indent {
            None => {
                return;
            },
            Some(m) => m,
        };
        assert(is_min_indent(ls, start_row as int, end_row as int, m as int));
        // Whether every non-blank row already carries the token at `m`.
        let mut all_commented = true;
        let mut r = start_row;
        while r <= end_row
            invariant
                start_row <= r <= end_row + 1,
                end_row < ls.len(),
                ls.len() <= usize::MAX,
                lines_view(self.buffer@) == ls,
                all_commented == forall|k: int| start_row <= k < r && !blank(#[trigger] ls[k]) ==> commented_at(ls[k], m as int, prefix@),
            decreases end_row + 1 - r,
        {
            assert(self.buffer@[r as int]@ == ls[r as int]);
            let line = &self.buffer[r];
            let lw = leading_ws_len(line.as_slice());
            if lw != line.len() {
                let ok = m <= line.len() && crate::text::is_boundary(line, m) && prefix.len() <= line.len() - m
                    && crate::text::matches_at(line.as_slice(), prefix, m);
                if !ok {
                    all_commented = false;
                }
            }
            r += 1;
        }
        self.save_undo(now_ms);
        let ghost snap = *self;
        let mut r = start_row;
        while r <= end_row
            invariant
                start_row <= r <= end_row + 1,
                end_row < ls.len(),
                ls.len() <= usize::MAX,
                is_min_indent(ls, start_row as int, end_row as int, m as int),
                forall|k: int| start_row <= k <= end_row && !blank(#[trigger] ls[k]) ==> boundary(ls[k], m as int),
                all_commented == forall|k: int| start_row <= k <= end_row && !blank(#[trigger] ls[k]) ==> commented_at(ls[k], m as int, prefix@),
                self.buffer@.len() == ls.len(),
                forall|k: int| 0 <= k < ls.len() ==> #[trigger] lines_view(self.buffer@)[k] == if start_row <= k < r && !blank(ls[k]) {
                    toggled(ls[k], m as int, prefix@, all_commented)
                } else {
                    ls[k]
                },
                self.undo_stack@ == snap.undo_stack@,
                self.redo_stack@ == snap.redo_stack@,
                self.keeps_view_state(&snap),
                self.last_edit_kind == snap.last_edit_kind,
                self.last_edit_ms == snap.last_edit_ms,
                self.cursor_row == snap.cursor_row,
                self.cursor_col == snap.cursor_col,
                self.dirty == snap.dirty,
            decreases end_row + 1 - r,
        {
            assert(lines_view(self.buffer@)[r as int] == ls[r as int]);
            let line = &self.buffer[r];
            let lw = leading_ws_len(line.as_slice());
            if lw != line.len() {
                let nl = if all_commented {
                    let after = m + prefix.len();
                    let drop_space = after < line.len() && line[after] == 32;
                    let remove_end = if drop_space { after + 1 } else { after };
                    splice_bytes(line, m, remove_end, &[])
                } else {
                    let mut ins: Vec<u8> = vstd::slice::slice_to_vec(prefix);
                    ins.push(32u8);
                    splice_bytes(line, m, m, ins.as_slice())
                };
                assert(nl@ =~= toggled(ls[r as int], m as int, prefix@, all_commented));
                let ghost before = self.buffer@;
                self.buffer.set(r, nl);
                assert forall|k: int| 0 <= k < ls.len() implies #[trigger] lines_view(self.buffer@)[k] == if start_row <= k < r + 1 && !blank(ls[k]) {
                    toggled(ls[k], m as int, prefix@, all_commented)
                } else {
                    ls[k]
                } by {
                    if k != r {
                        assert(self.buffer@[k] == before[k]);
                        assert(lines_view(before)[k] == lines_view(self.buffer@)[k]);
                    } else {
                        assert(lines_view(self.buffer@)[k] == nl@);
                    }
                }
            }
            r += 1;
        }
        proof {
            let nb = toggle_rows(ls, start_row as int, end_row as int, m as int, prefix@, all_commented);
            assert(lines_view(self.buffer@) =~= nb);
            let ins = prefix@.push(32u8);
            assert(no_nl(ins)) by {
                assert forall|i: int| 0 <= i < ins.len() implies ins[i] != NL by {
                    if i < prefix@.len() {
                        assert(ins[i] == prefix@[i]);
                    }
                }
            }
            assert forall|j: int| 0 <= j < nb.len() implies no_nl(#[trigger] nb[j]) by {
                if start_row <= j <= end_row && !blank(ls[j]) {
                    lemma_lead_ws_bound(ls[j], 0);
                    assert(no_nl(ls[j]));
                    if all_commented {
                        assert(commented_at(ls[j], m as int, prefix@));
                        let after = m + prefix@.len();
                        let end = if after < ls[j].len() && ls[j][after] == 32 { after + 1 } else { after };
                        lemma_splice_no_nl(ls[j], m as int, end, Seq::empty());
                    } else {
                        lemma_splice_no_nl(ls[j], m as int, m as int, ins);
                    }
                } else {
                    assert(nb[j] == ls[j]);
                }
            }
        }
        self.clamp_col();
        self.dirty = true;
    }
}


/// What `move_left` does to the viewer.
pub open spec fn moved_left(o: &FileViewer, n: &FileViewer) -> bool {
    &&& n.wf()
    &&& n.frame(o)
    &&& o.col() > 0 ==> n.row() == o.row() && is_prev_boundary(
        o.buf()[o.row()],
        o.col(),
        n.col(),
        )
    &&& o.col() == 0 && o.row() > 0 ==> n.row() == o.row() - 1
        && n.col() == o.buf()[o.row() - 1].len()
    &&& o.col() == 0 && o.row() == 0 ==> n.col() == 0 && n.row() == 0
}

/// What `move_right` does to the viewer.
pub open spec fn moved_right(o: &FileViewer, n: &FileViewer) -> bool {
    &&& n.wf()
    &&& n.frame(o)
    &&& ({
        let line = o.buf()[o.row()];
        if o.col() < line.len() {
        n.row() == o.row() && is_next_boundary(line, o.col(), n.col())
        } else if o.row() + 1 < o.buf().len() {
        n.row() == o.row() + 1 && n.col() == 0
        } else {
        n.row() == o.row() && n.col() == o.col()
        }
        })
}

/// What `move_up` does to the viewer.
pub open spec fn moved_up(o: &FileViewer, n: &FileViewer) -> bool {
    &&& n.wf()
    &&& n.frame(o)
    &&& o.row() > 0 ==> n.row() == o.row() - 1 && is_clamped(
        o.buf()[o.row() - 1],
        o.col(),
        n.col(),
        )
    &&& o.row() == 0 ==> n.row() == 0 && n.col() == o.col()
}

/// What `move_down` does to the viewer.
pub open spec fn moved_down(o: &FileViewer, n: &FileViewer) -> bool {
    &&& n.wf()
    &&& n.frame(o)
    &&& o.row() + 1 < o.buf().len() ==> n.row() == o.row() + 1
        && is_clamped(o.buf()[o.row() + 1], o.col(), n.col())
    &&& o.row() + 1 >= o.buf().len() ==> n.row() == o.row()
        && n.col() == o.col()
}

/// What `move_to_line_start` does to the viewer.
pub open spec fn moved_line_start(o: &FileViewer, n: &FileViewer) -> bool {
    &&& n.wf()
    &&& n.frame(o)
    &&& n.row() == o.row()
    &&& n.col() == 0
}

/// What `move_to_line_end` does to the viewer.
pub open spec fn moved_line_end(o: &FileViewer, n: &FileViewer) -> bool {
    &&& n.wf()
    &&& n.frame(o)
    &&& n.row() == o.row()
    &&& n.col() == o.buf()[o.row()].len()
}

/// What `move_to_buffer_start` does to the viewer.
pub open spec fn moved_buffer_start(o: &FileViewer, n: &FileViewer) -> bool {
    &&& n.wf()
    &&& n.frame(o)
    &&& n.row() == 0 && n.col() == 0
}

/// What `move_to_buffer_end` does to the viewer.
pub open spec fn moved_buffer_end(o: &FileViewer, n: &FileViewer) -> bool {
    &&& n.wf()
    &&& n.frame(o)
    &&& n.row() == o.buf().len() - 1
    &&& n.col() == o.buf()[o.buf().len() - 1].len()
}

/// What `move_to_first_non_blank` does to the viewer.
pub open spec fn moved_first_non_blank(o: &FileViewer, n: &FileViewer) -> bool {
    &&& n.wf()
    &&& n.frame(o)
    &&& n.row() == o.row()
    &&& first_non_blank(o.buf()[o.row()], n.col())
}

/// What `move_word_forward` does to the viewer.
pub open spec fn moved_word_forward(o: &FileViewer, n: &FileViewer) -> bool {
    &&& n.wf()
    &&& n.frame(o)
    &&& ({
        let line = o.buf()[o.row()];
        let col = o.col();
        if col >= line.len() {
        if o.row() + 1 < o.buf().len() {
        n.row() == o.row() + 1 && n.col() == 0
        } else {
        n.row() == o.row() && n.col() == col
        }
        } else {
        &&& n.row() == o.row()
        &&& exists|m: int| #[trigger] run_end(line, col, m, class_of(line[col]))
        && run_end(line, m, n.col() as int, WS_CLASS)
        }
        })
}

/// What `move_word_backward` does to the viewer.
pub open spec fn moved_word_backward(o: &FileViewer, n: &FileViewer) -> bool {
    &&& n.wf()
    &&& n.frame(o)
    &&& ({
        let line = o.buf()[o.row()];
        let col = o.col();
        if col == 0 {
        if o.row() > 0 {
        n.row() == o.row() - 1
        && n.col() == o.buf()[o.row() - 1].len()
        } else {
        n.row() == 0 && n.col() == 0
        }
        } else {
        &&& n.row() == o.row()
        &&& exists|m: int| #[trigger] run_start(line, col, m, WS_CLASS)
        && run_start(
        line,
        m,
        n.col() as int,
        if m > 0 && word_byte(line[m - 1]) { WORD_CLASS } else { PUNCT_CLASS },
        )
        }
        })
}

/// What `move_word_end` does to the viewer.
pub open spec fn moved_word_end(o: &FileViewer, n: &FileViewer) -> bool {
    &&& n.wf()
    &&& n.frame(o)
    &&& ({
        let line = o.buf()[o.row()];
        let col = o.col();
        if col + 1 >= line.len() {
        if o.row() + 1 < o.buf().len() {
        n.row() == o.row() + 1 && n.col() == 0
        } else {
        n.row() == o.row() && n.col() == col
        }
        } else {
        &&& n.row() == o.row()
        &&& exists|m: int| #[trigger] run_end(line, col + 1, m, WS_CLASS) && if m == line.len() {
        n.col() == m
        } else {
        run_end(line, m, n.col() + 1, class_of(line[m]))
        }
        }
        })
}

/// What `insert_text` does to the viewer.
pub open spec fn inserted_text(o: &FileViewer, n: &FileViewer, text: &str, now_ms: u64) -> bool {
    &&& n.wf()
    &&& n.keeps_view_state(o)
    &&& n.is_dirty()
    &&& ({
        let parts = split_nl(text.spec_bytes());
        &&& n.buf() == insert_lines(o.buf(), o.row(), o.col(), parts)
        &&& (n.row(), n.col()) == insert_cursor(o.row(), o.col(), parts)
        &&& parts.len() > 1 ==> recorded(n, o, EditKind::Other, now_ms)
        &&& parts.len() <= 1 ==> recorded(
        n,
        o,
        if (forall|i: int| 0 <= i < text@.len() ==> unicode_ws(#[trigger] text@[i])) {
        EditKind::InsertWhitespace
        } else {
        EditKind::InsertChar
        },
        now_ms,
        )
        })
}

/// What `insert_newline` does to the viewer.
pub open spec fn inserted_newline(o: &FileViewer, n: &FileViewer, now_ms: u64) -> bool {
    &&& n.wf()
    &&& n.keeps_view_state(o)
    &&& n.is_dirty()
    &&& n.buf() == insert_lines(
        o.buf(),
        o.row(),
        o.col(),
        seq![Seq::<u8>::empty(), Seq::<u8>::empty()],
        )
    &&& n.row() == o.row() + 1
    &&& n.col() == 0
    &&& recorded(n, o, EditKind::InsertNewline, now_ms)
}

/// What `delete_backward` does to the viewer.
pub open spec fn deleted_backward(o: &FileViewer, n: &FileViewer, now_ms: u64) -> bool {
    &&& n.wf()
    &&& n.keeps_view_state(o)
    &&& ({
        let ls = o.buf();
        let row = o.row();
        let col = o.col();
        if col > 0 {
        &&& is_prev_boundary(ls[row], col, n.col())
        &&& n.row() == row
        &&& n.buf() == ls.update(row, splice(ls[row], n.col(), col, Seq::empty()))
        &&& recorded(n, o, EditKind::DeleteBackward, now_ms)
        &&& n.is_dirty()
        } else if row > 0 {
        &&& n.buf() == join_next(ls, row - 1)
        &&& n.row() == row - 1
        &&& n.col() == ls[row - 1].len()
        &&& recorded(n, o, EditKind::Other, now_ms)
        &&& n.is_dirty()
        } else {
        &&& n.frame(o)
        &&& n.row() == row
        &&& n.col() == col
        }
        })
}

/// What `delete_forward` does to the viewer.
pub open spec fn deleted_forward(o: &FileViewer, n: &FileViewer, now_ms: u64) -> bool {
    &&& n.wf()
    &&& n.keeps_view_state(o)
    &&& n.row() == o.row()
    &&& n.col() == o.col()
    &&& ({
        let ls = o.buf();
        let row = o.row();
        let col = o.col();
        if col < ls[row].len() {
        &&& exists|k: int| #[trigger] is_next_boundary(ls[row], col, k)
        && n.buf() == ls.update(row, splice(ls[row], col, k, Seq::empty()))
        &&& recorded(n, o, EditKind::DeleteForward, now_ms)
        &&& n.is_dirty()
        } else if row + 1 < ls.len() {
        &&& n.buf() == join_next(ls, row)
        &&& recorded(n, o, EditKind::Other, now_ms)
        &&& n.is_dirty()
        } else {
        n.frame(o)
        }
        })
}

/// What `insert_tab` does to the viewer.
pub open spec fn inserted_tab(o: &FileViewer, n: &FileViewer, now_ms: u64) -> bool {
    &&& n.wf()
    &&& n.keeps_view_state(o)
    &&& n.is_dirty()
    &&& n.buf() == o.buf().update(
        o.row(),
        splice(o.buf()[o.row()], o.col(), o.col(), seq![32u8, 32u8, 32u8, 32u8]),
        )
    &&& n.row() == o.row()
    &&& n.col() == o.col() + 4
    &&& recorded(n, o, EditKind::InsertWhitespace, now_ms)
}

/// What `delete_line` does to the viewer.
pub open spec fn deleted_line(o: &FileViewer, n: &FileViewer, now_ms: u64) -> bool {
    &&& n.wf()
    &&& n.keeps_view_state(o)
    &&& n.is_dirty()
    &&& n.cursor_ok()
    &&& recorded(n, o, EditKind::Other, now_ms)
    &&& ({
        let ls = o.buf();
        let row = o.row();
        if ls.len() > 1 {
        &&& n.buf() == ls.remove(row)
        &&& n.row() == (if row >= ls.len() - 1 { ls.len() - 2 } else { row })
        &&& is_clamped(ls.remove(row)[n.row()], o.col(), n.col())
        } else {
        &&& n.buf() == seq![Seq::<u8>::empty()]
        &&& n.row() == 0
        &&& n.col() == 0
        }
        })
}

/// What `open_line_below` does to the viewer.
pub open spec fn opened_line_below(o: &FileViewer, n: &FileViewer, now_ms: u64) -> bool {
    &&& n.wf()
    &&& n.keeps_view_state_but_mode(o)
    &&& n.mode() == VimMode::Insert
    &&& n.is_dirty()
    &&& n.buf() == o.buf().insert(o.row() + 1, Seq::<u8>::empty())
    &&& n.row() == o.row() + 1
    &&& n.col() == 0
    &&& recorded(n, o, EditKind::Other, now_ms)
}

/// What `open_line_above` does to the viewer.
pub open spec fn opened_line_above(o: &FileViewer, n: &FileViewer, now_ms: u64) -> bool {
    &&& n.wf()
    &&& n.keeps_view_state_but_mode(o)
    &&& n.mode() == VimMode::Insert
    &&& n.is_dirty()
    &&& n.buf() == o.buf().insert(o.row(), Seq::<u8>::empty())
    &&& n.row() == o.row()
    &&& n.col() == 0
    &&& recorded(n, o, EditKind::Other, now_ms)
}

/// What `delete_char_at_cursor` does to the viewer.
pub open spec fn deleted_char_at_cursor(o: &FileViewer, n: &FileViewer, now_ms: u64) -> bool {
    &&& n.wf()
    &&& n.keeps_view_state(o)
    &&& n.row() == o.row()
    &&& ({
        let ls = o.buf();
        let row = o.row();
        let col = o.col();
        if col < ls[row].len() {
        &&& exists|k: int| #[trigger] is_next_boundary(ls[row], col, k)
        && n.buf() == ls.update(row, splice(ls[row], col, k, Seq::empty()))
        &&& is_clamped(n.buf()[row], col, n.col())
        &&& recorded(n, o, EditKind::Other, now_ms)
        &&& n.is_dirty()
        } else {
        &&& n.frame(o)
        &&& n.col() == col
        }
        })
}

/// What `undo` does to the viewer.
pub open spec fn did_undo(o: &FileViewer, n: &FileViewer) -> bool {
    &&& n.wf()
    &&& n.keeps_view_state(o)
    &&& n.undone(o)
    &&& n.cursor_ok() || o.undo_view().len() == 0
}

/// What `redo` does to the viewer.
pub open spec fn did_redo(o: &FileViewer, n: &FileViewer) -> bool {
    &&& n.wf()
    &&& n.keeps_view_state(o)
    &&& n.redone(o)
    &&& n.cursor_ok() || o.redo_view().len() == 0
}

/// What `select_all` does to the viewer.
pub open spec fn selected_all(o: &FileViewer, n: &FileViewer) -> bool {
    &&& n.wf()
    &&& n.sel() == Some(Selection {
        start_row: 0,
        start_col: 0,
        end_row: (o.buf().len() - 1) as usize,
        end_col: o.buf()[o.buf().len() - 1].len() as usize,
        })
    &&& n.row() == o.buf().len() - 1
    &&& n.col() == o.buf()[o.buf().len() - 1].len()
    &&& n.buf() == o.buf()
    &&& n.keeps_view_state_but_sel(o)
    &&& n.undo_view() == o.undo_view()
    &&& n.redo_view() == o.redo_view()
}

/// What `delete_selection` does to the viewer.
pub open spec fn deleted_selection(o: &FileViewer, n: &FileViewer, now_ms: u64) -> bool {
    &&& n.wf()
    &&& n.sel() is None
    &&& n.keeps_view_state_but_sel(o)
    &&& o.sel() is None ==> n.frame(o) && n.row() == o.row()
        && n.col() == o.col()
    &&& o.sel() is Some ==> ({
        let (sr, sc, er, ec) = o.sel_range();
        let end = if ec < o.buf()[er].len() { ec } else { o.buf()[er].len() as int };
        &&& n.buf() == delete_span(o.buf(), sr, sc, er, end)
        &&& n.row() == sr
        &&& is_clamped(n.buf()[sr], sc, n.col())
        &&& n.cursor_ok()
        &&& n.is_dirty()
        &&& recorded(n, o, EditKind::Other, now_ms)
        })
}

/// What `delete_visual_selection` does to the viewer.
pub open spec fn deleted_visual_selection(o: &FileViewer, n: &FileViewer, now_ms: u64) -> bool {
    &&& n.wf()
    &&& n.cursor_ok()
    &&& n.keeps_view_state(o)
    &&& n.is_dirty()
    &&& recorded(n, o, EditKind::Other, now_ms)
    &&& n.buf() == delete_span(
        o.buf(),
        o.vis_range().0,
        o.vis_range().1,
        o.vis_range().2,
        o.vis_end(),
        )
    &&& n.row() == o.vis_range().0
    &&& is_clamped(n.buf()[n.row()], o.vis_range().1, n.col())
}

/// What `delete_visual_line_selection` does to the viewer.
pub open spec fn deleted_visual_lines(o: &FileViewer, n: &FileViewer, now_ms: u64) -> bool {
    &&& n.wf()
    &&& n.cursor_ok()
    &&& n.keeps_view_state(o)
    &&& n.is_dirty()
    &&& recorded(n, o, EditKind::Other, now_ms)
    &&& ({
        let ls = o.buf();
        let a = o.anchor().0;
        let b = o.row();
        let s = if a < b { a } else { b };
        let e = if a < b { b } else { a };
        if e - s + 1 >= ls.len() {
        n.buf() == seq![Seq::<u8>::empty()] && n.row() == 0 && n.col() == 0
        } else {
        let nb = ls.subrange(0, s) + ls.subrange(e + 1, ls.len() as int);
        &&& n.buf() == nb
        &&& n.row() == (if s < nb.len() { s } else { nb.len() - 1 })
        &&& is_clamped(nb[n.row()], o.col(), n.col())
        }
        })
}

/// What `clear_selection` does to the viewer.
pub open spec fn cleared_selection(o: &FileViewer, n: &FileViewer) -> bool {
    &&& n.wf()
    &&& n.same_text_state(o)
    &&& n.view_same_but(o, true, false, false, false)
    &&& n.sel() is None
    &&& !n.selecting()
    &&& n.buf() == o.buf()
    &&& n.row() == o.row()
    &&& n.col() == o.col()
    &&& n.undo_view() == o.undo_view()
    &&& n.redo_view() == o.redo_view()
}

/// What `clear_highlights` does to the viewer.
pub open spec fn cleared_highlights(o: &FileViewer, n: &FileViewer) -> bool {
    &&& n.wf()
    &&& n.same_text_state(o)
    &&& n.view_same_but(o, false, true, false, false)
    &&& n.highlighted() is None
    &&& n.occurrences().len() == 0
    &&& n.buf() == o.buf()
    &&& n.row() == o.row()
    &&& n.col() == o.col()
    &&& n.sel() == o.sel()
    &&& n.undo_view() == o.undo_view()
    &&& n.redo_view() == o.redo_view()
    &&& n.last_kind() == o.last_kind()
    &&& n.nav() == o.nav()
    &&& n.selecting() == o.selecting()
    &&& n.mode() == o.mode()
}


impl FileViewer {
    /// `self` equals `o` in every field, except those flagged: the cursor,
    /// the vim mode, the pending vim key, the visual anchor, the last edit
    /// kind and the navigation flash.
    pub closed spec fn same_but(
        &self,
        o: &Self,
        cursor: bool,
        mode: bool,
        pending: bool,
        anchor: bool,
        kind: bool,
        nav: bool,
    ) -> bool {
        &&& (!cursor ==> self.cursor_row == o.cursor_row && self.cursor_col == o.cursor_col)
        &&& (!mode ==> self.vim_mode == o.vim_mode)
        &&& (!pending ==> self.vim_pending == o.vim_pending)
        &&& (!anchor ==> self.visual_anchor_row == o.visual_anchor_row && self.visual_anchor_col
            == o.visual_anchor_col)
        &&& (!kind ==> self.last_edit_kind == o.last_edit_kind)
        &&& (!nav ==> self.nav_highlight == o.nav_highlight)
        &&& self.path == o.path
        &&& self.language == o.language
        &&& self.workspace_root == o.workspace_root
        &&& self.dirty == o.dirty
        &&& self.buffer@ == o.buffer@
        &&& self.undo_stack@ == o.undo_stack@
        &&& self.redo_stack@ == o.redo_stack@
        &&& self.last_edit_ms == o.last_edit_ms
        &&& self.mouse_selecting == o.mouse_selecting
        &&& self.selection == o.selection
        &&& self.highlighted_occurrences@ == o.highlighted_occurrences@
        &&& self.highlighted_word == o.highlighted_word
        &&& self.search_active == o.search_active
        &&& self.search_query == o.search_query
        &&& self.search_matches@ == o.search_matches@
        &&& self.search_match_ix == o.search_match_ix
    }

    /// The editing state (path, buffer, cursor, history, modes) of `self`
    /// and `o` agree.
    pub closed spec fn same_text_state(&self, o: &Self) -> bool {
        &&& self.path == o.path
        &&& self.language == o.language
        &&& self.workspace_root == o.workspace_root
        &&& self.dirty == o.dirty
        &&& self.buffer@ == o.buffer@
        &&& self.cursor_row == o.cursor_row
        &&& self.cursor_col == o.cursor_col
        &&& self.undo_stack@ == o.undo_stack@
        &&& self.redo_stack@ == o.redo_stack@
        &&& self.last_edit_kind == o.last_edit_kind
        &&& self.last_edit_ms == o.last_edit_ms
        &&& self.vim_mode == o.vim_mode
        &&& self.vim_pending == o.vim_pending
        &&& self.visual_anchor_row == o.visual_anchor_row
        &&& self.visual_anchor_col == o.visual_anchor_col
    }

    /// The view state of `self` and `o` agree, except the flagged parts:
    /// the mouse selection, the word highlight, the navigation flash, the
    /// search.
    pub closed spec fn view_same_but(&self, o: &Self, sel: bool, hl: bool, nav: bool, search: bool) -> bool {
        &&& (!sel ==> self.selection == o.selection && self.mouse_selecting == o.mouse_selecting)
        &&& (!hl ==> self.highlighted_word == o.highlighted_word && self.highlighted_occurrences@
            == o.highlighted_occurrences@)
        &&& (!nav ==> self.nav_highlight == o.nav_highlight)
        &&& (!search ==> self.search_active == o.search_active && self.search_query == o.search_query
            && self.search_matches@ == o.search_matches@ && self.search_match_ix == o.search_match_ix)
    }

    /// The editing state is the same: so are the views of it.
    pub proof fn lemma_same_text_state(&self, o: &Self)
        requires
            self.same_text_state(o),
        ensures
            self.wf() == o.wf(),
            self.cursor_ok() == o.cursor_ok(),
            self.col_in_line() == o.col_in_line(),
            self.buf() == o.buf(),
            self.row() == o.row(),
            self.col() == o.col(),
            self.mode() == o.mode(),
            self.pending() == o.pending(),
            self.anchor() == o.anchor(),
            self.undo_view() == o.undo_view(),
            self.redo_view() == o.redo_view(),
            self.last_kind() == o.last_kind(),
            self.is_dirty() == o.is_dirty(),
            self.path_view() == o.path_view(),
    {
    }

    /// What [`Self::same_but`] keeps, in terms of the views.
    pub proof fn lemma_same_but(&self, o: &Self, cursor: bool, mode: bool, pending: bool, anchor: bool, kind: bool, nav: bool)
        requires
            self.same_but(o, cursor, mode, pending, anchor, kind, nav),
            o.wf(),
        ensures
            self.buf() == o.buf(),
            self.undo_view() == o.undo_view(),
            self.redo_view() == o.redo_view(),
            self.is_dirty() == o.is_dirty(),
            self.sel() == o.sel(),
            self.searching() == o.searching(),
            !cursor ==> self.row() == o.row() && self.col() == o.col(),
            !mode ==> self.mode() == o.mode(),
            !pending ==> self.pending() == o.pending(),
            !anchor ==> self.anchor() == o.anchor(),
            !kind ==> self.last_kind() == o.last_kind(),
            !cursor ==> (self.wf() && (o.cursor_ok() ==> self.cursor_ok())),
    {
    }

    /// The last edit kind, reset.
    pub open spec fn kind_reset(&self, o: &Self) -> bool {
        self.same_but(o, false, false, false, false, true, false) && self.last_kind() is None
    }
}

/// A key press as the window reports it.
pub struct Keystroke {
    pub key: String,
    /// The text the key types, if any.
    pub key_char: Option<String>,
    pub platform: bool,
    pub shift: bool,
    pub alt: bool,
    pub control: bool,
}

/// A key press as values.
pub struct KeyView {
    pub key: Seq<char>,
    pub key_char: Option<Seq<char>>,
    pub platform: bool,
    pub shift: bool,
    pub alt: bool,
    pub control: bool,
}

impl View for Keystroke {
    type V = KeyView;

    open spec fn view(&self) -> KeyView {
        KeyView {
            key: self.key@,
            key_char: match self.key_char {
                Some(c) => Some(c@),
                None => None,
            },
            platform: self.platform,
            shift: self.shift,
            alt: self.alt,
            control: self.control,
        }
    }
}

/// The text a key types, or else its name.
pub open spec fn typed(k: KeyView) -> Seq<char> {
    match k.key_char {
        Some(c) => c,
        None => k.key,
    }
}

/// The outcome of a key for the buffer.
#[derive(Clone, Copy, PartialEq, Eq, Debug, Structural)]
pub enum KeyResult {
    Handled,
    Unhandled,
    /// The key edits at the cursor, selection or visual range, which does
    /// not lie on character boundaries within the buffer (a state the
    /// edit cannot start from).
    OffBoundary,
}

impl FileViewer {
    /// Whether the cursor lies within its line, on a character boundary.
    pub fn cursor_on_boundary(&self) -> (r: bool)
        requires
            self.wf(),
        ensures
            r == self.cursor_ok(),
    {
        let line = &self.buffer[self.cursor_row];
        self.cursor_col <= line.len() && is_boundary(line, self.cursor_col)
    }

    /// Whether the cursor column lies within its line.
    pub fn cursor_in_line(&self) -> (r: bool)
        requires
            self.wf(),
        ensures
            r == self.col_in_line(),
    {
        self.cursor_col <= self.buffer[self.cursor_row].len()
    }

    /// Whether the visual range can be cut (see [`visual_cuttable`]).
    pub fn visual_range_cuttable(&self) -> (r: bool)
        requires
            self.wf(),
        ensures
            r == visual_cuttable(self),
    {
        let (sr, sc, er, ec) = self.visual_range();
        if er >= self.buffer.len() {
            return false;
        }
        let len = self.buffer[er].len();
        let end = if ec < len { ec + 1 } else { len };
        if !is_boundary(&self.buffer[er], end) {
            return false;
        }
        if sr == er {
            sc >= end || is_boundary(&self.buffer[sr], sc)
        } else {
            sc >= self.buffer[sr].len() || is_boundary(&self.buffer[sr], sc)
        }
    }
}

/// With `ok`, `rel` holds and the key was handled; without, the key could
/// not start its edit.
pub open spec fn guarded(ok: bool, rel: bool, r: KeyResult) -> bool {
    if ok {
        rel && r == KeyResult::Handled
    } else {
        r == KeyResult::OffBoundary
    }
}

/// Nothing changed and the key was not handled.
pub open spec fn untouched(o: &FileViewer, n: &FileViewer, r: KeyResult) -> bool {
    r == KeyResult::Unhandled && n.same_but(o, false, false, false, false, false, false)
}

/// What a plain (non-vim or vim-insert) key does: arrows, home and end
/// move; enter, backspace, delete and tab edit; any other key types its
/// text; edits need the cursor on a character boundary.
pub open spec fn normal_key_spec(o: &FileViewer, n: &FileViewer, k: KeyView, now_ms: u64, r: KeyResult) -> bool {
    let key = k.key;
    if key == "left"@ {
        r == KeyResult::Handled && exists|m: FileViewer| #[trigger] m.kind_reset(o) && moved_left(&m, n)
    } else if key == "right"@ {
        r == KeyResult::Handled && exists|m: FileViewer| #[trigger] m.kind_reset(o) && moved_right(&m, n)
    } else if key == "up"@ {
        r == KeyResult::Handled && exists|m: FileViewer| #[trigger] m.kind_reset(o) && moved_up(&m, n)
    } else if key == "down"@ {
        r == KeyResult::Handled && exists|m: FileViewer| #[trigger] m.kind_reset(o) && moved_down(&m, n)
    } else if key == "home"@ {
        r == KeyResult::Handled && exists|m: FileViewer| #[trigger] m.kind_reset(o) && moved_line_start(&m, n)
    } else if key == "end"@ {
        r == KeyResult::Handled && exists|m: FileViewer| #[trigger] m.kind_reset(o) && moved_line_end(&m, n)
    } else if key == "enter"@ {
        guarded(o.cursor_ok(), inserted_newline(o, n, now_ms), r)
    } else if key == "backspace"@ {
        guarded(o.cursor_ok(), deleted_backward(o, n, now_ms), r)
    } else if key == "delete"@ {
        guarded(o.cursor_ok(), deleted_forward(o, n, now_ms), r)
    } else if key == "tab"@ {
        guarded(o.cursor_ok(), inserted_tab(o, n, now_ms), r)
    } else {
        match k.key_char {
            Some(c) => if c.len() > 0 {
                guarded(o.cursor_ok(), exists|t: &str| t@ == c && #[trigger] inserted_text(o, n, t, now_ms), r)
            } else {
                untouched(o, n, r)
            },
            None => untouched(o, n, r),
        }
    }
}

impl FileViewer {
    /// A key in plain editing (also vim insert mode).
    pub fn handle_key_down_normal(&mut self, ks: &Keystroke, now_ms: u64) -> (r: KeyResult)
        requires
            old(self).wf(),
        ensures
            final(self).wf(),
            normal_key_spec(old(self), final(self), ks@, now_ms, r),
    {
        let key = ks.key.as_str();
        if str_eq(key, "left") {
            self.last_edit_kind = None;
            let ghost m = *self;
            assert(m.kind_reset(old(self)));
            self.move_left();
        } else if str_eq(key, "right") {
            self.last_edit_kind = None;
            let ghost m = *self;
            assert(m.kind_reset(old(self)));
            self.move_right();
        } else if str_eq(key, "up") {
            self.last_edit_kind = None;
            let ghost m = *self;
            assert(m.kind_reset(old(self)));
            self.move_up();
        } else if str_eq(key, "down") {
            self.last_edit_kind = None;
            let ghost m = *self;
            assert(m.kind_reset(old(self)));
            self.move_down();
        } else if str_eq(key, "home") {
            self.last_edit_kind = None;
            let ghost m = *self;
            assert(m.kind_reset(old(self)));
            self.move_to_line_start();
        } else if str_eq(key, "end") {
            self.last_edit_kind = None;
            let ghost m = *self;
            assert(m.kind_reset(old(self)));
            self.move_to_line_end();
        } else if str_eq(key, "enter") || str_eq(key, "backspace") || str_eq(key, "delete") || str_eq(key, "tab") {
            if !self.cursor_on_boundary() {
                return KeyResult::OffBoundary;
            }
            if str_eq(key, "enter") {
                self.insert_newline(now_ms);
            } else if str_eq(key, "backspace") {
                self.delete_backward(now_ms);
            } else if str_eq(key, "delete") {
                self.delete_forward(now_ms);
            } else {
                self.insert_tab(now_ms);
            }
        } else {
            match &ks.key_char {
                Some(c) => {
                    if !c.as_str().is_empty() {
                        if !self.cursor_on_boundary() {
                            return KeyResult::OffBoundary;
                        }
                        self.insert_text(c.as_str(), now_ms);
                    } else {
                        return KeyResult::Unhandled;
                    }
                },
                None => {
                    return KeyResult::Unhandled;
                },
            }
        }
        KeyResult::Handled
    }
}


/// The visual selection can be cut: its ends lie in the buffer, on
/// character boundaries.
pub open spec fn visual_cuttable(o: &FileViewer) -> bool {
    span_cuttable(o.buf(), o.vis_range().0, o.vis_range().1, o.vis_range().2, o.vis_end())
}

/// `n` is `o` in vim mode `md`, nothing else changed.
pub open spec fn mode_set(o: &FileViewer, n: &FileViewer, md: VimMode) -> bool {
    n.same_but(o, false, true, false, false, false, false) && n.mode() == md
}

/// `n` is `o` with the pending vim key `p`, nothing else changed.
pub open spec fn pending_set(o: &FileViewer, n: &FileViewer, p: Option<char>) -> bool {
    n.same_but(o, false, false, true, false, false, false) && n.pending() == p
}

/// `n` is `o` with the cursor on row `r` and its column clamped onto it.
pub open spec fn row_jumped(o: &FileViewer, n: &FileViewer, r: int) -> bool {
    &&& n.same_but(o, true, false, false, false, false, false)
    &&& n.row() == r
    &&& is_clamped(o.buf()[r], o.col(), n.col())
}

pub open spec fn done(rel: bool, r: KeyResult) -> bool {
    rel && r == KeyResult::Handled
}

/// What a key does in vim normal mode with no key pending: mode keys
/// (i a A I o O v V), motions (h j k l w b e 0 $ ^ G and the arrows), edits
/// (x u), the prefixes d and g, and p (no register yet); the typed text is
/// matched first, then the key name.
pub open spec fn vim_normal_key(o: &FileViewer, n: &FileViewer, k: KeyView, now_ms: u64, r: KeyResult) -> bool {
    let ch = typed(k);
    if ch == "i"@ {
        done(mode_set(o, n, VimMode::Insert), r)
    } else if ch == "a"@ {
        done(exists|m: FileViewer| #[trigger] moved_right(o, &m) && mode_set(&m, n, VimMode::Insert), r)
    } else if ch == "A"@ {
        done(exists|m: FileViewer| #[trigger] moved_line_end(o, &m) && mode_set(&m, n, VimMode::Insert), r)
    } else if ch == "I"@ {
        done(exists|m: FileViewer| #[trigger] moved_first_non_blank(o, &m) && mode_set(&m, n, VimMode::Insert), r)
    } else if ch == "o"@ {
        done(opened_line_below(o, n, now_ms), r)
    } else if ch == "O"@ {
        done(opened_line_above(o, n, now_ms), r)
    } else if ch == "v"@ {
        done(n.same_but(o, false, true, false, true, false, false) && n.mode() == VimMode::Visual
            && n.anchor() == (o.row(), o.col()), r)
    } else if ch == "V"@ {
        done(n.same_but(o, false, true, false, true, false, false) && n.mode() == VimMode::VisualLine
            && n.anchor() == (o.row(), 0int), r)
    } else if ch == "h"@ {
        done(moved_left(o, n), r)
    } else if ch == "j"@ {
        done(moved_down(o, n), r)
    } else if ch == "k"@ {
        done(moved_up(o, n), r)
    } else if ch == "l"@ {
        done(moved_right(o, n), r)
    } else if ch == "w"@ {
        done(moved_word_forward(o, n), r)
    } else if ch == "b"@ {
        guarded(o.col_in_line(), moved_word_backward(o, n), r)
    } else if ch == "e"@ {
        done(moved_word_end(o, n), r)
    } else if ch == "0"@ {
        done(moved_line_start(o, n), r)
    } else if ch == "$"@ {
        done(moved_line_end(o, n), r)
    } else if ch == "^"@ {
        done(moved_first_non_blank(o, n), r)
    } else if ch == "G"@ {
        done(row_jumped(o, n, o.buf().len() - 1), r)
    } else if ch == "x"@ {
        guarded(o.cursor_ok(), deleted_char_at_cursor(o, n, now_ms), r)
    } else if ch == "d"@ {
        done(pending_set(o, n, Some('d')), r)
    } else if ch == "g"@ {
        done(pending_set(o, n, Some('g')), r)
    } else if ch == "u"@ {
        done(did_undo(o, n), r)
    } else if ch == "p"@ {
        done(n.same_but(o, false, false, false, false, false, false), r)
    } else if k.key == "left"@ {
        done(moved_left(o, n), r)
    } else if k.key == "right"@ {
        done(moved_right(o, n), r)
    } else if k.key == "up"@ {
        done(moved_up(o, n), r)
    } else if k.key == "down"@ {
        done(moved_down(o, n), r)
    } else {
        untouched(o, n, r)
    }
}

/// What a key does in vim normal mode: with a key pending, the pending key
/// is dropped and `dd` deletes the line, `gg` goes to the top; otherwise
/// [`vim_normal_key`].
pub open spec fn vim_normal_spec(o: &FileViewer, n: &FileViewer, k: KeyView, now_ms: u64, r: KeyResult) -> bool {
    let ch = typed(k);
    match o.pending() {
        Some(p) => {
            &&& r == KeyResult::Handled
            &&& if p == 'd' && ch == "d"@ {
                exists|m: FileViewer| #[trigger] pending_set(o, &m, None) && deleted_line(&m, n, now_ms)
            } else if p == 'g' && ch == "g"@ {
                &&& n.same_but(o, true, false, true, false, false, false)
                &&& n.pending() is None
                &&& n.row() == 0
                &&& n.col() == 0
            } else {
                pending_set(o, n, None)
            }
        },
        None => vim_normal_key(o, n, k, now_ms, r),
    }
}

impl FileViewer {
    /// A key in vim normal mode.
    #[verifier::rlimit(80)]
    #[verifier::spinoff_prover]
    pub fn handle_vim_normal(&mut self, ks: &Keystroke, now_ms: u64) -> (r: KeyResult)
        requires
            old(self).wf(),
        ensures
            final(self).wf(),
            vim_normal_spec(old(self), final(self), ks@, now_ms, r),
    {
        let key = ks.key.as_str();
        let ch = match &ks.key_char {
            Some(c) => c.as_str(),
            None => key,
        };
        assert(ch@ == typed(ks@));
        match self.vim_pending {
            Some(p) => {
                self.vim_pending = None;
                let ghost m = *self;
                assert(pending_set(old(self), &m, None));
                if p == 'd' && str_eq(ch, "d") {
                    self.delete_line(now_ms);
                } else if p == 'g' && str_eq(ch, "g") {
                    self.cursor_row = 0;
                    self.cursor_col = 0;
                    self.clamp_col();
                }
                return KeyResult::Handled;
            },
            None => {},
        }
        if str_eq(ch, "i") {
            self.vim_mode = VimMode::Insert;
        } else if str_eq(ch, "a") {
            self.move_right();
            let ghost m = *self;
            self.vim_mode = VimMode::Insert;
            assert(moved_right(old(self), &m));
        } else if str_eq(ch, "A") {
            self.move_to_line_end();
            let ghost m = *self;
            self.vim_mode = VimMode::Insert;
            assert(moved_line_end(old(self), &m));
        } else if str_eq(ch, "I") {
            self.move_to_first_non_blank();
            let ghost m = *self;
            self.vim_mode = VimMode::Insert;
            assert(moved_first_non_blank(old(self), &m));
        } else if str_eq(ch, "o") {
            self.open_line_below(now_ms);
        } else if str_eq(ch, "O") {
            self.open_line_above(now_ms);
        } else if str_eq(ch, "v") {
            self.vim_mode = VimMode::Visual;
            self.visual_anchor_row = self.cursor_row;
            self.visual_anchor_col = self.cursor_col;
        } else if str_eq(ch, "V") {
            self.vim_mode = VimMode::VisualLine;
            self.visual_anchor_row = self.cursor_row;
            self.visual_anchor_col = 0;
        } else if str_eq(ch, "h") {
            self.move_left();
        } else if str_eq(ch, "j") {
            self.move_down();
        } else if str_eq(ch, "k") {
            self.move_up();
        } else if str_eq(ch, "l") {
            self.move_right();
        } else if str_eq(ch, "w") {
            self.move_word_forward();
        } else if str_eq(ch, "b") {
            if !self.cursor_in_line() {
                return KeyResult::OffBoundary;
            }
            self.move_word_backward();
        } else if str_eq(ch, "e") {
            self.move_word_end();
        } else if str_eq(ch, "0") {
            self.move_to_line_start();
        } else if str_eq(ch, "$") {
            self.move_to_line_end();
        } else if str_eq(ch, "^") {
            self.move_to_first_non_blank();
        } else if str_eq(ch, "G") {
            self.cursor_row = self.buffer.len() - 1;
            self.clamp_col();
        } else if str_eq(ch, "x") {
            if !self.cursor_on_boundary() {
                return KeyResult::OffBoundary;
            }
            self.delete_char_at_cursor(now_ms);
        } else if str_eq(ch, "d") {
            self.vim_pending = Some('d');
        } else if str_eq(ch, "g") {
            self.vim_pending = Some('g');
        } else if str_eq(ch, "u") {
            self.undo();
        } else if str_eq(ch, "p") {
        } else if str_eq(key, "left") {
            self.move_left();
        } else if str_eq(key, "right") {
            self.move_right();
        } else if str_eq(key, "up") {
            self.move_up();
        } else if str_eq(key, "down") {
            self.move_down();
        } else {
            return KeyResult::Unhandled;
        }
        KeyResult::Handled
    }
}

/// What a key does in vim visual mode: motions move the cursor (the
/// anchor stays), d and x delete the selection and return to normal mode,
/// escape returns to normal mode.
pub open spec fn vim_visual_spec(o: &FileViewer, n: &FileViewer, k: KeyView, now_ms: u64, r: KeyResult) -> bool {
    let ch = typed(k);
    if ch == "h"@ || ch == "left"@ {
        done(moved_left(o, n), r)
    } else if ch == "j"@ || ch == "down"@ {
        done(moved_down(o, n), r)
    } else if ch == "k"@ || ch == "up"@ {
        done(moved_up(o, n), r)
    } else if ch == "l"@ || ch == "right"@ {
        done(moved_right(o, n), r)
    } else if ch == "w"@ {
        done(moved_word_forward(o, n), r)
    } else if ch == "b"@ {
        guarded(o.col_in_line(), moved_word_backward(o, n), r)
    } else if ch == "0"@ {
        done(moved_line_start(o, n), r)
    } else if ch == "$"@ {
        done(moved_line_end(o, n), r)
    } else if ch == "d"@ || ch == "x"@ {
        guarded(
            visual_cuttable(o),
            exists|m: FileViewer| #[trigger] deleted_visual_selection(o, &m, now_ms) && mode_set(&m, n, VimMode::Normal),
            r,
        )
    } else if k.key == "escape"@ {
        done(mode_set(o, n, VimMode::Normal), r)
    } else {
        untouched(o, n, r)
    }
}

/// What a key does in vim visual-line mode: j and k move, G goes to the
/// last row (the column is kept as it is), d and x delete the selected
/// lines, y and escape return to normal mode, v switches to visual mode.
pub open spec fn vim_visual_line_spec(o: &FileViewer, n: &FileViewer, k: KeyView, now_ms: u64, r: KeyResult) -> bool {
    let ch = typed(k);
    if ch == "j"@ || ch == "down"@ {
        done(moved_down(o, n), r)
    } else if ch == "k"@ || ch == "up"@ {
        done(moved_up(o, n), r)
    } else if ch == "G"@ {
        done(n.same_but(o, true, false, false, false, false, false) && n.row() == o.buf().len() - 1
            && n.col() == o.col(), r)
    } else if ch == "d"@ || ch == "x"@ {
        guarded(
            o.anchor().0 < o.buf().len(),
            exists|m: FileViewer| #[trigger] deleted_visual_lines(o, &m, now_ms) && mode_set(&m, n, VimMode::Normal),
            r,
        )
    } else if ch == "y"@ {
        done(mode_set(o, n, VimMode::Normal), r)
    } else if ch == "v"@ {
        done(mode_set(o, n, VimMode::Visual), r)
    } else if k.key == "escape"@ {
        done(mode_set(o, n, VimMode::Normal), r)
    } else {
        untouched(o, n, r)
    }
}

impl FileViewer {
    /// A key in vim visual mode.
    #[verifier::rlimit(40)]
    pub fn handle_vim_visual(&mut self, ks: &Keystroke, now_ms: u64) -> (r: KeyResult)
        requires
            old(self).wf(),
        ensures
            final(self).wf(),
            vim_visual_spec(old(self), final(self), ks@, now_ms, r),
    {
        let key = ks.key.as_str();
        let ch = match &ks.key_char {
            Some(c) => c.as_str(),
            None => key,
        };
        assert(ch@ == typed(ks@));
        if str_eq(ch, "h") || str_eq(ch, "left") {
            self.move_left();
        } else if str_eq(ch, "j") || str_eq(ch, "down") {
            self.move_down();
        } else if str_eq(ch, "k") || str_eq(ch, "up") {
            self.move_up();
        } else if str_eq(ch, "l") || str_eq(ch, "right") {
            self.move_right();
        } else if str_eq(ch, "w") {
            self.move_word_forward();
        } else if str_eq(ch, "b") {
            if !self.cursor_in_line() {
                return KeyResult::OffBoundary;
            }
            self.move_word_backward();
        } else if str_eq(ch, "0") {
            self.move_to_line_start();
        } else if str_eq(ch, "$") {
            self.move_to_line_end();
        } else if str_eq(ch, "d") || str_eq(ch, "x") {
            if !self.visual_range_cuttable() {
                return KeyResult::OffBoundary;
            }
            self.delete_visual_selection(now_ms);
            let ghost m = *self;
            self.vim_mode = VimMode::Normal;
            assert(deleted_visual_selection(old(self), &m, now_ms));
        } else if str_eq(key, "escape") {
            self.vim_mode = VimMode::Normal;
        } else {
            return KeyResult::Unhandled;
        }
        KeyResult::Handled
    }

    /// A key in vim visual-line mode.
    #[verifier::rlimit(40)]
    pub fn handle_vim_visual_line(&mut self, ks: &Keystroke, now_ms: u64) -> (r: KeyResult)
        requires
            old(self).wf(),
        ensures
            final(self).wf(),
            vim_visual_line_spec(old(self), final(self), ks@, now_ms, r),
    {
        let key = ks.key.as_str();
        let ch = match &ks.key_char {
            Some(c) => c.as_str(),
            None => key,
        };
        assert(ch@ == typed(ks@));
        if str_eq(ch, "j") || str_eq(ch, "down") {
            self.move_down();
        } else if str_eq(ch, "k") || str_eq(ch, "up") {
            self.move_up();
        } else if str_eq(ch, "G") {
            self.cursor_row = self.buffer.len() - 1;
        } else if str_eq(ch, "d") || str_eq(ch, "x") {
            if self.visual_anchor_row >= self.buffer.len() {
                return KeyResult::OffBoundary;
            }
            self.delete_visual_line_selection(now_ms);
            let ghost m = *self;
            self.vim_mode = VimMode::Normal;
            assert(deleted_visual_lines(old(self), &m, now_ms));
        } else if str_eq(ch, "y") {
            self.vim_mode = VimMode::Normal;
        } else if str_eq(ch, "v") {
            self.vim_mode = VimMode::Visual;
        } else if str_eq(key, "escape") {
            self.vim_mode = VimMode::Normal;
        } else {
            return KeyResult::Unhandled;
        }
        KeyResult::Handled
    }
}


/// What `toggle_line_comment_with` does to the viewer.
pub open spec fn toggled_comment(o: &FileViewer, n: &FileViewer, prefix: Seq<u8>, now_ms: u64) -> bool {
    &&& n.wf()
    &&& ({
                let (s, e) = o.comment_span();
                let ls = o.buf();
                if s > e || forall|r: int| s <= r <= e ==> blank(#[trigger] ls[r]) {
                    &&& n.frame(o)
                    &&& n.row() == o.row()
                    &&& n.col() == o.col()
                } else {
                    exists|m: int| #[trigger] is_min_indent(ls, s, e, m) && {
                        let uncomment = forall|r: int| s <= r <= e && !blank(#[trigger] ls[r]) ==> commented_at(ls[r], m, prefix);
                        &&& n.buf() == toggle_rows(ls, s, e, m, prefix, uncomment)
                        &&& n.row() == o.row()
                        &&& is_clamped(n.buf()[n.row()], o.col(), n.col())
                        &&& n.is_dirty()
                        &&& recorded(n, o, EditKind::Other, now_ms)
                        &&& n.keeps_view_state(o)
                    }
                }
            })
}

/// The line comment token for a file extension, when the language has one.
pub open spec fn comment_prefix_for(ext: Seq<char>) -> Option<Seq<char>> {
    if ext == "rs"@ || ext == "js"@ || ext == "mjs"@ || ext == "cjs"@ || ext == "jsx"@ || ext == "ts"@
        || ext == "mts"@ || ext == "cts"@ || ext == "tsx"@ || ext == "go"@ || ext == "swift"@ || ext
        == "kt"@ || ext == "kts"@ || ext == "java"@ || ext == "c"@ || ext == "cc"@ || ext == "cpp"@
        || ext == "cxx"@ || ext == "h"@ || ext == "hh"@ || ext == "hpp"@ || ext == "cs"@ || ext
        == "scala"@ || ext == "dart"@ || ext == "groovy"@ {
        Some("//"@)
    } else if ext == "py"@ || ext == "pyi"@ || ext == "toml"@ || ext == "sh"@ || ext == "bash"@ || ext
        == "zsh"@ || ext == "fish"@ || ext == "rb"@ || ext == "yaml"@ || ext == "yml"@ || ext == "conf"@
        || ext == "ini"@ || ext == "r"@ || ext == "pl"@ || ext == "elixir"@ || ext == "ex"@ || ext
        == "exs"@ || ext == "nix"@ || ext == "dockerfile"@ || ext == "makefile"@ || ext == "mk"@ {
        Some("#"@)
    } else if ext == "lua"@ || ext == "sql"@ || ext == "hs"@ || ext == "elm"@ {
        Some("--"@)
    } else {
        None
    }
}

/// The comment token of each language: `//` for the C family, JavaScript
/// and TypeScript, Rust, Go, Swift, Kotlin, Java, C#, Scala, Dart and Groovy;
/// `#` for Python, TOML, the shells, Ruby, YAML, config and ini files, R,
/// Perl, Elixir, Nix, Dockerfiles and Makefiles; `--` for Lua, SQL, Haskell
/// and Elm.
pub proof fn lemma_comment_tokens(ext: Seq<char>)
    ensures
        ext == "rs"@ || ext == "js"@ || ext == "mjs"@ || ext == "cjs"@ || ext == "jsx"@ || ext == "ts"@ || ext == "mts"@ || ext == "cts"@ || ext == "tsx"@ || ext == "go"@ || ext == "swift"@ || ext == "kt"@ || ext == "kts"@ || ext == "java"@ || ext == "c"@ || ext == "cc"@ || ext == "cpp"@ || ext == "cxx"@ || ext == "h"@ || ext == "hh"@ || ext == "hpp"@ || ext == "cs"@ || ext == "scala"@ || ext == "dart"@ || ext == "groovy"@ ==> comment_prefix_for(ext) == Some("//"@),
        ext == "py"@ || ext == "pyi"@ || ext == "toml"@ || ext == "sh"@ || ext == "bash"@ || ext == "zsh"@ || ext == "fish"@ || ext == "rb"@ || ext == "yaml"@ || ext == "yml"@ || ext == "conf"@ || ext == "ini"@ || ext == "r"@ || ext == "pl"@ || ext == "elixir"@ || ext == "ex"@ || ext == "exs"@ || ext == "nix"@ || ext == "dockerfile"@ || ext == "makefile"@ || ext == "mk"@ ==> comment_prefix_for(ext) == Some("#"@),
        ext == "lua"@ || ext == "sql"@ || ext == "hs"@ || ext == "elm"@ ==> comment_prefix_for(ext) == Some("--"@),
{
    reveal_strlit("rs");
    reveal_strlit("js");
    reveal_strlit("mjs");
    reveal_strlit("cjs");
    reveal_strlit("jsx");
    reveal_strlit("ts");
    reveal_strlit("mts");
    reveal_strlit("cts");
    reveal_strlit("tsx");
    reveal_strlit("go");
    reveal_strlit("swift");
    reveal_strlit("kt");
    reveal_strlit("kts");
    reveal_strlit("java");
    reveal_strlit("c");
    reveal_strlit("cc");
    reveal_strlit("cpp");
    reveal_strlit("cxx");
    reveal_strlit("h");
    reveal_strlit("hh");
    reveal_strlit("hpp");
    reveal_strlit("cs");
    reveal_strlit("scala");
    reveal_strlit("dart");
    reveal_strlit("groovy");
    reveal_strlit("py");
    reveal_strlit("pyi");
    reveal_strlit("toml");
    reveal_strlit("sh");
    reveal_strlit("bash");
    reveal_strlit("zsh");
    reveal_strlit("fish");
    reveal_strlit("rb");
    reveal_strlit("yaml");
    reveal_strlit("yml");
    reveal_strlit("conf");
    reveal_strlit("ini");
    reveal_strlit("r");
    reveal_strlit("pl");
    reveal_strlit("elixir");
    reveal_strlit("ex");
    reveal_strlit("exs");
    reveal_strlit("nix");
    reveal_strlit("dockerfile");
    reveal_strlit("makefile");
    reveal_strlit("mk");
    reveal_strlit("lua");
    reveal_strlit("sql");
    reveal_strlit("hs");
    reveal_strlit("elm");
    reveal_strlit("//");
    reveal_strlit("#");
    reveal_strlit("--");
    if ext == "rs"@ {
        assert(ext.len() == 2 && ext[0] == 'r' && ext[1] == 's');
    }
    if ext == "js"@ {
        assert(ext.len() == 2 && ext[0] == 'j' && ext[1] == 's');
    }
    if ext == "mjs"@ {
        assert(ext.len() == 3 && ext[0] == 'm' && ext[1] == 'j' && ext[2] == 's');
    }
    if ext == "cjs"@ {
        assert(ext.len() == 3 && ext[0] == 'c' && ext[1] == 'j' && ext[2] == 's');
    }
    if ext == "jsx"@ {
        assert(ext.len() == 3 && ext[0] == 'j' && ext[1] == 's' && ext[2] == 'x');
    }
    if ext == "ts"@ {
        assert(ext.len() == 2 && ext[0] == 't' && ext[1] == 's');
    }
    if ext == "mts"@ {
        assert(ext.len() == 3 && ext[0] == 'm' && ext[1] == 't' && ext[2] == 's');
    }
    if ext == "cts"@ {
        assert(ext.len() == 3 && ext[0] == 'c' && ext[1] == 't' && ext[2] == 's');
    }
    if ext == "tsx"@ {
        assert(ext.len() == 3 && ext[0] == 't' && ext[1] == 's' && ext[2] == 'x');
    }
    if ext == "go"@ {
        assert(ext.len() == 2 && ext[0] == 'g' && ext[1] == 'o');
    }
    if ext == "swift"@ {
        assert(ext.len() == 5 && ext[0] == 's' && ext[1] == 'w' && ext[2] == 'i' && ext[3] == 'f' && ext[4] == 't');
    }
    if ext == "kt"@ {
        assert(ext.len() == 2 && ext[0] == 'k' && ext[1] == 't');
    }
    if ext == "kts"@ {
        assert(ext.len() == 3 && ext[0] == 'k' && ext[1] == 't' && ext[2] == 's');
    }
    if ext == "java"@ {
        assert(ext.len() == 4 && ext[0] == 'j' && ext[1] == 'a' && ext[2] == 'v' && ext[3] == 'a');
    }
    if ext == "c"@ {
        assert(ext.len() == 1 && ext[0] == 'c');
    }
    if ext == "cc"@ {
        assert(ext.len() == 2 && ext[0] == 'c' && ext[1] == 'c');
    }
    if ext == "cpp"@ {
        assert(ext.len() == 3 && ext[0] == 'c' && ext[1] == 'p' && ext[2] == 'p');
    }
    if ext == "cxx"@ {
        assert(ext.len() == 3 && ext[0] == 'c' && ext[1] == 'x' && ext[2] == 'x');
    }
    if ext == "h"@ {
        assert(ext.len() == 1 && ext[0] == 'h');
    }
    if ext == "hh"@ {
        assert(ext.len() == 2 && ext[0] == 'h' && ext[1] == 'h');
    }
    if ext == "hpp"@ {
        assert(ext.len() == 3 && ext[0] == 'h' && ext[1] == 'p' && ext[2] == 'p');
    }
    if ext == "cs"@ {
        assert(ext.len() == 2 && ext[0] == 'c' && ext[1] == 's');
    }
    if ext == "scala"@ {
        assert(ext.len() == 5 && ext[0] == 's' && ext[1] == 'c' && ext[2] == 'a' && ext[3] == 'l' && ext[4] == 'a');
    }
    if ext == "dart"@ {
        assert(ext.len() == 4 && ext[0] == 'd' && ext[1] == 'a' && ext[2] == 'r' && ext[3] == 't');
    }
    if ext == "groovy"@ {
        assert(ext.len() == 6 && ext[0] == 'g' && ext[1] == 'r' && ext[2] == 'o' && ext[3] == 'o' && ext[4] == 'v' && ext[5] == 'y');
    }
    if ext == "py"@ {
        assert(ext.len() == 2 && ext[0] == 'p' && ext[1] == 'y');
    }
    if ext == "pyi"@ {
        assert(ext.len() == 3 && ext[0] == 'p' && ext[1] == 'y' && ext[2] == 'i');
    }
    if ext == "toml"@ {
        assert(ext.len() == 4 && ext[0] == 't' && ext[1] == 'o' && ext[2] == 'm' && ext[3] == 'l');
    }
    if ext == "sh"@ {
        assert(ext.len() == 2 && ext[0] == 's' && ext[1] == 'h');
    }
    if ext == "bash"@ {
        assert(ext.len() == 4 && ext[0] == 'b' && ext[1] == 'a' && ext[2] == 's' && ext[3] == 'h');
    }
    if ext == "zsh"@ {
        assert(ext.len() == 3 && ext[0] == 'z' && ext[1] == 's' && ext[2] == 'h');
    }
    if ext == "fish"@ {
        assert(ext.len() == 4 && ext[0] == 'f' && ext[1] == 'i' && ext[2] == 's' && ext[3] == 'h');
    }
    if ext == "rb"@ {
        assert(ext.len() == 2 && ext[0] == 'r' && ext[1] == 'b');
    }
    if ext == "yaml"@ {
        assert(ext.len() == 4 && ext[0] == 'y' && ext[1] == 'a' && ext[2] == 'm' && ext[3] == 'l');
    }
    if ext == "yml"@ {
        assert(ext.len() == 3 && ext[0] == 'y' && ext[1] == 'm' && ext[2] == 'l');
    }
    if ext == "conf"@ {
        assert(ext.len() == 4 && ext[0] == 'c' && ext[1] == 'o' && ext[2] == 'n' && ext[3] == 'f');
    }
    if ext == "ini"@ {
        assert(ext.len() == 3 && ext[0] == 'i' && ext[1] == 'n' && ext[2] == 'i');
    }
    if ext == "r"@ {
        assert(ext.len() == 1 && ext[0] == 'r');
    }
    if ext == "pl"@ {
        assert(ext.len() == 2 && ext[0] == 'p' && ext[1] == 'l');
    }
    if ext == "elixir"@ {
        assert(ext.len() == 6 && ext[0] == 'e' && ext[1] == 'l' && ext[2] == 'i' && ext[3] == 'x' && ext[4] == 'i' && ext[5] == 'r');
    }
    if ext == "ex"@ {
        assert(ext.len() == 2 && ext[0] == 'e' && ext[1] == 'x');
    }
    if ext == "exs"@ {
        assert(ext.len() == 3 && ext[0] == 'e' && ext[1] == 'x' && ext[2] == 's');
    }
    if ext == "nix"@ {
        assert(ext.len() == 3 && ext[0] == 'n' && ext[1] == 'i' && ext[2] == 'x');
    }
    if ext == "dockerfile"@ {
        assert(ext.len() == 10 && ext[0] == 'd' && ext[1] == 'o' && ext[2] == 'c' && ext[3] == 'k' && ext[4] == 'e' && ext[5] == 'r' && ext[6] == 'f' && ext[7] == 'i' && ext[8] == 'l' && ext[9] == 'e');
    }
    if ext == "makefile"@ {
        assert(ext.len() == 8 && ext[0] == 'm' && ext[1] == 'a' && ext[2] == 'k' && ext[3] == 'e' && ext[4] == 'f' && ext[5] == 'i' && ext[6] == 'l' && ext[7] == 'e');
    }
    if ext == "mk"@ {
        assert(ext.len() == 2 && ext[0] == 'm' && ext[1] == 'k');
    }
    if ext == "lua"@ {
        assert(ext.len() == 3 && ext[0] == 'l' && ext[1] == 'u' && ext[2] == 'a');
    }
    if ext == "sql"@ {
        assert(ext.len() == 3 && ext[0] == 's' && ext[1] == 'q' && ext[2] == 'l');
    }
    if ext == "hs"@ {
        assert(ext.len() == 2 && ext[0] == 'h' && ext[1] == 's');
    }
    if ext == "elm"@ {
        assert(ext.len() == 3 && ext[0] == 'e' && ext[1] == 'l' && ext[2] == 'm');
    }
}

/// Whether `ext` is one of `names`.
fn ext_in(ext: &str, names: &[&str]) -> (r: bool)
    ensures
        r == exists|i: int| 0 <= i < names@.len() && ext@ == (#[trigger] names@[i])@,
{
    let mut i: usize = 0;
    while i < names.len()
        invariant
            0 <= i <= names.len(),
            forall|j: int| 0 <= j < i ==> ext@ != (#[trigger] names@[j])@,
        decreases names.len() - i,
    {
        if str_eq(ext, names[i]) {
            return true;
        }
        i += 1;
    }
    false
}

/// The comment token for an extension.
pub fn comment_prefix(ext: &str) -> (r: Option<&'static str>)
    ensures
        match r {
            Some(p) => comment_prefix_for(ext@) == Some(p@),
            None => comment_prefix_for(ext@) is None,
        },
{
    let slash = ["rs", "js", "mjs", "cjs", "jsx", "ts", "mts", "cts", "tsx", "go", "swift", "kt", "kts", "java", "c", "cc", "cpp", "cxx", "h", "hh", "hpp", "cs", "scala", "dart", "groovy"];
    let hash = ["py", "pyi", "toml", "sh", "bash", "zsh", "fish", "rb", "yaml", "yml", "conf", "ini", "r", "pl", "elixir", "ex", "exs", "nix", "dockerfile", "makefile", "mk"];
    let dash = ["lua", "sql", "hs", "elm"];
    if ext_in(ext, &slash) {
        proof {
            let i = choose|i: int| 0 <= i < slash@.len() && ext@ == (#[trigger] slash@[i])@;
            assert(ext@ == slash@[i]@);
        }
        return Some("//");
    }
    if ext_in(ext, &hash) {
        return Some("#");
    }
    if ext_in(ext, &dash) {
        return Some("--");
    }
    None
}


/// The comment toggle can insert or remove its token: the smallest indent
/// of the non-blank rows in the span falls on a character boundary of each.
pub open spec fn comment_ready(o: &FileViewer) -> bool {
    let (s, e) = o.comment_span();
    forall|m: int, r: int| #![trigger is_min_indent(o.buf(), s, e, m), o.buf()[r]]
        is_min_indent(o.buf(), s, e, m) && s <= r <= e && !blank(o.buf()[r]) ==> boundary(o.buf()[r], m)
}

/// The path's comment token, when its language has one.
pub open spec fn viewer_prefix(o: &FileViewer) -> Option<Seq<char>> {
    match path_extension(o.path_view()) {
        Some(e) => comment_prefix_for(e),
        None => None,
    }
}

impl FileViewer {
    /// The comment token for this file's extension.
    pub fn line_comment_prefix(&self) -> (r: Option<&'static str>)
        ensures
            match r {
                Some(p) => viewer_prefix(self) == Some(p@),
                None => viewer_prefix(self) is None,
            },
    {
        match extension_of(self.path.as_str()) {
            Some(e) => comment_prefix(e.as_str()),
            None => None,
        }
    }

    /// Whether [`comment_ready`] holds.
    pub fn comment_indent_ok(&self) -> (r: bool)
        requires
            self.wf(),
        ensures
            r == comment_ready(self),
    {
        let ghost ls = self.buf();
        let ghost span = self.comment_span();
        let (start_row, end_row0) = match self.selection {
            Some(sel) => {
                let (sr, _sc, er, ec) = sel.ordered();
                let end = if er > sr && ec == 0 { er - 1 } else { er };
                (sr, end)
            },
            None => (self.cursor_row, self.cursor_row),
        };
        let last = self.buffer.len() - 1;
        let end_row = if end_row0 > last { last } else { end_row0 };
        assert(span == (start_row as int, end_row as int));
        if start_row > end_row {
            return true;
        }
        let mut min_indent: Option<usize> = None;
        let mut r = start_row;
        while r <= end_row
            invariant
                start_row <= r <= end_row + 1,
                end_row < ls.len(),
                ls.len() == self.buffer.len(),
                lines_view(self.buffer@) == ls,
                match min_indent {
                    None => forall|k: int| start_row <= k < r ==> blank(#[trigger] ls[k]),
                    Some(m) => (exists|k: int| start_row <= k < r && !blank(#[trigger] ls[k]) && leading_ws(ls[k]) == m)
                        && forall|k: int| start_row <= k < r && !blank(#[trigger] ls[k]) ==> m <= leading_ws(ls[k]),
                },
            decreases end_row + 1 - r,
        {
            assert(self.buffer@[r as int]@ == ls[r as int]);
            let lw = leading_ws_len(self.buffer[r].as_slice());
            if lw != self.buffer[r].len() {
                min_indent = match min_indent {
                    None => Some(lw),
                    Some(m) => Some(if lw < m { lw } else { m }),
                };
            }
            r += 1;
        }
        let m = match min_indent {
            None => {
                assert forall|mm: int, rr: int|
                    is_min_indent(ls, start_row as int, end_row as int, mm) && start_row <= rr <= end_row
                        && !blank(ls[rr]) implies boundary(ls[rr], mm) by {
                    let w = choose|w: int| start_row <= w <= end_row && !blank(#[trigger] ls[w]) && leading_ws(ls[w]) == mm;
                    assert(blank(ls[w]));
                }
                return true;
            },
            Some(m) => m,
        };
        assert(is_min_indent(ls, start_row as int, end_row as int, m as int));
        let mut ok = true;
        let mut r = start_row;
        while r <= end_row
            invariant
                start_row <= r <= end_row + 1,
                end_row < ls.len(),
                ls.len() == self.buffer.len(),
                lines_view(self.buffer@) == ls,
                ok == forall|k: int| start_row <= k < r && !blank(#[trigger] ls[k]) ==> boundary(ls[k], m as int),
            decreases end_row + 1 - r,
        {
            assert(self.buffer@[r as int]@ == ls[r as int]);
            let line = &self.buffer[r];
            let lw = leading_ws_len(line.as_slice());
            if lw != line.len() {
                if !crate::text::is_boundary(line, m) {
                    ok = false;
                }
            }
            r += 1;
        }
        proof {
            assert forall|mm: int| is_min_indent(ls, start_row as int, end_row as int, mm) implies mm == m by {
                let w1 = choose|w: int| start_row <= w <= end_row && !blank(#[trigger] ls[w]) && leading_ws(ls[w]) == mm;
                let w2 = choose|w: int| start_row <= w <= end_row && !blank(#[trigger] ls[w]) && leading_ws(ls[w]) == m;
                assert(m <= leading_ws(ls[w1]));
                assert(mm <= leading_ws(ls[w2]));
            }
            if ok {
                assert forall|mm: int, rr: int|
                    is_min_indent(ls, start_row as int, end_row as int, mm) && start_row <= rr <= end_row
                        && !blank(ls[rr]) implies boundary(ls[rr], mm) by {
                    assert(mm == m);
                }
                assert(comment_ready(self));
            } else {
                let k = choose|k: int| start_row <= k <= end_row && !blank(#[trigger] ls[k]) && !boundary(ls[k], m as int);
                assert(is_min_indent(self.buf(), span.0, span.1, m as int));
                assert(!comment_ready(self));
            }
        }
        ok
    }

    /// Cmd+/ : toggles this file type's line comment on the cursor row or
    /// the selected rows; nothing for a file type without one.
    pub fn toggle_line_comment(&mut self, now_ms: u64) -> (r: KeyResult)
        requires
            old(self).wf(),
        ensures
            final(self).wf(),
            match viewer_prefix(old(self)) {
                None => r == KeyResult::Handled && final(self).same_but(old(self), false, false, false, false, false, false),
                Some(p) => guarded(
                    comment_ready(old(self)),
                    exists|t: &str| t@ == p && #[trigger] toggled_comment(old(self), final(self), t.spec_bytes(), now_ms),
                    r,
                ),
            },
    {
        let prefix = match self.line_comment_prefix() {
            Some(p) => p,
            None => {
                return KeyResult::Handled;
            },
        };
        if !self.comment_indent_ok() {
            return KeyResult::OffBoundary;
        }
        proof {
            reveal_strlit("//");
            reveal_strlit("#");
            reveal_strlit("--");
            vstd::string::is_ascii_spec_bytes(prefix);
        }
        assert(prefix@ == "//"@ || prefix@ == "#"@ || prefix@ == "--"@);
        let bytes = prefix.as_bytes();
        assert(bytes@.len() > 0);
        self.toggle_line_comment_with(bytes, now_ms);
        assert(toggled_comment(old(self), final(self), prefix.spec_bytes(), now_ms));
        KeyResult::Handled
    }
}


/// The mouse selection, if any, can be cut out of the buffer.
pub open spec fn sel_cuttable(o: &FileViewer) -> bool {
    o.sel() is Some ==> ({
        let (sr, sc, er, ec) = o.sel_range();
        &&& 0 <= er < o.buf().len()
        &&& span_cuttable(o.buf(), sr, sc, er, if ec < o.buf()[er].len() { ec } else { o.buf()[er].len() as int })
    })
}

/// The mouse selection, if any, can be copied out of the buffer.
pub open spec fn sel_sliceable(o: &FileViewer) -> bool {
    o.sel() is Some ==> selection_sliceable(o.buf(), o.sel_range().0, o.sel_range().1, o.sel_range().2, o.sel_range().3)
}

/// What Cmd+Backspace does: a new undo group, then the selection is
/// deleted, or else the row up to the cursor.
pub open spec fn cmd_backspaced(o: &FileViewer, n: &FileViewer, now_ms: u64) -> bool {
    exists|m: FileViewer| #[trigger] undo_saved(o, &m, now_ms) && if o.sel() is Some {
        deleted_selection(&m, n, now_ms)
    } else if o.col() > 0 {
        &&& n.wf()
        &&& n.buf() == o.buf().update(o.row(), o.buf()[o.row()].subrange(o.col(), o.buf()[o.row()].len() as int))
        &&& n.row() == o.row()
        &&& n.col() == 0
        &&& n.is_dirty()
        &&& n.undo_view() == m.undo_view()
        &&& n.redo_view() == m.redo_view()
        &&& n.last_kind() == m.last_kind()
        &&& n.keeps_view_state(&m)
    } else {
        n.same_but(&m, false, false, false, false, false, false)
    }
}

/// What `save_undo` does to the viewer.
pub open spec fn undo_saved(o: &FileViewer, n: &FileViewer, now_ms: u64) -> bool {
    &&& n.wf()
    &&& n.undo_view() == push_capped(o.undo_view(), o.snapshot())
    &&& n.redo_view().len() == 0
    &&& n.buf() == o.buf()
    &&& n.row() == o.row()
    &&& n.col() == o.col()
    &&& n.is_dirty() == o.is_dirty()
    &&& n.last_kind() == Some(EditKind::Other)
    &&& n.last_ms() == now_ms
    &&& n.keeps_view_state(o)
}

/// What Option+Backspace does: a new undo group, a word motion back, and
/// the bytes between the new and the old cursor removed.
pub open spec fn alt_backspaced(o: &FileViewer, n: &FileViewer, now_ms: u64) -> bool {
    exists|m1: FileViewer, m2: FileViewer| #[trigger] undo_saved(o, &m1, now_ms) && #[trigger] moved_word_backward(&m1, &m2)
        && if m2.col() < o.col() {
        &&& n.wf()
        &&& n.buf() == o.buf().update(o.row(), o.buf()[o.row()].subrange(0, m2.col()) + o.buf()[o.row()].subrange(o.col(), o.buf()[o.row()].len() as int))
        &&& n.row() == o.row()
        &&& n.col() == m2.col()
        &&& n.is_dirty()
        &&& n.undo_view() == m1.undo_view()
        &&& n.redo_view() == m1.redo_view()
        &&& n.last_kind() == m1.last_kind()
        &&& n.keeps_view_state(&m1)
    } else {
        n.same_but(&m2, false, false, false, false, false, false)
    }
}

impl FileViewer {
    /// Whether [`sel_cuttable`] holds.
    pub fn selection_cut_ok(&self) -> (r: bool)
        requires
            self.wf(),
        ensures
            r == sel_cuttable(self),
    {
        match self.selection {
            None => true,
            Some(sel) => {
                let (sr, sc, er, ec) = sel.ordered();
                if er >= self.buffer.len() || sr > er {
                    return false;
                }
                let len = self.buffer[er].len();
                let end = if ec < len { ec } else { len };
                if !is_boundary(&self.buffer[er], end) {
                    return false;
                }
                if sr == er {
                    sc >= end || is_boundary(&self.buffer[sr], sc)
                } else {
                    sc >= self.buffer[sr].len() || is_boundary(&self.buffer[sr], sc)
                }
            },
        }
    }

    /// Whether [`sel_sliceable`] holds.
    pub fn selection_slice_ok(&self) -> (r: bool)
        requires
            self.wf(),
        ensures
            r == sel_sliceable(self),
    {
        match self.selection {
            None => true,
            Some(sel) => {
                let (sr, sc, er, ec) = sel.ordered();
                if er >= self.buffer.len() || sr > er {
                    return false;
                }
                let elen = self.buffer[er].len();
                let end = if ec < elen { ec } else { elen };
                if sr == er {
                    let start = if sc < end { sc } else { end };
                    is_boundary(&self.buffer[sr], start) && is_boundary(&self.buffer[sr], end)
                } else {
                    sc <= self.buffer[sr].len() && is_boundary(&self.buffer[sr], sc) && is_boundary(&self.buffer[er], end)
                }
            },
        }
    }

    /// Cmd+Backspace.
    pub fn cmd_backspace(&mut self, now_ms: u64) -> (r: KeyResult)
        requires
            old(self).wf(),
        ensures
            final(self).wf(),
            guarded(
                if old(self).sel() is Some { sel_cuttable(old(self)) } else { old(self).col() > 0 ==> old(self).cursor_ok() },
                cmd_backspaced(old(self), final(self), now_ms),
                r,
            ),
    {
        if self.selection.is_some() {
            if !self.selection_cut_ok() {
                return KeyResult::OffBoundary;
            }
        } else if self.cursor_col > 0 && !self.cursor_on_boundary() {
            return KeyResult::OffBoundary;
        }
        self.save_undo(now_ms);
        let ghost m = *self;
        assert(undo_saved(old(self), &m, now_ms));
        if self.selection.is_some() {
            self.delete_selection(now_ms);
        } else if self.cursor_col > 0 {
            let row = self.cursor_row;
            let ghost before = self.buf();
            let line = &self.buffer[row];
            let mut rest: Vec<u8> = Vec::new();
            let mut i = self.cursor_col;
            while i < line.len()
                invariant
                    self.cursor_col <= i <= line.len(),
                    rest@ == line@.subrange(self.cursor_col as int, i as int),
                decreases line.len() - i,
            {
                rest.push(line[i]);
                i += 1;
                assert(rest@ =~= line@.subrange(self.cursor_col as int, i as int));
            }
            proof {
                assert(line@ == before[row as int]);
                assert forall|j: int| 0 <= j < rest@.len() implies rest@[j] != NL by {
                    assert(rest@[j] == before[row as int][self.cursor_col + j]);
                }
            }
            self.buffer.set(row, rest);
            self.cursor_col = 0;
            self.dirty = true;
            proof {
                assert(self.buf() =~= before.update(row as int, before[row as int].subrange(old(self).col(), before[row as int].len() as int)));
                assert(lines_ok(self.buf()));
            }
        }
        KeyResult::Handled
    }

    /// Option+Backspace.
    pub fn alt_backspace(&mut self, now_ms: u64) -> (r: KeyResult)
        requires
            old(self).wf(),
        ensures
            final(self).wf(),
            guarded(old(self).cursor_ok(), alt_backspaced(old(self), final(self), now_ms), r),
    {
        if !self.cursor_on_boundary() {
            return KeyResult::OffBoundary;
        }
        self.save_undo(now_ms);
        let ghost m1 = *self;
        let start_col = self.cursor_col;
        self.move_word_backward();
        let ghost m2 = *self;
        assert(undo_saved(old(self), &m1, now_ms));
        assert(moved_word_backward(&m1, &m2));
        if self.cursor_col < start_col {
            let row = self.cursor_row;
            let ghost before = self.buf();
            let line = &self.buffer[row];
            let mut nl: Vec<u8> = Vec::new();
            let mut i: usize = 0;
            while i < self.cursor_col
                invariant
                    0 <= i <= self.cursor_col,
                    self.cursor_col < start_col <= line.len(),
                    nl@ == line@.subrange(0, i as int),
                decreases self.cursor_col - i,
            {
                nl.push(line[i]);
                i += 1;
                assert(nl@ =~= line@.subrange(0, i as int));
            }
            let mut i = start_col;
            while i < line.len()
                invariant
                    start_col <= i <= line.len(),
                    self.cursor_col < start_col,
                    nl@ == line@.subrange(0, self.cursor_col as int) + line@.subrange(start_col as int, i as int),
                decreases line.len() - i,
            {
                nl.push(line[i]);
                i += 1;
                assert(nl@ =~= line@.subrange(0, self.cursor_col as int) + line@.subrange(start_col as int, i as int));
            }
            proof {
                assert(line@ == before[row as int]);
                assert forall|j: int| 0 <= j < nl@.len() implies nl@[j] != NL by {
                    if j < self.cursor_col {
                        assert(nl@[j] == before[row as int][j]);
                    } else {
                        assert(nl@[j] == before[row as int][start_col + (j - self.cursor_col)]);
                    }
                }
            }
            self.buffer.set(row, nl);
            self.dirty = true;
            proof {
                assert(self.buf() =~= before.update(
                    row as int,
                    before[row as int].subrange(0, m2.col()) + before[row as int].subrange(old(self).col(), before[row as int].len() as int),
                ));
                assert(lines_ok(self.buf()));
            }
        }
        KeyResult::Handled
    }
}


/// What a key does with vim enabled: escape leaves insert mode (stepping
/// one character back) or drops a pending key; otherwise the mode's keys.
pub open spec fn vim_key_spec(o: &FileViewer, n: &FileViewer, k: KeyView, now_ms: u64, r: KeyResult) -> bool {
    match o.mode() {
        VimMode::Normal => if k.key == "escape"@ {
            done(pending_set(o, n, None), r)
        } else {
            vim_normal_spec(o, n, k, now_ms, r)
        },
        VimMode::Insert => if k.key == "escape"@ {
            &&& r == KeyResult::Handled
            &&& n.same_but(o, true, true, false, false, false, false)
            &&& n.mode() == VimMode::Normal
            &&& n.row() == o.row()
            &&& if o.col() > 0 { is_prev_boundary(o.buf()[o.row()], o.col(), n.col()) } else { n.col() == o.col() }
        } else {
            normal_key_spec(o, n, k, now_ms, r)
        },
        VimMode::Visual => vim_visual_spec(o, n, k, now_ms, r),
        VimMode::VisualLine => vim_visual_line_spec(o, n, k, now_ms, r),
    }
}

impl FileViewer {
    /// A key with vim enabled.
    pub fn handle_key_down_vim(&mut self, ks: &Keystroke, now_ms: u64) -> (r: KeyResult)
        requires
            old(self).wf(),
        ensures
            final(self).wf(),
            vim_key_spec(old(self), final(self), ks@, now_ms, r),
    {
        let key = ks.key.as_str();
        match self.vim_mode {
            VimMode::Normal => {
                if str_eq(key, "escape") {
                    self.vim_pending = None;
                    return KeyResult::Handled;
                }
                self.handle_vim_normal(ks, now_ms)
            },
            VimMode::Insert => {
                if str_eq(key, "escape") {
                    self.vim_mode = VimMode::Normal;
                    if self.cursor_col > 0 {
                        self.cursor_col = self.prev_char_boundary(self.cursor_row, self.cursor_col);
                    }
                    return KeyResult::Handled;
                }
                self.handle_key_down_normal(ks, now_ms)
            },
            VimMode::Visual => self.handle_vim_visual(ks, now_ms),
            VimMode::VisualLine => self.handle_vim_visual_line(ks, now_ms),
        }
    }
}

/// What the viewer asks of its window after a key.
#[derive(Debug, PartialEq, Eq)]
pub enum KeyAction {
    /// The search box has the keyboard; `closed` when escape closed it.
    Search { closed: bool },
    /// A command-key combination the viewer leaves to the app's actions.
    PassThrough,
    /// The key went to the buffer; `clipboard` is text to copy, if any.
    Key { result: KeyResult, clipboard: Option<Vec<u8>> },
}

/// The key's result, with nothing to copy.
pub open spec fn plain(a: &KeyAction, r: KeyResult) -> bool {
    match a {
        KeyAction::Key { result, clipboard } => *result == r && clipboard is None,
        _ => false,
    }
}

/// The buffer's result of a key action.
pub open spec fn res(a: &KeyAction) -> KeyResult {
    match a {
        KeyAction::Key { result, .. } => *result,
        _ => KeyResult::Unhandled,
    }
}

/// The key was handled and `text` is to be copied.
pub open spec fn copies(a: &KeyAction, text: Option<Seq<u8>>) -> bool {
    match a {
        KeyAction::Key { result, clipboard } => *result == KeyResult::Handled && match (clipboard, text) {
            (Some(c), Some(t)) => c@ == t,
            (None, None) => true,
            _ => false,
        },
        _ => false,
    }
}

/// The selected text, when there is a selection.
pub open spec fn sel_text(o: &FileViewer) -> Option<Seq<u8>> {
    if o.sel() is Some {
        Some(selected_bytes(o.buf(), o.sel_range().0, o.sel_range().1, o.sel_range().2, o.sel_range().3))
    } else {
        None
    }
}

/// What a Command-key combination does: z undoes (redoes with shift), a
/// selects all, c copies, x cuts, v pastes `clip` over the selection, the
/// arrows jump to line and buffer ends, backspace deletes to the line
/// start, / toggles the line comment; others pass through.
pub open spec fn cmd_key_spec(o: &FileViewer, n: &FileViewer, k: KeyView, clip: Option<Seq<char>>, now_ms: u64, a: &KeyAction) -> bool {
    let key = k.key;
    if key == "z"@ && k.shift {
        plain(a, KeyResult::Handled) && did_redo(o, n)
    } else if key == "z"@ {
        plain(a, KeyResult::Handled) && did_undo(o, n)
    } else if key == "a"@ {
        plain(a, KeyResult::Handled) && selected_all(o, n)
    } else if key == "c"@ {
        if sel_sliceable(o) {
            copies(a, sel_text(o)) && n.same_but(o, false, false, false, false, false, false)
        } else {
            plain(a, KeyResult::OffBoundary)
        }
    } else if key == "x"@ {
        if o.sel() is None {
            copies(a, None) && n.same_but(o, false, false, false, false, false, false)
        } else if sel_sliceable(o) && sel_cuttable(o) {
            copies(a, sel_text(o)) && deleted_selection(o, n, now_ms)
        } else {
            plain(a, KeyResult::OffBoundary)
        }
    } else if key == "v"@ {
        match clip {
            None => plain(a, KeyResult::Handled) && n.same_but(o, false, false, false, false, false, false),
            Some(t) => if o.sel() is Some {
                if sel_cuttable(o) {
                    plain(a, KeyResult::Handled) && exists|m: FileViewer, s: &str| #[trigger] deleted_selection(o, &m, now_ms) && s@ == t
                        && #[trigger] inserted_text(&m, n, s, now_ms)
                } else {
                    plain(a, KeyResult::OffBoundary)
                }
            } else if o.cursor_ok() {
                plain(a, KeyResult::Handled) && exists|s: &str| s@ == t && #[trigger] inserted_text(o, n, s, now_ms)
            } else {
                plain(a, KeyResult::OffBoundary)
            },
        }
    } else if key == "left"@ {
        plain(a, KeyResult::Handled) && moved_line_start(o, n)
    } else if key == "right"@ {
        plain(a, KeyResult::Handled) && moved_line_end(o, n)
    } else if key == "up"@ {
        plain(a, KeyResult::Handled) && moved_buffer_start(o, n)
    } else if key == "down"@ {
        plain(a, KeyResult::Handled) && moved_buffer_end(o, n)
    } else if key == "backspace"@ {
        plain(a, res(a)) && guarded(
            if o.sel() is Some { sel_cuttable(o) } else { o.col() > 0 ==> o.cursor_ok() },
            cmd_backspaced(o, n, now_ms),
            res(a),
        )
    } else if key == "/"@ {
        plain(a, res(a)) && match viewer_prefix(o) {
            None => res(a) == KeyResult::Handled && n.same_but(o, false, false, false, false, false, false),
            Some(p) => guarded(
                comment_ready(o),
                exists|t: &str| t@ == p && #[trigger] toggled_comment(o, n, t.spec_bytes(), now_ms),
                res(a),
            ),
        }
    } else {
        a is PassThrough && n.same_but(o, false, false, false, false, false, false)
    }
}

impl FileViewer {
    /// A Command-key combination.
    #[verifier::rlimit(60)]
    pub fn handle_cmd_key(&mut self, ks: &Keystroke, clipboard: Option<&str>, now_ms: u64) -> (a: KeyAction)
        requires
            old(self).wf(),
        ensures
            final(self).wf(),
            cmd_key_spec(old(self), final(self), ks@, match clipboard { Some(c) => Some(c@), None => None }, now_ms, &a),
    {
        let key = ks.key.as_str();
        if str_eq(key, "z") {
            if ks.shift {
                self.redo();
            } else {
                self.undo();
            }
        } else if str_eq(key, "a") {
            self.select_all();
        } else if str_eq(key, "c") {
            if !self.selection_slice_ok() {
                return KeyAction::Key { result: KeyResult::OffBoundary, clipboard: None };
            }
            let text = self.selected_text();
            return KeyAction::Key { result: KeyResult::Handled, clipboard: text };
        } else if str_eq(key, "x") {
            if self.selection.is_none() {
                return KeyAction::Key { result: KeyResult::Handled, clipboard: None };
            }
            if !self.selection_slice_ok() || !self.selection_cut_ok() {
                return KeyAction::Key { result: KeyResult::OffBoundary, clipboard: None };
            }
            let text = self.selected_text();
            self.delete_selection(now_ms);
            return KeyAction::Key { result: KeyResult::Handled, clipboard: text };
        } else if str_eq(key, "v") {
            match clipboard {
                None => {},
                Some(t) => {
                    if self.selection.is_some() {
                        if !self.selection_cut_ok() {
                            return KeyAction::Key { result: KeyResult::OffBoundary, clipboard: None };
                        }
                        self.delete_selection(now_ms);
                        let ghost m = *self;
                        self.insert_text(t, now_ms);
                        assert(deleted_selection(old(self), &m, now_ms));
                        assert(inserted_text(&m, final(self), t, now_ms));
                    } else {
                        if !self.cursor_on_boundary() {
                            return KeyAction::Key { result: KeyResult::OffBoundary, clipboard: None };
                        }
                        self.insert_text(t, now_ms);
                    }
                },
            }
        } else if str_eq(key, "left") {
            self.move_to_line_start();
        } else if str_eq(key, "right") {
            self.move_to_line_end();
        } else if str_eq(key, "up") {
            self.move_to_buffer_start();
        } else if str_eq(key, "down") {
            self.move_to_buffer_end();
        } else if str_eq(key, "backspace") {
            let r = self.cmd_backspace(now_ms);
            return KeyAction::Key { result: r, clipboard: None };
        } else if str_eq(key, "/") {
            let r = self.toggle_line_comment(now_ms);
            return KeyAction::Key { result: r, clipboard: None };
        } else {
            return KeyAction::PassThrough;
        }
        KeyAction::Key { result: KeyResult::Handled, clipboard: None }
    }
}


/// `n` is `o` without the navigation flash.
pub open spec fn nav_cleared(o: &FileViewer, n: &FileViewer) -> bool {
    n.same_but(o, false, false, false, false, false, true) && n.nav() is None
}

/// `n` is `o` with the search closed.
pub open spec fn search_closed(o: &FileViewer, n: &FileViewer) -> bool {
    &&& n.same_text_state(o)
    &&& n.view_same_but(o, false, false, false, true)
    &&& !n.searching()
    &&& n.query().len() == 0
    &&& n.matches().len() == 0
    &&& n.match_ix() == 0
}

/// The selection and word highlight are cleared, then the key goes to the
/// vim or the plain handler.
pub open spec fn key_to_mode(m: &FileViewer, n: &FileViewer, k: KeyView, vim: bool, now_ms: u64, a: &KeyAction) -> bool {
    &&& plain(a, res(a))
    &&& exists|m2: FileViewer, m3: FileViewer| #![trigger cleared_selection(m, &m2), cleared_highlights(&m2, &m3)]
        cleared_selection(m, &m2) && cleared_highlights(&m2, &m3) && if vim {
            vim_key_spec(&m3, n, k, now_ms, res(a))
        } else {
            normal_key_spec(&m3, n, k, now_ms, res(a))
        }
}

/// A key that is neither a command nor an option combination: with a
/// selection, typing (outside vim, or in insert mode) first deletes it
/// (backspace and delete stop there); then [`key_to_mode`].
pub open spec fn typing_spec(m: &FileViewer, n: &FileViewer, k: KeyView, vim: bool, now_ms: u64, a: &KeyAction) -> bool {
    let key = k.key;
    let nav_key = key == "left"@ || key == "right"@ || key == "up"@ || key == "down"@ || key == "home"@ || key
        == "end"@ || key == "escape"@;
    if m.sel() is Some && !nav_key && (!vim || m.mode() == VimMode::Insert) {
        if !sel_cuttable(m) {
            plain(a, KeyResult::OffBoundary)
        } else if key == "backspace"@ || key == "delete"@ {
            plain(a, KeyResult::Handled) && deleted_selection(m, n, now_ms)
        } else {
            exists|m1: FileViewer| #[trigger] deleted_selection(m, &m1, now_ms) && key_to_mode(&m1, n, k, vim, now_ms, a)
        }
    } else {
        key_to_mode(m, n, k, vim, now_ms, a)
    }
}

/// What a key does once the navigation flash is cleared: an open search
/// takes it (escape closes the search); command combinations, option with
/// an arrow or backspace (word motions, then the selection is cleared),
/// control+r (redo), and otherwise [`typing_spec`].
pub open spec fn after_nav(m: &FileViewer, n: &FileViewer, k: KeyView, vim: bool, clip: Option<Seq<char>>, now_ms: u64, a: &KeyAction) -> bool {
    let key = k.key;
    if m.searching() {
        match a {
            KeyAction::Search { closed } => {
                &&& *closed == (key == "escape"@)
                &&& *closed ==> search_closed(m, n)
                &&& !*closed ==> n.same_but(m, false, false, false, false, false, false)
            },
            _ => false,
        }
    } else if k.platform {
        cmd_key_spec(m, n, k, clip, now_ms, a)
    } else if k.alt && key == "left"@ {
        plain(a, res(a)) && guarded(
            m.col_in_line(),
            exists|m1: FileViewer| #[trigger] moved_word_backward(m, &m1) && cleared_selection(&m1, n),
            res(a),
        )
    } else if k.alt && key == "right"@ {
        plain(a, KeyResult::Handled) && exists|m1: FileViewer| #[trigger] moved_word_forward(m, &m1) && cleared_selection(&m1, n)
    } else if k.alt && key == "backspace"@ {
        plain(a, res(a)) && guarded(
            m.cursor_ok(),
            exists|m1: FileViewer| #[trigger] alt_backspaced(m, &m1, now_ms) && cleared_selection(&m1, n),
            res(a),
        )
    } else if k.control && key == "r"@ {
        plain(a, KeyResult::Handled) && did_redo(m, n)
    } else {
        typing_spec(m, n, k, vim, now_ms, a)
    }
}

/// What a key press does to the viewer, with vim emulation on or off and
/// `clip` the clipboard's text for a paste.
pub open spec fn key_down_spec(o: &FileViewer, n: &FileViewer, k: KeyView, vim: bool, clip: Option<Seq<char>>, now_ms: u64, a: &KeyAction) -> bool {
    exists|m: FileViewer| #[trigger] nav_cleared(o, &m) && after_nav(&m, n, k, vim, clip, now_ms, a)
}

impl FileViewer {
    /// Clears the selection and the word highlight, then hands the key to
    /// the vim or the plain handler.
    fn key_to_mode(&mut self, ks: &Keystroke, vim: bool, now_ms: u64) -> (a: KeyAction)
        requires
            old(self).wf(),
        ensures
            final(self).wf(),
            key_to_mode(old(self), final(self), ks@, vim, now_ms, &a),
    {
        self.clear_selection();
        let ghost m2 = *self;
        self.clear_highlights();
        let ghost m3 = *self;
        let r = if vim { self.handle_key_down_vim(ks, now_ms) } else { self.handle_key_down_normal(ks, now_ms) };
        assert(cleared_selection(old(self), &m2));
        assert(cleared_highlights(&m2, &m3));
        KeyAction::Key { result: r, clipboard: None }
    }

    /// A key press. `vim` tells whether vim emulation is on; `clipboard` is
    /// the clipboard's text (read for Command+V); `now_ms` the time.
    #[verifier::rlimit(80)]
    #[verifier::spinoff_prover]
    pub fn handle_key_down(&mut self, ks: &Keystroke, vim: bool, clipboard: Option<&str>, now_ms: u64) -> (a: KeyAction)
        requires
            old(self).wf(),
        ensures
            final(self).wf(),
            key_down_spec(old(self), final(self), ks@, vim, match clipboard { Some(c) => Some(c@), None => None }, now_ms, &a),
    {
        self.nav_highlight = None;
        let ghost m = *self;
        assert(nav_cleared(old(self), &m));
        let key = ks.key.as_str();
        if self.search_active {
            if str_eq(key, "escape") {
                self.close_search();
                return KeyAction::Search { closed: true };
            }
            return KeyAction::Search { closed: false };
        }
        if ks.platform {
            return self.handle_cmd_key(ks, clipboard, now_ms);
        }
        if ks.alt {
            if str_eq(key, "left") {
                if !self.cursor_in_line() {
                    return KeyAction::Key { result: KeyResult::OffBoundary, clipboard: None };
                }
                self.move_word_backward();
                let ghost m1 = *self;
                self.clear_selection();
                assert(moved_word_backward(&m, &m1));
                return KeyAction::Key { result: KeyResult::Handled, clipboard: None };
            } else if str_eq(key, "right") {
                self.move_word_forward();
                let ghost m1 = *self;
                self.clear_selection();
                assert(moved_word_forward(&m, &m1));
                return KeyAction::Key { result: KeyResult::Handled, clipboard: None };
            } else if str_eq(key, "backspace") {
                let r = self.alt_backspace(now_ms);
                if r != KeyResult::Handled {
                    return KeyAction::Key { result: r, clipboard: None };
                }
                let ghost m1 = *self;
                self.clear_selection();
                assert(alt_backspaced(&m, &m1, now_ms));
                return KeyAction::Key { result: KeyResult::Handled, clipboard: None };
            }
        }
        if ks.control && str_eq(key, "r") {
            self.redo();
            return KeyAction::Key { result: KeyResult::Handled, clipboard: None };
        }
        let nav_key = str_eq(key, "left") || str_eq(key, "right") || str_eq(key, "up") || str_eq(key, "down")
            || str_eq(key, "home") || str_eq(key, "end") || str_eq(key, "escape");
        if self.selection.is_some() && !nav_key && (!vim || self.vim_mode == VimMode::Insert) {
            if !self.selection_cut_ok() {
                return KeyAction::Key { result: KeyResult::OffBoundary, clipboard: None };
            }
            self.delete_selection(now_ms);
            if str_eq(key, "backspace") || str_eq(key, "delete") {
                return KeyAction::Key { result: KeyResult::Handled, clipboard: None };
            }
            let ghost m1 = *self;
            let a = self.key_to_mode(ks, vim, now_ms);
            assert(deleted_selection(&m, &m1, now_ms));
            return a;
        }
        self.key_to_mode(ks, vim, now_ms)
    }
}


impl FileViewer {
    /// A viewer for the file at `path`, language detected from its
    /// extension; its lines arrive later through
    /// [`Self::apply_loaded_buffer`].
    pub fn open(path: String) -> (v: Self)
        ensures
            v.wf(),
            v.buf() == seq![Seq::<u8>::empty()],
            v.row() == 0 && v.col() == 0,
            v.path_view() == path@,
            match language_for(last_segment(path@)) {
                Some(l) => v.language_view() == Some(l),
                None => v.language_view() is None,
            },
            !v.is_dirty(),
            v.undo_view().len() == 0 && v.redo_view().len() == 0,
            v.mode() == VimMode::Normal,
    {
        let language = match detect_language(path.as_str()) {
            Some(l) => Some(l.to_owned()),
            None => None,
        };
        Self::blank(path, language, false)
    }

    /// Takes freshly loaded lines, unless there are unsaved edits or the
    /// lines are the ones shown: the cursor is pulled back into the new
    /// lines, and the selection, search matches and history are dropped.
    pub fn apply_loaded_buffer(&mut self, buffer: Vec<Vec<u8>>)
        requires
            old(self).wf(),
            lines_ok(lines_view(buffer@)),
        ensures
            final(self).wf(),
            old(self).is_dirty() || lines_view(buffer@) == old(self).buf() ==> final(self).same_but(
                old(self),
                false,
                false,
                false,
                false,
                false,
                false,
            ),
            !(old(self).is_dirty() || lines_view(buffer@) == old(self).buf()) ==> {
                let ls = lines_view(buffer@);
                let row = if old(self).row() >= ls.len() { ls.len() - 1 } else { old(self).row() };
                &&& final(self).buf() == ls
                &&& final(self).row() == row
                &&& final(self).col() == if old(self).col() > ls[row].len() { ls[row].len() as int } else { old(self).col() }
                &&& final(self).sel() is None
                &&& final(self).matches().len() == 0
                &&& final(self).undo_view().len() == 0
                &&& final(self).redo_view().len() == 0
                &&& !final(self).is_dirty()
                &&& final(self).mode() == old(self).mode()
            },
    {
        if self.dirty {
            return;
        }
        if lines_equal(&buffer, &self.buffer) {
            return;
        }
        self.buffer = buffer;
        if self.cursor_row >= self.buffer.len() {
            self.cursor_row = self.buffer.len() - 1;
        }
        let len = self.buffer[self.cursor_row].len();
        if self.cursor_col > len {
            self.cursor_col = len;
        }
        self.selection = None;
        self.search_matches = Vec::new();
        self.undo_stack = Vec::new();
        self.redo_stack = Vec::new();
        assert(entries_ok(self.undo_stack@)) by {
            assert(self.undo_stack@ =~= Seq::<UndoEntry>::empty());
        }
        assert(entries_ok(self.redo_stack@)) by {
            assert(self.redo_stack@ =~= Seq::<UndoEntry>::empty());
        }
    }

    /// The text a save writes: the lines joined with line feeds.
    pub fn save_content(&self) -> (r: Vec<u8>)
        requires
            self.wf(),
        ensures
            r@ == join_nl(self.buf()),
    {
        join_lines(&self.buffer)
    }

    /// Records a successful save: the buffer is clean.
    pub fn mark_saved(&mut self)
        requires
            old(self).wf(),
        ensures
            final(self).wf(),
            !final(self).is_dirty(),
            final(self).buf() == old(self).buf(),
            final(self).row() == old(self).row() && final(self).col() == old(self).col(),
            final(self).undo_view() == old(self).undo_view(),
            final(self).redo_view() == old(self).redo_view(),
            final(self).mode() == old(self).mode(),
    {
        self.dirty = false;
    }
}

/// Whether two line lists are equal.
pub fn lines_equal(a: &Vec<Vec<u8>>, b: &Vec<Vec<u8>>) -> (r: bool)
    ensures
        r == (lines_view(a@) == lines_view(b@)),
{
    if a.len() != b.len() {
        assert(lines_view(a@).len() != lines_view(b@).len());
        return false;
    }
    let mut i: usize = 0;
    while i < a.len()
        invariant
            a.len() == b.len(),
            0 <= i <= a.len(),
            forall|k: int| 0 <= k < i ==> a@[k]@ == b@[k]@,
        decreases a.len() - i,
    {
        let x = &a[i];
        let y = &b[i];
        if x.len() != y.len() {
            assert(lines_view(a@)[i as int] != lines_view(b@)[i as int]);
            return false;
        }
        let mut j: usize = 0;
        while j < x.len()
            invariant
                x.len() == y.len(),
                0 <= j <= x.len(),
                0 <= i < a.len(),
                a.len() == b.len(),
                x@ == a@[i as int]@,
                y@ == b@[i as int]@,
                forall|k: int| 0 <= k < j ==> x@[k] == y@[k],
            decreases x.len() - j,
        {
            if x[j] != y[j] {
                assert(lines_view(a@)[i as int][j as int] != lines_view(b@)[i as int][j as int]);
                return false;
            }
            j += 1;
        }
        assert(x@ =~= y@);
        i += 1;
    }
    assert(lines_view(a@) =~= lines_view(b@));
    true
}

/// What a Cmd+click on the word at the cursor did.
pub enum CmdClick {
    /// Nothing: no word at the cursor, or nothing to show.
    Nothing,
    /// The references panel opens.
    Panel(ReferencesPanel),
    /// The cursor jumped to the definition in this file.
    Jumped,
    /// The definition lies in another file, to be opened there.
    OpenFile(FileReference),
}

/// The groups a Cmd+click weighs: the open file's references first (when
/// there are any), then the other files' groups, leaving out any for the
/// open file itself and any without references; all sorted by path but the
/// open file's group, which stays first (see [`order_groups`]).
pub open spec fn click_groups(path: Seq<char>, cur: Seq<RefView>, others: Seq<(Seq<char>, Seq<RefView>)>) -> Seq<(Seq<char>, Seq<RefView>)> {
    order_groups(
        (if cur.len() > 0 { seq![(path, cur)] } else { seq![] }) + others.filter(
            |g: (Seq<char>, Seq<RefView>)| g.0 != path && g.1.len() > 0,
        ),
        cur.len() > 0,
    )
}

/// A count of references as a panel holds it (saturating).
pub open spec fn sat_count(n: nat) -> usize {
    if n <= usize::MAX { n as usize } else { usize::MAX }
}

/// The panel `p` lists the groups `gs` for the word `w`, anchored at `row`,
/// with the first reference selected.
pub open spec fn panel_for(p: ReferencesPanel, w: Seq<u8>, row: int, gs: Seq<(Seq<char>, Seq<RefView>)>) -> bool {
    &&& p.word@ == lossy_decode(w)
    &&& p.anchor_row == row
    &&& groups_view(p.groups@) == gs
    &&& p.selected_ix == 0
    &&& p.total_refs == sat_count(flat(gs).len())
}

/// The word `w` is highlighted in `n`, which otherwise equals `o`.
pub open spec fn highlighted_word_only(o: &FileViewer, n: &FileViewer, w: Seq<u8>) -> bool {
    &&& n.same_text_state(o)
    &&& n.view_same_but(o, false, true, false, false)
    &&& n.highlighted() == Some(w)
    &&& all_occurrences(o.buf(), w, n.occurrences())
}

/// What a Cmd+click on the word `w` (starting at byte `a` of the cursor's
/// row) does, given the other files' reference groups `others`: for the
/// open file's references `cur`, it follows [`decided`] on
/// [`click_groups`]: the panel opens with the word highlighted (listing
/// every group, the others sorted by path); a jump
/// within the file moves the cursor to the definition, selects and flashes
/// it and highlights the word; a definition in another file is handed back
/// to be opened; otherwise nothing changes.
pub open spec fn click_outcome(
    o: &FileViewer,
    n: &FileViewer,
    r: CmdClick,
    w: Seq<u8>,
    a: usize,
    others: Seq<(Seq<char>, Seq<RefView>)>,
) -> bool {
    exists|cur: Seq<RefView>|
        #[trigger] refs_in(o.path_view(), o.buf(), w, cur) && match decided(
            click_groups(o.path_view(), cur, others),
            o.path_view(),
            o.row() as usize,
            a,
        ) {
            Decided::Nothing => r is Nothing && *n == *o,
            Decided::Definition(fg) => r matches CmdClick::Panel(p) && panel_for(p, w, o.row(), fg)
                && highlighted_word_only(o, n, w),
            Decided::GoTo(d) => if d.path == o.path_view() {
                if d.row < o.buf().len() {
                    &&& r is Jumped
                    &&& n.jumped_to(o, d.row, d.col_start, d.col_end)
                    &&& n.highlighted() == Some(w)
                    &&& all_occurrences(o.buf(), w, n.occurrences())
                } else {
                    r is Nothing && *n == *o
                }
            } else {
                r matches CmdClick::OpenFile(x) && x@ == d && *n == *o
            },
            Decided::All => r matches CmdClick::Panel(p) && panel_for(p, w, o.row(), click_groups(o.path_view(), cur, others))
                && sorted_by_path(click_groups(o.path_view(), cur, others).skip(if cur.len() > 0 { 1int } else { 0int }))
                && highlighted_word_only(o, n, w),
        }
}

impl FileViewer {
    /// `self` is `o` with the cursor at (`r`, `c`) and the span up to `e`
    /// selected and flashed; the text, history, modes and search are kept.
    pub closed spec fn jumped_to(&self, o: &Self, r: usize, c: usize, e: usize) -> bool {
        &&& self.path == o.path
        &&& self.language == o.language
        &&& self.workspace_root == o.workspace_root
        &&& self.dirty == o.dirty
        &&& self.buffer@ == o.buffer@
        &&& self.undo_stack@ == o.undo_stack@
        &&& self.redo_stack@ == o.redo_stack@
        &&& self.last_edit_kind == o.last_edit_kind
        &&& self.last_edit_ms == o.last_edit_ms
        &&& self.vim_mode == o.vim_mode
        &&& self.vim_pending == o.vim_pending
        &&& self.visual_anchor_row == o.visual_anchor_row
        &&& self.visual_anchor_col == o.visual_anchor_col
        &&& self.mouse_selecting == o.mouse_selecting
        &&& self.search_active == o.search_active
        &&& self.search_query == o.search_query
        &&& self.search_matches@ == o.search_matches@
        &&& self.search_match_ix == o.search_match_ix
        &&& self.cursor_row == r
        &&& self.cursor_col == c
        &&& self.nav_highlight == Some((r, c, e))
        &&& self.selection == Some(Selection { start_row: r, start_col: c, end_row: r, end_col: e })
    }

    /// Cmd+click on the word at the cursor: finds its references in this
    /// buffer and, with those found in other files (`others`), opens the
    /// references panel, jumps to the definition, or hands back the file to
    /// open (see [`click_outcome`]).
    pub fn cmd_click(&mut self, others: Vec<(String, Vec<FileReference>)>) -> (r: CmdClick)
        requires
            old(self).wf(),
        ensures
            final(self).wf(),
            ({
                let line = old(self).buf()[old(self).row()];
                match word_anchor(line, old(self).col()) {
                    Some(p) => exists|a: usize, b: int|
                        run_start(line, p + 1, a as int, WORD_CLASS) && run_end(line, p, b, WORD_CLASS) && if b - a == 0 {
                            r is Nothing && *final(self) == *old(self)
                        } else {
                            click_outcome(old(self), final(self), r, line.subrange(a as int, b), a, groups_view(others@))
                        },
                    None => r is Nothing && *final(self) == *old(self),
                }
            }),
    {
        let (start, end) = match self.word_at(self.cursor_row, self.cursor_col) {
            Some(x) => x,
            None => {
                return CmdClick::Nothing;
            },
        };
        let ghost line = self.buf()[self.row()];
        proof {
            assert(self.buffer@[self.cursor_row as int]@ == line);
        }
        let len = self.buffer[self.cursor_row].len();
        let t = splice_bytes(&self.buffer[self.cursor_row], end, len, &[]);
        let word = splice_bytes(&t, 0, start, &[]);
        assert(word@ =~= line.subrange(start as int, end as int));
        if word.len() == 0 {
            return CmdClick::Nothing;
        }
        let current = references_in_lines(self.path.as_str(), &self.buffer, word.as_slice());
        let ghost cur = refs_view(current@);
        let ghost ov = groups_view(others@);
        let mut groups: Vec<(String, Vec<FileReference>)> = Vec::new();
        let current_nonempty = current.len() > 0;
        if current_nonempty {
            groups.push((self.path.clone(), current));
        }
        assert(groups_view(groups@) =~= (if cur.len() > 0 { seq![(self.path@, cur)] } else { seq![] }));
        let ghost base = groups_view(groups@);
        let ghost keep = |g: (Seq<char>, Seq<RefView>)| g.0 != self.path@ && g.1.len() > 0;
        let mut k: usize = 0;
        assert(ov.take(0) =~= Seq::<(Seq<char>, Seq<RefView>)>::empty());
        proof {
            reveal(Seq::filter);
        }
        assert(base + ov.take(0).filter(keep) =~= base);
        while k < others.len()
            invariant
                0 <= k <= others@.len(),
                ov == groups_view(others@),
                base == (if cur.len() > 0 { seq![(self.path@, cur)] } else { seq![] }),
                keep == (|g: (Seq<char>, Seq<RefView>)| g.0 != self.path@ && g.1.len() > 0),
                groups_view(groups@) == base + ov.take(k as int).filter(keep),
            decreases others@.len() - k,
        {
            let ghost before = groups_view(groups@);
            proof {
                reveal(Seq::filter);
                assert(ov.take(k + 1).drop_last() =~= ov.take(k as int));
                assert(ov.take(k + 1).last() == ov[k as int]);
            }
            if !str_eq(others[k].0.as_str(), self.path.as_str()) && others[k].1.len() > 0 {
                let g = copy_group(&others[k]);
                groups.push(g);
                assert(groups_view(groups@) =~= before.push(ov[k as int]));
                assert(base + ov.take(k + 1).filter(keep) =~= (base + ov.take(k as int).filter(keep)).push(ov[k as int]));
            } else {
                assert(base + ov.take(k + 1).filter(keep) =~= base + ov.take(k as int).filter(keep));
            }
            k += 1;
        }
        assert(ov.take(k as int) =~= ov);
        let groups = order_groups_by_path(groups, current_nonempty);
        let ghost gs = groups_view(groups@);
        assert(gs == click_groups(self.path@, cur, ov));
        assert(refs_in(self.path_view(), self.buf(), word@, cur));
        let decision = decide_cmd_click(self.path.as_str(), self.cursor_row, start, &groups);
        match decision {
            ClickDecision::Nothing => CmdClick::Nothing,
            ClickDecision::Definition(fg) => {
                let total = total_refs(&fg);
                let occurrences = self.find_all_occurrences(word.as_slice());
                let panel = ReferencesPanel {
                    word: crate::text::utf8_lossy(word.as_slice()),
                    anchor_row: self.cursor_row,
                    groups: fg,
                    selected_ix: 0,
                    total_refs: total,
                };
                self.highlighted_word = Some(word);
                self.highlighted_occurrences = occurrences;
                CmdClick::Panel(panel)
            },
            ClickDecision::GoTo(dr) => {
                if str_eq(dr.path.as_str(), self.path.as_str()) {
                    if dr.row < self.buffer.len() {
                        let occurrences = self.find_all_occurrences(word.as_slice());
                        self.cursor_row = dr.row;
                        self.cursor_col = dr.col_start;
                        self.nav_highlight = Some((dr.row, dr.col_start, dr.col_end));
                        self.selection = Some(Selection {
                            start_row: dr.row,
                            start_col: dr.col_start,
                            end_row: dr.row,
                            end_col: dr.col_end,
                        });
                        self.highlighted_word = Some(word);
                        self.highlighted_occurrences = occurrences;
                        CmdClick::Jumped
                    } else {
                        CmdClick::Nothing
                    }
                } else {
                    CmdClick::OpenFile(dr)
                }
            },
            ClickDecision::All => {
                let total = total_refs(&groups);
                let occurrences = self.find_all_occurrences(word.as_slice());
                let panel = ReferencesPanel {
                    word: crate::text::utf8_lossy(word.as_slice()),
                    anchor_row: self.cursor_row,
                    groups,
                    selected_ix: 0,
                    total_refs: total,
                };
                self.highlighted_word = Some(word);
                self.highlighted_occurrences = occurrences;
                CmdClick::Panel(panel)
            },
        }
    }
}

impl FileViewer {
    /// The word under the cursor that a Cmd+click looks up in other files.
    pub fn cmd_click_word(&self) -> (r: Option<String>)
        requires
            self.wf(),
        ensures
            ({
                let line = self.buf()[self.row()];
                match word_anchor(line, self.col()) {
                    Some(p) => exists|a: int, b: int|
                        #[trigger] run_start(line, p + 1, a, WORD_CLASS) && #[trigger] run_end(line, p, b, WORD_CLASS) && if b - a == 0 {
                            r is None
                        } else {
                            r matches Some(w) && w@ == lossy_decode(line.subrange(a, b))
                        },
                    None => r is None,
                }
            }),
    {
        let (start, end) = match self.word_at(self.cursor_row, self.cursor_col) {
            Some(x) => x,
            None => {
                return None;
            },
        };
        let ghost line = self.buf()[self.row()];
        proof {
            assert(self.buffer@[self.cursor_row as int]@ == line);
        }
        let len = self.buffer[self.cursor_row].len();
        let t = splice_bytes(&self.buffer[self.cursor_row], end, len, &[]);
        let word = splice_bytes(&t, 0, start, &[]);
        assert(word@ =~= line.subrange(start as int, end as int));
        if word.len() == 0 {
            return None;
        }
        Some(crate::text::utf8_lossy(word.as_slice()))
    }

    /// Goes to a reference picked in the references panel: one in this file
    /// moves the cursor there and flashes it (clearing the selection); one
    /// in another file is handed back to be opened there. A reference past
    /// the end of this buffer is ignored.
    pub fn goto_reference(&mut self, r: &FileReference) -> (open: Option<FileReference>)
        requires
            old(self).wf(),
        ensures
            final(self).wf(),
            r.path@ != old(self).path_view() ==> (open matches Some(x) && x@ == r@) && *final(self) == *old(self),
            r.path@ == old(self).path_view() ==> open is None,
            r.path@ == old(self).path_view() && r.row >= old(self).buf().len() ==> *final(self) == *old(self),
            r.path@ == old(self).path_view() && r.row < old(self).buf().len() ==> {
                &&& final(self).row() == r.row
                &&& final(self).col() == r.col_start
                &&& final(self).nav() == Some((r.row, r.col_start, r.col_end))
                &&& final(self).sel() is None
                &&& final(self).buf() == old(self).buf()
                &&& final(self).undo_view() == old(self).undo_view()
                &&& final(self).redo_view() == old(self).redo_view()
                &&& final(self).mode() == old(self).mode()
                &&& final(self).highlighted() == old(self).highlighted()
                &&& final(self).occurrences() == old(self).occurrences()
                &&& final(self).selecting() == old(self).selecting()
                &&& final(self).query() == old(self).query()
                &&& final(self).matches() == old(self).matches()
            },
    {
        if str_eq(r.path.as_str(), self.path.as_str()) {
            if r.row < self.buffer.len() {
                self.cursor_row = r.row;
                self.cursor_col = r.col_start;
                self.nav_highlight = Some((r.row, r.col_start, r.col_end));
                self.selection = None;
            }
            None
        } else {
            Some(crate::references::copy_ref(r))
        }
    }
}

/// The smallest character boundary of `line` after `col` (the end when at
/// or past it).
pub open spec fn next_boundary(line: Seq<u8>, col: int) -> int {
    choose|r: int| is_next_boundary(line, col, r)
}

/// There is exactly one next boundary.
proof fn lemma_next_boundary(line: Seq<u8>, col: int, r: int)
    requires
        is_next_boundary(line, col, r),
    ensures
        next_boundary(line, col) == r,
{
    let c = next_boundary(line, col);
    assert(is_next_boundary(line, col, c));
    if col < line.len() {
        if c < r {
            assert(!boundary(line, c));
        } else if r < c {
            assert(!boundary(line, r));
        }
    }
}

/// The byte `n` characters after byte `pos` of `line`, stopping at its end.
pub open spec fn advance_chars(line: Seq<u8>, pos: int, n: nat) -> int
    decreases n,
{
    if n == 0 || pos >= line.len() {
        if pos > line.len() { line.len() as int } else { pos }
    } else {
        advance_chars(line, next_boundary(line, pos), (n - 1) as nat)
    }
}

impl FileViewer {
    /// Where a click lands in the buffer: the row clamped to the buffer, and
    /// the byte `col_chars` characters into the display line that starts at
    /// byte `byte_offset` of that row (at most the line's end).
    pub fn click_position(&self, row: usize, byte_offset: usize, col_chars: usize) -> (r: (usize, usize))
        requires
            self.wf(),
            ({
                let rr = if row < self.buf().len() { row as int } else { self.buf().len() - 1 };
                let l = self.buf()[rr];
                boundary(l, if byte_offset > l.len() { l.len() as int } else { byte_offset as int })
            }),
        ensures
            r.0 == (if row < self.buf().len() { row as int } else { self.buf().len() - 1 }),
            r.1 == advance_chars(
                self.buf()[r.0 as int],
                if byte_offset > self.buf()[r.0 as int].len() { self.buf()[r.0 as int].len() as int } else { byte_offset as int },
                col_chars as nat,
            ),
    {
        let row = if row < self.buffer.len() { row } else { self.buffer.len() - 1 };
        let ghost l = self.buf()[row as int];
        assert(self.buffer@[row as int]@ == l);
        let len = self.buffer[row].len();
        let start = if byte_offset > len { len } else { byte_offset };
        let mut pos = start;
        let mut k: usize = 0;
        while k < col_chars && pos < len
            invariant
                0 <= k <= col_chars,
                pos <= len,
                len == l.len(),
                self.wf(),
                row < self.buf().len(),
                l == self.buf()[row as int],
                advance_chars(l, start as int, col_chars as nat) == advance_chars(l, pos as int, (col_chars - k) as nat),
            decreases col_chars - k,
        {
            let nxt = self.next_char_boundary(row, pos);
            proof {
                lemma_next_boundary(l, pos as int, nxt as int);
            }
            pos = nxt;
            k += 1;
        }
        (row, pos)
    }
}

} // verus!
