//! The command palette: its commands and filtering, its modes (commands,
//! clone a repository, search the workspace), and the parsing of search
//! tool output.
use vstd::prelude::*;
use vstd::string::StringSliceAdditionalSpecFns;
use vstd::utf8::{valid_utf8, decode_utf8, encode_utf8};
use crate::text::{
    str_eq, str_chars, str_trim, trim_start_spec, trim_end_spec, lowercase, str_to_lowercase, lines_of,
    str_lines, lines_view, utf8_lossy, lossy_decode, push_decimal, decimal,
};

verus! {

/// The mode the command palette is in.
#[derive(Clone, Copy, PartialEq, Eq, Debug, Structural)]
pub enum CommandCenterMode {
    /// All commands, filtered by the typed query.
    Commands,
    /// A repository URL is typed; Enter clones it.
    CloneRepo,
    /// A search across the workspace's files.
    SearchWorkspace,
}

/// What a command does.
#[derive(Clone, Copy, PartialEq, Eq, Debug, Structural)]
pub enum CommandAction {
    OpenProject,
    CloneRepo,
    NewTerminalTab,
    ToggleFilesPanel,
    ToggleSidebar,
    ToggleDiffPanel,
    ToggleSettings,
}

/// A command of the palette.
pub struct CommandEntry {
    pub label: String,
    pub description: String,
    pub action: CommandAction,
}

/// A line of a workspace search: file, line number, text.
pub struct SearchResult {
    pub path: String,
    pub line_num: usize,
    pub line_text: String,
}

impl SearchResult {
    pub open spec fn view(&self) -> (Seq<char>, usize, Seq<char>) {
        (self.path@, self.line_num, self.line_text@)
    }

    /// A copy of this result.
    pub fn copy(&self) -> (r: SearchResult)
        ensures
            r.view() == self.view(),
    {
        SearchResult { path: self.path.clone(), line_num: self.line_num, line_text: self.line_text.clone() }
    }
}

/// `needle` occurs in `hay`.
pub open spec fn contains(hay: Seq<char>, needle: Seq<char>) -> bool {
    exists|i: int| 0 <= i <= hay.len() - needle.len() && #[trigger] hay.subrange(i, i + needle.len()) == needle
}

/// Whether `needle` occurs in `hay`.
pub fn chars_contain(hay: &Vec<char>, needle: &Vec<char>) -> (r: bool)
    ensures
        r == contains(hay@, needle@),
{
    if needle.len() > hay.len() {
        return false;
    }
    let mut i: usize = 0;
    while i <= hay.len() - needle.len()
        invariant
            needle.len() <= hay.len(),
            0 <= i <= hay.len() - needle.len() + 1,
            forall|k: int| 0 <= k < i ==> #[trigger] hay@.subrange(k, k + needle@.len()) != needle@,
        decreases hay.len() - needle.len() + 1 - i,
    {
        let mut j: usize = 0;
        let mut ok = true;
        while j < needle.len()
            invariant
                needle.len() <= hay.len(),
                i <= hay.len() - needle.len(),
                0 <= j <= needle.len(),
                ok == forall|t: int| 0 <= t < j ==> hay@[i + t] == needle@[t],
            decreases needle.len() - j,
        {
            if hay[i + j] != needle[j] {
                ok = false;
            }
            j += 1;
        }
        if ok {
            assert(hay@.subrange(i as int, i + needle@.len()) =~= needle@);
            return true;
        }
        proof {
            let t = choose|t: int| 0 <= t < needle.len() && hay@[i + t] != needle@[t];
            assert(hay@.subrange(i as int, i + needle@.len())[t] != needle@[t]);
        }
        i += 1;
    }
    false
}

/// The command matches a (non-empty) query: its lowercased label or
/// description holds the lowercased query.
pub open spec fn command_matches(c: CommandEntry, q: Seq<char>) -> bool {
    contains(lowercase(c.label@), lowercase(q)) || contains(lowercase(c.description@), lowercase(q))
}

/// The indices of the commands a query keeps, in order: all of them for an
/// empty query.
pub open spec fn filtered_spec(cmds: Seq<CommandEntry>, q: Seq<char>) -> Seq<int>
    decreases cmds.len(),
{
    if cmds.len() == 0 {
        Seq::empty()
    } else {
        let rest = filtered_spec(cmds.drop_last(), q);
        if q.len() == 0 || command_matches(cmds.last(), q) {
            rest.push(cmds.len() - 1)
        } else {
            rest
        }
    }
}

/// The palette's commands: label, description, action.
pub open spec fn default_commands_spec() -> Seq<(Seq<char>, Seq<char>, CommandAction)> {
    seq![
        ("Open Project"@, "Open a directory"@, CommandAction::OpenProject),
        ("Clone Repository"@, "Clone a git repository"@, CommandAction::CloneRepo),
        ("New Terminal Tab"@, "Open a new terminal"@, CommandAction::NewTerminalTab),
        ("Toggle Files Panel"@, "Open file browser"@, CommandAction::ToggleFilesPanel),
        ("Toggle Sidebar"@, "Show/hide workspace sidebar"@, CommandAction::ToggleSidebar),
        ("Toggle Diff Panel"@, "Show/hide git diff panel"@, CommandAction::ToggleDiffPanel),
        ("Settings"@, "Open settings"@, CommandAction::ToggleSettings),
    ]
}

pub open spec fn entry_view(c: CommandEntry) -> (Seq<char>, Seq<char>, CommandAction) {
    (c.label@, c.description@, c.action)
}

fn entry(label: &str, description: &str, action: CommandAction) -> (c: CommandEntry)
    ensures
        entry_view(c) == (label@, description@, action),
{
    CommandEntry { label: label.to_owned(), description: description.to_owned(), action }
}

/// The palette's commands.
pub fn default_commands() -> (v: Vec<CommandEntry>)
    ensures
        v@.map_values(|c: CommandEntry| entry_view(c)) == default_commands_spec(),
{
    let mut v: Vec<CommandEntry> = Vec::new();
    v.push(entry("Open Project", "Open a directory", CommandAction::OpenProject));
    v.push(entry("Clone Repository", "Clone a git repository", CommandAction::CloneRepo));
    v.push(entry("New Terminal Tab", "Open a new terminal", CommandAction::NewTerminalTab));
    v.push(entry("Toggle Files Panel", "Open file browser", CommandAction::ToggleFilesPanel));
    v.push(entry("Toggle Sidebar", "Show/hide workspace sidebar", CommandAction::ToggleSidebar));
    v.push(entry("Toggle Diff Panel", "Show/hide git diff panel", CommandAction::ToggleDiffPanel));
    v.push(entry("Settings", "Open settings", CommandAction::ToggleSettings));
    assert(v@.map_values(|c: CommandEntry| entry_view(c)) =~= default_commands_spec());
    v
}


/// The palette's state.
pub struct CommandCenter {
    pub visible: bool,
    pub mode: CommandCenterMode,
    pub query: String,
    pub selected_ix: usize,
    pub commands: Vec<CommandEntry>,
    /// Where the last clone went; the app reads it.
    pub cloned_dir: Option<String>,
    /// The command chosen with Enter; the app reads and clears it.
    pub pending_action: Option<CommandAction>,
    /// Status line (cloning, searching, errors).
    pub status_message: Option<String>,
    pub cloning: bool,
    pub search_results: Vec<SearchResult>,
    /// The search result chosen with Enter.
    pub pending_search_result: Option<SearchResult>,
    /// Root directory of workspace searches.
    pub search_root: Option<String>,
    pub searching: bool,
}

/// What the app is to start after Enter.
pub enum SubmitEffect {
    Nothing,
    /// Clone the repository at this URL.
    Clone(String),
    /// Run a workspace search for this query under this root.
    Search { query: String, root: String },
}

pub open spec fn results_view(v: Seq<SearchResult>) -> Seq<(Seq<char>, usize, Seq<char>)> {
    v.map_values(|r: SearchResult| r.view())
}

pub open spec fn status_is(s: Option<String>, t: Seq<char>) -> bool {
    match s {
        Some(m) => m@ == t,
        None => false,
    }
}

/// The query holds only whitespace.
pub open spec fn blank_query(q: Seq<char>) -> bool {
    trim_start_spec(trim_end_spec(q)).len() == 0
}

impl CommandCenter {
    /// A hidden palette in command mode.
    pub fn new() -> (c: Self)
        ensures
            !c.visible,
            c.mode == CommandCenterMode::Commands,
            c.query@.len() == 0,
            c.selected_ix == 0,
            c.commands@.map_values(|e: CommandEntry| entry_view(e)) == default_commands_spec(),
            c.cloned_dir is None && c.pending_action is None && c.status_message is None,
            !c.cloning && !c.searching,
            c.search_results@.len() == 0,
            c.pending_search_result is None,
            c.search_root is None,
    {
        CommandCenter {
            visible: false,
            mode: CommandCenterMode::Commands,
            query: String::new(),
            selected_ix: 0,
            commands: default_commands(),
            cloned_dir: None,
            pending_action: None,
            status_message: None,
            cloning: false,
            search_results: Vec::new(),
            pending_search_result: None,
            search_root: None,
            searching: false,
        }
    }

    /// Clears the selection, query, status and results.
    fn reset_state(&mut self)
        ensures
            final(self).selected_ix == 0,
            final(self).query@.len() == 0,
            final(self).status_message is None,
            final(self).search_results@.len() == 0,
            final(self).visible == old(self).visible,
            final(self).mode == old(self).mode,
            final(self).commands@ == old(self).commands@,
            final(self).cloning == old(self).cloning,
            final(self).searching == old(self).searching,
            final(self).search_root == old(self).search_root,
            final(self).pending_action == old(self).pending_action,
    {
        self.selected_ix = 0;
        self.query = String::new();
        self.status_message = None;
        self.search_results = Vec::new();
    }

    /// Shows or hides the palette; showing it starts afresh in command mode.
    pub fn toggle(&mut self)
        ensures
            final(self).visible == !old(self).visible,
            final(self).visible ==> final(self).mode == CommandCenterMode::Commands && final(self).query@.len()
                == 0 && final(self).selected_ix == 0 && final(self).status_message is None
                && final(self).search_results@.len() == 0,
            !final(self).visible ==> final(self).mode == old(self).mode && final(self).query == old(self).query
                && final(self).selected_ix == old(self).selected_ix,
            final(self).commands@ == old(self).commands@,
    {
        self.visible = !self.visible;
        if self.visible {
            self.reset_state();
            self.mode = CommandCenterMode::Commands;
        }
    }

    /// Shows the palette in clone mode.
    pub fn show_clone_mode(&mut self)
        ensures
            final(self).visible,
            final(self).mode == CommandCenterMode::CloneRepo,
            final(self).query@.len() == 0 && final(self).selected_ix == 0,
            final(self).status_message is None && final(self).search_results@.len() == 0,
            final(self).commands@ == old(self).commands@,
    {
        self.visible = true;
        self.reset_state();
        self.mode = CommandCenterMode::CloneRepo;
    }

    /// Shows the palette in workspace search mode.
    pub fn show_workspace_search_mode(&mut self)
        ensures
            final(self).visible,
            final(self).mode == CommandCenterMode::SearchWorkspace,
            final(self).query@.len() == 0 && final(self).selected_ix == 0,
            final(self).status_message is None && final(self).search_results@.len() == 0,
            final(self).commands@ == old(self).commands@,
    {
        self.visible = true;
        self.reset_state();
        self.mode = CommandCenterMode::SearchWorkspace;
    }

    /// Hides the palette and returns it to command mode.
    pub fn dismiss(&mut self)
        ensures
            !final(self).visible,
            final(self).mode == CommandCenterMode::Commands,
            final(self).query@.len() == 0 && final(self).selected_ix == 0,
            final(self).status_message is None && final(self).search_results@.len() == 0,
            final(self).commands@ == old(self).commands@,
    {
        self.visible = false;
        self.reset_state();
        self.mode = CommandCenterMode::Commands;
    }

    /// The indices of the commands the query keeps: those whose lowercased
    /// label or description holds the lowercased query (all, for an empty
    /// query), in order.
    pub fn filtered_commands(&self) -> (r: Vec<(usize, &CommandEntry)>)
        ensures
            r@.map_values(|p: (usize, &CommandEntry)| p.0 as int) == filtered_spec(self.commands@, self.query@),
            forall|k: int| 0 <= k < r@.len() ==> *(#[trigger] r@[k]).1 == self.commands@[r@[k].0 as int],
    {
        let ghost cmds = self.commands@;
        let q = str_to_lowercase(self.query.as_str());
        let qc = str_chars(q.as_str());
        let empty = self.query.as_str().is_empty();
        let mut r: Vec<(usize, &CommandEntry)> = Vec::new();
        let mut i: usize = 0;
        while i < self.commands.len()
            invariant
                cmds == self.commands@,
                0 <= i <= cmds.len(),
                qc@ == lowercase(self.query@),
                empty == (self.query@.len() == 0),
                r@.map_values(|p: (usize, &CommandEntry)| p.0 as int) == filtered_spec(cmds.subrange(0, i as int), self.query@),
                forall|k: int| 0 <= k < r@.len() ==> *(#[trigger] r@[k]).1 == cmds[r@[k].0 as int] && r@[k].0 < i,
            decreases cmds.len() - i,
        {
            let ghost pre = r@;
            let c = &self.commands[i];
            let keep = if empty {
                true
            } else {
                let l = str_chars(str_to_lowercase(c.label.as_str()).as_str());
                let d = str_chars(str_to_lowercase(c.description.as_str()).as_str());
                chars_contain(&l, &qc) || chars_contain(&d, &qc)
            };
            assert(cmds.subrange(0, i + 1).drop_last() =~= cmds.subrange(0, i as int));
            assert(cmds.subrange(0, i + 1).last() == cmds[i as int]);
            if keep {
                r.push((i, c));
                assert(r@.map_values(|p: (usize, &CommandEntry)| p.0 as int) =~= pre.map_values(|p: (usize, &CommandEntry)| p.0 as int).push(i as int));
            }
            i += 1;
        }
        assert(cmds.subrange(0, cmds.len() as int) =~= cmds);
        r
    }

    /// The action of the selected filtered command.
    pub fn selected_action(&self) -> (r: Option<CommandAction>)
        ensures
            ({
                let f = filtered_spec(self.commands@, self.query@);
                if self.selected_ix < f.len() {
                    r == Some(self.commands@[f[self.selected_ix as int]].action)
                } else {
                    r is None
                }
            }),
    {
        let f = self.filtered_commands();
        proof {
            lemma_filtered_bound(self.commands@, self.query@);
        }
        if self.selected_ix < f.len() {
            let ghost fs = filtered_spec(self.commands@, self.query@);
            assert(f@.map_values(|p: (usize, &CommandEntry)| p.0 as int)[self.selected_ix as int] == f@[self.selected_ix as int].0 as int);
            Some(f[self.selected_ix].1.action)
        } else {
            None
        }
    }

    /// Number of rows in the current list.
    pub open spec fn rows(&self) -> nat {
        match self.mode {
            CommandCenterMode::Commands => filtered_spec(self.commands@, self.query@).len(),
            CommandCenterMode::SearchWorkspace => self.search_results@.len(),
            CommandCenterMode::CloneRepo => 0,
        }
    }

    /// Up arrow: the selection moves one row up, stopping at the first.
    pub fn select_previous(&mut self)
        ensures
            *final(self) == (CommandCenter {
                selected_ix: if old(self).selected_ix > 0 { (old(self).selected_ix - 1) as usize } else { 0 },
                ..*old(self)
            }),
    {
        if self.selected_ix > 0 {
            self.selected_ix -= 1;
        }
    }

    /// Down arrow: the selection moves one row down, stopping at the last
    /// row (at the first when the list is empty).
    pub fn select_next(&mut self)
        ensures
            ({
                let last: int = if old(self).rows() > 0 { old(self).rows() - 1 } else { 0 };
                *final(self) == (CommandCenter {
                    selected_ix: if old(self).selected_ix < last { (old(self).selected_ix + 1) as usize } else { old(self).selected_ix },
                    ..*old(self)
                })
            }),
    {
        let max_ix = self.result_count().saturating_sub(1);
        if self.selected_ix < max_ix {
            self.selected_ix += 1;
        }
    }

    /// Number of rows in the current list.
    pub fn result_count(&self) -> (n: usize)
        ensures
            n == self.rows(),
    {
        match self.mode {
            CommandCenterMode::Commands => self.filtered_commands().len(),
            CommandCenterMode::SearchWorkspace => self.search_results.len(),
            CommandCenterMode::CloneRepo => 0,
        }
    }
}

/// Filtered indices lie within the command list.
proof fn lemma_filtered_bound(cmds: Seq<CommandEntry>, q: Seq<char>)
    ensures
        forall|k: int| 0 <= k < filtered_spec(cmds, q).len() ==> 0 <= #[trigger] filtered_spec(cmds, q)[k] < cmds.len(),
        filtered_spec(cmds, q).len() <= cmds.len(),
    decreases cmds.len(),
{
    if cmds.len() > 0 {
        lemma_filtered_bound(cmds.drop_last(), q);
    }
}


/// The path `Path::join` makes of `base` and `p`.
pub uninterp spec fn joined_path(base: Seq<char>, p: Seq<char>) -> Seq<char>;

/// Joins two paths.
///
/// Calls `Path::join` (an absolute `p` replaces `base`, else a separator
/// goes between them when needed). Trusted: the result is a function of
/// the two paths.
#[verifier::external_body]
pub(crate) fn path_join(base: &str, p: &str) -> (r: String)
    ensures
        r@ == joined_path(base@, p@),
{
    std::path::Path::new(base).join(p).to_string_lossy().into_owned()
}

pub open spec fn is_digit(b: u8) -> bool {
    48 <= b <= 57
}

/// The value of decimal digits.
pub open spec fn digits_value(s: Seq<u8>) -> nat
    decreases s.len(),
{
    if s.len() == 0 {
        0
    } else {
        digits_value(s.drop_last()) * 10 + (s.last() - 48) as nat
    }
}

/// `usize::from_str` on bytes: an optional `+`, then one or more decimal
/// digits whose value fits.
pub open spec fn parse_usize_spec(s: Seq<u8>) -> Option<nat> {
    let d = digits_part(s);
    if d.len() > 0 && all_digits(d) && digits_value(d) <= usize::MAX {
        Some(digits_value(d))
    } else {
        None
    }
}

/// The bytes after an optional leading `+`.
pub open spec fn digits_part(s: Seq<u8>) -> Seq<u8> {
    if s.len() > 0 && s[0] == 43u8 { s.drop_first() } else { s }
}

pub open spec fn all_digits(d: Seq<u8>) -> bool {
    forall|i: int| 0 <= i < d.len() ==> is_digit(#[trigger] d[i])
}

/// Parses a decimal `usize` as `str::parse` does.
pub fn parse_usize(s: &[u8]) -> (r: Option<usize>)
    ensures
        match r {
            Some(v) => parse_usize_spec(s@) == Some(v as nat),
            None => parse_usize_spec(s@) is None,
        },
{
    let start: usize = if s.len() > 0 && s[0] == 43u8 { 1 } else { 0 };
    let ghost d = digits_part(s@);
    assert(d =~= s@.subrange(start as int, s@.len() as int));
    if start >= s.len() {
        return None;
    }
    let mut v: usize = 0;
    let mut i = start;
    while i < s.len()
        invariant
            start <= i <= s.len(),
            start < s.len(),
            d == digits_part(s@),
            d == s@.subrange(start as int, s@.len() as int),
            forall|k: int| start <= k < i ==> is_digit(#[trigger] s@[k]),
            v as nat == digits_value(s@.subrange(start as int, i as int)),
        decreases s.len() - i,
    {
        let b = s[i];
        if !(48 <= b && b <= 57) {
            assert(d[i - start] == s@[i as int]);
            assert(!is_digit(d[i - start]));
            assert(!all_digits(d));
            assert(parse_usize_spec(s@) is None);
            return None;
        }
        let ghost sub = s@.subrange(start as int, i + 1);
        assert(sub.drop_last() =~= s@.subrange(start as int, i as int));
        assert(sub.last() == b);
        match v.checked_mul(10) {
            None => {
                proof {
                    if all_digits(d) {
                        lemma_digits_prefix_bound(d, i + 1 - start);
                        assert(d.subrange(0, i + 1 - start) =~= sub);
                        assert(digits_value(sub) == digits_value(sub.drop_last()) * 10 + (b - 48) as nat);
                        assert(v * 10 > usize::MAX);
                        assert(digits_value(sub) > usize::MAX) by (nonlinear_arith)
                            requires
                                digits_value(sub) == v * 10 + (b - 48) as nat,
                                v * 10 > usize::MAX;
                    }
                    assert(parse_usize_spec(s@) is None);
                }
                return None;
            },
            Some(t) => match t.checked_add((b - 48) as usize) {
                None => {
                    proof {
                        if all_digits(d) {
                            lemma_digits_prefix_bound(d, i + 1 - start);
                            assert(d.subrange(0, i + 1 - start) =~= sub);
                        }
                    }
                    return None;
                },
                Some(n) => {
                    v = n;
                },
            },
        }
        i += 1;
    }
    assert(s@.subrange(start as int, s@.len() as int) == d);
    assert forall|k: int| 0 <= k < d.len() implies is_digit(#[trigger] d[k]) by {
        assert(d[k] == s@[start + k]);
    }
    assert(all_digits(d));
    Some(v)
}

/// A prefix of digits is worth no more than all of them.
proof fn lemma_digits_prefix_bound(d: Seq<u8>, k: int)
    requires
        0 <= k <= d.len(),
        forall|i: int| 0 <= i < d.len() ==> is_digit(#[trigger] d[i]),
    ensures
        digits_value(d.subrange(0, k)) <= digits_value(d),
    decreases d.len() - k,
{
    if k < d.len() {
        lemma_digits_prefix_bound(d, k + 1);
        let p = d.subrange(0, k + 1);
        assert(p.drop_last() =~= d.subrange(0, k));
    } else {
        assert(d.subrange(0, k) =~= d);
    }
}

/// The index of the first `:` in `l` at or after `from`, if any.
pub open spec fn colon_from(l: Seq<u8>, from: int) -> Option<int>
    decreases l.len() - from,
{
    if from < 0 || from >= l.len() {
        None
    } else if l[from] == 58u8 {
        Some(from)
    } else {
        colon_from(l, from + 1)
    }
}

proof fn lemma_colon_from(l: Seq<u8>, from: int)
    requires
        from >= 0,
    ensures
        match colon_from(l, from) {
            Some(i) => from <= i < l.len() && l[i] == 58u8,
            None => true,
        },
    decreases l.len() - from,
{
    if from < l.len() && l[from] != 58u8 {
        lemma_colon_from(l, from + 1);
    }
}

fn find_colon(l: &Vec<u8>, from: usize) -> (r: Option<usize>)
    ensures
        r matches Some(i) ==> from <= i < l.len(),
        match r {
            Some(i) => colon_from(l@, from as int) == Some(i as int),
            None => colon_from(l@, from as int) is None,
        },
{
    let mut i = from;
    while i < l.len()
        invariant
            from <= i,
            colon_from(l@, from as int) == colon_from(l@, i as int),
        decreases l.len() - i,
    {
        if l[i] == 58u8 {
            return Some(i);
        }
        i += 1;
    }
    None
}

/// The search result a line of `file:line:text` output gives, if it
/// parses: the file (joined onto `root` when given), the line number, the
/// text trimmed.
pub open spec fn result_of_line(l: Seq<u8>, root: Option<Seq<char>>) -> Option<(Seq<char>, usize, Seq<char>)> {
    match colon_from(l, 0) {
        None => None,
        Some(c1) => match colon_from(l, c1 + 1) {
            None => None,
            Some(c2) => match parse_usize_spec(l.subrange(c1 + 1, c2)) {
                None => None,
                Some(n) => {
                    let file = lossy_decode(l.subrange(0, c1));
                    Some(
                        (
                            match root {
                                Some(r) => joined_path(r, file),
                                None => file,
                            },
                            n as usize,
                            trim_start_spec(trim_end_spec(lossy_decode(l.subrange(c2 + 1, l.len() as int)))),
                        ),
                    )
                },
            },
        },
    }
}

/// The results of all parsing lines, in order.
pub open spec fn results_of(ls: Seq<Seq<u8>>, root: Option<Seq<char>>) -> Seq<(Seq<char>, usize, Seq<char>)>
    decreases ls.len(),
{
    if ls.len() == 0 {
        Seq::empty()
    } else {
        let rest = results_of(ls.drop_last(), root);
        match result_of_line(ls.last(), root) {
            Some(r) => rest.push(r),
            None => rest,
        }
    }
}

/// Whether a search by `rg` answers the query: it ran and exited with 0
/// (matches found) or 1 (none found). Otherwise (not installed, an error)
/// `grep` searches instead.
pub fn rg_answered(ran: bool, exit_code: Option<i32>) -> (r: bool)
    ensures
        r == (ran && (exit_code == Some(0i32) || exit_code == Some(1i32))),
{
    ran && match exit_code {
        Some(c) => c == 0 || c == 1,
        None => false,
    }
}

/// Most results a search keeps.
pub const MAX_SEARCH_RESULTS: usize = 100;

/// Parses the `file:line:text` lines of a search tool's output (the first
/// [`MAX_SEARCH_RESULTS`] results), joining file names onto `relative_root`
/// when given.
pub fn parse_search_output(stdout: &str, relative_root: Option<&str>) -> (r: Vec<SearchResult>)
    ensures
        ({
            let all = results_of(lines_of(stdout.spec_bytes()), match relative_root {
                Some(p) => Some(p@),
                None => None,
            });
            results_view(r@) == all.take(if all.len() < 100 { all.len() as int } else { 100 })
        }),
{
    let ghost root = match relative_root {
        Some(p) => Some(p@),
        None => None,
    };
    let lines = crate::text::str_lines(stdout.as_bytes());
    let ghost ls = lines_view(lines@);
    let mut results: Vec<SearchResult> = Vec::new();
    let mut i: usize = 0;
    proof {
        assert(ls.subrange(0, 0) =~= Seq::<Seq<u8>>::empty());
    }
    while i < lines.len()
        invariant
            0 <= i <= lines.len(),
            ls == lines_view(lines@),
            ls == lines_of(stdout.spec_bytes()),
            root == match relative_root {
                Some(p) => Some(p@),
                None => None,
            },
            results@.len() <= 100,
            results_view(results@) == results_of(ls.subrange(0, i as int), root),
        decreases lines.len() - i,
    {
        if results.len() >= 100 {
            proof {
                lemma_results_prefix(ls, root, i as int);
            }
            assert(results_view(results@) == results_of(ls, root).take(100));
            return results;
        }
        let ghost pre = results_view(results@);
        let l = &lines[i];
        assert(l@ == ls[i as int]);
        assert(ls.subrange(0, i + 1).drop_last() =~= ls.subrange(0, i as int));
        assert(ls.subrange(0, i + 1).last() == ls[i as int]);
        match find_colon(l, 0) {
            None => {},
            Some(c1) => match find_colon(l, c1 + 1) {
                None => {},
                Some(c2) => {
                    let num = vstd::slice::slice_subrange(l.as_slice(), c1 + 1, c2);
                    match parse_usize(num) {
                        None => {},
                        Some(n) => {
                            let file = utf8_lossy(vstd::slice::slice_subrange(l.as_slice(), 0, c1));
                            let text = utf8_lossy(vstd::slice::slice_subrange(l.as_slice(), c2 + 1, l.len()));
                            let path = match relative_root {
                                Some(r) => path_join(r, file.as_str()),
                                None => file,
                            };
                            let content = str_trim(text.as_str()).to_owned();
                            results.push(SearchResult { path, line_num: n, line_text: content });
                            assert(results_view(results@) =~= pre.push(results@.last().view()));
                        },
                    }
                },
            },
        }
        i += 1;
    }
    proof {
        assert(ls.subrange(0, lines.len() as int) =~= ls);
        lemma_results_len(ls, root);
    }
    assert(results_of(ls, root).take(results_of(ls, root).len() as int) =~= results_of(ls, root));
    results
}

proof fn lemma_results_len(ls: Seq<Seq<u8>>, root: Option<Seq<char>>)
    ensures
        results_of(ls, root).len() <= ls.len(),
    decreases ls.len(),
{
    if ls.len() > 0 {
        lemma_results_len(ls.drop_last(), root);
    }
}

/// The results of a prefix of the lines are a prefix of all results.
proof fn lemma_results_prefix(ls: Seq<Seq<u8>>, root: Option<Seq<char>>, i: int)
    requires
        0 <= i <= ls.len(),
    ensures
        results_of(ls.subrange(0, i), root).len() <= results_of(ls, root).len(),
        results_of(ls, root).take(results_of(ls.subrange(0, i), root).len() as int) == results_of(
            ls.subrange(0, i),
            root,
        ),
    decreases ls.len() - i,
{
    if i < ls.len() {
        lemma_results_prefix(ls.drop_last(), root, i);
        assert(ls.drop_last().subrange(0, i) =~= ls.subrange(0, i));
        let a = results_of(ls.drop_last(), root);
        let p = results_of(ls.subrange(0, i), root);
        match result_of_line(ls.last(), root) {
            Some(r) => {
                assert(a.push(r).take(p.len() as int) =~= a.take(p.len() as int));
            },
            None => {},
        }
    } else {
        assert(ls.subrange(0, i) =~= ls);
        assert(results_of(ls, root).take(results_of(ls, root).len() as int) =~= results_of(ls, root));
    }
}


/// `s` without any trailing `b` bytes.
pub open spec fn strip_trailing(s: Seq<u8>, b: u8) -> Seq<u8>
    decreases s.len(),
{
    if s.len() > 0 && s.last() == b { strip_trailing(s.drop_last(), b) } else { s }
}

pub open spec fn dot_git() -> Seq<u8> {
    seq![46u8, 103u8, 105u8, 116u8]
}

/// `s` without any trailing `.git`s.
pub open spec fn strip_dot_git(s: Seq<u8>) -> Seq<u8>
    decreases s.len(),
{
    if s.len() >= 4 && s.subrange(s.len() - 4, s.len() as int) == dot_git() {
        strip_dot_git(s.subrange(0, s.len() - 4))
    } else {
        s
    }
}

/// The part of `s` after its last `/` (all of it without one).
pub open spec fn after_last_slash(s: Seq<u8>) -> Seq<u8>
    decreases s.len(),
{
    if s.len() == 0 {
        s
    } else if s.last() == 47u8 {
        Seq::empty()
    } else {
        after_last_slash(s.drop_last()).push(s.last())
    }
}

/// The repository name in a clone URL: the last path piece of the trimmed
/// URL, trailing slashes and `.git` endings removed.
pub open spec fn repo_name_spec(url_bytes: Seq<u8>) -> Seq<char> {
    lossy_decode(after_last_slash(strip_dot_git(strip_trailing(url_bytes, 47u8))))
}

proof fn lemma_after_last_slash(s: Seq<u8>, k: int)
    requires
        0 <= k <= s.len(),
        k == 0 || s[k - 1] == 47u8,
        forall|j: int| k <= j < s.len() ==> s[j] != 47u8,
    ensures
        after_last_slash(s) == s.subrange(k, s.len() as int),
    decreases s.len(),
{
    if s.len() == k {
        assert(s.subrange(k, s.len() as int) =~= Seq::<u8>::empty());
        if k > 0 {
            assert(s.last() == s[k - 1]);
        }
    } else {
        let q = s.drop_last();
        assert forall|j: int| k <= j < q.len() implies q[j] != 47u8 by {
            assert(q[j] == s[j]);
        }
        if k > 0 {
            assert(q[k - 1] == s[k - 1]);
        }
        lemma_after_last_slash(q, k);
        assert(s.last() == s[s.len() - 1]);
        assert(q.subrange(k, q.len() as int).push(s.last()) =~= s.subrange(k, s.len() as int));
    }
}

/// The repository name of a clone URL (`https://host/user/repo.git` gives
/// `repo`).
pub fn extract_repo_name(url: &str) -> (r: String)
    ensures
        r@ == repo_name_spec(encode_utf8(trim_start_spec(trim_end_spec(url@)))),
{
    let t = str_trim(url);
    let b = t.as_bytes();
    let mut end = b.len();
    assert(b@.subrange(0, end as int) =~= b@);
    while end > 0 && b[end - 1] == 47u8
        invariant
            0 <= end <= b@.len(),
            strip_trailing(b@, 47u8) == strip_trailing(b@.subrange(0, end as int), 47u8),
        decreases end,
    {
        assert(b@.subrange(0, end as int).drop_last() =~= b@.subrange(0, end - 1));
        end -= 1;
    }
    assert(strip_trailing(b@.subrange(0, end as int), 47u8) == b@.subrange(0, end as int));
    let ghost s1 = b@.subrange(0, end as int);
    while end >= 4 && b[end - 4] == 46u8 && b[end - 3] == 103u8 && b[end - 2] == 105u8 && b[end - 1] == 116u8
        invariant
            0 <= end <= b@.len(),
            strip_dot_git(s1) == strip_dot_git(b@.subrange(0, end as int)),
        decreases end,
    {
        let ghost cur = b@.subrange(0, end as int);
        assert(cur.subrange(cur.len() - 4, cur.len() as int) =~= dot_git());
        assert(cur.subrange(0, cur.len() - 4) =~= b@.subrange(0, end - 4));
        end -= 4;
    }
    proof {
        let cur = b@.subrange(0, end as int);
        if cur.len() >= 4 {
            assert(cur.subrange(cur.len() - 4, cur.len() as int) != dot_git()) by {
                if cur.subrange(cur.len() - 4, cur.len() as int) == dot_git() {
                    assert(cur.subrange(cur.len() - 4, cur.len() as int)[0] == b@[end - 4]);
                    assert(cur.subrange(cur.len() - 4, cur.len() as int)[1] == b@[end - 3]);
                    assert(cur.subrange(cur.len() - 4, cur.len() as int)[2] == b@[end - 2]);
                    assert(cur.subrange(cur.len() - 4, cur.len() as int)[3] == b@[end - 1]);
                }
            }
        }
    }
    let mut k = end;
    while k > 0 && b[k - 1] != 47u8
        invariant
            0 <= k <= end <= b@.len(),
            forall|j: int| k <= j < end ==> b@[j] != 47u8,
        decreases k,
    {
        k -= 1;
    }
    proof {
        let cur = b@.subrange(0, end as int);
        assert forall|j: int| k <= j < cur.len() implies cur[j] != 47u8 by {
            assert(cur[j] == b@[j]);
        }
        if k > 0 {
            assert(cur[k - 1] == b@[k - 1]);
        }
        lemma_after_last_slash(cur, k as int);
        assert(cur.subrange(k as int, end as int) =~= b@.subrange(k as int, end as int));
    }
    utf8_lossy(vstd::slice::slice_subrange(b, k, end))
}


/// The status line after a search found `n` results.
pub open spec fn count_status(n: nat) -> Seq<char> {
    if n == 0 {
        "No results found"@
    } else {
        decimal(n) + " result"@ + if n == 1 { Seq::<char>::empty() } else { "s"@ }
    }
}

/// `"Error: "` followed by a message.
pub open spec fn error_status(msg: Seq<char>) -> Seq<char> {
    "Error: "@ + msg
}

fn error_text(msg: &str) -> (r: String)
    ensures
        r@ == error_status(msg@),
{
    let mut s = "Error: ".to_owned();
    s.append(msg);
    s
}

impl CommandCenter {
    /// The text of the search box changed. In search mode the results are
    /// dropped and the status shows a search is coming; returns whether a
    /// (debounced) search is to run.
    pub fn query_changed(&mut self, text: String) -> (search: bool)
        ensures
            old(self).query@ == text@ ==> !search && final(self).query@ == old(self).query@
                && final(self).selected_ix == old(self).selected_ix && final(self).search_results@
                == old(self).search_results@ && final(self).status_message == old(self).status_message,
            old(self).query@ != text@ ==> {
                &&& final(self).query@ == text@
                &&& final(self).selected_ix == 0
                &&& if old(self).mode == CommandCenterMode::SearchWorkspace {
                    &&& final(self).search_results@.len() == 0
                    &&& search == !blank_query(text@)
                    &&& search ==> status_is(final(self).status_message, "Searching..."@)
                    &&& !search ==> final(self).status_message is None
                } else {
                    &&& !search
                    &&& final(self).search_results@ == old(self).search_results@
                    &&& final(self).status_message == old(self).status_message
                }
            },
            final(self).mode == old(self).mode,
            final(self).visible == old(self).visible,
            final(self).commands@ == old(self).commands@,
    {
        if str_eq(self.query.as_str(), text.as_str()) {
            return false;
        }
        self.query = text;
        self.selected_ix = 0;
        if self.mode == CommandCenterMode::SearchWorkspace {
            self.search_results = Vec::new();
            if str_trim(self.query.as_str()).is_empty() {
                self.status_message = None;
                return false;
            }
            self.status_message = Some("Searching...".to_owned());
            return true;
        }
        false
    }

    /// Starts a workspace search for a non-blank query when a search root
    /// is set: marks the search running and returns the root to search.
    pub fn run_workspace_search(&mut self, query: &str) -> (root: Option<String>)
        ensures
            blank_query(query@) || old(self).search_root is None ==> root is None && final(self).searching
                == old(self).searching && final(self).search_results@ == old(self).search_results@
                && final(self).status_message == old(self).status_message,
            !blank_query(query@) && old(self).search_root is Some ==> {
                &&& root is Some && root->0@ == old(self).search_root->0@
                &&& final(self).searching
                &&& final(self).search_results@.len() == 0
                &&& status_is(final(self).status_message, "Searching..."@)
            },
            final(self).query == old(self).query,
            final(self).mode == old(self).mode,
            final(self).commands@ == old(self).commands@,
            final(self).search_root == old(self).search_root,
    {
        if str_trim(query).is_empty() {
            return None;
        }
        let root = match &self.search_root {
            Some(r) => r.clone(),
            None => {
                return None;
            },
        };
        self.searching = true;
        self.search_results = Vec::new();
        self.status_message = Some("Searching...".to_owned());
        Some(root)
    }

    /// A workspace search finished with `result`.
    pub fn search_finished(&mut self, result: Result<Vec<SearchResult>, String>)
        ensures
            !final(self).searching,
            match result {
                Ok(rs) => {
                    &&& results_view(final(self).search_results@) == results_view(rs@)
                    &&& final(self).selected_ix == 0
                    &&& status_is(final(self).status_message, count_status(rs@.len()))
                },
                Err(msg) => {
                    &&& final(self).search_results@ == old(self).search_results@
                    &&& status_is(final(self).status_message, error_status(msg@))
                },
            },
            final(self).query == old(self).query,
            final(self).mode == old(self).mode,
            final(self).commands@ == old(self).commands@,
    {
        self.searching = false;
        match result {
            Ok(results) => {
                let count = results.len();
                self.search_results = results;
                self.selected_ix = 0;
                if count == 0 {
                    self.status_message = Some("No results found".to_owned());
                } else {
                    let mut m = String::new();
                    push_decimal(&mut m, count as u64);
                    m.append(" result");
                    if count != 1 {
                        m.append("s");
                    }
                    proof {
                        reveal_strlit("s");
                    }
                    self.status_message = Some(m);
                }
            },
            Err(msg) => {
                self.status_message = Some(error_text(msg.as_str()));
            },
        }
    }

    /// Starts cloning `url` unless it is blank or a clone is running;
    /// returns whether it started.
    pub fn clone_repo(&mut self, url: &str) -> (started: bool)
        ensures
            started == (!blank_query(url@) && !old(self).cloning),
            started ==> final(self).cloning && status_is(final(self).status_message, "Cloning..."@),
            !started ==> final(self).cloning == old(self).cloning && final(self).status_message
                == old(self).status_message,
            final(self).query == old(self).query,
            final(self).mode == old(self).mode,
            final(self).commands@ == old(self).commands@,
    {
        if str_trim(url).is_empty() || self.cloning {
            return false;
        }
        self.cloning = true;
        self.status_message = Some("Cloning...".to_owned());
        true
    }

    /// A clone finished: into the directory on success, with git's
    /// message on failure.
    pub fn clone_finished(&mut self, result: Result<String, String>)
        ensures
            !final(self).cloning,
            match result {
                Ok(dir) => final(self).cloned_dir is Some && final(self).cloned_dir->0@ == dir@
                    && status_is(final(self).status_message, "Clone complete!"@),
                Err(msg) => final(self).cloned_dir == old(self).cloned_dir && status_is(
                    final(self).status_message,
                    error_status(msg@),
                ),
            },
            final(self).query == old(self).query,
            final(self).mode == old(self).mode,
            final(self).commands@ == old(self).commands@,
    {
        self.cloning = false;
        match result {
            Ok(dir) => {
                self.cloned_dir = Some(dir);
                self.status_message = Some("Clone complete!".to_owned());
            },
            Err(msg) => {
                self.status_message = Some(error_text(msg.as_str()));
            },
        }
    }

    /// Enter in the palette: in command mode the selected command becomes
    /// pending; in clone mode the typed URL is cloned; in search mode the
    /// selected result becomes pending, or, with no results, a search runs.
    pub fn handle_submit(&mut self) -> (e: SubmitEffect)
        ensures
            final(self).mode == old(self).mode,
            final(self).query == old(self).query,
            final(self).commands@ == old(self).commands@,
            match old(self).mode {
                CommandCenterMode::Commands => e is Nothing && {
                    let f = filtered_spec(old(self).commands@, old(self).query@);
                    if old(self).selected_ix < f.len() {
                        final(self).pending_action == Some(old(self).commands@[f[old(self).selected_ix as int]].action)
                    } else {
                        final(self).pending_action == old(self).pending_action
                    }
                },
                CommandCenterMode::CloneRepo => if !blank_query(old(self).query@) && !old(self).cloning {
                    e matches SubmitEffect::Clone(u) && u@ == old(self).query@ && final(self).cloning
                } else {
                    e is Nothing && final(self).cloning == old(self).cloning
                },
                CommandCenterMode::SearchWorkspace => if old(self).search_results@.len() > 0 {
                    let n = old(self).search_results@.len();
                    let ix = if old(self).selected_ix < n - 1 { old(self).selected_ix as int } else { n - 1 };
                    &&& e is Nothing
                    &&& final(self).pending_search_result is Some
                    &&& final(self).pending_search_result->0.view() == old(self).search_results@[ix].view()
                } else if !blank_query(old(self).query@) && old(self).search_root is Some {
                    &&& e matches SubmitEffect::Search { query, root } && query@ == old(self).query@ && root@
                        == old(self).search_root->0@
                    &&& final(self).searching
                } else {
                    e is Nothing
                },
            },
    {
        match self.mode {
            CommandCenterMode::Commands => {
                match self.selected_action() {
                    Some(a) => {
                        self.pending_action = Some(a);
                    },
                    None => {},
                }
                SubmitEffect::Nothing
            },
            CommandCenterMode::CloneRepo => {
                let url = self.query.clone();
                if self.clone_repo(url.as_str()) {
                    SubmitEffect::Clone(url)
                } else {
                    SubmitEffect::Nothing
                }
            },
            CommandCenterMode::SearchWorkspace => {
                if self.search_results.len() > 0 {
                    let n = self.search_results.len();
                    let ix = if self.selected_ix < n - 1 { self.selected_ix } else { n - 1 };
                    self.pending_search_result = Some(self.search_results[ix].copy());
                    SubmitEffect::Nothing
                } else {
                    let query = self.query.clone();
                    match self.run_workspace_search(query.as_str()) {
                        Some(root) => SubmitEffect::Search { query, root },
                        None => SubmitEffect::Nothing,
                    }
                }
            },
        }
    }
}

} // verus!
