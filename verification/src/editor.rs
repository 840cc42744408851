//! The editor pane: its tabs of open files and the file tree beside them
//! (which directories are expanded, and how a directory's entries are
//! filtered and ordered).
use vstd::prelude::*;
use crate::command_center::{path_join, joined_path};
use crate::text::{decimal, push_decimal, str_eq, str_chars, lowercase, str_to_lowercase};

verus! {

// ── Tabs ──

/// A file open in the editor: where it lives, its tab title, and the view
/// that shows it.
pub struct OpenFile<V> {
    pub path: String,
    pub title: String,
    pub viewer: V,
}

/// The editor's tabs and which one is active.
pub struct EditorTabs<V> {
    pub root_dir: String,
    pub open_files: Vec<OpenFile<V>>,
    pub active_file_ix: usize,
    /// The path the file tree shows as selected.
    pub selected_path: Option<String>,
}

/// The name of the `n`-th untitled buffer: "Untitled", then "Untitled-2",
/// "Untitled-3", ...
pub open spec fn untitled(n: nat) -> Seq<char> {
    if n == 1 {
        "Untitled"@
    } else {
        "Untitled-"@ + decimal(n)
    }
}

/// Some tab has the title `t`.
pub open spec fn has_title<V>(files: Seq<OpenFile<V>>, t: Seq<char>) -> bool {
    exists|i: int| 0 <= i < files.len() && (#[trigger] files[i]).title@ == t
}

/// The index of the first tab showing `path`.
pub open spec fn first_with_path<V>(files: Seq<OpenFile<V>>, path: Seq<char>, i: int) -> bool {
    &&& 0 <= i < files.len()
    &&& files[i].path@ == path
    &&& forall|j: int| 0 <= j < i ==> (#[trigger] files[j]).path@ != path
}

/// The name of the `n`-th untitled buffer.
pub fn untitled_name(n: u64) -> (s: String)
    ensures
        s@ == untitled(n as nat),
{
    if n == 1 {
        "Untitled".to_owned()
    } else {
        let mut s = "Untitled-".to_owned();
        push_decimal(&mut s, n);
        s
    }
}

impl<V> EditorTabs<V> {
    /// No tabs yet, in the workspace `root_dir`.
    pub fn new(root_dir: String) -> (t: Self)
        ensures
            t.root_dir == root_dir,
            t.open_files@.len() == 0,
            t.active_file_ix == 0,
            t.selected_path is None,
    {
        EditorTabs { root_dir, open_files: Vec::new(), active_file_ix: 0, selected_path: None }
    }

    /// The tab showing `path`, if one does.
    pub fn find_open(&self, path: &str) -> (r: Option<usize>)
        ensures
            match r {
                Some(i) => first_with_path(self.open_files@, path@, i as int),
                None => forall|j: int| 0 <= j < self.open_files@.len() ==> (#[trigger] self.open_files@[j]).path@ != path@,
            },
    {
        let mut i: usize = 0;
        while i < self.open_files.len()
            invariant
                0 <= i <= self.open_files@.len(),
                forall|j: int| 0 <= j < i ==> (#[trigger] self.open_files@[j]).path@ != path@,
            decreases self.open_files@.len() - i,
        {
            if str_eq(self.open_files[i].path.as_str(), path) {
                return Some(i);
            }
            i += 1;
        }
        None
    }

    /// Opening `path` when a tab already shows it: that tab becomes active
    /// and the tree selects the path; returns whether there was one (else
    /// nothing changes and the caller opens a new view).
    pub fn activate_open(&mut self, path: &str) -> (found: bool)
        ensures
            final(self).open_files == old(self).open_files,
            final(self).root_dir == old(self).root_dir,
            found == exists|j: int| 0 <= j < old(self).open_files@.len() && (#[trigger] old(self).open_files@[j]).path@ == path@,
            found ==> first_with_path(old(self).open_files@, path@, final(self).active_file_ix as int)
                && (final(self).selected_path matches Some(p) && p@ == path@),
            !found ==> final(self).active_file_ix == old(self).active_file_ix
                && final(self).selected_path == old(self).selected_path,
    {
        match self.find_open(path) {
            Some(ix) => {
                self.active_file_ix = ix;
                self.selected_path = Some(path.to_owned());
                true
            },
            None => false,
        }
    }

    /// Adds a tab for a newly opened file and makes it active; the tree
    /// selects its path.
    pub fn push_file(&mut self, path: String, title: String, viewer: V)
        ensures
            final(self).open_files@.len() == old(self).open_files@.len() + 1,
            forall|j: int| 0 <= j < old(self).open_files@.len() ==> final(self).open_files@[j] == old(self).open_files@[j],
            final(self).open_files@.last().path@ == path@,
            final(self).open_files@.last().title@ == title@,
            final(self).open_files@.last().viewer == viewer,
            final(self).active_file_ix == old(self).open_files@.len(),
            (final(self).selected_path matches Some(p) && p@ == path@),
            final(self).root_dir == old(self).root_dir,
    {
        let sel = path.clone();
        self.open_files.push(OpenFile { path, title, viewer });
        self.active_file_ix = self.open_files.len() - 1;
        self.selected_path = Some(sel);
    }

    /// Adds a tab for a new empty buffer (named by [`EditorTabs::new_file_name`])
    /// and makes it active.
    pub fn push_untitled(&mut self, name: String, viewer: V)
        ensures
            final(self).open_files@.len() == old(self).open_files@.len() + 1,
            forall|j: int| 0 <= j < old(self).open_files@.len() ==> final(self).open_files@[j] == old(self).open_files@[j],
            final(self).open_files@.last().path@ == joined_path(old(self).root_dir@, name@),
            final(self).open_files@.last().title@ == name@,
            final(self).open_files@.last().viewer == viewer,
            final(self).active_file_ix == old(self).open_files@.len(),
            final(self).selected_path == old(self).selected_path,
            final(self).root_dir == old(self).root_dir,
    {
        let path = path_join(self.root_dir.as_str(), name.as_str());
        self.open_files.push(OpenFile { path, title: name, viewer });
        self.active_file_ix = self.open_files.len() - 1;
    }

    /// Closes tab `ix`: the active tab stays the same file where it can,
    /// moves to the last tab when it was past the end, and the tree selects
    /// the active file's path (none when no tab is left).
    pub fn close_file(&mut self, ix: usize)
        ensures
            ix >= old(self).open_files@.len() ==> *final(self) == *old(self),
            ix < old(self).open_files@.len() ==> {
                let n = (old(self).open_files@.len() - 1) as int;
                &&& final(self).open_files@ == old(self).open_files@.remove(ix as int)
                &&& final(self).active_file_ix == (if old(self).active_file_ix >= n && n > 0 {
                    (n - 1) as usize
                } else if ix < old(self).active_file_ix {
                    (old(self).active_file_ix - 1) as usize
                } else {
                    old(self).active_file_ix
                })
                &&& final(self).root_dir == old(self).root_dir
                &&& if final(self).active_file_ix < n {
                    (final(self).selected_path matches Some(p) && p@ == final(self).open_files@[final(self).active_file_ix as int].path@)
                } else {
                    final(self).selected_path is None
                }
            },
    {
        if ix < self.open_files.len() {
            self.open_files.remove(ix);
            let n = self.open_files.len();
            if self.active_file_ix >= n && n > 0 {
                self.active_file_ix = n - 1;
            } else if ix < self.active_file_ix {
                self.active_file_ix = self.active_file_ix - 1;
            }
            self.selected_path = if self.active_file_ix < self.open_files.len() {
                Some(self.open_files[self.active_file_ix].path.clone())
            } else {
                None
            };
        }
    }
}

// ── File tree ──

/// Names the file tree never lists.
pub open spec fn ignored_name(name: Seq<char>) -> bool {
    ||| name == "target"@
    ||| name == "node_modules"@
    ||| name == ".git"@
    ||| name == ".DS_Store"@
    ||| name == "__pycache__"@
    ||| name == ".build"@
}

/// Whether the file tree leaves out an entry of this name.
pub fn is_ignored_name(name: &str) -> (r: bool)
    ensures
        r == ignored_name(name@),
{
    str_eq(name, "target") || str_eq(name, "node_modules") || str_eq(name, ".git") || str_eq(name, ".DS_Store")
        || str_eq(name, "__pycache__") || str_eq(name, ".build")
}

/// A directory entry as read: its name, path, and whether it is a
/// directory.
pub struct DirChild {
    pub name: String,
    pub path: String,
    pub is_dir: bool,
}

/// `a` comes before `b` in the order of `str`'s comparison (lexicographic
/// by character).
pub open spec fn lex_lt(a: Seq<char>, b: Seq<char>) -> bool
    decreases a.len(),
{
    if a.len() == 0 {
        b.len() > 0
    } else if b.len() == 0 {
        false
    } else if a[0] != b[0] {
        (a[0] as u32) < (b[0] as u32)
    } else {
        lex_lt(a.drop_first(), b.drop_first())
    }
}

/// Entry `a` is listed after entry `b`: files come after directories, and
/// among the same kind the lowercased names compare greater.
pub open spec fn entry_after(a: (bool, Seq<char>), b: (bool, Seq<char>)) -> bool {
    if a.0 != b.0 {
        !a.0
    } else {
        lex_lt(lowercase(b.1), lowercase(a.1))
    }
}

/// Whether `a` sorts before `b` by character.
fn chars_lt(a: &Vec<char>, b: &Vec<char>) -> (r: bool)
    ensures
        r == lex_lt(a@, b@),
{
    let mut i: usize = 0;
    assert(a@.skip(0) =~= a@);
    assert(b@.skip(0) =~= b@);
    while i < a.len() && i < b.len() && a[i] == b[i]
        invariant
            0 <= i <= a@.len(),
            i <= b@.len(),
            a@.subrange(0, i as int) == b@.subrange(0, i as int),
            lex_lt(a@, b@) == lex_lt(a@.skip(i as int), b@.skip(i as int)),
        decreases a@.len() - i,
    {
        proof {
            assert(a@.skip(i as int).drop_first() =~= a@.skip(i + 1));
            assert(b@.skip(i as int).drop_first() =~= b@.skip(i + 1));
            assert(a@.subrange(0, i + 1) =~= a@.subrange(0, i as int).push(a@[i as int]));
            assert(b@.subrange(0, i + 1) =~= b@.subrange(0, i as int).push(b@[i as int]));
        }
        i += 1;
    }
    if i == a.len() {
        i < b.len()
    } else if i == b.len() {
        false
    } else {
        assert(a@.skip(i as int)[0] == a@[i as int]);
        assert(b@.skip(i as int)[0] == b@[i as int]);
        (a[i] as u32) < (b[i] as u32)
    }
}

/// Whether an entry with these directory flag and lowercased name is
/// listed after one with the other pair.
fn after_key(a_dir: bool, a_low: &Vec<char>, b_dir: bool, b_low: &Vec<char>) -> (r: bool)
    ensures
        r == (if a_dir != b_dir { !a_dir } else { lex_lt(b_low@, a_low@) }),
{
    if a_dir != b_dir {
        !a_dir
    } else {
        chars_lt(b_low, a_low)
    }
}

/// Character order is transitive.
proof fn lemma_lex_trans(a: Seq<char>, b: Seq<char>, c: Seq<char>)
    requires
        lex_lt(a, b),
        lex_lt(b, c),
    ensures
        lex_lt(a, c),
    decreases a.len(),
{
    if a.len() > 0 && b.len() > 0 && c.len() > 0 && a[0] == b[0] && b[0] == c[0] {
        lemma_lex_trans(a.drop_first(), b.drop_first(), c.drop_first());
    }
}

/// No text comes before itself.
proof fn lemma_lex_irrefl(a: Seq<char>)
    ensures
        !lex_lt(a, a),
    decreases a.len(),
{
    if a.len() > 0 {
        lemma_lex_irrefl(a.drop_first());
    }
}

/// Listing order is asymmetric.
proof fn lemma_after_asym(a: (bool, Seq<char>), b: (bool, Seq<char>))
    requires
        entry_after(a, b),
    ensures
        !entry_after(b, a),
{
    if a.0 == b.0 && entry_after(b, a) {
        lemma_lex_trans(lowercase(a.1), lowercase(b.1), lowercase(a.1));
        lemma_lex_irrefl(lowercase(a.1));
    }
}

/// Listing order is transitive.
proof fn lemma_after_trans(a: (bool, Seq<char>), b: (bool, Seq<char>), c: (bool, Seq<char>))
    requires
        entry_after(a, b),
        entry_after(b, c),
    ensures
        entry_after(a, c),
{
    if a.0 == b.0 && b.0 == c.0 {
        lemma_lex_trans(lowercase(c.1), lowercase(b.1), lowercase(a.1));
    }
}

/// Inserting into a sequence adds the element to its multiset.
proof fn lemma_insert_multiset<A>(s: Seq<A>, pos: int, x: A)
    requires
        0 <= pos <= s.len(),
    ensures
        s.insert(pos, x).to_multiset() == s.to_multiset().insert(x),
{
    let t = s.insert(pos, x);
    s.insert_ensures(pos, x);
    assert(t.remove(pos) =~= s);
    t.to_multiset_ensures();
    assert(t[pos] == x);
    assert(t.contains(x));
    assert(t.to_multiset().count(x) > 0);
    assert(t.to_multiset() =~= t.to_multiset().remove(x).insert(x));
}

/// An entry as values: whether it is a directory, its name and its path.
pub open spec fn child_view(c: DirChild) -> (bool, Seq<char>, Seq<char>) {
    (c.is_dir, c.name@, c.path@)
}

/// Entries as values.
pub open spec fn children_view(cs: Seq<DirChild>) -> Seq<(bool, Seq<char>, Seq<char>)> {
    Seq::new(cs.len(), |i: int| child_view(cs[i]))
}

/// An entry that the tree lists.
pub open spec fn listed_child(v: (bool, Seq<char>, Seq<char>)) -> bool {
    !ignored_name(v.1)
}

/// `x` placed before the first entry of `s` that is listed after it.
pub open spec fn insert_listed(s: Seq<(bool, Seq<char>, Seq<char>)>, x: (bool, Seq<char>, Seq<char>)) -> Seq<(bool, Seq<char>, Seq<char>)>
    decreases s.len(),
{
    if s.len() == 0 {
        seq![x]
    } else if entry_after((s[0].0, s[0].1), (x.0, x.1)) {
        seq![x] + s
    } else {
        seq![s[0]] + insert_listed(s.drop_first(), x)
    }
}

/// A directory's entries as the tree lists them: each entry that is not
/// ignored is placed, in turn, before the first one listed after it.
pub open spec fn listing(cs: Seq<(bool, Seq<char>, Seq<char>)>) -> Seq<(bool, Seq<char>, Seq<char>)>
    decreases cs.len(),
{
    if cs.len() == 0 {
        seq![]
    } else if listed_child(cs.last()) {
        insert_listed(listing(cs.drop_last()), cs.last())
    } else {
        listing(cs.drop_last())
    }
}

/// Inserting at `pos` is [`insert_listed`] when no entry before `pos` is
/// listed after `x` and the one at `pos` is.
proof fn lemma_insert_listed(s: Seq<(bool, Seq<char>, Seq<char>)>, x: (bool, Seq<char>, Seq<char>), pos: int)
    requires
        0 <= pos <= s.len(),
        forall|i: int| 0 <= i < pos ==> !entry_after((#[trigger] s[i].0, s[i].1), (x.0, x.1)),
        pos < s.len() ==> entry_after((s[pos].0, s[pos].1), (x.0, x.1)),
    ensures
        insert_listed(s, x) == s.insert(pos, x),
    decreases s.len(),
{
    if s.len() == 0 {
        assert(seq![x] =~= s.insert(0, x));
    } else if pos == 0 {
        assert(seq![x] + s =~= s.insert(0, x));
    } else {
        let d = s.drop_first();
        assert(!entry_after((s[0].0, s[0].1), (x.0, x.1)));
        assert forall|i: int| 0 <= i < pos - 1 implies !entry_after((#[trigger] d[i].0, d[i].1), (x.0, x.1)) by {
            assert(d[i] == s[i + 1]);
        }
        if pos - 1 < d.len() {
            assert(d[pos - 1] == s[pos]);
        }
        lemma_insert_listed(d, x, pos - 1);
        assert(seq![s[0]] + d.insert(pos - 1, x) =~= s.insert(pos, x));
    }
}

/// The entries of a directory as the tree lists them: ignored names left
/// out, directories first, then by lowercased name.
pub fn tree_children(children: &Vec<DirChild>) -> (r: Vec<DirChild>)
    ensures
        forall|i: int| 0 <= i < r@.len() ==> !ignored_name((#[trigger] r@[i]).name@),
        forall|i: int, j: int| 0 <= i < j < r@.len() ==> !entry_after(
            (#[trigger] r@[i].is_dir, r@[i].name@),
            (#[trigger] r@[j].is_dir, r@[j].name@),
        ),
        children_view(r@).to_multiset() == children_view(children@).filter(|v: (bool, Seq<char>, Seq<char>)| listed_child(v)).to_multiset(),
        children_view(r@) == listing(children_view(children@)),
{
    let ghost cv = children_view(children@);
    let ghost keep = |v: (bool, Seq<char>, Seq<char>)| listed_child(v);
    let mut out: Vec<DirChild> = Vec::new();
    let mut lowers: Vec<Vec<char>> = Vec::new();
    let mut k: usize = 0;
    proof {
        reveal(Seq::filter);
        assert(cv.take(0) =~= Seq::<(bool, Seq<char>, Seq<char>)>::empty());
        assert(children_view(out@) =~= Seq::<(bool, Seq<char>, Seq<char>)>::empty());
    }
    while k < children.len()
        invariant
            0 <= k <= children@.len(),
            cv == children_view(children@),
            keep == (|v: (bool, Seq<char>, Seq<char>)| listed_child(v)),
            lowers@.len() == out@.len(),
            forall|i: int| 0 <= i < out@.len() ==> (#[trigger] lowers@[i])@ == lowercase(out@[i].name@),
            forall|i: int| 0 <= i < out@.len() ==> !ignored_name((#[trigger] out@[i]).name@),
            forall|i: int, j: int| 0 <= i < j < out@.len() ==> !entry_after(
                (#[trigger] out@[i].is_dir, out@[i].name@),
                (#[trigger] out@[j].is_dir, out@[j].name@),
            ),
            children_view(out@).to_multiset() == cv.take(k as int).filter(keep).to_multiset(),
            children_view(out@) == listing(cv.take(k as int)),
        decreases children@.len() - k,
    {
        let c = &children[k];
        proof {
            reveal(Seq::filter);
            assert(cv.take(k + 1).drop_last() =~= cv.take(k as int));
            assert(cv.take(k + 1).last() == child_view(*c));
        }
        if !is_ignored_name(c.name.as_str()) {
            let low = str_chars(str_to_lowercase(c.name.as_str()).as_str());
            let ghost nk = (c.is_dir, c.name@);
            // the first entry listed after the new one
            let mut pos: usize = 0;
            while pos < out.len() && !after_key(out[pos].is_dir, &lowers[pos], c.is_dir, &low)
                invariant
                    0 <= pos <= out@.len(),
                    lowers@.len() == out@.len(),
                    forall|i: int| 0 <= i < out@.len() ==> (#[trigger] lowers@[i])@ == lowercase(out@[i].name@),
                    low@ == lowercase(c.name@),
                    nk == (c.is_dir, c.name@),
                    forall|i: int| 0 <= i < pos ==> !entry_after((#[trigger] out@[i].is_dir, out@[i].name@), nk),
                decreases out@.len() - pos,
            {
                pos += 1;
            }
            let ghost before = out@;
            let ghost bv = children_view(out@);
            let nc = DirChild { name: c.name.clone(), path: c.path.clone(), is_dir: c.is_dir };
            out.insert(pos, nc);
            lowers.insert(pos, low);
            proof {
                assert(pos < before.len() ==> entry_after((before[pos as int].is_dir, before[pos as int].name@), nk));
                assert forall|i: int, j: int| 0 <= i < j < out@.len() implies !entry_after(
                    (#[trigger] out@[i].is_dir, out@[i].name@),
                    (#[trigger] out@[j].is_dir, out@[j].name@),
                ) by {
                    if i < pos && j == pos {
                        assert(out@[i] == before[i]);
                        assert(out@[j].name@ == c.name@);
                    } else if i == pos && j > pos {
                        assert(out@[j] == before[j - 1]);
                        assert(out@[i].name@ == c.name@);
                        if entry_after(nk, (before[j - 1].is_dir, before[j - 1].name@)) {
                            assert(pos < before.len());
                            if j - 1 > pos {
                                lemma_after_trans(
                                    (before[pos as int].is_dir, before[pos as int].name@),
                                    nk,
                                    (before[j - 1].is_dir, before[j - 1].name@),
                                );
                            } else {
                                lemma_after_asym((before[pos as int].is_dir, before[pos as int].name@), nk);
                            }
                        }
                    } else if i < pos && j > pos {
                        assert(out@[i] == before[i]);
                        assert(out@[j] == before[j - 1]);
                    } else if i > pos {
                        assert(out@[i] == before[i - 1]);
                        assert(out@[j] == before[j - 1]);
                    } else {
                        assert(out@[i] == before[i]);
                        assert(out@[j] == before[j]);
                    }
                }
                assert(children_view(out@) =~= bv.insert(pos as int, child_view(*c)));
                assert forall|i: int| 0 <= i < pos implies !entry_after((#[trigger] bv[i].0, bv[i].1), (child_view(*c).0, child_view(*c).1)) by {
                    assert(bv[i] == child_view(before[i]));
                }
                if pos < bv.len() {
                    assert(bv[pos as int] == child_view(before[pos as int]));
                }
                lemma_insert_listed(bv, child_view(*c), pos as int);
                lemma_insert_multiset(bv, pos as int, child_view(*c));
                assert(cv.take(k + 1).filter(keep) == cv.take(k as int).filter(keep).push(child_view(*c)));
                cv.take(k as int).filter(keep).to_multiset_ensures();
                assert(cv.take(k + 1).filter(keep).to_multiset() == cv.take(k as int).filter(keep).to_multiset().insert(child_view(*c)));
            }
        } else {
            assert(cv.take(k + 1).filter(keep) == cv.take(k as int).filter(keep));
        }
        k += 1;
    }
    assert(cv.take(k as int) =~= cv);
    out
}

// ── The tree's rows ──

/// A row of the file tree.
pub struct FileTreeEntry {
    pub path: String,
    pub name: String,
    pub is_dir: bool,
    /// How deep it is nested under the root.
    pub depth: usize,
}

/// The file tree beside the editor: the workspace root, its rows, the
/// expanded directories, and the selected path.
pub struct FileTree {
    pub root: String,
    pub entries: Vec<FileTreeEntry>,
    pub expanded_dirs: Vec<String>,
    pub selected_path: Option<String>,
}

/// A row as values: path, name, whether a directory, depth.
pub open spec fn entry_view(e: FileTreeEntry) -> (Seq<char>, Seq<char>, bool, nat) {
    (e.path@, e.name@, e.is_dir, e.depth as nat)
}

/// Rows as values.
pub open spec fn entries_view(v: Seq<FileTreeEntry>) -> Seq<(Seq<char>, Seq<char>, bool, nat)> {
    Seq::new(v.len(), |i: int| entry_view(v[i]))
}

/// The paths listed, as a set.
pub open spec fn path_set(v: Seq<String>) -> Set<Seq<char>> {
    Set::new(|p: Seq<char>| exists|i: int| 0 <= i < v.len() && (#[trigger] v[i])@ == p)
}

/// Directory listings as values: each directory's path and its entries as read.
pub open spec fn listings_view(ls: Seq<(String, Vec<DirChild>)>) -> Seq<(Seq<char>, Seq<(bool, Seq<char>, Seq<char>)>)> {
    Seq::new(ls.len(), |i: int| (ls[i].0@, children_view(ls[i].1@)))
}

/// The entries read for directory `d`: those of its first listing, none
/// when it was not read.
pub open spec fn listing_of(ls: Seq<(Seq<char>, Seq<(bool, Seq<char>, Seq<char>)>)>, d: Seq<char>) -> Seq<(bool, Seq<char>, Seq<char>)>
    decreases ls.len(),
{
    if ls.len() == 0 {
        seq![]
    } else if ls[0].0 == d {
        ls[0].1
    } else {
        listing_of(ls.drop_first(), d)
    }
}

/// The rows for the directory entries `kids` at `depth`: each entry's row,
/// followed, for an expanded directory, by the rows of its own listed
/// entries one level deeper, with at most `fuel` levels of descent.
pub open spec fn walk_rows(
    ls: Seq<(Seq<char>, Seq<(bool, Seq<char>, Seq<char>)>)>,
    exp: Set<Seq<char>>,
    kids: Seq<(bool, Seq<char>, Seq<char>)>,
    depth: nat,
    fuel: nat,
) -> Seq<(Seq<char>, Seq<char>, bool, nat)>
    decreases fuel, kids.len(),
{
    if kids.len() == 0 {
        seq![]
    } else {
        let c = kids.last();
        let sub = if c.0 && exp.contains(c.2) && fuel > 0 {
            walk_rows(ls, exp, listing(listing_of(ls, c.2)), depth + 1, (fuel - 1) as nat)
        } else {
            seq![]
        };
        walk_rows(ls, exp, kids.drop_last(), depth, fuel) + seq![(c.2, c.1, c.0, depth)] + sub
    }
}

/// The listed entries of directory `dir` (see [`listing`]).
fn listed_children(listings: &Vec<(String, Vec<DirChild>)>, dir: &str) -> (r: Vec<DirChild>)
    ensures
        children_view(r@) == listing(listing_of(listings_view(listings@), dir@)),
{
    let ghost lv = listings_view(listings@);
    let mut i: usize = 0;
    assert(lv.skip(0) =~= lv);
    while i < listings.len()
        invariant
            0 <= i <= listings@.len(),
            lv == listings_view(listings@),
            listing_of(lv, dir@) == listing_of(lv.skip(i as int), dir@),
        decreases listings@.len() - i,
    {
        assert(lv.skip(i as int)[0] == lv[i as int]);
        if str_eq(listings[i].0.as_str(), dir) {
            return tree_children(&listings[i].1);
        }
        assert(lv.skip(i as int).drop_first() =~= lv.skip(i + 1));
        i += 1;
    }
    assert(lv.skip(i as int) =~= Seq::<(Seq<char>, Seq<(bool, Seq<char>, Seq<char>)>)>::empty());
    let none: Vec<DirChild> = Vec::new();
    let r = tree_children(&none);
    assert(children_view(none@) =~= Seq::<(bool, Seq<char>, Seq<char>)>::empty());
    r
}

/// Whether `p` is among the listed paths.
fn path_listed(v: &Vec<String>, p: &str) -> (r: bool)
    ensures
        r == path_set(v@).contains(p@),
{
    let mut i: usize = 0;
    while i < v.len()
        invariant
            0 <= i <= v@.len(),
            forall|k: int| 0 <= k < i ==> (#[trigger] v@[k])@ != p@,
        decreases v@.len() - i,
    {
        if str_eq(v[i].as_str(), p) {
            return true;
        }
        i += 1;
    }
    false
}

/// Appends the rows of the entries `kids` at `depth` (see [`walk_rows`]).
fn push_rows(
    listings: &Vec<(String, Vec<DirChild>)>,
    expanded: &Vec<String>,
    kids: &Vec<DirChild>,
    depth: usize,
    fuel: usize,
    out: &mut Vec<FileTreeEntry>,
)
    requires
        depth + fuel <= usize::MAX,
    ensures
        entries_view(final(out)@) == entries_view(old(out)@) + walk_rows(
            listings_view(listings@),
            path_set(expanded@),
            children_view(kids@),
            depth as nat,
            fuel as nat,
        ),
    decreases fuel,
{
    let ghost lv = listings_view(listings@);
    let ghost exp = path_set(expanded@);
    let ghost kv = children_view(kids@);
    let ghost base = entries_view(out@);
    let mut i: usize = 0;
    assert(kv.take(0) =~= Seq::<(bool, Seq<char>, Seq<char>)>::empty());
    assert(base + walk_rows(lv, exp, kv.take(0), depth as nat, fuel as nat) =~= base);
    while i < kids.len()
        invariant
            0 <= i <= kids@.len(),
            depth + fuel <= usize::MAX,
            lv == listings_view(listings@),
            exp == path_set(expanded@),
            kv == children_view(kids@),
            entries_view(out@) == base + walk_rows(lv, exp, kv.take(i as int), depth as nat, fuel as nat),
        decreases kids@.len() - i,
    {
        let c = &kids[i];
        let ghost before = entries_view(out@);
        assert(kv.take(i + 1).drop_last() =~= kv.take(i as int));
        assert(kv.take(i + 1).last() == child_view(*c));
        out.push(FileTreeEntry { path: c.path.clone(), name: c.name.clone(), is_dir: c.is_dir, depth });
        assert(entries_view(out@) =~= before + seq![(c.path@, c.name@, c.is_dir, depth as nat)]);
        let ghost mid = entries_view(out@);
        if c.is_dir && fuel > 0 && path_listed(expanded, c.path.as_str()) {
            let sub = listed_children(listings, c.path.as_str());
            push_rows(listings, expanded, &sub, depth + 1, fuel - 1, out);
        } else {
            assert(entries_view(out@) =~= mid + Seq::<(Seq<char>, Seq<char>, bool, nat)>::empty());
        }
        i += 1;
    }
    assert(kv.take(i as int) =~= kv);
}

/// Listing one more path adds it to the set.
proof fn lemma_path_set_push(v: Seq<String>, x: String)
    ensures
        path_set(v.push(x)) == path_set(v).insert(x@),
{
    let w = v.push(x);
    assert forall|q: Seq<char>| path_set(w).contains(q) <==> path_set(v).insert(x@).contains(q) by {
        if path_set(w).contains(q) {
            let k = choose|k: int| 0 <= k < w.len() && (#[trigger] w[k])@ == q;
            if k < v.len() {
                assert(w[k] == v[k]);
            }
        }
        if path_set(v).contains(q) {
            let k = choose|k: int| 0 <= k < v.len() && (#[trigger] v[k])@ == q;
            assert(w[k] == v[k]);
        }
        if q == x@ {
            assert(w[v.len() as int] == x);
        }
    }
    assert(path_set(w) =~= path_set(v).insert(x@));
}

impl FileTree {
    /// A tree at `root` with nothing expanded; its rows come with the first
    /// [`FileTree::rebuild_entries`].
    pub fn new(root: String) -> (t: Self)
        ensures
            t.root == root,
            t.entries@.len() == 0,
            t.expanded_dirs@.len() == 0,
            t.selected_path is None,
    {
        FileTree { root, entries: Vec::new(), expanded_dirs: Vec::new(), selected_path: None }
    }

    /// Whether the directory at `path` is expanded.
    pub fn is_expanded(&self, path: &str) -> (r: bool)
        ensures
            r == path_set(self.expanded_dirs@).contains(path@),
    {
        path_listed(&self.expanded_dirs, path)
    }

    /// Expands a collapsed directory or collapses an expanded one; the rows
    /// are rebuilt next (see [`FileTree::rebuild_entries`]).
    pub fn toggle_dir(&mut self, path: &str)
        ensures
            path_set(final(self).expanded_dirs@) == if path_set(old(self).expanded_dirs@).contains(path@) {
                path_set(old(self).expanded_dirs@).remove(path@)
            } else {
                path_set(old(self).expanded_dirs@).insert(path@)
            },
            final(self).root == old(self).root,
            final(self).entries == old(self).entries,
            final(self).selected_path == old(self).selected_path,
    {
        let ghost old_set = path_set(self.expanded_dirs@);
        let ghost ev = self.expanded_dirs@;
        let was = path_listed(&self.expanded_dirs, path);
        let mut kept: Vec<String> = Vec::new();
        let mut i: usize = 0;
        assert(ev.take(0) =~= Seq::<String>::empty());
        assert(path_set(kept@) =~= path_set(ev.take(0)).remove(path@));
        while i < self.expanded_dirs.len()
            invariant
                0 <= i <= ev.len(),
                ev == self.expanded_dirs@,
                path_set(kept@) == path_set(ev.take(i as int)).remove(path@),
            decreases ev.len() - i,
        {
            proof {
                assert(ev.take(i + 1) =~= ev.take(i as int).push(ev[i as int]));
                lemma_path_set_push(ev.take(i as int), ev[i as int]);
            }
            if !str_eq(self.expanded_dirs[i].as_str(), path) {
                let ghost before = kept@;
                kept.push(self.expanded_dirs[i].clone());
                proof {
                    lemma_path_set_push(before, kept@.last());
                    assert(path_set(kept@) =~= path_set(ev.take(i + 1)).remove(path@));
                }
            } else {
                assert(path_set(kept@) =~= path_set(ev.take(i + 1)).remove(path@));
            }
            i += 1;
        }
        assert(ev.take(i as int) =~= ev);
        if !was {
            let ghost before = kept@;
            kept.push(path.to_owned());
            proof {
                lemma_path_set_push(before, kept@.last());
                assert(!old_set.contains(path@));
                assert(path_set(kept@) =~= old_set.insert(path@));
            }
        }
        self.expanded_dirs = kept;
    }

    /// Rebuilds the rows from the directory listings read (`listings`: a
    /// directory's path and its entries as read; an unread directory has
    /// none): the root's listed entries, each expanded directory followed by
    /// its own one level deeper. Descent stops after as many levels as there
    /// are expanded directories, which no directory tree without a
    /// directory inside itself reaches.
    pub fn rebuild_entries(&mut self, listings: &Vec<(String, Vec<DirChild>)>)
        requires
            old(self).expanded_dirs@.len() < usize::MAX,
        ensures
            entries_view(final(self).entries@) == walk_rows(
                listings_view(listings@),
                path_set(old(self).expanded_dirs@),
                listing(listing_of(listings_view(listings@), old(self).root@)),
                0,
                old(self).expanded_dirs@.len(),
            ),
            final(self).root == old(self).root,
            final(self).expanded_dirs == old(self).expanded_dirs,
            final(self).selected_path == old(self).selected_path,
    {
        let kids = listed_children(listings, self.root.as_str());
        let mut out: Vec<FileTreeEntry> = Vec::new();
        push_rows(listings, &self.expanded_dirs, &kids, 0, self.expanded_dirs.len(), &mut out);
        assert(entries_view(Seq::<FileTreeEntry>::empty()) =~= Seq::<(Seq<char>, Seq<char>, bool, nat)>::empty());
        assert(Seq::<(Seq<char>, Seq<char>, bool, nat)>::empty() + walk_rows(
            listings_view(listings@),
            path_set(self.expanded_dirs@),
            children_view(kids@),
            0,
            self.expanded_dirs@.len(),
        ) =~= walk_rows(listings_view(listings@), path_set(self.expanded_dirs@), children_view(kids@), 0, self.expanded_dirs@.len()));
        self.entries = out;
    }
}

// ── Untitled buffers ──

proof fn lemma_decimal_len(n: nat)
    ensures
        decimal(n).len() >= 1,
        n >= 10 ==> decimal(n).len() >= 2,
    decreases n,
{
    if n >= 10 {
        lemma_decimal_len(n / 10);
    }
}

proof fn lemma_digit_injective(x: nat, y: nat)
    requires
        x < 10,
        y < 10,
        crate::text::digit_char(x) == crate::text::digit_char(y),
    ensures
        x == y,
{
    if x != y {
        assert(crate::text::digit_char(x) as u32 == 48 + x) by {
            if x == 0 {} else if x == 1 {} else if x == 2 {} else if x == 3 {} else if x == 4 {}
            else if x == 5 {} else if x == 6 {} else if x == 7 {} else if x == 8 {} else {}
        }
        assert(crate::text::digit_char(y) as u32 == 48 + y) by {
            if y == 0 {} else if y == 1 {} else if y == 2 {} else if y == 3 {} else if y == 4 {}
            else if y == 5 {} else if y == 6 {} else if y == 7 {} else if y == 8 {} else {}
        }
    }
}

/// Different numbers have different decimal digits.
proof fn lemma_decimal_injective(a: nat, b: nat)
    requires
        decimal(a) == decimal(b),
    ensures
        a == b,
    decreases a + b,
{
    lemma_decimal_len(a);
    lemma_decimal_len(b);
    if a >= 10 && b >= 10 {
        assert(decimal(a).drop_last() == decimal(a / 10));
        assert(decimal(b).drop_last() == decimal(b / 10));
        assert(decimal(a).last() == crate::text::digit_char(a % 10));
        assert(decimal(b).last() == crate::text::digit_char(b % 10));
        lemma_digit_injective(a % 10, b % 10);
        lemma_decimal_injective(a / 10, b / 10);
        assert(a == 10 * (a / 10) + a % 10) by (nonlinear_arith);
        assert(b == 10 * (b / 10) + b % 10) by (nonlinear_arith);
    } else if a < 10 && b < 10 {
        assert(decimal(a) == seq![crate::text::digit_char(a)]);
        assert(decimal(b) == seq![crate::text::digit_char(b)]);
        assert(decimal(a)[0] == decimal(b)[0]);
        assert(seq![crate::text::digit_char(a)][0] == crate::text::digit_char(a));
        assert(seq![crate::text::digit_char(b)][0] == crate::text::digit_char(b));
        lemma_digit_injective(a, b);
    }
}

/// Different numbers name different untitled buffers.
proof fn lemma_untitled_injective(a: nat, b: nat)
    requires
        a >= 1,
        b >= 1,
        untitled(a) == untitled(b),
    ensures
        a == b,
{
    reveal_strlit("Untitled");
    reveal_strlit("Untitled-");
    lemma_decimal_len(a);
    lemma_decimal_len(b);
    assert("Untitled"@.len() == 8);
    assert("Untitled-"@.len() == 9);
    if a != 1 && b != 1 {
        assert(untitled(a).skip(9) =~= decimal(a));
        assert(untitled(b).skip(9) =~= decimal(b));
        lemma_decimal_injective(a, b);
    }
}

/// The titles of the tabs.
pub open spec fn titles<V>(files: Seq<OpenFile<V>>) -> Seq<Seq<char>> {
    Seq::new(files.len(), |i: int| files[i].title@)
}

/// If the first `n` untitled names are all titles, there are at least `n`
/// titles.
proof fn lemma_pigeon(ts: Seq<Seq<char>>, n: nat)
    requires
        forall|k: nat| 1 <= k <= n ==> ts.contains(#[trigger] untitled(k)),
    ensures
        n <= ts.len(),
{
    let s = vstd::set_lib::set_int_range(1, (n + 1) as int);
    let f = |k: int| untitled(k as nat);
    vstd::set_lib::lemma_int_range(1, (n + 1) as int);
    assert(vstd::relations::injective_on(f, s)) by {
        assert forall|x: int, y: int| s.contains(x) && s.contains(y) && #[trigger] f(x) == #[trigger] f(y) implies x == y by {
            lemma_untitled_injective(x as nat, y as nat);
        }
    }
    vstd::set_lib::lemma_map_size(s, s.map(f), f);
    assert(s.map(f).subset_of(ts.to_set())) by {
        assert forall|t: Seq<char>| #[trigger] s.map(f).contains(t) implies ts.to_set().contains(t) by {
            let k = choose|k: int| s.contains(k) && f(k) == t;
            assert(ts.contains(untitled(k as nat)));
        }
    }
    vstd::seq_lib::seq_to_set_is_finite(ts);
    vstd::set_lib::lemma_len_subset(s.map(f), ts.to_set());
    ts.lemma_cardinality_of_set();
}

impl<V> EditorTabs<V> {
    /// Whether some tab has this title.
    fn title_taken(&self, t: &String) -> (r: bool)
        ensures
            r == titles(self.open_files@).contains(t@),
    {
        let ghost ts = titles(self.open_files@);
        let mut i: usize = 0;
        while i < self.open_files.len()
            invariant
                0 <= i <= self.open_files@.len(),
                ts == titles(self.open_files@),
                forall|j: int| 0 <= j < i ==> ts[j] != t@,
            decreases self.open_files@.len() - i,
        {
            if str_eq(self.open_files[i].title.as_str(), t.as_str()) {
                assert(ts[i as int] == t@);
                return true;
            }
            i += 1;
        }
        false
    }

    /// The name for a new empty buffer: the first of "Untitled",
    /// "Untitled-2", "Untitled-3", ... that no tab has as its title.
    pub fn new_file_name(&self) -> (name: String)
        requires
            self.open_files@.len() < usize::MAX,
        ensures
            exists|n: nat| #![trigger untitled(n)]
                n >= 1 && name@ == untitled(n) && !titles(self.open_files@).contains(untitled(n)) && forall|k: nat|
                    1 <= k < n ==> titles(self.open_files@).contains(#[trigger] untitled(k)),
    {
        let ghost ts = titles(self.open_files@);
        let m = self.open_files.len();
        let mut n: usize = 1;
        while n <= m
            invariant
                1 <= n <= m + 1,
                m < usize::MAX,
                m == self.open_files@.len(),
                ts == titles(self.open_files@),
                forall|k: nat| 1 <= k < n ==> ts.contains(#[trigger] untitled(k)),
            decreases m + 1 - n,
        {
            let name = untitled_name(n as u64);
            if !self.title_taken(&name) {
                return name;
            }
            n += 1;
        }
        let name = untitled_name((m + 1) as u64);
        proof {
            if ts.contains(untitled((m + 1) as nat)) {
                lemma_pigeon(ts, (m + 1) as nat);
                assert(ts.len() == m);
            }
        }
        name
    }
}

} // verus!
