//! Find-all-references: whole-word occurrences of a symbol in the open
//! buffer and in other files of the workspace, grouped by file, with the
//! inline panel that lists them.
use vstd::prelude::*;
use vstd::utf8::encode_utf8;
use crate::file_viewer::{all_occurrences, occurrences_in};
use crate::text::{boundary, lossy_decode, utf8_lossy, str_trim_end, trim_end_spec, str_chars, str_eq, lines_view, lines_of, str_lines, extension_of, path_extension};

verus! {

/// One place a symbol occurs.
pub struct FileReference {
    pub path: String,
    /// 0-based line index.
    pub row: usize,
    /// Byte offset where the occurrence starts.
    pub col_start: usize,
    /// Byte offset where it ends (exclusive).
    pub col_end: usize,
    /// The whole line, for display.
    pub line_text: String,
}

/// A reference as values.
pub struct RefView {
    pub path: Seq<char>,
    pub row: usize,
    pub col_start: usize,
    pub col_end: usize,
    pub line_text: Seq<char>,
}

impl View for FileReference {
    type V = RefView;

    open spec fn view(&self) -> RefView {
        RefView {
            path: self.path@,
            row: self.row,
            col_start: self.col_start,
            col_end: self.col_end,
            line_text: self.line_text@,
        }
    }
}

/// References as values.
pub open spec fn refs_view(v: Seq<FileReference>) -> Seq<RefView> {
    Seq::new(v.len(), |i: int| v[i]@)
}

/// Reference groups (a path and its references) as values.
pub open spec fn groups_view(gs: Seq<(String, Vec<FileReference>)>) -> Seq<(Seq<char>, Seq<RefView>)> {
    Seq::new(gs.len(), |i: int| (gs[i].0@, refs_view(gs[i].1@)))
}

/// All references of the groups, group after group.
pub open spec fn flat(gs: Seq<(Seq<char>, Seq<RefView>)>) -> Seq<RefView>
    decreases gs.len(),
{
    if gs.len() == 0 {
        seq![]
    } else {
        flat(gs.drop_last()) + gs.last().1
    }
}

/// A copy of a reference.
pub fn copy_ref(r: &FileReference) -> (c: FileReference)
    ensures
        c@ == r@,
{
    FileReference {
        path: r.path.clone(),
        row: r.row,
        col_start: r.col_start,
        col_end: r.col_end,
        line_text: r.line_text.clone(),
    }
}

/// A copy of a reference group.
pub fn copy_group(g: &(String, Vec<FileReference>)) -> (c: (String, Vec<FileReference>))
    ensures
        c.0@ == g.0@,
        refs_view(c.1@) == refs_view(g.1@),
{
    let mut v: Vec<FileReference> = Vec::new();
    let mut i: usize = 0;
    while i < g.1.len()
        invariant
            0 <= i <= g.1@.len(),
            v@.len() == i,
            forall|k: int| 0 <= k < i ==> (#[trigger] v@[k])@ == g.1@[k]@,
        decreases g.1@.len() - i,
    {
        v.push(copy_ref(&g.1[i]));
        i += 1;
    }
    assert(refs_view(v@) =~= refs_view(g.1@));
    (g.0.clone(), v)
}

/// The references of the occurrences `occ` in the lines `ls` of the file
/// `path`.
pub open spec fn refs_of(path: Seq<char>, ls: Seq<Seq<u8>>, occ: Seq<(usize, usize, usize)>) -> Seq<RefView> {
    Seq::new(
        occ.len(),
        |k: int|
            RefView {
                path,
                row: occ[k].0,
                col_start: occ[k].1,
                col_end: occ[k].2,
                line_text: lossy_decode(ls[occ[k].0 as int]),
            },
    )
}

/// `rs` are the references, in document order, of every whole-word
/// occurrence of `w` in the lines `ls` of the file `path`.
pub open spec fn refs_in(path: Seq<char>, ls: Seq<Seq<u8>>, w: Seq<u8>, rs: Seq<RefView>) -> bool {
    exists|occ: Seq<(usize, usize, usize)>| #[trigger] all_occurrences(ls, w, occ) && rs == refs_of(path, ls, occ)
}

/// The references of every whole-word occurrence of `word` in the lines of
/// the file `path`, in document order.
pub fn references_in_lines(path: &str, lines: &Vec<Vec<u8>>, word: &[u8]) -> (r: Vec<FileReference>)
    requires
        word@.len() > 0,
    ensures
        refs_in(path@, lines_view(lines@), word@, refs_view(r@)),
{
    let occ = occurrences_in(lines, word);
    let ghost ls = lines_view(lines@);
    let mut r: Vec<FileReference> = Vec::new();
    let mut k: usize = 0;
    while k < occ.len()
        invariant
            0 <= k <= occ@.len(),
            all_occurrences(ls, word@, occ@),
            ls == lines_view(lines@),
            r@.len() == k,
            forall|j: int| 0 <= j < k ==> (#[trigger] r@[j])@ == refs_of(path@, ls, occ@)[j],
        decreases occ@.len() - k,
    {
        let (row, a, b) = occ[k];
        assert(row < ls.len());
        assert(lines@[row as int]@ == ls[row as int]);
        let fr = FileReference {
            path: path.to_owned(),
            row,
            col_start: a,
            col_end: b,
            line_text: utf8_lossy(lines[row].as_slice()),
        };
        r.push(fr);
        k += 1;
    }
    assert(refs_view(r@) =~= refs_of(path@, ls, occ@));
    r
}

/// The references to `word` in the text of another file: `None` when the
/// word occurs nowhere in it as a whole word.
pub fn file_references(path: &str, content: &str, word: &str) -> (r: Option<(String, Vec<FileReference>)>)
    requires
        word@.len() > 0,
    ensures
        match r {
            Some(g) => g.0@ == path@ && g.1@.len() > 0 && refs_in(
                path@,
                lines_of(encode_utf8(content@)),
                encode_utf8(word@),
                refs_view(g.1@),
            ),
            None => refs_in(path@, lines_of(encode_utf8(content@)), encode_utf8(word@), seq![]),
        },
{
    let lines = str_lines(content.as_bytes());
    let w = vstd::slice::slice_to_vec(word.as_bytes());
    proof {
        lemma_encode_nonempty(word@);
    }
    let refs = references_in_lines(path, &lines, w.as_slice());
    if refs.len() == 0 {
        assert(refs_view(refs@) =~= Seq::<RefView>::empty());
        None
    } else {
        Some((path.to_owned(), refs))
    }
}

/// Nonempty text encodes to nonempty bytes.
proof fn lemma_encode_nonempty(cs: Seq<char>)
    requires
        cs.len() > 0,
    ensures
        encode_utf8(cs).len() > 0,
{
    let e0 = vstd::utf8::encode_scalar(cs[0] as u32);
    assert(encode_utf8(cs) == e0 + encode_utf8(cs.drop_first()));
    assert(e0.len() > 0);
}

// ── Which files are searched ──

/// Extensions of the text files a workspace search reads.
pub open spec fn code_ext(e: Seq<char>) -> bool {
    ||| e == "rs"@ ||| e == "py"@ ||| e == "js"@ ||| e == "jsx"@ ||| e == "ts"@ ||| e == "tsx"@
    ||| e == "go"@ ||| e == "java"@ ||| e == "c"@ ||| e == "cpp"@ ||| e == "h"@ ||| e == "hpp"@
    ||| e == "rb"@ ||| e == "swift"@ ||| e == "kt"@ ||| e == "scala"@ ||| e == "toml"@ ||| e == "yaml"@
    ||| e == "yml"@ ||| e == "json"@ ||| e == "md"@ ||| e == "txt"@ ||| e == "css"@ ||| e == "scss"@
    ||| e == "html"@ ||| e == "xml"@ ||| e == "sh"@ ||| e == "bash"@ ||| e == "zsh"@ ||| e == "sql"@
    ||| e == "lua"@ ||| e == "zig"@ ||| e == "ex"@ ||| e == "exs"@ ||| e == "erl"@ ||| e == "hrl"@
    ||| e == "clj"@ ||| e == "cljs"@ ||| e == "vim"@ ||| e == "el"@ ||| e == "ml"@ ||| e == "mli"@
    ||| e == "hs"@ ||| e == "cabal"@ ||| e == "nix"@ ||| e == "dart"@ ||| e == "svelte"@ ||| e == "vue"@
    ||| e == "proto"@ ||| e == "tf"@ ||| e == "graphql"@
}

/// Whether an extension is one a workspace search reads.
pub fn is_code_ext(e: &str) -> (r: bool)
    ensures
        r == code_ext(e@),
{
    str_eq(e, "rs") || str_eq(e, "py") || str_eq(e, "js") || str_eq(e, "jsx") || str_eq(e, "ts") || str_eq(e, "tsx")
        || str_eq(e, "go") || str_eq(e, "java") || str_eq(e, "c") || str_eq(e, "cpp") || str_eq(e, "h") || str_eq(e, "hpp")
        || str_eq(e, "rb") || str_eq(e, "swift") || str_eq(e, "kt") || str_eq(e, "scala") || str_eq(e, "toml")
        || str_eq(e, "yaml") || str_eq(e, "yml") || str_eq(e, "json") || str_eq(e, "md") || str_eq(e, "txt")
        || str_eq(e, "css") || str_eq(e, "scss") || str_eq(e, "html") || str_eq(e, "xml") || str_eq(e, "sh")
        || str_eq(e, "bash") || str_eq(e, "zsh") || str_eq(e, "sql") || str_eq(e, "lua") || str_eq(e, "zig")
        || str_eq(e, "ex") || str_eq(e, "exs") || str_eq(e, "erl") || str_eq(e, "hrl") || str_eq(e, "clj")
        || str_eq(e, "cljs") || str_eq(e, "vim") || str_eq(e, "el") || str_eq(e, "ml") || str_eq(e, "mli")
        || str_eq(e, "hs") || str_eq(e, "cabal") || str_eq(e, "nix") || str_eq(e, "dart") || str_eq(e, "svelte")
        || str_eq(e, "vue") || str_eq(e, "proto") || str_eq(e, "tf") || str_eq(e, "graphql")
}

/// Whether a workspace search reads the file at `candidate`: not the open
/// file (searched from its buffer), and a text file by its extension (a
/// path without one counts as the empty extension).
pub fn searchable_file(current: &str, candidate: &str) -> (r: bool)
    ensures
        r == (candidate@ != current@ && code_ext(
            match path_extension(candidate@) {
                Some(e) => e,
                None => ""@,
            },
        )),
{
    if str_eq(current, candidate) {
        return false;
    }
    match extension_of(candidate) {
        Some(e) => is_code_ext(e.as_str()),
        None => is_code_ext(""),
    }
}

// ── Definitions ──

/// `t` ends with `k`.
pub open spec fn ends_with(t: Seq<char>, k: Seq<char>) -> bool {
    t.len() >= k.len() && t.subrange(t.len() - k.len(), t.len() as int) == k
}

fn chars_end_with(t: &Vec<char>, k: &str) -> (r: bool)
    ensures
        r == ends_with(t@, k@),
{
    let kc = str_chars(k);
    if kc.len() > t.len() {
        return false;
    }
    let tl = t.len();
    let off = tl - kc.len();
    let mut i: usize = 0;
    while i < kc.len()
        invariant
            tl == t@.len(),
            kc@ == k@,
            off + kc@.len() == t@.len(),
            0 <= i <= kc@.len(),
            forall|j: int| 0 <= j < i ==> t@[off + j] == kc@[j],
        decreases kc@.len() - i,
    {
        if t[off + i] != kc[i] {
            return false;
        }
        i += 1;
    }
    assert(t@.subrange(off as int, t@.len() as int) =~= k@);
    true
}

/// Text before a symbol that marks its definition: it ends with one of the
/// definition keywords.
pub open spec fn def_prefix(t: Seq<char>) -> bool {
    ||| ends_with(t, "fn"@) ||| ends_with(t, "struct"@) ||| ends_with(t, "enum"@) ||| ends_with(t, "trait"@)
    ||| ends_with(t, "type"@) ||| ends_with(t, "const"@) ||| ends_with(t, "static"@) ||| ends_with(t, "let"@)
    ||| ends_with(t, "let mut"@) ||| ends_with(t, "mod"@) ||| ends_with(t, "pub fn"@) ||| ends_with(t, "pub struct"@)
    ||| ends_with(t, "pub enum"@) ||| ends_with(t, "pub trait"@) ||| ends_with(t, "pub type"@)
    ||| ends_with(t, "pub const"@) ||| ends_with(t, "pub static"@) ||| ends_with(t, "pub mod"@)
    ||| ends_with(t, "pub(crate) fn"@) ||| ends_with(t, "pub(crate) struct"@) ||| ends_with(t, "pub(crate) enum"@)
    ||| ends_with(t, "pub(crate) trait"@) ||| ends_with(t, "pub(crate) type"@) ||| ends_with(t, "pub(crate) const"@)
    ||| ends_with(t, "class"@) ||| ends_with(t, "def"@) ||| ends_with(t, "function"@) ||| ends_with(t, "var"@)
    ||| ends_with(t, "interface"@) ||| ends_with(t, "export function"@) ||| ends_with(t, "export class"@)
    ||| ends_with(t, "export const"@) ||| ends_with(t, "export default"@)
}

/// The text of a line before byte `col`, with trailing whitespace trimmed.
pub open spec fn prefix_before(line: Seq<char>, col: int) -> Seq<char> {
    trim_end_spec(lossy_decode(encode_utf8(line).subrange(0, col)))
}

/// Whether the occurrence at byte `col_start` of `line` is a definition:
/// the text before it ends with a definition keyword.
pub fn line_is_definition(line: &str, col_start: usize) -> (r: bool)
    requires
        col_start <= encode_utf8(line@).len(),
        boundary(encode_utf8(line@), col_start as int),
    ensures
        r == def_prefix(prefix_before(line@, col_start as int)),
{
    let b = line.as_bytes();
    let mut pre: Vec<u8> = Vec::new();
    let mut i: usize = 0;
    while i < col_start
        invariant
            b@ == encode_utf8(line@),
            col_start <= b@.len(),
            0 <= i <= col_start,
            pre@ == b@.subrange(0, i as int),
        decreases col_start - i,
    {
        pre.push(b[i]);
        i += 1;
        assert(pre@ =~= b@.subrange(0, i as int));
    }
    let s = utf8_lossy(pre.as_slice());
    let t = str_chars(str_trim_end(s.as_str()));
    chars_end_with(&t, "fn") || chars_end_with(&t, "struct") || chars_end_with(&t, "enum") || chars_end_with(&t, "trait")
        || chars_end_with(&t, "type") || chars_end_with(&t, "const") || chars_end_with(&t, "static")
        || chars_end_with(&t, "let") || chars_end_with(&t, "let mut") || chars_end_with(&t, "mod")
        || chars_end_with(&t, "pub fn") || chars_end_with(&t, "pub struct") || chars_end_with(&t, "pub enum")
        || chars_end_with(&t, "pub trait") || chars_end_with(&t, "pub type") || chars_end_with(&t, "pub const")
        || chars_end_with(&t, "pub static") || chars_end_with(&t, "pub mod") || chars_end_with(&t, "pub(crate) fn")
        || chars_end_with(&t, "pub(crate) struct") || chars_end_with(&t, "pub(crate) enum")
        || chars_end_with(&t, "pub(crate) trait") || chars_end_with(&t, "pub(crate) type")
        || chars_end_with(&t, "pub(crate) const") || chars_end_with(&t, "class") || chars_end_with(&t, "def")
        || chars_end_with(&t, "function") || chars_end_with(&t, "var") || chars_end_with(&t, "interface")
        || chars_end_with(&t, "export function") || chars_end_with(&t, "export class")
        || chars_end_with(&t, "export const") || chars_end_with(&t, "export default")
}

/// A reference whose start lies on a character boundary of its line (as
/// every reference the searches here produce does).
pub open spec fn ref_ok(r: RefView) -> bool {
    &&& r.col_start <= encode_utf8(r.line_text).len()
    &&& boundary(encode_utf8(r.line_text), r.col_start as int)
}

/// Whether a reference is a definition (see [`line_is_definition`]).
pub open spec fn is_def(r: RefView) -> bool {
    def_prefix(prefix_before(r.line_text, r.col_start as int))
}

/// Whether every reference of the groups starts on a character boundary.
pub fn groups_ok(groups: &Vec<(String, Vec<FileReference>)>) -> (r: bool)
    ensures
        r == forall|g: int, k: int| 0 <= g < groups@.len() && 0 <= k < groups@[g].1@.len() ==> ref_ok(#[trigger] groups@[g].1@[k]@),
{
    let mut g: usize = 0;
    while g < groups.len()
        invariant
            0 <= g <= groups@.len(),
            forall|x: int, k: int| 0 <= x < g && 0 <= k < groups@[x].1@.len() ==> ref_ok(#[trigger] groups@[x].1@[k]@),
        decreases groups@.len() - g,
    {
        let refs = &groups[g].1;
        let mut k: usize = 0;
        while k < refs.len()
            invariant
                0 <= g < groups@.len(),
                *refs == groups@[g as int].1,
                0 <= k <= refs@.len(),
                forall|x: int, j: int| 0 <= x < g && 0 <= j < groups@[x].1@.len() ==> ref_ok(#[trigger] groups@[x].1@[j]@),
                forall|j: int| 0 <= j < k ==> ref_ok(#[trigger] refs@[j]@),
            decreases refs@.len() - k,
        {
            let r = &refs[k];
            let b = r.line_text.as_str().as_bytes();
            let bl = b.len();
            if r.col_start > bl {
                assert(!ref_ok(groups@[g as int].1@[k as int]@));
                return false;
            }
            let v = vstd::slice::slice_to_vec(b);
            if !crate::text::is_boundary(&v, r.col_start) {
                assert(!ref_ok(groups@[g as int].1@[k as int]@));
                return false;
            }
            k += 1;
        }
        g += 1;
    }
    true
}

// ── Flat navigation ──

/// The reference at index `flat_ix` of all the groups' references taken in
/// order, if there is one.
pub fn flat_ref_at(groups: &Vec<(String, Vec<FileReference>)>, flat_ix: usize) -> (r: Option<FileReference>)
    ensures
        flat_ix < flat(groups_view(groups@)).len() ==> (r matches Some(x) && x@ == flat(groups_view(groups@))[flat_ix as int]),
        flat_ix >= flat(groups_view(groups@)).len() ==> r is None,
{
    let ghost gv = groups_view(groups@);
    let mut ix = flat_ix;
    let mut g: usize = 0;
    proof {
        assert(gv.take(0) =~= Seq::<(Seq<char>, Seq<RefView>)>::empty());
    }
    while g < groups.len()
        invariant
            0 <= g <= groups@.len(),
            gv == groups_view(groups@),
            ix + flat(gv.take(g as int)).len() == flat_ix,
        decreases groups@.len() - g,
    {
        let refs = &groups[g].1;
        proof {
            assert(gv.take(g + 1).drop_last() =~= gv.take(g as int));
            assert(gv.take(g + 1).last() == gv[g as int]);
            lemma_flat_prefix(gv, g as int);
        }
        if ix < refs.len() {
            proof {
                assert(gv[g as int].1 == refs_view(refs@));
                assert(flat(gv.take(g + 1)) == flat(gv.take(g as int)) + gv[g as int].1);
                lemma_flat_take(gv, g + 1);
                assert(flat(gv.take(g + 1))[flat_ix as int] == refs_view(refs@)[ix as int]);
                assert(flat(gv)[flat_ix as int] == flat(gv.take(g + 1))[flat_ix as int]);
            }
            return Some(copy_ref(&refs[ix]));
        }
        ix = ix - refs.len();
        g += 1;
    }
    proof {
        assert(gv.take(g as int) =~= gv);
    }
    None
}

/// The references of a prefix of the groups come first among all of them.
proof fn lemma_flat_take(gs: Seq<(Seq<char>, Seq<RefView>)>, n: int)
    requires
        0 <= n <= gs.len(),
    ensures
        flat(gs.take(n)).len() <= flat(gs).len(),
        forall|i: int| 0 <= i < flat(gs.take(n)).len() ==> flat(gs)[i] == #[trigger] flat(gs.take(n))[i],
    decreases gs.len() - n,
{
    if n < gs.len() {
        lemma_flat_take(gs, n + 1);
        assert(gs.take(n + 1).drop_last() =~= gs.take(n));
        assert(flat(gs.take(n + 1)) == flat(gs.take(n)) + gs.take(n + 1).last().1);
        assert forall|i: int| 0 <= i < flat(gs.take(n)).len() implies flat(gs)[i] == #[trigger] flat(gs.take(n))[i] by {
            assert(flat(gs.take(n + 1))[i] == flat(gs.take(n))[i]);
        }
    } else {
        assert(gs.take(n) =~= gs);
    }
}

proof fn lemma_flat_prefix(gs: Seq<(Seq<char>, Seq<RefView>)>, g: int)
    requires
        0 <= g < gs.len(),
    ensures
        flat(gs.take(g + 1)) == flat(gs.take(g)) + gs[g].1,
{
    assert(gs.take(g + 1).drop_last() =~= gs.take(g));
    assert(gs.take(g + 1).last() == gs[g]);
}

/// Number of references across the groups (saturating at `usize::MAX`).
pub fn total_refs(groups: &Vec<(String, Vec<FileReference>)>) -> (n: usize)
    ensures
        n == if flat(groups_view(groups@)).len() <= usize::MAX { flat(groups_view(groups@)).len() as usize } else { usize::MAX },
{
    let ghost gv = groups_view(groups@);
    let mut n: usize = 0;
    let mut g: usize = 0;
    assert(gv.take(0) =~= Seq::<(Seq<char>, Seq<RefView>)>::empty());
    while g < groups.len()
        invariant
            0 <= g <= groups@.len(),
            gv == groups_view(groups@),
            n == if flat(gv.take(g as int)).len() <= usize::MAX { flat(gv.take(g as int)).len() as usize } else { usize::MAX },
        decreases groups@.len() - g,
    {
        proof {
            lemma_flat_prefix(gv, g as int);
        }
        let len = groups[g].1.len();
        n = if n <= usize::MAX - len { n + len } else { usize::MAX };
        g += 1;
    }
    assert(gv.take(g as int) =~= gv);
    n
}

// ── Order of the groups ──

/// Whether the path `a` sorts before the path `b` (as `Path` orders paths).
pub uninterp spec fn path_order(a: Seq<char>, b: Seq<char>) -> bool;

/// Whether the path `a` sorts before the path `b`.
///
/// Calls `<Path as PartialOrd>::lt` on the two paths; the contract names the
/// result [`path_order`] and states of it what `Path` being `Ord` gives: the
/// order is asymmetric, and when `a` does not sort before `b` (so `b` sorts
/// at or before `a`), whatever `a` sorts before, `b` sorts before too. It
/// does not state how paths compare.
#[verifier::external_body]
fn path_before(a: &str, b: &str) -> (r: bool)
    ensures
        r == path_order(a@, b@),
        r ==> !path_order(b@, a@),
        !r ==> forall|c: Seq<char>| #[trigger] path_order(a@, c) ==> path_order(b@, c),
{
    std::path::Path::new(a) < std::path::Path::new(b)
}

/// The groups `s` with `g` placed after every group whose path `g`'s does
/// not sort before (a stable insertion).
pub open spec fn insert_by_path(s: Seq<(Seq<char>, Seq<RefView>)>, g: (Seq<char>, Seq<RefView>)) -> Seq<(Seq<char>, Seq<RefView>)>
    decreases s.len(),
{
    if s.len() == 0 || !path_order(g.0, s.last().0) {
        s.push(g)
    } else {
        insert_by_path(s.drop_last(), g).push(s.last())
    }
}

/// Whether no group sorts before an earlier one.
pub open spec fn sorted_by_path(s: Seq<(Seq<char>, Seq<RefView>)>) -> bool {
    forall|i: int, k: int| 0 <= i < k < s.len() ==> !path_order(#[trigger] s[k].0, #[trigger] s[i].0)
}

/// The groups sorted by path, groups of equal paths in their given order.
pub open spec fn sort_by_path(s: Seq<(Seq<char>, Seq<RefView>)>) -> Seq<(Seq<char>, Seq<RefView>)>
    decreases s.len(),
{
    if s.len() == 0 {
        s
    } else {
        insert_by_path(sort_by_path(s.drop_last()), s.last())
    }
}

/// The groups in the order a Cmd+click lists them: sorted by path, except
/// that the open file's group stays first when it leads (`keep_first`).
pub open spec fn order_groups(gs: Seq<(Seq<char>, Seq<RefView>)>, keep_first: bool) -> Seq<(Seq<char>, Seq<RefView>)> {
    let k: int = if keep_first && gs.len() > 0 { 1 } else { 0 };
    gs.take(k) + sort_by_path(gs.skip(k))
}

/// Inserting at position `j` is the stable insertion when every group from
/// `j` on sorts after `g` and the one before `j` does not.
proof fn lemma_insert_at(s: Seq<(Seq<char>, Seq<RefView>)>, g: (Seq<char>, Seq<RefView>), j: int)
    requires
        0 <= j <= s.len(),
        forall|k: int| j <= k < s.len() ==> path_order(g.0, #[trigger] s[k].0),
        j == 0 || !path_order(g.0, s[j - 1].0),
    ensures
        insert_by_path(s, g) == s.insert(j, g),
    decreases s.len(),
{
    if j < s.len() {
        assert(path_order(g.0, s[s.len() - 1].0));
        let d = s.drop_last();
        assert forall|k: int| j <= k < d.len() implies path_order(g.0, #[trigger] d[k].0) by {
            assert(d[k] == s[k]);
        }
        if j > 0 {
            assert(d[j - 1] == s[j - 1]);
        }
        lemma_insert_at(d, g, j);
        assert(d.insert(j, g).push(s.last()) =~= s.insert(j, g));
    } else {
        assert(s.push(g) =~= s.insert(j, g));
    }
}

/// Sorting by path keeps exactly the groups it is given.
pub proof fn lemma_sort_by_path_permutes(s: Seq<(Seq<char>, Seq<RefView>)>)
    ensures
        sort_by_path(s).to_multiset() == s.to_multiset(),
    decreases s.len(),
{
    if s.len() > 0 {
        lemma_sort_by_path_permutes(s.drop_last());
        lemma_insert_by_path_adds(sort_by_path(s.drop_last()), s.last());
        s.drop_last().to_multiset_ensures();
        assert(s.drop_last().push(s.last()) =~= s);
    }
}

/// Inserting a group adds exactly that group.
proof fn lemma_insert_by_path_adds(s: Seq<(Seq<char>, Seq<RefView>)>, g: (Seq<char>, Seq<RefView>))
    ensures
        insert_by_path(s, g).to_multiset() == s.to_multiset().insert(g),
    decreases s.len(),
{
    s.to_multiset_ensures();
    if s.len() > 0 && path_order(g.0, s.last().0) {
        let d = s.drop_last();
        lemma_insert_by_path_adds(d, g);
        insert_by_path(d, g).to_multiset_ensures();
        d.to_multiset_ensures();
        assert(d.push(s.last()) =~= s);
        assert(insert_by_path(s, g).to_multiset() =~= s.to_multiset().insert(g));
    }
}

/// The groups in the order a Cmd+click lists them (see [`order_groups`]):
/// sorted by path, the first kept first when `keep_first` is set (it is the
/// open file's).
pub fn order_groups_by_path(groups: Vec<(String, Vec<FileReference>)>, keep_first: bool) -> (r: Vec<(String, Vec<FileReference>)>)
    ensures
        groups_view(r@) == order_groups(groups_view(groups@), keep_first),
        sorted_by_path(groups_view(r@).skip(if keep_first && groups@.len() > 0 { 1int } else { 0int })),
{
    let ghost gv = groups_view(groups@);
    let start: usize = if keep_first && groups.len() > 0 { 1 } else { 0 };
    let mut sorted: Vec<(String, Vec<FileReference>)> = Vec::new();
    let mut i: usize = start;
    assert(gv.skip(start as int).take(0) =~= Seq::<(Seq<char>, Seq<RefView>)>::empty());
    assert(groups_view(sorted@) =~= sort_by_path(gv.skip(start as int).take(0)));
    while i < groups.len()
        invariant
            start <= i <= groups@.len(),
            start <= 1,
            gv == groups_view(groups@),
            groups_view(sorted@) == sort_by_path(gv.skip(start as int).take(i - start)),
            sorted_by_path(groups_view(sorted@)),
        decreases groups@.len() - i,
    {
        let g = copy_group(&groups[i]);
        let ghost gview = (g.0@, refs_view(g.1@));
        let ghost sv = groups_view(sorted@);
        assert(gview == gv[i as int]);
        let mut j: usize = sorted.len();
        while j > 0 && path_before(g.0.as_str(), sorted[j - 1].0.as_str())
            invariant
                0 <= j <= sorted@.len(),
                sv == groups_view(sorted@),
                gview == (g.0@, refs_view(g.1@)),
                forall|k: int| j <= k < sv.len() ==> path_order(gview.0, #[trigger] sv[k].0),
                forall|k: int| j <= k < sv.len() ==> !path_order(#[trigger] sv[k].0, gview.0),
            decreases j,
        {
            j -= 1;
        }
        assert forall|k: int| 0 <= k < j implies !path_order(gview.0, #[trigger] sv[k].0) by {
            if path_order(gview.0, sv[k].0) {
                assert(path_order(sv[j - 1].0, sv[k].0) || k == j - 1);
            }
        }
        let ghost ins = sv.insert(j as int, gview);
        assert(sorted_by_path(ins)) by {
            assert forall|a: int, b: int| 0 <= a < b < ins.len() implies !path_order(#[trigger] ins[b].0, #[trigger] ins[a].0) by {
                if b < j {
                    assert(ins[a] == sv[a] && ins[b] == sv[b]);
                } else if b == j {
                    assert(ins[a] == sv[a]);
                } else if a == j {
                    assert(ins[b] == sv[b - 1]);
                } else if a < j {
                    assert(ins[a] == sv[a] && ins[b] == sv[b - 1]);
                } else {
                    assert(ins[a] == sv[a - 1] && ins[b] == sv[b - 1]);
                }
            }
        }
        proof {
            lemma_insert_at(sv, gview, j as int);
        }
        sorted.insert(j, g);
        assert(groups_view(sorted@) =~= sv.insert(j as int, gview));
        assert(gv.skip(start as int).take(i - start + 1).drop_last() =~= gv.skip(start as int).take(i - start));
        assert(gv.skip(start as int).take(i - start + 1).last() == gview);
        i += 1;
    }
    assert(gv.skip(start as int).take(i - start) =~= gv.skip(start as int));
    if start == 1 {
        let first = copy_group(&groups[0]);
        let ghost sv = groups_view(sorted@);
        sorted.insert(0, first);
        assert(groups_view(sorted@) =~= gv.take(1) + sv);
        assert(groups_view(sorted@).skip(1) =~= sv);
    } else {
        assert(groups_view(sorted@) =~= gv.take(0) + groups_view(sorted@));
        assert(groups_view(sorted@).skip(0) =~= groups_view(sorted@));
    }
    sorted
}

// ── The references panel ──

/// The inline list shown after a Cmd+click on a definition (or on a
/// symbol whose definition was not found).
pub struct ReferencesPanel {
    /// The word being referenced.
    pub word: String,
    /// The row the panel is anchored to.
    pub anchor_row: usize,
    /// The references, grouped by file.
    pub groups: Vec<(String, Vec<FileReference>)>,
    /// Index of the selected reference among all of them.
    pub selected_ix: usize,
    /// Number of references.
    pub total_refs: usize,
}

/// What a key does while the references panel is open.
pub enum PanelKey {
    /// Escape: the panel closes.
    Close,
    /// Up or down: the selection moved.
    Moved,
    /// Enter: the panel closes and the selected reference, if any, opens.
    Open(Option<FileReference>),
    /// Any other key: the panel closes and the key is handled as usual.
    Dismiss,
}

impl ReferencesPanel {
    /// Handles a key while the panel is open: up and down move the
    /// selection, wrapping around; escape, enter and any other key close the
    /// panel (enter also opens the selected reference).
    pub fn handle_key(&mut self, key: &str) -> (r: PanelKey)
        requires
            key@ == "down"@ ==> old(self).selected_ix < usize::MAX,
        ensures
            final(self).word == old(self).word,
            final(self).anchor_row == old(self).anchor_row,
            final(self).groups == old(self).groups,
            final(self).total_refs == old(self).total_refs,
            key@ == "escape"@ ==> r is Close && final(self).selected_ix == old(self).selected_ix,
            key@ == "up"@ ==> r is Moved && final(self).selected_ix == (if old(self).selected_ix > 0 {
                old(self).selected_ix - 1
            } else if old(self).total_refs > 0 {
                old(self).total_refs - 1
            } else {
                0
            }),
            key@ == "down"@ ==> r is Moved && final(self).selected_ix == (old(self).selected_ix + 1) as int % (if old(
                self,
            ).total_refs > 1 {
                old(self).total_refs as int
            } else {
                1
            }),
            key@ == "enter"@ ==> final(self).selected_ix == old(self).selected_ix && match r {
                PanelKey::Open(o) => {
                    let all = flat(groups_view(old(self).groups@));
                    &&& old(self).selected_ix < all.len() ==> (o matches Some(x) && x@ == all[old(self).selected_ix as int])
                    &&& old(self).selected_ix >= all.len() ==> o is None
                },
                _ => false,
            },
            key@ != "escape"@ && key@ != "up"@ && key@ != "down"@ && key@ != "enter"@ ==> r is Dismiss
                && final(self).selected_ix == old(self).selected_ix,
    {
        proof {
            reveal_strlit("escape");
            reveal_strlit("up");
            reveal_strlit("down");
            reveal_strlit("enter");
            assert("escape"@.len() == 6);
            assert("up"@.len() == 2);
            assert("down"@.len() == 4);
            assert("enter"@.len() == 5);
        }
        if str_eq(key, "escape") {
            PanelKey::Close
        } else if str_eq(key, "up") {
            if self.selected_ix > 0 {
                self.selected_ix = self.selected_ix - 1;
            } else {
                self.selected_ix = if self.total_refs > 0 { self.total_refs - 1 } else { 0 };
            }
            PanelKey::Moved
        } else if str_eq(key, "down") {
            let m = if self.total_refs > 1 { self.total_refs } else { 1 };
            self.selected_ix = (self.selected_ix + 1) % m;
            PanelKey::Moved
        } else if str_eq(key, "enter") {
            PanelKey::Open(flat_ref_at(&self.groups, self.selected_ix))
        } else {
            PanelKey::Dismiss
        }
    }
}

// ── Cmd+click ──

/// A reference that counts as a definition: its start lies on a character
/// boundary of its line, and the text before it ends with a definition
/// keyword.
pub open spec fn def_ref(r: RefView) -> bool {
    ref_ok(r) && def_prefix(prefix_before(r.line_text, r.col_start as int))
}

/// Whether a reference counts as a definition (see [`def_ref`]).
pub fn is_definition_ref(r: &FileReference) -> (b: bool)
    ensures
        b == def_ref(r@),
{
    let bytes = r.line_text.as_str().as_bytes();
    if r.col_start > bytes.len() {
        return false;
    }
    let v = vstd::slice::slice_to_vec(bytes);
    if !crate::text::is_boundary(&v, r.col_start) {
        return false;
    }
    line_is_definition(r.line_text.as_str(), r.col_start)
}

/// Index of the first definition among the references.
pub open spec fn first_def(all: Seq<RefView>) -> Option<int>
    decreases all.len(),
{
    if all.len() == 0 {
        None
    } else {
        match first_def(all.drop_last()) {
            Some(i) => Some(i),
            None => if def_ref(all.last()) {
                Some(all.len() - 1)
            } else {
                None
            },
        }
    }
}

/// The groups without their definitions, dropping groups left empty.
pub open spec fn without_defs(gs: Seq<(Seq<char>, Seq<RefView>)>) -> Seq<(Seq<char>, Seq<RefView>)>
    decreases gs.len(),
{
    if gs.len() == 0 {
        seq![]
    } else {
        let g = gs.last();
        let kept = g.1.filter(|r: RefView| !def_ref(r));
        if kept.len() > 0 {
            without_defs(gs.drop_last()).push((g.0, kept))
        } else {
            without_defs(gs.drop_last())
        }
    }
}

/// Where a Cmd+click leads, given the references found.
pub enum ClickDecision {
    /// Nothing to show.
    Nothing,
    /// The click was on the definition: the panel lists the other references.
    Definition(Vec<(String, Vec<FileReference>)>),
    /// The click was on a use: go to the definition.
    GoTo(FileReference),
    /// No definition was found: the panel lists every reference.
    All,
}

/// The first definition among the groups' references, if any.
fn find_first_def(groups: &Vec<(String, Vec<FileReference>)>) -> (r: Option<FileReference>)
    ensures
        match first_def(flat(groups_view(groups@))) {
            Some(d) => r matches Some(x) && x@ == flat(groups_view(groups@))[d],
            None => r is None,
        },
{
    let ghost gv = groups_view(groups@);
    let mut g: usize = 0;
    assert(gv.take(0) =~= Seq::<(Seq<char>, Seq<RefView>)>::empty());
    while g < groups.len()
        invariant
            0 <= g <= groups@.len(),
            gv == groups_view(groups@),
            first_def(flat(gv.take(g as int))) is None,
        decreases groups@.len() - g,
    {
        let refs = &groups[g].1;
        let ghost base = flat(gv.take(g as int));
        proof {
            lemma_flat_prefix(gv, g as int);
            assert(gv[g as int].1 == refs_view(refs@));
        }
        let mut k: usize = 0;
        while k < refs.len()
            invariant
                0 <= g < groups@.len(),
                gv == groups_view(groups@),
                *refs == groups@[g as int].1,
                base == flat(gv.take(g as int)),
                first_def(base) is None,
                0 <= k <= refs@.len(),
                first_def(base + refs_view(refs@).take(k as int)) is None,
                flat(gv.take(g + 1)) == base + refs_view(refs@),
            decreases refs@.len() - k,
        {
            let ghost pre = base + refs_view(refs@).take(k as int);
            let ghost nxt = base + refs_view(refs@).take(k + 1);
            assert(nxt.drop_last() =~= pre);
            assert(nxt.last() == refs@[k as int]@);
            if is_definition_ref(&refs[k]) {
                proof {
                    assert(first_def(nxt) == Some(nxt.len() - 1));
                    lemma_flat_take(gv, g + 1);
                    assert(nxt.len() <= flat(gv.take(g + 1)).len());
                    assert forall|i: int| 0 <= i < nxt.len() implies flat(gv)[i] == nxt[i] by {
                        assert(flat(gv.take(g + 1))[i] == nxt[i]);
                    }
                    lemma_first_def_prefix(flat(gv), nxt);
                }
                return Some(copy_ref(&refs[k]));
            }
            k += 1;
        }
        assert(refs_view(refs@).take(k as int) =~= refs_view(refs@));
        g += 1;
    }
    assert(gv.take(g as int) =~= gv);
    None
}

/// When a prefix of `all` already holds a definition, the first definition
/// of `all` is the prefix's.
proof fn lemma_first_def_prefix(all: Seq<RefView>, pre: Seq<RefView>)
    requires
        pre.len() <= all.len(),
        forall|i: int| 0 <= i < pre.len() ==> all[i] == pre[i],
        first_def(pre) is Some,
    ensures
        first_def(all) == first_def(pre),
    decreases all.len(),
{
    if all.len() > pre.len() {
        assert forall|i: int| 0 <= i < pre.len() implies all.drop_last()[i] == pre[i] by {}
        lemma_first_def_prefix(all.drop_last(), pre);
    } else {
        assert(all =~= pre);
    }
}

/// The groups without their definitions (see [`without_defs`]).
fn drop_defs(groups: &Vec<(String, Vec<FileReference>)>) -> (r: Vec<(String, Vec<FileReference>)>)
    ensures
        groups_view(r@) == without_defs(groups_view(groups@)),
{
    let ghost gv = groups_view(groups@);
    let mut r: Vec<(String, Vec<FileReference>)> = Vec::new();
    let mut g: usize = 0;
    assert(gv.take(0) =~= Seq::<(Seq<char>, Seq<RefView>)>::empty());
    while g < groups.len()
        invariant
            0 <= g <= groups@.len(),
            gv == groups_view(groups@),
            groups_view(r@) == without_defs(gv.take(g as int)),
        decreases groups@.len() - g,
    {
        let refs = &groups[g].1;
        let ghost rv = refs_view(refs@);
        let mut kept: Vec<FileReference> = Vec::new();
        let mut k: usize = 0;
        while k < refs.len()
            invariant
                0 <= k <= refs@.len(),
                rv == refs_view(refs@),
                refs_view(kept@) == rv.take(k as int).filter(|x: RefView| !def_ref(x)),
            decreases refs@.len() - k,
        {
            let ghost before = refs_view(kept@);
            proof {
                reveal(Seq::filter);
            }
            assert(rv.take(k + 1).drop_last() =~= rv.take(k as int));
            assert(rv.take(k + 1).last() == refs@[k as int]@);
            if !is_definition_ref(&refs[k]) {
                kept.push(copy_ref(&refs[k]));
                assert(refs_view(kept@) =~= before.push(refs@[k as int]@));
            } else {
                assert(refs_view(kept@) =~= before);
            }
            k += 1;
        }
        assert(rv.take(k as int) =~= rv);
        proof {
            assert(gv.take(g + 1).drop_last() =~= gv.take(g as int));
            assert(gv.take(g + 1).last() == gv[g as int]);
        }
        if kept.len() > 0 {
            let ghost before = groups_view(r@);
            r.push((groups[g].0.clone(), kept));
            assert(groups_view(r@) =~= before.push((groups@[g as int].0@, refs_view(r@.last().1@))));
        }
        g += 1;
    }
    assert(gv.take(g as int) =~= gv);
    r
}

/// Decides where a Cmd+click on the word starting at byte `start` of row
/// `row` of the file `path` leads, given the references found: nothing
/// without references; on the first definition itself, the other
/// references (nothing when there are none); elsewhere, the first
/// definition; with no definition, every reference.
pub fn decide_cmd_click(path: &str, row: usize, start: usize, groups: &Vec<(String, Vec<FileReference>)>) -> (r: ClickDecision)
    ensures
        decision_view(r) == decided(groups_view(groups@), path@, row, start),
        ({
            let gs = groups_view(groups@);
            let all = flat(gs);
            if gs.len() == 0 {
                r is Nothing
            } else {
                match first_def(all) {
                    Some(d) => if all[d].path == path@ && all[d].row == row && all[d].col_start == start {
                        if flat(without_defs(gs)).len() == 0 {
                            r is Nothing
                        } else {
                            r matches ClickDecision::Definition(fg) && groups_view(fg@) == without_defs(gs)
                        }
                    } else {
                        r matches ClickDecision::GoTo(x) && x@ == all[d]
                    },
                    None => r is All,
                }
            }
        }),
{
    if groups.len() == 0 {
        return ClickDecision::Nothing;
    }
    match find_first_def(groups) {
        Some(dr) => {
            if str_eq(dr.path.as_str(), path) && dr.row == row && dr.col_start == start {
                let fg = drop_defs(groups);
                if fg.len() == 0 {
                    assert(without_defs(groups_view(groups@)) =~= Seq::<(Seq<char>, Seq<RefView>)>::empty());
                    return ClickDecision::Nothing;
                }
                if !any_refs(&fg) {
                    return ClickDecision::Nothing;
                }
                ClickDecision::Definition(fg)
            } else {
                ClickDecision::GoTo(dr)
            }
        },
        None => ClickDecision::All,
    }
}

/// Whether any group holds a reference.
fn any_refs(groups: &Vec<(String, Vec<FileReference>)>) -> (r: bool)
    ensures
        r == (flat(groups_view(groups@)).len() > 0),
{
    let ghost gv = groups_view(groups@);
    let mut g: usize = 0;
    assert(gv.take(0) =~= Seq::<(Seq<char>, Seq<RefView>)>::empty());
    while g < groups.len()
        invariant
            0 <= g <= groups@.len(),
            gv == groups_view(groups@),
            flat(gv.take(g as int)).len() == 0,
        decreases groups@.len() - g,
    {
        proof {
            lemma_flat_prefix(gv, g as int);
            lemma_flat_take(gv, g + 1);
        }
        if groups[g].1.len() > 0 {
            return true;
        }
        g += 1;
    }
    assert(gv.take(g as int) =~= gv);
    false
}

/// Where a Cmd+click leads, as values.
pub enum Decided {
    Nothing,
    Definition(Seq<(Seq<char>, Seq<RefView>)>),
    GoTo(RefView),
    All,
}

/// Where a Cmd+click on the word starting at byte `start` of row `row` of
/// the file `path` leads, given the reference groups `gs`: nothing without
/// references; on the first definition itself, the other references
/// (nothing when there are none); elsewhere, the first definition; with no
/// definition, every reference.
pub open spec fn decided(gs: Seq<(Seq<char>, Seq<RefView>)>, path: Seq<char>, row: usize, start: usize) -> Decided {
    let all = flat(gs);
    if gs.len() == 0 {
        Decided::Nothing
    } else {
        match first_def(all) {
            Some(d) => if all[d].path == path && all[d].row == row && all[d].col_start == start {
                if flat(without_defs(gs)).len() == 0 {
                    Decided::Nothing
                } else {
                    Decided::Definition(without_defs(gs))
                }
            } else {
                Decided::GoTo(all[d])
            },
            None => Decided::All,
        }
    }
}

/// A decision as values.
pub open spec fn decision_view(d: ClickDecision) -> Decided {
    match d {
        ClickDecision::Nothing => Decided::Nothing,
        ClickDecision::Definition(fg) => Decided::Definition(groups_view(fg@)),
        ClickDecision::GoTo(x) => Decided::GoTo(x@),
        ClickDecision::All => Decided::All,
    }
}

} // verus!
