//! Syntax highlighting: language detection from a path, the colour class of
//! each highlight name, and the spans that a highlighter's events describe.
use vstd::prelude::*;
use vstd::string::StringSliceAdditionalSpecFns;
use vstd::utf8::encode_utf8;
use crate::text::{str_chars, str_eq};

verus! {

/// The colour class a highlighted span is drawn with.
#[derive(Clone, Copy, PartialEq, Eq, Debug, Structural)]
pub enum SyntaxColor {
    Comment,
    Keyword,
    Str,
    Number,
    Function,
    Type,
    Variable,
    VariableBuiltin,
    Operator,
    Punctuation,
    Property,
    Attribute,
    Text,
}

/// A byte range of source text and the colour it is drawn with.
#[derive(Clone, Copy, PartialEq, Eq, Debug, Structural)]
pub struct HighlightSpan {
    pub start: usize,
    pub end: usize,
    pub color: SyntaxColor,
}


/// The part of a path after its last `.`, or the whole path without one
/// (the first piece of `rsplit('.')`).
pub open spec fn last_segment(p: Seq<char>) -> Seq<char>
    decreases p.len(),
{
    if p.len() == 0 {
        p
    } else if p.last() == '.' {
        Seq::empty()
    } else {
        last_segment(p.drop_last()).push(p.last())
    }
}

/// The highlighter language for an extension.
pub open spec fn language_for(ext: Seq<char>) -> Option<Seq<char>> {
    if ext == "rs"@ || ext == "toml"@ {
        Some("rust"@)
    } else if ext == "json"@ {
        Some("json"@)
    } else if ext == "py"@ || ext == "pyi"@ {
        Some("python"@)
    } else if ext == "js"@ || ext == "mjs"@ || ext == "cjs"@ {
        Some("javascript"@)
    } else if ext == "jsx"@ {
        Some("jsx"@)
    } else if ext == "ts"@ || ext == "mts"@ || ext == "cts"@ {
        Some("typescript"@)
    } else if ext == "tsx"@ {
        Some("tsx"@)
    } else if ext == "md"@ || ext == "mdx"@ || ext == "markdown"@ {
        Some("markdown"@)
    } else {
        None
    }
}

/// The characters `cs[from..]` spell `lit`.
fn tail_is(cs: &Vec<char>, from: usize, lit: &str) -> (r: bool)
    requires
        from <= cs.len(),
    ensures
        r == (cs@.subrange(from as int, cs@.len() as int) == lit@),
{
    let l = str_chars(lit);
    if cs.len() - from != l.len() {
        assert(cs@.subrange(from as int, cs@.len() as int).len() != lit@.len());
        return false;
    }
    let mut i: usize = 0;
    while i < l.len()
        invariant
            l@ == lit@,
            from <= cs.len(),
            cs.len() - from == l.len(),
            0 <= i <= l.len(),
            forall|k: int| 0 <= k < i ==> cs@[from + k] == l@[k],
        decreases l.len() - i,
    {
        if cs[from + i] != l[i] {
            assert(cs@.subrange(from as int, cs@.len() as int)[i as int] != lit@[i as int]);
            return false;
        }
        i += 1;
    }
    assert(cs@.subrange(from as int, cs@.len() as int) =~= lit@);
    true
}

/// The index just after the last `.` of `cs`, or 0.
proof fn lemma_last_segment(p: Seq<char>, k: int)
    requires
        0 <= k <= p.len(),
        k == 0 || p[k - 1] == '.',
        forall|j: int| k <= j < p.len() ==> p[j] != '.',
    ensures
        last_segment(p) == p.subrange(k, p.len() as int),
    decreases p.len(),
{
    if p.len() == k {
        if k > 0 {
            assert(p.last() == p[k - 1]);
        }
        assert(p.subrange(k, p.len() as int) =~= Seq::<char>::empty());
        if k == 0 {
            assert(p =~= Seq::<char>::empty());
        }
    } else {
        let q = p.drop_last();
        assert forall|j: int| k <= j < q.len() implies q[j] != '.' by {
            assert(q[j] == p[j]);
        }
        if k > 0 {
            assert(q[k - 1] == p[k - 1]);
        }
        lemma_last_segment(q, k);
        assert(p.last() == p[p.len() - 1]);
        assert(q.subrange(k, q.len() as int).push(p.last()) =~= p.subrange(k, p.len() as int));
    }
}

/// The language table: a path is highlighted by the text after its last
/// `.` (the whole path when it has none): Rust for `rs` and `toml`, JSON for
/// `json`, Python for `py` and `pyi`, JavaScript for `js`, `mjs` and `cjs`,
/// JSX for `jsx`, TypeScript for `ts`, `mts` and `cts`, TSX for `tsx`,
/// Markdown for `md`, `mdx` and `markdown`.
pub proof fn lemma_language_table(path: Seq<char>, k: int)
    requires
        0 <= k <= path.len(),
        k == 0 || path[k - 1] == '.',
        forall|j: int| k <= j < path.len() ==> path[j] != '.',
    ensures
        ({
            let ext = path.subrange(k, path.len() as int);
            let lang = language_for(last_segment(path));
            &&& (ext == "rs"@ || ext == "toml"@) ==> lang == Some("rust"@)
            &&& ext == "json"@ ==> lang == Some("json"@)
            &&& (ext == "py"@ || ext == "pyi"@) ==> lang == Some("python"@)
            &&& (ext == "js"@ || ext == "mjs"@ || ext == "cjs"@) ==> lang == Some("javascript"@)
            &&& ext == "jsx"@ ==> lang == Some("jsx"@)
            &&& (ext == "ts"@ || ext == "mts"@ || ext == "cts"@) ==> lang == Some("typescript"@)
            &&& ext == "tsx"@ ==> lang == Some("tsx"@)
            &&& (ext == "md"@ || ext == "mdx"@ || ext == "markdown"@) ==> lang == Some("markdown"@)
        }),
{
    lemma_last_segment(path, k);
    let ext = path.subrange(k, path.len() as int);
    reveal_strlit("rs");
    reveal_strlit("toml");
    reveal_strlit("json");
    reveal_strlit("py");
    reveal_strlit("pyi");
    reveal_strlit("js");
    reveal_strlit("mjs");
    reveal_strlit("cjs");
    reveal_strlit("jsx");
    reveal_strlit("ts");
    reveal_strlit("mts");
    reveal_strlit("cts");
    reveal_strlit("tsx");
    reveal_strlit("md");
    reveal_strlit("mdx");
    reveal_strlit("markdown");
    if ext == "rs"@ {
        assert(ext.len() == 2 && ext[0] == 'r' && ext[1] == 's');
    }
    if ext == "toml"@ {
        assert(ext.len() == 4 && ext[0] == 't' && ext[1] == 'o' && ext[2] == 'm' && ext[3] == 'l');
    }
    if ext == "json"@ {
        assert(ext.len() == 4 && ext[0] == 'j' && ext[1] == 's' && ext[2] == 'o' && ext[3] == 'n');
    }
    if ext == "py"@ {
        assert(ext.len() == 2 && ext[0] == 'p' && ext[1] == 'y');
    }
    if ext == "pyi"@ {
        assert(ext.len() == 3 && ext[0] == 'p' && ext[1] == 'y' && ext[2] == 'i');
    }
    if ext == "js"@ {
        assert(ext.len() == 2 && ext[0] == 'j' && ext[1] == 's');
    }
    if ext == "mjs"@ {
        assert(ext.len() == 3 && ext[0] == 'm' && ext[1] == 'j' && ext[2] == 's');
    }
    if ext == "cjs"@ {
        assert(ext.len() == 3 && ext[0] == 'c' && ext[1] == 'j' && ext[2] == 's');
    }
    if ext == "jsx"@ {
        assert(ext.len() == 3 && ext[0] == 'j' && ext[1] == 's' && ext[2] == 'x');
    }
    if ext == "ts"@ {
        assert(ext.len() == 2 && ext[0] == 't' && ext[1] == 's');
    }
    if ext == "mts"@ {
        assert(ext.len() == 3 && ext[0] == 'm' && ext[1] == 't' && ext[2] == 's');
    }
    if ext == "cts"@ {
        assert(ext.len() == 3 && ext[0] == 'c' && ext[1] == 't' && ext[2] == 's');
    }
    if ext == "tsx"@ {
        assert(ext.len() == 3 && ext[0] == 't' && ext[1] == 's' && ext[2] == 'x');
    }
    if ext == "md"@ {
        assert(ext.len() == 2 && ext[0] == 'm' && ext[1] == 'd');
    }
    if ext == "mdx"@ {
        assert(ext.len() == 3 && ext[0] == 'm' && ext[1] == 'd' && ext[2] == 'x');
    }
    if ext == "markdown"@ {
        assert(ext.len() == 8 && ext[0] == 'm' && ext[1] == 'a' && ext[2] == 'r' && ext[3] == 'k' && ext[4] == 'd' && ext[5] == 'o' && ext[6] == 'w' && ext[7] == 'n');
    }
}

/// The highlighter language of a path, from its extension.
pub fn detect_language(path: &str) -> (r: Option<&'static str>)
    ensures
        match r {
            Some(l) => language_for(last_segment(path@)) == Some(l@),
            None => language_for(last_segment(path@)) is None,
        },
{
    let cs = str_chars(path);
    let mut k = cs.len();
    while k > 0 && cs[k - 1] != '.'
        invariant
            0 <= k <= cs.len(),
            cs@ == path@,
            forall|j: int| k <= j < cs.len() ==> cs@[j] != '.',
        decreases k,
    {
        k -= 1;
    }
    proof {
        lemma_last_segment(cs@, k as int);
    }
    if tail_is(&cs, k, "rs") || tail_is(&cs, k, "toml") {
        Some("rust")
    } else if tail_is(&cs, k, "json") {
        Some("json")
    } else if tail_is(&cs, k, "py") || tail_is(&cs, k, "pyi") {
        Some("python")
    } else if tail_is(&cs, k, "js") || tail_is(&cs, k, "mjs") || tail_is(&cs, k, "cjs") {
        Some("javascript")
    } else if tail_is(&cs, k, "jsx") {
        Some("jsx")
    } else if tail_is(&cs, k, "ts") || tail_is(&cs, k, "mts") || tail_is(&cs, k, "cts") {
        Some("typescript")
    } else if tail_is(&cs, k, "tsx") {
        Some("tsx")
    } else if tail_is(&cs, k, "md") || tail_is(&cs, k, "mdx") || tail_is(&cs, k, "markdown") {
        Some("markdown")
    } else {
        None
    }
}

/// The colour class of highlight name number `index` (in the order the
/// highlighter is configured with, [`HIGHLIGHT_NAMES`]).
pub open spec fn color_for_index(index: int) -> SyntaxColor {
    if index == 1 {
        SyntaxColor::Comment
    } else if index == 8 {
        SyntaxColor::Keyword
    } else if index == 16 || index == 17 {
        SyntaxColor::Str
    } else if index == 10 || index == 2 || index == 3 {
        SyntaxColor::Number
    } else if index == 5 || index == 6 || index == 7 {
        SyntaxColor::Function
    } else if index == 19 || index == 20 || index == 4 {
        SyntaxColor::Type
    } else if index == 21 || index == 23 {
        SyntaxColor::Variable
    } else if index == 22 {
        SyntaxColor::VariableBuiltin
    } else if index == 11 {
        SyntaxColor::Operator
    } else if index == 13 || index == 14 || index == 15 {
        SyntaxColor::Punctuation
    } else if index == 12 || index == 9 {
        SyntaxColor::Property
    } else if index == 0 || index == 18 {
        SyntaxColor::Attribute
    } else {
        SyntaxColor::Text
    }
}

/// The highlight names the highlighter recognizes, in index order.
pub const HIGHLIGHT_NAMES: [&'static str; 24] = [
    "attribute",
    "comment",
    "constant",
    "constant.builtin",
    "constructor",
    "function",
    "function.builtin",
    "function.macro",
    "keyword",
    "label",
    "number",
    "operator",
    "property",
    "punctuation",
    "punctuation.bracket",
    "punctuation.delimiter",
    "string",
    "string.special",
    "tag",
    "type",
    "type.builtin",
    "variable",
    "variable.builtin",
    "variable.parameter",
];

/// The colour class of highlight name number `index`.
pub fn highlight_color(index: usize) -> (c: SyntaxColor)
    ensures
        c == color_for_index(index as int),
{
    if index == 1 {
        SyntaxColor::Comment
    } else if index == 8 {
        SyntaxColor::Keyword
    } else if index == 16 || index == 17 {
        SyntaxColor::Str
    } else if index == 10 || index == 2 || index == 3 {
        SyntaxColor::Number
    } else if index == 5 || index == 6 || index == 7 {
        SyntaxColor::Function
    } else if index == 19 || index == 20 || index == 4 {
        SyntaxColor::Type
    } else if index == 21 || index == 23 {
        SyntaxColor::Variable
    } else if index == 22 {
        SyntaxColor::VariableBuiltin
    } else if index == 11 {
        SyntaxColor::Operator
    } else if index == 13 || index == 14 || index == 15 {
        SyntaxColor::Punctuation
    } else if index == 12 || index == 9 {
        SyntaxColor::Property
    } else if index == 0 || index == 18 {
        SyntaxColor::Attribute
    } else {
        SyntaxColor::Text
    }
}

/// A highlighter event: a stretch of source, the start of a highlight
/// (by name index), its end, or a failure.
#[derive(Clone, Copy, PartialEq, Eq, Debug, Structural)]
pub enum HlEvent {
    Source { start: usize, end: usize },
    Start(usize),
    End,
    Failed,
}

/// The spans a run of highlighter events describes: each stretch of
/// source inside a highlight, with its colour; stretches outside any
/// highlight are left out, and a failure ends the run.
pub open spec fn spans_of(ev: Seq<HlEvent>, i: int, cur: Option<SyntaxColor>) -> Seq<HighlightSpan>
    decreases ev.len() - i,
{
    if i < 0 || i >= ev.len() {
        Seq::empty()
    } else {
        match ev[i] {
            HlEvent::Source { start, end } => {
                let rest = spans_of(ev, i + 1, cur);
                match cur {
                    Some(c) => seq![HighlightSpan { start, end, color: c }] + rest,
                    None => rest,
                }
            },
            HlEvent::Start(h) => spans_of(ev, i + 1, Some(color_for_index(h as int))),
            HlEvent::End => spans_of(ev, i + 1, None),
            HlEvent::Failed => Seq::empty(),
        }
    }
}

/// The spans of a run of highlighter events (see [`spans_of`]).
pub fn spans_from_events(ev: &Vec<HlEvent>) -> (r: Vec<HighlightSpan>)
    ensures
        r@ == spans_of(ev@, 0, None),
{
    let mut r: Vec<HighlightSpan> = Vec::new();
    let mut cur: Option<SyntaxColor> = None;
    let mut i: usize = 0;
    assert(r@ + spans_of(ev@, 0, None) =~= spans_of(ev@, 0, None));
    while i < ev.len()
        invariant
            0 <= i <= ev.len(),
            r@ + spans_of(ev@, i as int, cur) == spans_of(ev@, 0, None),
        decreases ev.len() - i,
    {
        let ghost before = r@;
        match ev[i] {
            HlEvent::Source { start, end } => {
                match cur {
                    Some(c) => {
                        r.push(HighlightSpan { start, end, color: c });
                        assert(r@ + spans_of(ev@, i + 1, cur) =~= before + spans_of(ev@, i as int, cur));
                    },
                    None => {},
                }
            },
            HlEvent::Start(h) => {
                cur = Some(highlight_color(h));
            },
            HlEvent::End => {
                cur = None;
            },
            HlEvent::Failed => {
                assert(r@ =~= r@ + spans_of(ev@, i as int, cur));
                return r;
            },
        }
        i += 1;
    }
    assert(r@ =~= r@ + spans_of(ev@, i as int, cur));
    r
}


/// A language the highlighter knows.
#[derive(Clone, Copy, PartialEq, Eq, Debug, Structural)]
pub enum Lang {
    Rust,
    Json,
    Python,
    Javascript,
    Jsx,
    Typescript,
    Tsx,
    Markdown,
}

/// The language a name (as `detect_language` gives it) stands for.
pub open spec fn lang_named(name: Seq<char>) -> Option<Lang> {
    if name == "rust"@ {
        Some(Lang::Rust)
    } else if name == "json"@ {
        Some(Lang::Json)
    } else if name == "python"@ {
        Some(Lang::Python)
    } else if name == "javascript"@ {
        Some(Lang::Javascript)
    } else if name == "jsx"@ {
        Some(Lang::Jsx)
    } else if name == "typescript"@ {
        Some(Lang::Typescript)
    } else if name == "tsx"@ {
        Some(Lang::Tsx)
    } else if name == "markdown"@ {
        Some(Lang::Markdown)
    } else {
        None
    }
}

/// The language a name stands for.
pub fn lang_of(name: &str) -> (r: Option<Lang>)
    ensures
        r == lang_named(name@),
{
    if str_eq(name, "rust") {
        Some(Lang::Rust)
    } else if str_eq(name, "json") {
        Some(Lang::Json)
    } else if str_eq(name, "python") {
        Some(Lang::Python)
    } else if str_eq(name, "javascript") {
        Some(Lang::Javascript)
    } else if str_eq(name, "jsx") {
        Some(Lang::Jsx)
    } else if str_eq(name, "typescript") {
        Some(Lang::Typescript)
    } else if str_eq(name, "tsx") {
        Some(Lang::Tsx)
    } else if str_eq(name, "markdown") {
        Some(Lang::Markdown)
    } else {
        None
    }
}

/// A highlight query shipped with a grammar crate.
#[derive(Clone, Copy, PartialEq, Eq, Debug, Structural)]
pub enum QueryFile {
    Rust,
    Json,
    Python,
    Javascript,
    JsxExtra,
    TypescriptExtra,
    MarkdownBlock,
}

/// The grammar crate whose language a configuration is compiled for.
#[derive(Clone, Copy, PartialEq, Eq, Debug, Structural)]
pub enum GrammarId {
    Rust,
    Json,
    Python,
    Javascript,
    Typescript,
    Tsx,
    Markdown,
}

/// The grammar a language is highlighted with: JSX uses JavaScript's.
pub open spec fn grammar_for(l: Lang) -> GrammarId {
    match l {
        Lang::Rust => GrammarId::Rust,
        Lang::Json => GrammarId::Json,
        Lang::Python => GrammarId::Python,
        Lang::Javascript | Lang::Jsx => GrammarId::Javascript,
        Lang::Typescript => GrammarId::Typescript,
        Lang::Tsx => GrammarId::Tsx,
        Lang::Markdown => GrammarId::Markdown,
    }
}

/// The highlight queries of a language, joined by line feeds in this
/// order: JSX adds the JSX query to the JavaScript one, TypeScript and TSX
/// add theirs to it.
pub open spec fn query_files(l: Lang) -> Seq<QueryFile> {
    match l {
        Lang::Rust => seq![QueryFile::Rust],
        Lang::Json => seq![QueryFile::Json],
        Lang::Python => seq![QueryFile::Python],
        Lang::Javascript => seq![QueryFile::Javascript],
        Lang::Jsx => seq![QueryFile::Javascript, QueryFile::JsxExtra],
        Lang::Typescript | Lang::Tsx => seq![QueryFile::Javascript, QueryFile::TypescriptExtra],
        Lang::Markdown => seq![QueryFile::MarkdownBlock],
    }
}

/// A grammar crate's highlight query: which one it is, and its text.
struct QueryText {
    file: QueryFile,
    text: &'static str,
}

/// `tree_sitter_rust::HIGHLIGHTS_QUERY`, paired with the id [`QueryFile::Rust`]; nothing is
/// stated of the text.
#[verifier::external_body]
fn rust_highlights_query() -> (r: QueryText)
    ensures
        r.file == QueryFile::Rust,
{
    QueryText { file: QueryFile::Rust, text: tree_sitter_rust::HIGHLIGHTS_QUERY }
}

/// `tree_sitter_json::HIGHLIGHTS_QUERY`, paired with the id [`QueryFile::Json`]; nothing is
/// stated of the text.
#[verifier::external_body]
fn json_highlights_query() -> (r: QueryText)
    ensures
        r.file == QueryFile::Json,
{
    QueryText { file: QueryFile::Json, text: tree_sitter_json::HIGHLIGHTS_QUERY }
}

/// `tree_sitter_python::HIGHLIGHTS_QUERY`, paired with the id [`QueryFile::Python`]; nothing is
/// stated of the text.
#[verifier::external_body]
fn python_highlights_query() -> (r: QueryText)
    ensures
        r.file == QueryFile::Python,
{
    QueryText { file: QueryFile::Python, text: tree_sitter_python::HIGHLIGHTS_QUERY }
}

/// `tree_sitter_javascript::HIGHLIGHT_QUERY`, paired with the id [`QueryFile::Javascript`]; nothing is
/// stated of the text.
#[verifier::external_body]
fn javascript_highlight_query() -> (r: QueryText)
    ensures
        r.file == QueryFile::Javascript,
{
    QueryText { file: QueryFile::Javascript, text: tree_sitter_javascript::HIGHLIGHT_QUERY }
}

/// `tree_sitter_javascript::JSX_HIGHLIGHT_QUERY`, paired with the id [`QueryFile::JsxExtra`]; nothing is
/// stated of the text.
#[verifier::external_body]
fn jsx_highlight_query() -> (r: QueryText)
    ensures
        r.file == QueryFile::JsxExtra,
{
    QueryText { file: QueryFile::JsxExtra, text: tree_sitter_javascript::JSX_HIGHLIGHT_QUERY }
}

/// `tree_sitter_typescript::HIGHLIGHTS_QUERY`, paired with the id [`QueryFile::TypescriptExtra`]; nothing is
/// stated of the text.
#[verifier::external_body]
fn typescript_highlights_query() -> (r: QueryText)
    ensures
        r.file == QueryFile::TypescriptExtra,
{
    QueryText { file: QueryFile::TypescriptExtra, text: tree_sitter_typescript::HIGHLIGHTS_QUERY }
}

/// `tree_sitter_md::HIGHLIGHT_QUERY_BLOCK`, paired with the id [`QueryFile::MarkdownBlock`]; nothing is
/// stated of the text.
#[verifier::external_body]
fn markdown_block_query() -> (r: QueryText)
    ensures
        r.file == QueryFile::MarkdownBlock,
{
    QueryText { file: QueryFile::MarkdownBlock, text: tree_sitter_md::HIGHLIGHT_QUERY_BLOCK }
}

/// A grammar crate's highlight query.
fn query_text(q: QueryFile) -> (r: QueryText)
    ensures
        r.file == q,
{
    match q {
        QueryFile::Rust => rust_highlights_query(),
        QueryFile::Json => json_highlights_query(),
        QueryFile::Python => python_highlights_query(),
        QueryFile::Javascript => javascript_highlight_query(),
        QueryFile::JsxExtra => jsx_highlight_query(),
        QueryFile::TypescriptExtra => typescript_highlights_query(),
        QueryFile::MarkdownBlock => markdown_block_query(),
    }
}

/// A highlight query: the queries it joins, and its text (those queries'
/// texts joined by line feeds, as [`language_query`] builds it).
struct Query {
    files: Vec<QueryFile>,
    text: String,
}

/// The highlight query for a language (see [`query_files`]).
fn language_query(l: Lang) -> (r: Query)
    ensures
        r.files@ == query_files(l),
{
    let (base, extra) = match l {
        Lang::Rust => (QueryFile::Rust, None),
        Lang::Json => (QueryFile::Json, None),
        Lang::Python => (QueryFile::Python, None),
        Lang::Javascript => (QueryFile::Javascript, None),
        Lang::Jsx => (QueryFile::Javascript, Some(QueryFile::JsxExtra)),
        Lang::Typescript | Lang::Tsx => (QueryFile::Javascript, Some(QueryFile::TypescriptExtra)),
        Lang::Markdown => (QueryFile::MarkdownBlock, None),
    };
    let first = query_text(base);
    let mut text = first.text.to_owned();
    let mut files: Vec<QueryFile> = Vec::new();
    files.push(first.file);
    match extra {
        Some(e) => {
            let more = query_text(e);
            text.append("\n");
            text.append(more.text);
            files.push(more.file);
        },
        None => {},
    }
    assert(files@ =~= query_files(l));
    Query { files, text }
}

#[verifier::external_type_specification]
#[verifier::external_body]
pub struct ExLanguage(tree_sitter::Language);

#[verifier::external_type_specification]
#[verifier::external_body]
pub struct ExHighlightConfiguration(tree_sitter_highlight::HighlightConfiguration);

#[verifier::external_type_specification]
#[verifier::external_body]
pub struct ExHighlighter(tree_sitter_highlight::Highlighter);

/// A grammar and which crate's it is.
struct Grammar {
    id: GrammarId,
    language: tree_sitter::Language,
}

/// `tree_sitter_rust::LANGUAGE` as a `tree_sitter::Language`, paired with the id
/// [`GrammarId::Rust`].
#[verifier::external_body]
fn rust_grammar() -> (g: Grammar)
    ensures
        g.id == GrammarId::Rust,
{
    Grammar { id: GrammarId::Rust, language: tree_sitter_rust::LANGUAGE.into() }
}

/// `tree_sitter_json::LANGUAGE` as a `tree_sitter::Language`, paired with the id
/// [`GrammarId::Json`].
#[verifier::external_body]
fn json_grammar() -> (g: Grammar)
    ensures
        g.id == GrammarId::Json,
{
    Grammar { id: GrammarId::Json, language: tree_sitter_json::LANGUAGE.into() }
}

/// `tree_sitter_python::LANGUAGE` as a `tree_sitter::Language`, paired with the id
/// [`GrammarId::Python`].
#[verifier::external_body]
fn python_grammar() -> (g: Grammar)
    ensures
        g.id == GrammarId::Python,
{
    Grammar { id: GrammarId::Python, language: tree_sitter_python::LANGUAGE.into() }
}

/// `tree_sitter_javascript::LANGUAGE` as a `tree_sitter::Language`, paired with the id
/// [`GrammarId::Javascript`].
#[verifier::external_body]
fn javascript_grammar() -> (g: Grammar)
    ensures
        g.id == GrammarId::Javascript,
{
    Grammar { id: GrammarId::Javascript, language: tree_sitter_javascript::LANGUAGE.into() }
}

/// `tree_sitter_typescript::LANGUAGE_TYPESCRIPT` as a `tree_sitter::Language`, paired with the id
/// [`GrammarId::Typescript`].
#[verifier::external_body]
fn typescript_grammar() -> (g: Grammar)
    ensures
        g.id == GrammarId::Typescript,
{
    Grammar { id: GrammarId::Typescript, language: tree_sitter_typescript::LANGUAGE_TYPESCRIPT.into() }
}

/// `tree_sitter_typescript::LANGUAGE_TSX` as a `tree_sitter::Language`, paired with the id
/// [`GrammarId::Tsx`].
#[verifier::external_body]
fn tsx_grammar() -> (g: Grammar)
    ensures
        g.id == GrammarId::Tsx,
{
    Grammar { id: GrammarId::Tsx, language: tree_sitter_typescript::LANGUAGE_TSX.into() }
}

/// `tree_sitter_md::LANGUAGE` as a `tree_sitter::Language`, paired with the id
/// [`GrammarId::Markdown`].
#[verifier::external_body]
fn markdown_grammar() -> (g: Grammar)
    ensures
        g.id == GrammarId::Markdown,
{
    Grammar { id: GrammarId::Markdown, language: tree_sitter_md::LANGUAGE.into() }
}

/// The grammar a language is highlighted with (see [`grammar_for`]).
fn grammar(l: Lang) -> (g: Grammar)
    ensures
        g.id == grammar_for(l),
{
    match l {
        Lang::Rust => rust_grammar(),
        Lang::Json => json_grammar(),
        Lang::Python => python_grammar(),
        Lang::Javascript | Lang::Jsx => javascript_grammar(),
        Lang::Typescript => typescript_grammar(),
        Lang::Tsx => tsx_grammar(),
        Lang::Markdown => markdown_grammar(),
    }
}

/// Whether the highlight queries `files`, joined by line feeds, compile
/// for the grammar `g`.
pub uninterp spec fn query_compiles(g: GrammarId, files: Seq<QueryFile>) -> bool;

/// The highlighter's events for `source`, with a configuration compiled
/// from the grammar `g` and the highlight queries `files` and set to report
/// the highlight names `names` by index; `None` when highlighting cannot
/// start.
pub uninterp spec fn highlight_events(
    g: GrammarId,
    files: Seq<QueryFile>,
    names: Seq<Seq<char>>,
    source: Seq<u8>,
) -> Option<Seq<HlEvent>>;

/// The texts of a list of highlight names.
pub open spec fn name_texts(names: Seq<&str>) -> Seq<Seq<char>> {
    names.map_values(|n: &str| n@)
}

/// A compiled highlight configuration, with the grammar and queries it was
/// compiled from and the highlight names it is set to report, once set.
struct LangConfig {
    grammar: GrammarId,
    files: Vec<QueryFile>,
    names: Ghost<Option<Seq<Seq<char>>>>,
    inner: tree_sitter_highlight::HighlightConfiguration,
}

/// Compiles a highlight query for a grammar.
///
/// Calls `HighlightConfiguration::new` with no injection or locals query.
/// The grammar and the query are this module's values, whose language and
/// text are those their ids and query list name; whether the query compiles
/// is named [`query_compiles`], and nothing else is stated of the
/// configuration.
#[verifier::external_body]
fn new_config(g: Grammar, q: &Query) -> (r: Option<LangConfig>)
    ensures
        (r is Some) <==> query_compiles(g.id, q.files@),
        r matches Some(c) ==> c.grammar == g.id && c.files@ == q.files@ && c.names@ is None,
{
    match tree_sitter_highlight::HighlightConfiguration::new(g.language, "highlight", q.text.as_str(), "", "") {
        Ok(inner) => Some(LangConfig { grammar: g.id, files: q.files.clone(), names: Ghost(None), inner }),
        Err(_) => None,
    }
}

/// Sets a configuration to report the highlight names `names`, by index.
///
/// Calls `HighlightConfiguration::configure`; the configuration keeps its
/// grammar and queries.
#[verifier::external_body]
fn configure(config: &mut LangConfig, names: &[&'static str; 24])
    ensures
        final(config).grammar == old(config).grammar,
        final(config).files@ == old(config).files@,
        final(config).names@ == Some(name_texts(names@)),
{
    config.inner.configure(names);
}

/// A new highlighter.
///
/// Calls `Highlighter::new`.
#[verifier::external_body]
fn new_highlighter() -> tree_sitter_highlight::Highlighter {
    tree_sitter_highlight::Highlighter::new()
}

/// Runs the highlighter over source bytes, giving its events.
///
/// Calls `Highlighter::highlight` (no injections, no cancellation) and
/// converts each event; `None` when highlighting cannot start. The events
/// are named [`highlight_events`] of the configuration's grammar and
/// queries and the source.
#[verifier::external_body]
fn run_highlighter(
    h: &mut tree_sitter_highlight::Highlighter,
    config: &LangConfig,
    source: &[u8],
) -> (r: Option<Vec<HlEvent>>)
    requires
        config.names@ is Some,
    ensures
        match r {
            Some(v) => highlight_events(config.grammar, config.files@, config.names@->0, source@) == Some(v@),
            None => highlight_events(config.grammar, config.files@, config.names@->0, source@) is None,
        },
{
    let events = h.highlight(&config.inner, source, None, None, |_| None).ok()?;
    Some(events.map(|e| match e {
        Ok(tree_sitter_highlight::HighlightEvent::Source { start, end }) => HlEvent::Source { start, end },
        Ok(tree_sitter_highlight::HighlightEvent::HighlightStart(x)) => HlEvent::Start(x.0),
        Ok(tree_sitter_highlight::HighlightEvent::HighlightEnd) => HlEvent::End,
        Err(_) => HlEvent::Failed,
    }).collect())
}

/// The spans `source` gets for the language `l`: those of the
/// highlighter's events with `l`'s grammar and queries, reporting
/// [`HIGHLIGHT_NAMES`]; none when the queries do not compile or
/// highlighting cannot start.
pub open spec fn highlighted_with(l: Lang, source: Seq<u8>) -> Seq<HighlightSpan> {
    if query_compiles(grammar_for(l), query_files(l)) {
        match highlight_events(grammar_for(l), query_files(l), name_texts(HIGHLIGHT_NAMES@), source) {
            Some(ev) => spans_of(ev, 0, None),
            None => seq![],
        }
    } else {
        seq![]
    }
}

/// The spans the text `source` gets for the language named `lang`: none
/// for an unknown language, else those of [`highlighted_with`].
pub open spec fn spans_for(source: Seq<char>, lang: Seq<char>) -> Seq<HighlightSpan> {
    match lang_named(lang) {
        Some(l) => highlighted_with(l, encode_utf8(source)),
        None => seq![],
    }
}

/// Syntax highlight spans of `source` for the language named `lang`
/// (none for an unknown language or when highlighting cannot start): the
/// spans of the highlighter's events (see [`highlighted_with`]).
pub fn highlight_source(source: &str, lang: &str) -> (r: Vec<HighlightSpan>)
    ensures
        lang_named(lang@) is None ==> r@.len() == 0,
        lang_named(lang@) matches Some(l) ==> r@ == highlighted_with(l, source.spec_bytes()),
        r@ == spans_for(source@, lang@),
        r@.len() == 0 || exists|ev: Seq<HlEvent>| r@ == spans_of(ev, 0, None),
{
    let l = match lang_of(lang) {
        Some(l) => l,
        None => {
            return Vec::new();
        },
    };
    let query = language_query(l);
    let mut config = match new_config(grammar(l), &query) {
        Some(c) => c,
        None => {
            return Vec::new();
        },
    };
    configure(&mut config, &HIGHLIGHT_NAMES);
    let mut h = new_highlighter();
    match run_highlighter(&mut h, &config, source.as_bytes()) {
        Some(ev) => spans_from_events(&ev),
        None => Vec::new(),
    }
}

} // verus!
