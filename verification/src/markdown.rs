//! Markdown rendering for review comments: the parser's events folded into
//! display blocks (paragraphs, headings, quotes, code blocks, list items,
//! rules) with inline style spans.
use vstd::prelude::*;
use vstd::utf8::encode_utf8;
use vstd::string::StrSliceExecFns;
use crate::syntax::{HighlightSpan, SyntaxColor, highlight_source, lang_named, spans_for};
use crate::text::{decimal, push_decimal, str_eq, str_chars, unicode_ws, is_unicode_ws};

verus! {

/// A markdown parser event, as plain values.
pub enum MdEvent {
    StartParagraph,
    /// A heading of level 1 to 6.
    StartHeading(u8),
    StartBlockQuote,
    /// A code block, with the info string of a fenced one.
    StartCodeBlock(Option<String>),
    /// A list, with the first number of an ordered one.
    StartList(Option<u64>),
    StartItem,
    StartEmphasis,
    StartStrong,
    StartStrikethrough,
    StartLink,
    /// Any other opening tag.
    StartOther,
    EndParagraph,
    EndHeading,
    EndBlockQuote,
    EndCodeBlock,
    /// The end of a list, and whether it was ordered.
    EndList(bool),
    EndItem,
    EndEmphasis,
    EndStrong,
    EndStrikethrough,
    EndLink,
    EndOther,
    Text(String),
    Code(String),
    SoftBreak,
    HardBreak,
    Rule,
    /// Any other event.
    Other,
}

/// A markdown parser event as values.
pub enum MdEventView {
    StartParagraph,
    StartHeading(u8),
    StartBlockQuote,
    StartCodeBlock(Option<Seq<char>>),
    StartList(Option<u64>),
    StartItem,
    StartEmphasis,
    StartStrong,
    StartStrikethrough,
    StartLink,
    StartOther,
    EndParagraph,
    EndHeading,
    EndBlockQuote,
    EndCodeBlock,
    EndList(bool),
    EndItem,
    EndEmphasis,
    EndStrong,
    EndStrikethrough,
    EndLink,
    EndOther,
    Text(Seq<char>),
    Code(Seq<char>),
    SoftBreak,
    HardBreak,
    Rule,
    Other,
}

impl View for MdEvent {
    type V = MdEventView;

    open spec fn view(&self) -> MdEventView {
        match self {
            MdEvent::StartParagraph => MdEventView::StartParagraph,
            MdEvent::StartHeading(l) => MdEventView::StartHeading(*l),
            MdEvent::StartBlockQuote => MdEventView::StartBlockQuote,
            MdEvent::StartCodeBlock(info) => MdEventView::StartCodeBlock(
                match info {
                    Some(i) => Some(i@),
                    None => None,
                },
            ),
            MdEvent::StartList(start) => MdEventView::StartList(*start),
            MdEvent::StartItem => MdEventView::StartItem,
            MdEvent::StartEmphasis => MdEventView::StartEmphasis,
            MdEvent::StartStrong => MdEventView::StartStrong,
            MdEvent::StartStrikethrough => MdEventView::StartStrikethrough,
            MdEvent::StartLink => MdEventView::StartLink,
            MdEvent::StartOther => MdEventView::StartOther,
            MdEvent::EndParagraph => MdEventView::EndParagraph,
            MdEvent::EndHeading => MdEventView::EndHeading,
            MdEvent::EndBlockQuote => MdEventView::EndBlockQuote,
            MdEvent::EndCodeBlock => MdEventView::EndCodeBlock,
            MdEvent::EndList(ordered) => MdEventView::EndList(*ordered),
            MdEvent::EndItem => MdEventView::EndItem,
            MdEvent::EndEmphasis => MdEventView::EndEmphasis,
            MdEvent::EndStrong => MdEventView::EndStrong,
            MdEvent::EndStrikethrough => MdEventView::EndStrikethrough,
            MdEvent::EndLink => MdEventView::EndLink,
            MdEvent::EndOther => MdEventView::EndOther,
            MdEvent::Text(t) => MdEventView::Text(t@),
            MdEvent::Code(t) => MdEventView::Code(t@),
            MdEvent::SoftBreak => MdEventView::SoftBreak,
            MdEvent::HardBreak => MdEventView::HardBreak,
            MdEvent::Rule => MdEventView::Rule,
            MdEvent::Other => MdEventView::Other,
        }
    }
}

/// The inline style in effect.
#[derive(Clone, Copy, PartialEq, Eq, Debug, Structural)]
pub struct InlineStyle {
    pub bold: bool,
    pub italic: bool,
    pub strikethrough: bool,
    pub link: bool,
}

/// How a span of a line is drawn.
#[derive(Clone, Copy, PartialEq, Eq, Debug, Structural)]
pub enum SpanStyle {
    Inline(InlineStyle),
    /// Inline code.
    Code,
}

/// A styled byte range of a line.
#[derive(Clone, Copy, PartialEq, Eq, Debug, Structural)]
pub struct MdSpan {
    pub start: usize,
    pub end: usize,
    pub style: SpanStyle,
}

/// An open block.
pub enum BlockKind {
    Paragraph,
    Heading(u8),
    BlockQuote,
    /// A code block and its language tag.
    CodeBlock(Option<String>),
    /// A list and the first number of an ordered one.
    List(Option<u64>),
    ListItem,
}

/// An open block, as values.
pub enum BlockView {
    Paragraph,
    Heading(u8),
    BlockQuote,
    CodeBlock(Option<Seq<char>>),
    List(Option<u64>),
    ListItem,
}

impl View for BlockKind {
    type V = BlockView;

    open spec fn view(&self) -> BlockView {
        match self {
            BlockKind::Paragraph => BlockView::Paragraph,
            BlockKind::Heading(l) => BlockView::Heading(*l),
            BlockKind::BlockQuote => BlockView::BlockQuote,
            BlockKind::CodeBlock(l) => BlockView::CodeBlock(
                match l {
                    Some(s) => Some(s@),
                    None => None,
                },
            ),
            BlockKind::List(s) => BlockView::List(*s),
            BlockKind::ListItem => BlockView::ListItem,
        }
    }
}

/// A rendered block.
pub enum MdBlock {
    /// A line ended by a hard break.
    Line { text: String, spans: Vec<MdSpan> },
    /// A paragraph, and whether it sits in a block quote.
    Paragraph { text: String, spans: Vec<MdSpan>, quoted: bool },
    /// A heading and its level, when known.
    Heading { text: String, spans: Vec<MdSpan>, level: Option<u8> },
    /// A horizontal rule.
    Rule,
    /// A code block and the language it is highlighted as, if any.
    Code { code: String, lang: Option<String> },
    /// A list item: its nesting depth and marker (a bullet or "N.").
    ListItem { text: String, spans: Vec<MdSpan>, depth: usize, marker: String },
}

/// A rendered block, as values.
pub enum BlockOut {
    Line { text: Seq<char>, spans: Seq<MdSpan> },
    Paragraph { text: Seq<char>, spans: Seq<MdSpan>, quoted: bool },
    Heading { text: Seq<char>, spans: Seq<MdSpan>, level: Option<u8> },
    Rule,
    Code { code: Seq<char>, lang: Option<Seq<char>> },
    ListItem { text: Seq<char>, spans: Seq<MdSpan>, depth: usize, marker: Seq<char> },
}

impl View for MdBlock {
    type V = BlockOut;

    open spec fn view(&self) -> BlockOut {
        match self {
            MdBlock::Line { text, spans } => BlockOut::Line { text: text@, spans: spans@ },
            MdBlock::Paragraph { text, spans, quoted } => BlockOut::Paragraph { text: text@, spans: spans@, quoted: *quoted },
            MdBlock::Heading { text, spans, level } => BlockOut::Heading { text: text@, spans: spans@, level: *level },
            MdBlock::Rule => BlockOut::Rule,
            MdBlock::Code { code, lang } => BlockOut::Code {
                code: code@,
                lang: match lang {
                    Some(l) => Some(l@),
                    None => None,
                },
            },
            MdBlock::ListItem { text, spans, depth, marker } => BlockOut::ListItem {
                text: text@,
                spans: spans@,
                depth: *depth,
                marker: marker@,
            },
        }
    }
}

/// The rendering state.
pub struct RenderCtx {
    pub blocks: Vec<MdBlock>,
    /// The line being built.
    pub line_buf: String,
    /// Style spans of the line being built.
    pub line_spans: Vec<MdSpan>,
    pub style: InlineStyle,
    /// The open blocks, outermost first.
    pub block_stack: Vec<BlockKind>,
    /// The text of the code block being read.
    pub code_buf: String,
    /// The next number of each open ordered list.
    pub list_counter: Vec<u64>,
}

/// The rendering state, as values.
pub struct CtxView {
    pub blocks: Seq<BlockOut>,
    pub line: Seq<char>,
    pub spans: Seq<MdSpan>,
    pub style: InlineStyle,
    pub stack: Seq<BlockView>,
    pub code: Seq<char>,
    pub counters: Seq<u64>,
}

impl View for RenderCtx {
    type V = CtxView;

    open spec fn view(&self) -> CtxView {
        CtxView {
            blocks: self.blocks@.map_values(|b: MdBlock| b@),
            line: self.line_buf@,
            spans: self.line_spans@,
            style: self.style,
            stack: self.block_stack@.map_values(|b: BlockKind| b@),
            code: self.code_buf@,
            counters: self.list_counter@,
        }
    }
}

/// No inline style is on.
pub open spec fn plain_style(s: InlineStyle) -> bool {
    !s.bold && !s.italic && !s.strikethrough && !s.link
}

/// A code block is open.
pub open spec fn in_code(st: Seq<BlockView>) -> bool {
    exists|i: int| 0 <= i < st.len() && (#[trigger] st[i]) is CodeBlock
}

/// A block quote is open.
pub open spec fn in_quote(st: Seq<BlockView>) -> bool {
    exists|i: int| 0 <= i < st.len() && (#[trigger] st[i]) is BlockQuote
}

/// Lists open among the first `k` blocks.
pub open spec fn list_depth(st: Seq<BlockView>, k: int) -> nat
    decreases k,
{
    if k <= 0 {
        0
    } else {
        list_depth(st, k - 1) + if st[k - 1] is List { 1nat } else { 0nat }
    }
}

/// An ordered list is open.
pub open spec fn in_ordered(st: Seq<BlockView>) -> bool {
    exists|i: int| 0 <= i < st.len() && (#[trigger] st[i]) matches BlockView::List(Some(_))
}

/// The level of the outermost open heading.
pub open spec fn heading_level(st: Seq<BlockView>) -> Option<u8>
    decreases st.len(),
{
    if st.len() == 0 {
        None
    } else {
        match st[0] {
            BlockView::Heading(l) => Some(l),
            _ => heading_level(st.drop_first()),
        }
    }
}

/// The language tag of the outermost open code block that has one.
pub open spec fn code_lang(st: Seq<BlockView>) -> Option<Seq<char>>
    decreases st.len(),
{
    if st.len() == 0 {
        None
    } else {
        match st[0] {
            BlockView::CodeBlock(Some(l)) => Some(l),
            _ => code_lang(st.drop_first()),
        }
    }
}

/// The highlighter's name for a fence language tag.
pub open spec fn fence_language(l: Seq<char>) -> Option<Seq<char>> {
    if l == "rust"@ || l == "rs"@ {
        Some("rust"@)
    } else if l == "python"@ || l == "py"@ {
        Some("python"@)
    } else if l == "javascript"@ || l == "js"@ {
        Some("javascript"@)
    } else if l == "jsx"@ {
        Some("jsx"@)
    } else if l == "typescript"@ || l == "ts"@ {
        Some("typescript"@)
    } else if l == "tsx"@ {
        Some("tsx"@)
    } else if l == "json"@ {
        Some("json"@)
    } else if l == "markdown"@ || l == "md"@ {
        Some("markdown"@)
    } else {
        None
    }
}

/// `s` without its trailing line feeds.
pub open spec fn trim_newlines(s: Seq<char>) -> Seq<char>
    decreases s.len(),
{
    if s.len() > 0 && s.last() == '\n' {
        trim_newlines(s.drop_last())
    } else {
        s
    }
}

/// The first whitespace-separated word of `s` (empty when there is none).
pub open spec fn first_word(s: Seq<char>) -> Seq<char>
    decreases s.len(),
{
    if s.len() == 0 {
        s
    } else if unicode_ws(s[0]) {
        first_word(s.drop_first())
    } else {
        word_run(s)
    }
}

/// The characters of `s` up to its first whitespace.
pub open spec fn word_run(s: Seq<char>) -> Seq<char>
    decreases s.len(),
{
    if s.len() == 0 || unicode_ws(s[0]) {
        seq![]
    } else {
        seq![s[0]] + word_run(s.drop_first())
    }
}

/// The language tag of a fenced code block's info string: its first word,
/// none when empty.
pub open spec fn fence_tag(info: Option<Seq<char>>) -> Option<Seq<char>> {
    match info {
        Some(i) => if first_word(i).len() == 0 { None } else { Some(first_word(i)) },
        None => None,
    }
}

// ── Steps ──

/// The line is emitted with `make` when it is not empty, and cleared.
pub open spec fn flushed(c: CtxView, b: BlockOut) -> CtxView {
    if c.line.len() == 0 {
        c
    } else {
        CtxView { blocks: c.blocks.push(b), line: seq![], spans: seq![], ..c }
    }
}

pub open spec fn flush_paragraph_spec(c: CtxView) -> CtxView {
    flushed(c, BlockOut::Paragraph { text: c.line, spans: c.spans, quoted: in_quote(c.stack) })
}

pub open spec fn flush_line_spec(c: CtxView) -> CtxView {
    flushed(c, BlockOut::Line { text: c.line, spans: c.spans })
}

pub open spec fn flush_heading_spec(c: CtxView) -> CtxView {
    flushed(c, BlockOut::Heading { text: c.line, spans: c.spans, level: heading_level(c.stack) })
}

/// A list item's marker, and the counters after it: in an ordered list the
/// innermost counter's number and a dot (the counter moving on), else a
/// bullet.
pub open spec fn marker_spec(c: CtxView) -> (Seq<char>, Seq<u64>) {
    if in_ordered(c.stack) && c.counters.len() > 0 {
        let n = c.counters.last();
        (decimal(n as nat) + "."@, c.counters.update(c.counters.len() - 1, (if n == u64::MAX { 0 } else { n + 1 }) as u64))
    } else {
        ("\u{2022}"@, c.counters)
    }
}

pub open spec fn flush_list_item_spec(c: CtxView) -> CtxView {
    if c.line.len() == 0 {
        c
    } else {
        let (marker, counters) = marker_spec(c);
        CtxView {
            blocks: c.blocks.push(
                BlockOut::ListItem { text: c.line, spans: c.spans, depth: list_depth(c.stack, c.stack.len() as int) as usize, marker },
            ),
            line: seq![],
            spans: seq![],
            counters,
            ..c
        }
    }
}

pub open spec fn flush_code_block_spec(c: CtxView) -> CtxView {
    let code = trim_newlines(c.code);
    let lang = match code_lang(c.stack) {
        Some(l) => fence_language(l),
        None => None,
    };
    if code.len() == 0 {
        CtxView { code: seq![], ..c }
    } else {
        CtxView { blocks: c.blocks.push(BlockOut::Code { code, lang }), code: seq![], ..c }
    }
}

/// The kinds of open blocks, without their data.
#[derive(Clone, Copy, PartialEq, Eq, Debug, Structural)]
pub enum KindTag {
    Paragraph,
    Heading,
    BlockQuote,
    CodeBlock,
    List,
    ListItem,
}

/// An open block is of kind `t`.
pub open spec fn is_kind(t: KindTag, b: BlockView) -> bool {
    match t {
        KindTag::Paragraph => b is Paragraph,
        KindTag::Heading => b is Heading,
        KindTag::BlockQuote => b is BlockQuote,
        KindTag::CodeBlock => b is CodeBlock,
        KindTag::List => b is List,
        KindTag::ListItem => b is ListItem,
    }
}

/// The stack without its innermost block of kind `t` (unchanged without
/// one).
pub open spec fn pop_kind(st: Seq<BlockView>, t: KindTag) -> Seq<BlockView>
    decreases st.len(),
{
    if st.len() == 0 {
        st
    } else if is_kind(t, st.last()) {
        st.drop_last()
    } else {
        pop_kind(st.drop_last(), t).push(st.last())
    }
}

pub open spec fn push_text_spec(c: CtxView, t: Seq<char>) -> CtxView {
    if in_code(c.stack) {
        CtxView { code: c.code + t, ..c }
    } else {
        let start = encode_utf8(c.line).len();
        let end = encode_utf8(c.line + t).len();
        CtxView {
            line: c.line + t,
            spans: if !plain_style(c.style) && start < end {
                c.spans.push(MdSpan { start: start as usize, end: end as usize, style: SpanStyle::Inline(c.style) })
            } else {
                c.spans
            },
            ..c
        }
    }
}

pub open spec fn push_code_spec(c: CtxView, t: Seq<char>) -> CtxView {
    let start = encode_utf8(c.line).len();
    let end = encode_utf8(c.line + t).len();
    CtxView {
        line: c.line + t,
        spans: if start < end {
            c.spans.push(MdSpan { start: start as usize, end: end as usize, style: SpanStyle::Code })
        } else {
            c.spans
        },
        ..c
    }
}

/// The state after an event.
pub open spec fn step_spec(c: CtxView, e: MdEventView) -> CtxView {
    match e {
        MdEventView::StartParagraph => CtxView { stack: c.stack.push(BlockView::Paragraph), ..c },
        MdEventView::StartHeading(l) => CtxView { stack: c.stack.push(BlockView::Heading(l)), ..c },
        MdEventView::StartBlockQuote => {
            let f = flush_paragraph_spec(c);
            CtxView { stack: f.stack.push(BlockView::BlockQuote), ..f }
        },
        MdEventView::StartCodeBlock(info) => {
            let f = flush_paragraph_spec(c);
            let tag = fence_tag(info);
            CtxView { code: seq![], stack: f.stack.push(BlockView::CodeBlock(tag)), ..f }
        },
        MdEventView::StartList(start) => {
            let f = flush_paragraph_spec(c);
            CtxView {
                counters: match start {
                    Some(n) => f.counters.push(n),
                    None => f.counters,
                },
                stack: f.stack.push(BlockView::List(start)),
                ..f
            }
        },
        MdEventView::StartItem => CtxView { stack: c.stack.push(BlockView::ListItem), ..c },
        MdEventView::StartEmphasis => CtxView { style: InlineStyle { italic: true, ..c.style }, ..c },
        MdEventView::StartStrong => CtxView { style: InlineStyle { bold: true, ..c.style }, ..c },
        MdEventView::StartStrikethrough => CtxView { style: InlineStyle { strikethrough: true, ..c.style }, ..c },
        MdEventView::StartLink => CtxView { style: InlineStyle { link: true, ..c.style }, ..c },
        MdEventView::StartOther => c,
        MdEventView::EndParagraph => {
            let f = flush_paragraph_spec(c);
            CtxView { stack: pop_kind(f.stack, KindTag::Paragraph), ..f }
        },
        MdEventView::EndHeading => {
            let f = flush_heading_spec(c);
            CtxView { stack: pop_kind(f.stack, KindTag::Heading), ..f }
        },
        MdEventView::EndBlockQuote => {
            let f = flush_paragraph_spec(c);
            CtxView { stack: pop_kind(f.stack, KindTag::BlockQuote), ..f }
        },
        MdEventView::EndCodeBlock => {
            let f = flush_code_block_spec(c);
            CtxView { stack: pop_kind(f.stack, KindTag::CodeBlock), ..f }
        },
        MdEventView::EndList(ordered) => CtxView {
            counters: if ordered && c.counters.len() > 0 { c.counters.drop_last() } else { c.counters },
            stack: pop_kind(c.stack, KindTag::List),
            ..c
        },
        MdEventView::EndItem => {
            let f = flush_list_item_spec(c);
            CtxView { stack: pop_kind(f.stack, KindTag::ListItem), ..f }
        },
        MdEventView::EndEmphasis => CtxView { style: InlineStyle { italic: false, ..c.style }, ..c },
        MdEventView::EndStrong => CtxView { style: InlineStyle { bold: false, ..c.style }, ..c },
        MdEventView::EndStrikethrough => CtxView { style: InlineStyle { strikethrough: false, ..c.style }, ..c },
        MdEventView::EndLink => CtxView { style: InlineStyle { link: false, ..c.style }, ..c },
        MdEventView::EndOther => c,
        MdEventView::Text(t) => push_text_spec(c, t),
        MdEventView::Code(t) => push_code_spec(c, t),
        MdEventView::SoftBreak => push_text_spec(c, " "@),
        MdEventView::HardBreak => flush_line_spec(c),
        MdEventView::Rule => {
            let f = flush_paragraph_spec(c);
            CtxView { blocks: f.blocks.push(BlockOut::Rule), ..f }
        },
        MdEventView::Other => c,
    }
}

/// The state after the first `k` events.
pub open spec fn run_spec(c: CtxView, es: Seq<MdEventView>, k: int) -> CtxView
    decreases k,
{
    if k <= 0 {
        c
    } else {
        step_spec(run_spec(c, es, k - 1), es[k - 1])
    }
}

/// The state before any event.
pub open spec fn start_view() -> CtxView {
    CtxView {
        blocks: seq![],
        line: seq![],
        spans: seq![],
        style: InlineStyle { bold: false, italic: false, strikethrough: false, link: false },
        stack: seq![],
        code: seq![],
        counters: seq![],
    }
}

/// The blocks of a whole event stream: every event folded in, then the
/// last paragraph flushed.
pub open spec fn rendered_blocks(es: Seq<MdEventView>) -> Seq<BlockOut> {
    flush_paragraph_spec(run_spec(start_view(), es, es.len() as int)).blocks
}

// ── Exec ──

/// Popping the innermost block of a kind is removing it at its last
/// position.
proof fn lemma_pop_kind(st: Seq<BlockView>, t: KindTag, pos: int)
    requires
        0 <= pos < st.len(),
        is_kind(t, st[pos]),
        forall|j: int| pos < j < st.len() ==> !is_kind(t, #[trigger] st[j]),
    ensures
        pop_kind(st, t) == st.remove(pos),
    decreases st.len(),
{
    if pos == st.len() - 1 {
        assert(st.drop_last() =~= st.remove(pos));
    } else {
        assert(st.last() == st[st.len() - 1]);
        lemma_pop_kind(st.drop_last(), t, pos);
        assert(st.drop_last().remove(pos).push(st.last()) =~= st.remove(pos));
    }
}

/// Without a block of the kind, popping changes nothing.
proof fn lemma_pop_none(st: Seq<BlockView>, t: KindTag)
    requires
        forall|j: int| 0 <= j < st.len() ==> !is_kind(t, #[trigger] st[j]),
    ensures
        pop_kind(st, t) == st,
    decreases st.len(),
{
    if st.len() > 0 {
        assert(st.last() == st[st.len() - 1]);
        lemma_pop_none(st.drop_last(), t);
        assert(st.drop_last().push(st.last()) =~= st);
    }
}

fn kind_of(b: &BlockKind, t: KindTag) -> (r: bool)
    ensures
        r == is_kind(t, b@),
{
    match t {
        KindTag::Paragraph => matches!(b, BlockKind::Paragraph),
        KindTag::Heading => matches!(b, BlockKind::Heading(_)),
        KindTag::BlockQuote => matches!(b, BlockKind::BlockQuote),
        KindTag::CodeBlock => matches!(b, BlockKind::CodeBlock(_)),
        KindTag::List => matches!(b, BlockKind::List(_)),
        KindTag::ListItem => matches!(b, BlockKind::ListItem),
    }
}

/// The byte length of a text.
fn byte_len(s: &String) -> (n: usize)
    ensures
        n == encode_utf8(s@).len(),
{
    s.as_str().as_bytes().len()
}

/// The first whitespace-separated word of a text.
fn first_word_of(s: &str) -> (r: String)
    ensures
        r@ == first_word(s@),
{
    let cs = str_chars(s);
    let n = cs.len();
    let mut a: usize = 0;
    assert(s@.skip(0) =~= s@);
    while a < n && is_unicode_ws(cs[a])
        invariant
            cs@ == s@,
            n == cs@.len(),
            0 <= a <= n,
            first_word(s@) == first_word(s@.skip(a as int)),
        decreases n - a,
    {
        assert(s@.skip(a as int).drop_first() =~= s@.skip(a + 1));
        assert(s@.skip(a as int)[0] == cs@[a as int]);
        a += 1;
    }
    let mut b: usize = a;
    proof {
        if a < n {
            assert(s@.skip(a as int)[0] == cs@[a as int]);
            assert(first_word(s@.skip(a as int)) == word_run(s@.skip(a as int)));
        } else {
            assert(s@.skip(a as int) =~= Seq::<char>::empty());
        }
        assert(s@.subrange(a as int, a as int) =~= Seq::<char>::empty());
    }
    while b < n && !is_unicode_ws(cs[b])
        invariant
            cs@ == s@,
            n == cs@.len(),
            0 <= a <= b <= n,
            a < n ==> first_word(s@) == word_run(s@.skip(a as int)),
            a == n ==> first_word(s@).len() == 0,
            word_run(s@.skip(a as int)) == s@.subrange(a as int, b as int) + word_run(s@.skip(b as int)),
        decreases n - b,
    {
        assert(s@.skip(b as int).drop_first() =~= s@.skip(b + 1));
        assert(s@.skip(b as int)[0] == cs@[b as int]);
        assert(s@.subrange(a as int, b + 1) =~= s@.subrange(a as int, b as int) + seq![cs@[b as int]]);
        b += 1;
    }
    proof {
        if b < n {
            assert(s@.skip(b as int)[0] == cs@[b as int]);
        } else {
            assert(s@.skip(b as int) =~= Seq::<char>::empty());
        }
        assert(word_run(s@.skip(b as int)) =~= Seq::<char>::empty());
        assert(s@.subrange(a as int, b as int) + Seq::<char>::empty() =~= s@.subrange(a as int, b as int));
    }
    s.substring_char(a, b).to_owned()
}

/// A text without its trailing line feeds.
fn trim_newlines_of(s: &str) -> (r: String)
    ensures
        r@ == trim_newlines(s@),
{
    let cs = str_chars(s);
    let mut e: usize = cs.len();
    assert(s@.take(e as int) =~= s@);
    while e > 0 && cs[e - 1] == '\n'
        invariant
            cs@ == s@,
            0 <= e <= cs@.len(),
            trim_newlines(s@) == trim_newlines(s@.take(e as int)),
        decreases e,
    {
        assert(s@.take(e as int).drop_last() =~= s@.take(e - 1));
        assert(s@.take(e as int).last() == cs@[e - 1]);
        e -= 1;
    }
    proof {
        if e > 0 {
            assert(s@.take(e as int).last() == cs@[e - 1]);
        }
    }
    s.substring_char(0, e).to_owned()
}

/// The highlighter's name for a fence language tag.
fn fence_language_of(l: &str) -> (r: Option<String>)
    ensures
        match r {
            Some(x) => fence_language(l@) == Some(x@),
            None => fence_language(l@) is None,
        },
{
    let name = if str_eq(l, "rust") || str_eq(l, "rs") {
        "rust"
    } else if str_eq(l, "python") || str_eq(l, "py") {
        "python"
    } else if str_eq(l, "javascript") || str_eq(l, "js") {
        "javascript"
    } else if str_eq(l, "jsx") {
        "jsx"
    } else if str_eq(l, "typescript") || str_eq(l, "ts") {
        "typescript"
    } else if str_eq(l, "tsx") {
        "tsx"
    } else if str_eq(l, "json") {
        "json"
    } else if str_eq(l, "markdown") || str_eq(l, "md") {
        "markdown"
    } else {
        return None;
    };
    Some(name.to_owned())
}

impl RenderCtx {
    /// The state before any event.
    pub fn new() -> (r: Self)
        ensures
            r@ == start_view(),
    {
        let r = RenderCtx {
            blocks: Vec::new(),
            line_buf: String::new(),
            line_spans: Vec::new(),
            style: InlineStyle { bold: false, italic: false, strikethrough: false, link: false },
            block_stack: Vec::new(),
            code_buf: String::new(),
            list_counter: Vec::new(),
        };
        assert(r@.blocks =~= Seq::<BlockOut>::empty());
        assert(r@.stack =~= Seq::<BlockView>::empty());
        r
    }

    /// Whether a code block is open.
    pub fn in_code_block(&self) -> (r: bool)
        ensures
            r == in_code(self@.stack),
    {
        let mut i: usize = 0;
        while i < self.block_stack.len()
            invariant
                0 <= i <= self.block_stack@.len(),
                forall|j: int| 0 <= j < i ==> !(#[trigger] self@.stack[j] is CodeBlock),
            decreases self.block_stack@.len() - i,
        {
            if matches!(self.block_stack[i], BlockKind::CodeBlock(_)) {
                assert(self@.stack[i as int] is CodeBlock);
                return true;
            }
            i += 1;
        }
        false
    }

    /// Whether a block quote is open.
    pub fn in_block_quote(&self) -> (r: bool)
        ensures
            r == in_quote(self@.stack),
    {
        let mut i: usize = 0;
        while i < self.block_stack.len()
            invariant
                0 <= i <= self.block_stack@.len(),
                forall|j: int| 0 <= j < i ==> !(#[trigger] self@.stack[j] is BlockQuote),
            decreases self.block_stack@.len() - i,
        {
            if matches!(self.block_stack[i], BlockKind::BlockQuote) {
                assert(self@.stack[i as int] is BlockQuote);
                return true;
            }
            i += 1;
        }
        false
    }

    /// How many lists are open.
    pub fn list_depth(&self) -> (r: usize)
        ensures
            r == list_depth(self@.stack, self@.stack.len() as int),
    {
        let mut n: usize = 0;
        let mut i: usize = 0;
        while i < self.block_stack.len()
            invariant
                0 <= i <= self.block_stack@.len(),
                n == list_depth(self@.stack, i as int),
                n <= i,
            decreases self.block_stack@.len() - i,
        {
            if matches!(self.block_stack[i], BlockKind::List(_)) {
                n += 1;
            }
            i += 1;
        }
        n
    }

    /// Whether an ordered list is open.
    fn in_ordered_list(&self) -> (r: bool)
        ensures
            r == in_ordered(self@.stack),
    {
        let mut i: usize = 0;
        while i < self.block_stack.len()
            invariant
                0 <= i <= self.block_stack@.len(),
                forall|j: int| 0 <= j < i ==> !(#[trigger] self@.stack[j] matches BlockView::List(Some(_))),
            decreases self.block_stack@.len() - i,
        {
            if matches!(self.block_stack[i], BlockKind::List(Some(_))) {
                assert(self@.stack[i as int] matches BlockView::List(Some(_)));
                return true;
            }
            i += 1;
        }
        false
    }

    /// The level of the outermost open heading.
    fn heading_level(&self) -> (r: Option<u8>)
        ensures
            r == heading_level(self@.stack),
    {
        let ghost st = self@.stack;
        let mut i: usize = 0;
        assert(st.skip(0) =~= st);
        while i < self.block_stack.len()
            invariant
                0 <= i <= st.len(),
                st == self@.stack,
                heading_level(st) == heading_level(st.skip(i as int)),
            decreases st.len() - i,
        {
            assert(st.skip(i as int)[0] == st[i as int]);
            assert(st.skip(i as int).drop_first() =~= st.skip(i + 1));
            if let BlockKind::Heading(l) = self.block_stack[i] {
                return Some(l);
            }
            i += 1;
        }
        assert(st.skip(i as int) =~= Seq::<BlockView>::empty());
        None
    }

    /// The language tag of the outermost open code block that has one.
    fn code_lang(&self) -> (r: Option<String>)
        ensures
            match r {
                Some(l) => code_lang(self@.stack) == Some(l@),
                None => code_lang(self@.stack) is None,
            },
    {
        let ghost st = self@.stack;
        let mut i: usize = 0;
        assert(st.skip(0) =~= st);
        while i < self.block_stack.len()
            invariant
                0 <= i <= st.len(),
                st == self@.stack,
                code_lang(st) == code_lang(st.skip(i as int)),
            decreases st.len() - i,
        {
            assert(st.skip(i as int)[0] == st[i as int]);
            assert(st.skip(i as int).drop_first() =~= st.skip(i + 1));
            if let BlockKind::CodeBlock(Some(l)) = &self.block_stack[i] {
                return Some(l.clone());
            }
            i += 1;
        }
        assert(st.skip(i as int) =~= Seq::<BlockView>::empty());
        None
    }

    /// Removes the innermost open block of kind `t`, if any.
    fn pop_block(&mut self, t: KindTag)
        ensures
            final(self)@ == (CtxView { stack: pop_kind(old(self)@.stack, t), ..old(self)@ }),
    {
        let ghost st = old(self)@.stack;
        let mut i: usize = self.block_stack.len();
        while i > 0 && !kind_of(&self.block_stack[i - 1], t)
            invariant
                0 <= i <= self.block_stack@.len(),
                *self == *old(self),
                st == self@.stack,
                forall|j: int| i <= j < st.len() ==> !is_kind(t, #[trigger] st[j]),
            decreases i,
        {
            i -= 1;
        }
        if i > 0 {
            proof {
                lemma_pop_kind(st, t, i - 1);
            }
            self.block_stack.remove(i - 1);
            assert(self@.stack =~= st.remove(i - 1));
        } else {
            proof {
                lemma_pop_none(st, t);
            }
        }
    }

    /// Opens a block.
    fn push_kind(&mut self, b: BlockKind)
        ensures
            final(self)@ == (CtxView { stack: old(self)@.stack.push(b@), ..old(self)@ }),
    {
        let ghost before = self.block_stack@;
        self.block_stack.push(b);
        assert(self.block_stack@.map_values(|x: BlockKind| x@) =~= before.map_values(|x: BlockKind| x@).push(b@));
    }

    /// Takes the line being built and its spans, leaving them empty.
    fn take_line(&mut self) -> (r: (String, Vec<MdSpan>))
        ensures
            r.0@ == old(self)@.line,
            r.1@ == old(self)@.spans,
            final(self)@ == (CtxView { line: seq![], spans: seq![], ..old(self)@ }),
    {
        let mut text = String::new();
        std::mem::swap(&mut text, &mut self.line_buf);
        let mut spans: Vec<MdSpan> = Vec::new();
        std::mem::swap(&mut spans, &mut self.line_spans);
        assert(self@.spans =~= Seq::<MdSpan>::empty());
        (text, spans)
    }

    /// Adds a block.
    fn push_block(&mut self, b: MdBlock)
        ensures
            final(self)@ == (CtxView { blocks: old(self)@.blocks.push(b@), ..old(self)@ }),
    {
        let ghost before = self.blocks@;
        self.blocks.push(b);
        assert(self.blocks@.map_values(|x: MdBlock| x@) =~= before.map_values(|x: MdBlock| x@).push(b@));
    }

    /// Ends a paragraph: the line, if any, becomes a paragraph block.
    pub fn flush_paragraph(&mut self)
        ensures
            final(self)@ == flush_paragraph_spec(old(self)@),
    {
        if self.line_buf.as_str().unicode_len() == 0 {
            return;
        }
        let quoted = self.in_block_quote();
        let (text, spans) = self.take_line();
        self.push_block(MdBlock::Paragraph { text, spans, quoted });
    }

    /// A hard break: the line, if any, becomes a line block.
    pub fn flush_line(&mut self)
        ensures
            final(self)@ == flush_line_spec(old(self)@),
    {
        if self.line_buf.as_str().unicode_len() == 0 {
            return;
        }
        let (text, spans) = self.take_line();
        self.push_block(MdBlock::Line { text, spans });
    }

    /// Ends a heading: the line, if any, becomes a heading block.
    pub fn flush_heading(&mut self)
        ensures
            final(self)@ == flush_heading_spec(old(self)@),
    {
        if self.line_buf.as_str().unicode_len() == 0 {
            return;
        }
        let level = self.heading_level();
        let (text, spans) = self.take_line();
        self.push_block(MdBlock::Heading { text, spans, level });
    }

    /// Ends a list item: the line, if any, becomes a list item with its
    /// depth and marker (see [`marker_spec`]).
    pub fn flush_list_item(&mut self)
        ensures
            final(self)@ == flush_list_item_spec(old(self)@),
    {
        if self.line_buf.as_str().unicode_len() == 0 {
            return;
        }
        let depth = self.list_depth();
        let ordered = self.in_ordered_list();
        let marker = if ordered && self.list_counter.len() > 0 {
            let last = self.list_counter.len() - 1;
            let n = self.list_counter[last];
            let mut m = String::new();
            push_decimal(&mut m, n);
            m.append(".");
            let next = if n == u64::MAX { 0 } else { n + 1 };
            self.list_counter.set(last, next);
            m
        } else {
            "\u{2022}".to_owned()
        };
        proof {
            reveal_strlit("");
        }
        let (text, spans) = self.take_line();
        self.push_block(MdBlock::ListItem { text, spans, depth, marker });
    }

    /// Ends a code block: its text without trailing line feeds becomes a
    /// code block (none when empty), with the highlighter's name for its
    /// language tag.
    pub fn flush_code_block(&mut self)
        ensures
            final(self)@ == flush_code_block_spec(old(self)@),
    {
        let mut code = String::new();
        std::mem::swap(&mut code, &mut self.code_buf);
        let code = trim_newlines_of(code.as_str());
        if code.as_str().unicode_len() == 0 {
            return;
        }
        let lang = match self.code_lang() {
            Some(l) => fence_language_of(l.as_str()),
            None => None,
        };
        self.push_block(MdBlock::Code { code, lang });
    }

    /// Text: into the open code block, or onto the line with a span for the
    /// inline style in effect.
    pub fn push_text(&mut self, text: &str)
        ensures
            final(self)@ == push_text_spec(old(self)@, text@),
    {
        if self.in_code_block() {
            self.code_buf.append(text);
            return;
        }
        let start = byte_len(&self.line_buf);
        self.line_buf.append(text);
        let end = byte_len(&self.line_buf);
        let plain = !self.style.bold && !self.style.italic && !self.style.strikethrough && !self.style.link;
        if !plain && start < end {
            self.line_spans.push(MdSpan { start, end, style: SpanStyle::Inline(self.style) });
        }
    }

    /// Inline code: onto the line, with a code span.
    pub fn push_inline_code(&mut self, code: &str)
        ensures
            final(self)@ == push_code_spec(old(self)@, code@),
    {
        let start = byte_len(&self.line_buf);
        self.line_buf.append(code);
        let end = byte_len(&self.line_buf);
        if start < end {
            self.line_spans.push(MdSpan { start, end, style: SpanStyle::Code });
        }
    }

    /// Takes one event.
    pub fn step(&mut self, e: &MdEvent)
        ensures
            final(self)@ == step_spec(old(self)@, e@),
    {
        match e {
            MdEvent::StartParagraph => {
                self.push_kind(BlockKind::Paragraph);
            },
            MdEvent::StartHeading(l) => {
                self.push_kind(BlockKind::Heading(*l));
            },
            MdEvent::StartBlockQuote => {
                self.flush_paragraph();
                self.push_kind(BlockKind::BlockQuote);
            },
            MdEvent::StartCodeBlock(info) => {
                self.flush_paragraph();
                let tag = match info {
                    Some(i) => {
                        let w = first_word_of(i.as_str());
                        if w.as_str().unicode_len() == 0 {
                            None
                        } else {
                            Some(w)
                        }
                    },
                    None => None,
                };
                self.code_buf = String::new();
                self.push_kind(BlockKind::CodeBlock(tag));
            },
            MdEvent::StartList(start) => {
                self.flush_paragraph();
                if let Some(n) = start {
                    self.list_counter.push(*n);
                }
                self.push_kind(BlockKind::List(*start));
            },
            MdEvent::StartItem => {
                self.push_kind(BlockKind::ListItem);
            },
            MdEvent::StartEmphasis => {
                self.style.italic = true;
            },
            MdEvent::StartStrong => {
                self.style.bold = true;
            },
            MdEvent::StartStrikethrough => {
                self.style.strikethrough = true;
            },
            MdEvent::StartLink => {
                self.style.link = true;
            },
            MdEvent::StartOther => {},
            MdEvent::EndParagraph => {
                self.flush_paragraph();
                self.pop_block(KindTag::Paragraph);
            },
            MdEvent::EndHeading => {
                self.flush_heading();
                self.pop_block(KindTag::Heading);
            },
            MdEvent::EndBlockQuote => {
                self.flush_paragraph();
                self.pop_block(KindTag::BlockQuote);
            },
            MdEvent::EndCodeBlock => {
                self.flush_code_block();
                self.pop_block(KindTag::CodeBlock);
            },
            MdEvent::EndList(ordered) => {
                if *ordered {
                    self.list_counter.pop();
                }
                self.pop_block(KindTag::List);
            },
            MdEvent::EndItem => {
                self.flush_list_item();
                self.pop_block(KindTag::ListItem);
            },
            MdEvent::EndEmphasis => {
                self.style.italic = false;
            },
            MdEvent::EndStrong => {
                self.style.bold = false;
            },
            MdEvent::EndStrikethrough => {
                self.style.strikethrough = false;
            },
            MdEvent::EndLink => {
                self.style.link = false;
            },
            MdEvent::EndOther => {},
            MdEvent::Text(t) => {
                self.push_text(t.as_str());
            },
            MdEvent::Code(t) => {
                self.push_inline_code(t.as_str());
            },
            MdEvent::SoftBreak => {
                self.push_text(" ");
            },
            MdEvent::HardBreak => {
                self.flush_line();
            },
            MdEvent::Rule => {
                self.flush_paragraph();
                self.push_block(MdBlock::Rule);
            },
            MdEvent::Other => {},
        }
    }
}

/// Renders markdown from its parser events: every event folded in, then
/// the last paragraph flushed (see [`rendered_blocks`]).
pub fn render_markdown_events(events: &Vec<MdEvent>) -> (r: Vec<MdBlock>)
    ensures
        r@.map_values(|b: MdBlock| b@) == rendered_blocks(events@.map_values(|e: MdEvent| e@)),
{
    let ghost evs = events@.map_values(|e: MdEvent| e@);
    let mut ctx = RenderCtx::new();
    let mut i: usize = 0;
    while i < events.len()
        invariant
            0 <= i <= events@.len(),
            evs == events@.map_values(|e: MdEvent| e@),
            ctx@ == run_spec(start_view(), evs, i as int),
        decreases events@.len() - i,
    {
        ctx.step(&events[i]);
        i += 1;
    }
    ctx.flush_paragraph();
    ctx.blocks
}

// ── Parsing ──

#[verifier::external_type_specification]
pub struct ExEvent<'a>(pulldown_cmark::Event<'a>);

#[verifier::external_type_specification]
pub struct ExTag<'a>(pulldown_cmark::Tag<'a>);

#[verifier::external_type_specification]
pub struct ExTagEnd(pulldown_cmark::TagEnd);

#[verifier::external_type_specification]
pub struct ExHeadingLevel(pulldown_cmark::HeadingLevel);

#[verifier::external_type_specification]
pub struct ExCodeBlockKind<'a>(pulldown_cmark::CodeBlockKind<'a>);

#[verifier::external_type_specification]
pub struct ExBlockQuoteKind(pulldown_cmark::BlockQuoteKind);

#[verifier::external_type_specification]
pub struct ExMetadataBlockKind(pulldown_cmark::MetadataBlockKind);

#[verifier::external_type_specification]
pub struct ExLinkType(pulldown_cmark::LinkType);

#[verifier::external_type_specification]
pub struct ExAlignment(pulldown_cmark::Alignment);

#[verifier::external_type_specification]
#[verifier::external_body]
pub struct ExCowStr<'a>(pulldown_cmark::CowStr<'a>);

/// The text of a parser string.
///
/// Calls `CowStr::into_string`; nothing is stated of the (opaque) text.
#[verifier::external_body]
fn cow_string(s: pulldown_cmark::CowStr) -> String {
    s.into_string()
}

/// The number of a heading level: `H1` is 1, ..., `H6` is 6.
pub open spec fn level_number(level: pulldown_cmark::HeadingLevel) -> u8 {
    match level {
        pulldown_cmark::HeadingLevel::H1 => 1,
        pulldown_cmark::HeadingLevel::H2 => 2,
        pulldown_cmark::HeadingLevel::H3 => 3,
        pulldown_cmark::HeadingLevel::H4 => 4,
        pulldown_cmark::HeadingLevel::H5 => 5,
        pulldown_cmark::HeadingLevel::H6 => 6,
    }
}

/// Heading levels count up one by one from 1, in the parser's order
/// `H1` < `H2` < ... < `H6`, so each heading keeps the level the markdown
/// gave it (`#` is 1, `##` is 2, ...).
pub proof fn lemma_heading_levels_count_up()
    ensures
        level_number(pulldown_cmark::HeadingLevel::H1) == 1,
        level_number(pulldown_cmark::HeadingLevel::H2) == level_number(pulldown_cmark::HeadingLevel::H1) + 1,
        level_number(pulldown_cmark::HeadingLevel::H3) == level_number(pulldown_cmark::HeadingLevel::H2) + 1,
        level_number(pulldown_cmark::HeadingLevel::H4) == level_number(pulldown_cmark::HeadingLevel::H3) + 1,
        level_number(pulldown_cmark::HeadingLevel::H5) == level_number(pulldown_cmark::HeadingLevel::H4) + 1,
        level_number(pulldown_cmark::HeadingLevel::H6) == level_number(pulldown_cmark::HeadingLevel::H5) + 1,
{
}

/// A heading level as a number from 1 to 6.
fn heading_number(level: pulldown_cmark::HeadingLevel) -> (n: u8)
    ensures
        1 <= n <= 6,
        n == level_number(level),
{
    match level {
        pulldown_cmark::HeadingLevel::H1 => 1,
        pulldown_cmark::HeadingLevel::H2 => 2,
        pulldown_cmark::HeadingLevel::H3 => 3,
        pulldown_cmark::HeadingLevel::H4 => 4,
        pulldown_cmark::HeadingLevel::H5 => 5,
        pulldown_cmark::HeadingLevel::H6 => 6,
    }
}

/// A parser event as a plain event: the tags the renderer tells apart
/// keep their kind (a heading its level, a fenced code block its info
/// string, a list its first number, a list end whether it was ordered),
/// text and inline code their text, every other event is `Other`.
fn md_event(e: pulldown_cmark::Event) -> (r: MdEvent)
    ensures
        match e {
            pulldown_cmark::Event::Start(tag) => match tag {
                pulldown_cmark::Tag::Paragraph => r == MdEvent::StartParagraph,
                pulldown_cmark::Tag::Heading { level, .. } => r == MdEvent::StartHeading(level_number(level)),
                pulldown_cmark::Tag::BlockQuote(_) => r == MdEvent::StartBlockQuote,
                pulldown_cmark::Tag::CodeBlock(pulldown_cmark::CodeBlockKind::Fenced(_)) => r matches MdEvent::StartCodeBlock(Some(_)),
                pulldown_cmark::Tag::CodeBlock(pulldown_cmark::CodeBlockKind::Indented) => r == MdEvent::StartCodeBlock(None),
                pulldown_cmark::Tag::List(start) => r == MdEvent::StartList(start),
                pulldown_cmark::Tag::Item => r == MdEvent::StartItem,
                pulldown_cmark::Tag::Emphasis => r == MdEvent::StartEmphasis,
                pulldown_cmark::Tag::Strong => r == MdEvent::StartStrong,
                pulldown_cmark::Tag::Strikethrough => r == MdEvent::StartStrikethrough,
                pulldown_cmark::Tag::Link { .. } => r == MdEvent::StartLink,
                _ => r == MdEvent::StartOther,
            },
            pulldown_cmark::Event::End(tag) => match tag {
                pulldown_cmark::TagEnd::Paragraph => r == MdEvent::EndParagraph,
                pulldown_cmark::TagEnd::Heading(_) => r == MdEvent::EndHeading,
                pulldown_cmark::TagEnd::BlockQuote(_) => r == MdEvent::EndBlockQuote,
                pulldown_cmark::TagEnd::CodeBlock => r == MdEvent::EndCodeBlock,
                pulldown_cmark::TagEnd::List(ordered) => r == MdEvent::EndList(ordered),
                pulldown_cmark::TagEnd::Item => r == MdEvent::EndItem,
                pulldown_cmark::TagEnd::Emphasis => r == MdEvent::EndEmphasis,
                pulldown_cmark::TagEnd::Strong => r == MdEvent::EndStrong,
                pulldown_cmark::TagEnd::Strikethrough => r == MdEvent::EndStrikethrough,
                pulldown_cmark::TagEnd::Link => r == MdEvent::EndLink,
                _ => r == MdEvent::EndOther,
            },
            pulldown_cmark::Event::Text(_) => r is Text,
            pulldown_cmark::Event::Code(_) => r is Code,
            pulldown_cmark::Event::SoftBreak => r == MdEvent::SoftBreak,
            pulldown_cmark::Event::HardBreak => r == MdEvent::HardBreak,
            pulldown_cmark::Event::Rule => r == MdEvent::Rule,
            _ => r == MdEvent::Other,
        },
{
    match e {
        pulldown_cmark::Event::Start(tag) => match tag {
            pulldown_cmark::Tag::Paragraph => MdEvent::StartParagraph,
            pulldown_cmark::Tag::Heading { level, .. } => MdEvent::StartHeading(heading_number(level)),
            pulldown_cmark::Tag::BlockQuote(_) => MdEvent::StartBlockQuote,
            pulldown_cmark::Tag::CodeBlock(pulldown_cmark::CodeBlockKind::Fenced(info)) => MdEvent::StartCodeBlock(
                Some(cow_string(info)),
            ),
            pulldown_cmark::Tag::CodeBlock(pulldown_cmark::CodeBlockKind::Indented) => MdEvent::StartCodeBlock(None),
            pulldown_cmark::Tag::List(start) => MdEvent::StartList(start),
            pulldown_cmark::Tag::Item => MdEvent::StartItem,
            pulldown_cmark::Tag::Emphasis => MdEvent::StartEmphasis,
            pulldown_cmark::Tag::Strong => MdEvent::StartStrong,
            pulldown_cmark::Tag::Strikethrough => MdEvent::StartStrikethrough,
            pulldown_cmark::Tag::Link { .. } => MdEvent::StartLink,
            _ => MdEvent::StartOther,
        },
        pulldown_cmark::Event::End(tag) => match tag {
            pulldown_cmark::TagEnd::Paragraph => MdEvent::EndParagraph,
            pulldown_cmark::TagEnd::Heading(_) => MdEvent::EndHeading,
            pulldown_cmark::TagEnd::BlockQuote(_) => MdEvent::EndBlockQuote,
            pulldown_cmark::TagEnd::CodeBlock => MdEvent::EndCodeBlock,
            pulldown_cmark::TagEnd::List(ordered) => MdEvent::EndList(ordered),
            pulldown_cmark::TagEnd::Item => MdEvent::EndItem,
            pulldown_cmark::TagEnd::Emphasis => MdEvent::EndEmphasis,
            pulldown_cmark::TagEnd::Strong => MdEvent::EndStrong,
            pulldown_cmark::TagEnd::Strikethrough => MdEvent::EndStrikethrough,
            pulldown_cmark::TagEnd::Link => MdEvent::EndLink,
            _ => MdEvent::EndOther,
        },
        pulldown_cmark::Event::Text(t) => MdEvent::Text(cow_string(t)),
        pulldown_cmark::Event::Code(t) => MdEvent::Code(cow_string(t)),
        pulldown_cmark::Event::SoftBreak => MdEvent::SoftBreak,
        pulldown_cmark::Event::HardBreak => MdEvent::HardBreak,
        pulldown_cmark::Event::Rule => MdEvent::Rule,
        _ => MdEvent::Other,
    }
}

/// The events `pulldown-cmark` gives for `source`, with strikethrough and
/// tables enabled, as plain events.
pub uninterp spec fn md_events(source: Seq<char>) -> Seq<MdEventView>;

/// Parses markdown.
///
/// Runs `pulldown_cmark::Parser::new_ext` over `source` with strikethrough
/// and tables enabled and turns each event into a plain one (by
/// [`md_event`]); the result is named [`md_events`] of the source.
#[verifier::external_body]
fn markdown_events(source: &str) -> (r: Vec<MdEvent>)
    ensures
        r@.map_values(|e: MdEvent| e@) == md_events(source@),
{
    let opts = pulldown_cmark::Options::ENABLE_STRIKETHROUGH | pulldown_cmark::Options::ENABLE_TABLES;
    pulldown_cmark::Parser::new_ext(source, opts).map(|e| md_event(e)).collect()
}

/// The display blocks of a review comment's markdown: the parser's events
/// for `source` (see [`md_events`]) folded into blocks (see
/// [`render_markdown_events`]).
pub fn render_markdown(source: &str) -> (r: Vec<MdBlock>)
    ensures
        r@.map_values(|b: MdBlock| b@) == rendered_blocks(md_events(source@)),
{
    render_markdown_events(&markdown_events(source))
}

// ── Code block lines ──

/// A line of a code block and its highlight spans (byte ranges of the
/// line, with their colours).
pub struct CodeLine {
    pub text: String,
    pub spans: Vec<(usize, usize, SyntaxColor)>,
}

/// A code line as values.
pub open spec fn code_line_view(l: CodeLine) -> (Seq<char>, Seq<(usize, usize, SyntaxColor)>) {
    (l.text@, l.spans@)
}

/// The spans that overlap bytes `ls..le`, cut to them and rebased, in
/// order (first `k`).
pub open spec fn clip_code_spans(spans: Seq<HighlightSpan>, ls: int, le: int, k: int) -> Seq<(usize, usize, SyntaxColor)>
    decreases k,
{
    if k <= 0 {
        seq![]
    } else {
        let prev = clip_code_spans(spans, ls, le, k - 1);
        let sp = spans[k - 1];
        let a = if sp.start > ls { sp.start as int } else { ls };
        let b = if sp.end < le { sp.end as int } else { le };
        if a < b {
            prev.push(((a - ls) as usize, (b - ls) as usize, sp.color))
        } else {
            prev
        }
    }
}

/// The lines of a code block (split at every line feed), each with the
/// spans that fall on it.
pub open spec fn code_lines_spec(b: Seq<u8>, spans: Seq<HighlightSpan>) -> Seq<(Seq<char>, Seq<(usize, usize, SyntaxColor)>)> {
    let rs = crate::diff_build::split_ranges(b, 0);
    Seq::new(
        rs.len(),
        |i: int| (crate::text::lossy_decode(b.subrange(rs[i].0, rs[i].1)), clip_code_spans(spans, rs[i].0, rs[i].1, spans.len() as int)),
    )
}

/// The lines of a code block with the given spans (see [`code_lines_spec`]).
pub fn code_lines_from_spans(code: &str, spans: &Vec<HighlightSpan>) -> (r: Vec<CodeLine>)
    ensures
        r@.map_values(|l: CodeLine| code_line_view(l)) == code_lines_spec(encode_utf8(code@), spans@),
{
    let b = code.as_bytes();
    let n = b.len();
    let ghost bs = b@;
    let ghost rs = crate::diff_build::split_ranges(bs, 0);
    let ghost want = code_lines_spec(bs, spans@);
    let mut result: Vec<CodeLine> = Vec::new();
    let mut p: usize = 0;
    assert(rs.skip(0) =~= rs);
    loop
        invariant_except_break
            result@.len() < rs.len(),
            rs.skip(result@.len() as int) == crate::diff_build::split_ranges(bs, p as int),
        invariant
            bs == b@,
            n == bs.len(),
            rs == crate::diff_build::split_ranges(bs, 0),
            want == code_lines_spec(bs, spans@),
            0 <= p <= n,
            result@.len() <= rs.len(),
            forall|i: int| 0 <= i < result@.len() ==> code_line_view(#[trigger] result@[i]) == want[i],
        ensures
            result@.len() == rs.len(),
            forall|i: int| 0 <= i < result@.len() ==> code_line_view(#[trigger] result@[i]) == want[i],
        decreases n - p,
    {
        let mut q = p;
        while q < n && b[q] != crate::text::NL
            invariant
                p <= q <= n,
                n == bs.len(),
                bs == b@,
                q + crate::diff_build::nl_count(bs, q as int) == p + crate::diff_build::nl_count(bs, p as int),
            decreases n - q,
        {
            q += 1;
        }
        let k = result.len();
        proof {
            assert(rs.skip(k as int).len() >= 1);
            assert(rs.skip(k as int)[0] == rs[k as int]);
            assert(rs[k as int] == (p as int, q as int));
        }
        let mut line: Vec<u8> = Vec::new();
        let mut j = p;
        while j < q
            invariant
                p <= j <= q <= n,
                n == bs.len(),
                bs == b@,
                line@ == bs.subrange(p as int, j as int),
            decreases q - j,
        {
            line.push(b[j]);
            j += 1;
            assert(line@ =~= bs.subrange(p as int, j as int));
        }
        let text = crate::text::utf8_lossy(line.as_slice());
        let mut hl: Vec<(usize, usize, SyntaxColor)> = Vec::new();
        let mut t: usize = 0;
        while t < spans.len()
            invariant
                0 <= t <= spans@.len(),
                p <= q,
                hl@ == clip_code_spans(spans@, p as int, q as int, t as int),
            decreases spans@.len() - t,
        {
            let sp = spans[t];
            let a = if sp.start > p { sp.start } else { p };
            let e = if sp.end < q { sp.end } else { q };
            if a < e {
                hl.push((a - p, e - p, sp.color));
            }
            t += 1;
        }
        let cl = CodeLine { text, spans: hl };
        assert(code_line_view(cl) == want[k as int]);
        result.push(cl);
        if q < n {
            proof {
                assert(rs.skip(k + 1) =~= rs.skip(k as int).skip(1));
                assert((seq![(p as int, q as int)] + crate::diff_build::split_ranges(bs, q + 1)).skip(1)
                    =~= crate::diff_build::split_ranges(bs, q + 1));
            }
            p = q + 1;
        } else {
            proof {
                assert(crate::diff_build::split_ranges(bs, p as int) =~= seq![(p as int, q as int)]);
                assert(rs.skip(k as int).len() == 1);
            }
            break;
        }
    }
    assert(result@.map_values(|l: CodeLine| code_line_view(l)) =~= want);
    result
}

/// The lines of a code block highlighted as `lang`: those of
/// [`code_lines_from_spans`] for the spans the highlighter gives (none
/// without a language, or for one it does not know).
pub fn code_block_lines(code: &str, lang: Option<&str>) -> (r: Vec<CodeLine>)
    ensures
        r@.map_values(|l: CodeLine| code_line_view(l)) == code_lines_spec(
            encode_utf8(code@),
            match lang {
                Some(l) => spans_for(code@, l@),
                None => seq![],
            },
        ),
        (lang is None || lang_named(lang->0@) is None) ==> r@.map_values(|l: CodeLine| code_line_view(l))
            == code_lines_spec(encode_utf8(code@), seq![]),
{
    let spans = match lang {
        Some(l) => highlight_source(code, l),
        None => Vec::new(),
    };
    let r = code_lines_from_spans(code, &spans);
    proof {
        if lang is None || lang_named(lang->0@) is None {
            assert(spans@ =~= Seq::<HighlightSpan>::empty());
        }
    }
    r
}

} // verus!
