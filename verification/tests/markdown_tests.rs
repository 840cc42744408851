use operator::markdown::{code_block_lines, code_lines_from_spans, render_markdown, render_markdown_events, InlineStyle, MdBlock, MdEvent, MdSpan, SpanStyle};
use operator::syntax::{HighlightSpan, SyntaxColor};

fn t(s: &str) -> MdEvent {
    MdEvent::Text(s.to_string())
}

fn plain_style() -> InlineStyle {
    InlineStyle { bold: false, italic: false, strikethrough: false, link: false }
}

fn describe(b: &MdBlock) -> String {
    match b {
        MdBlock::Line { text, .. } => format!("line:{}", text),
        MdBlock::Paragraph { text, quoted, .. } => format!("p:{}:{}", text, quoted),
        MdBlock::Heading { text, level, .. } => format!("h{:?}:{}", level, text),
        MdBlock::Rule => "rule".to_string(),
        MdBlock::Code { code, lang } => format!("code:{:?}:{}", lang, code),
        MdBlock::ListItem { text, depth, marker, .. } => format!("li{}:{}:{}", depth, marker, text),
    }
}

#[test]
fn blocks_of_a_review_comment() {
    let events = vec![
        MdEvent::StartHeading(1),
        t("Title"),
        MdEvent::EndHeading,
        MdEvent::StartParagraph,
        t("Hello "),
        MdEvent::StartStrong,
        t("world"),
        MdEvent::EndStrong,
        MdEvent::EndParagraph,
        MdEvent::StartList(None),
        MdEvent::StartItem,
        t("a"),
        MdEvent::EndItem,
        MdEvent::StartItem,
        t("b"),
        MdEvent::EndItem,
        MdEvent::EndList(false),
        MdEvent::StartList(Some(3)),
        MdEvent::StartItem,
        t("x"),
        MdEvent::EndItem,
        MdEvent::StartItem,
        t("y"),
        MdEvent::EndItem,
        MdEvent::EndList(true),
        MdEvent::StartCodeBlock(Some("rust ignore".to_string())),
        t("fn f() {}\n"),
        MdEvent::EndCodeBlock,
        MdEvent::Rule,
        MdEvent::StartBlockQuote,
        MdEvent::StartParagraph,
        t("quote"),
        MdEvent::EndParagraph,
        MdEvent::EndBlockQuote,
    ];
    let blocks = render_markdown_events(&events);
    let d: Vec<String> = blocks.iter().map(describe).collect();
    assert_eq!(
        d,
        vec![
            "hSome(1):Title",
            "p:Hello world:false",
            "li1:\u{2022}:a",
            "li1:\u{2022}:b",
            "li1:3.:x",
            "li1:4.:y",
            "code:Some(\"rust\"):fn f() {}",
            "rule",
            "p:quote:true",
        ]
    );
    match &blocks[1] {
        MdBlock::Paragraph { spans, .. } => {
            let bold = InlineStyle { bold: true, ..plain_style() };
            assert_eq!(spans, &vec![MdSpan { start: 6, end: 11, style: SpanStyle::Inline(bold) }]);
        }
        _ => panic!("expected a paragraph"),
    }
}

#[test]
fn breaks_code_and_nested_lists() {
    let events = vec![
        MdEvent::StartParagraph,
        t("a"),
        MdEvent::SoftBreak,
        t("b"),
        MdEvent::HardBreak,
        MdEvent::Code("x()".to_string()),
        MdEvent::EndParagraph,
        MdEvent::StartList(None),
        MdEvent::StartItem,
        t("outer"),
        MdEvent::StartList(None),
        MdEvent::StartItem,
        t("inner"),
        MdEvent::EndItem,
        MdEvent::EndList(false),
        MdEvent::EndItem,
        MdEvent::EndList(false),
        t("tail"),
    ];
    let blocks = render_markdown_events(&events);
    let d: Vec<String> = blocks.iter().map(describe).collect();
    // A nested list flushes the outer item's text as a paragraph first.
    assert_eq!(d, vec!["line:a b", "p:x():false", "p:outer:false", "li2:\u{2022}:inner", "p:tail:false"]);
    match &blocks[1] {
        MdBlock::Paragraph { spans, .. } => assert_eq!(spans, &vec![MdSpan { start: 0, end: 3, style: SpanStyle::Code }]),
        _ => panic!("expected a paragraph"),
    }
}

#[test]
fn empty_blocks_are_dropped() {
    let events = vec![
        MdEvent::StartParagraph,
        MdEvent::EndParagraph,
        MdEvent::StartCodeBlock(None),
        t("\n\n"),
        MdEvent::EndCodeBlock,
        MdEvent::StartCodeBlock(Some("".to_string())),
        t("plain\n"),
        MdEvent::EndCodeBlock,
    ];
    let d: Vec<String> = render_markdown_events(&events).iter().map(describe).collect();
    assert_eq!(d, vec!["code:None:plain"]);
}

#[test]
fn code_lines_carry_their_spans() {
    let spans = vec![
        HighlightSpan { start: 0, end: 3, color: SyntaxColor::Keyword },
        HighlightSpan { start: 8, end: 13, color: SyntaxColor::Str },
    ];
    let lines = code_lines_from_spans("let a;\nx = \"s\";", &spans);
    assert_eq!(lines.len(), 2);
    assert_eq!(lines[0].text, "let a;");
    assert_eq!(lines[0].spans, vec![(0, 3, SyntaxColor::Keyword)]);
    assert_eq!(lines[1].text, "x = \"s\";");
    assert_eq!(lines[1].spans, vec![(1, 6, SyntaxColor::Str)]);
    let plain = code_block_lines("a\nb", None);
    assert_eq!(plain.len(), 2);
    assert!(plain[0].spans.is_empty());
    let rust = code_block_lines("fn main() {}", Some("rust"));
    assert_eq!(rust[0].text, "fn main() {}");
    assert!(!rust[0].spans.is_empty());
}

#[test]
fn code_lines_take_the_highlighters_spans() {
    let code = "fn main() {}";
    let spans = operator::syntax::highlight_source(code, "rust");
    assert!(!spans.is_empty());
    let lines = code_block_lines(code, Some("rust"));
    let expected: Vec<(usize, usize, SyntaxColor)> = spans.iter().map(|s| (s.start, s.end, s.color)).collect();
    assert_eq!(lines[0].spans, expected);
    assert!(code_block_lines(code, Some("cobol"))[0].spans.is_empty());
}

#[test]
fn render_markdown_parses_the_source() {
    let source = "# Title\n\nHello **world**\n\n- a\n- b\n\n3. x\n4. y\n\n```rust ignore\nfn f() {}\n```\n\n---\n\n> quote\n";
    let blocks = render_markdown(source);
    let d: Vec<String> = blocks.iter().map(describe).collect();
    assert_eq!(
        d,
        vec![
            "hSome(1):Title",
            "p:Hello world:false",
            "li1:\u{2022}:a",
            "li1:\u{2022}:b",
            "li1:3.:x",
            "li1:4.:y",
            "code:Some(\"rust\"):fn f() {}",
            "rule",
            "p:quote:true",
        ]
    );
    match &blocks[1] {
        MdBlock::Paragraph { spans, .. } => {
            let bold = InlineStyle { bold: true, ..plain_style() };
            assert_eq!(spans, &vec![MdSpan { start: 6, end: 11, style: SpanStyle::Inline(bold) }]);
        }
        _ => panic!("expected a paragraph"),
    }
}

#[test]
fn render_markdown_strikethrough_and_inline_code() {
    let blocks = render_markdown("~~gone~~ and `x()`");
    let d: Vec<String> = blocks.iter().map(describe).collect();
    assert_eq!(d, vec!["p:gone and x():false"]);
    match &blocks[0] {
        MdBlock::Paragraph { spans, .. } => {
            let struck = InlineStyle { strikethrough: true, ..plain_style() };
            assert_eq!(
                spans,
                &vec![
                    MdSpan { start: 0, end: 4, style: SpanStyle::Inline(struck) },
                    MdSpan { start: 9, end: 12, style: SpanStyle::Code },
                ]
            );
        }
        _ => panic!("expected a paragraph"),
    }
}

#[test]
fn render_markdown_of_empty_text_is_empty() {
    assert!(render_markdown("").is_empty());
}
