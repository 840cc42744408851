use operator::syntax::{detect_language, highlight_color, highlight_source, spans_from_events, HlEvent, SyntaxColor};

#[test]
fn detect_language_by_extension() {
    assert_eq!(detect_language("src/main.rs"), Some("rust"));
    assert_eq!(detect_language("Cargo.toml"), Some("rust"));
    assert_eq!(detect_language("a/b/setup.py"), Some("python"));
    assert_eq!(detect_language("types.pyi"), Some("python"));
    assert_eq!(detect_language("x.mjs"), Some("javascript"));
    assert_eq!(detect_language("App.jsx"), Some("jsx"));
    assert_eq!(detect_language("index.cts"), Some("typescript"));
    assert_eq!(detect_language("App.tsx"), Some("tsx"));
    assert_eq!(detect_language("data.json"), Some("json"));
    assert_eq!(detect_language("README.md"), Some("markdown"));
    assert_eq!(detect_language("notes.markdown"), Some("markdown"));
    assert_eq!(detect_language("Makefile"), None);
    assert_eq!(detect_language("archive.tar.gz"), None);
    assert_eq!(detect_language("rs"), Some("rust"));
}

#[test]
fn highlight_colors_by_index() {
    assert_eq!(highlight_color(1), SyntaxColor::Comment);
    assert_eq!(highlight_color(8), SyntaxColor::Keyword);
    assert_eq!(highlight_color(16), SyntaxColor::Str);
    assert_eq!(highlight_color(10), SyntaxColor::Number);
    assert_eq!(highlight_color(5), SyntaxColor::Function);
    assert_eq!(highlight_color(19), SyntaxColor::Type);
    assert_eq!(highlight_color(22), SyntaxColor::VariableBuiltin);
    assert_eq!(highlight_color(0), SyntaxColor::Attribute);
    assert_eq!(highlight_color(99), SyntaxColor::Text);
}

#[test]
fn highlight_source_colours_rust_keywords() {
    let src = "fn main() { let x = 1; }";
    let spans = highlight_source(src, "rust");
    assert!(!spans.is_empty());
    assert!(spans.iter().any(|s| s.color == SyntaxColor::Keyword && &src[s.start..s.end] == "fn"));
    for s in &spans {
        assert!(s.start <= s.end && s.end <= src.len());
    }
}

#[test]
fn highlight_source_without_language_is_empty() {
    assert!(highlight_source("fn main() {}", "cobol").is_empty());
}

#[test]
fn highlight_source_for_each_language() {
    assert!(!highlight_source("{\"a\": 1}", "json").is_empty());
    assert!(!highlight_source("def f():\n    return 1\n", "python").is_empty());
    assert!(!highlight_source("const x = 1;", "javascript").is_empty());
    assert!(!highlight_source("let x: number = 1;", "typescript").is_empty());
}

#[test]
fn spans_follow_highlight_events() {
    let ev = vec![
        HlEvent::Source { start: 0, end: 2 },
        HlEvent::Start(8),
        HlEvent::Source { start: 2, end: 4 },
        HlEvent::End,
        HlEvent::Source { start: 4, end: 5 },
        HlEvent::Start(1),
        HlEvent::Source { start: 5, end: 9 },
        HlEvent::Failed,
        HlEvent::Source { start: 9, end: 10 },
    ];
    let spans = spans_from_events(&ev);
    assert_eq!(spans.len(), 2);
    assert_eq!((spans[0].start, spans[0].end, spans[0].color), (2, 4, SyntaxColor::Keyword));
    assert_eq!((spans[1].start, spans[1].end, spans[1].color), (5, 9, SyntaxColor::Comment));
}
