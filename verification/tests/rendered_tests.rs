use operator::diff::{DiffLineKind, FileStatus};
use operator::diff_build::{
    build_diff_file, climb_action, default_branch_from, diff_file_from, extract_files, file_status_from, line_kind_from_origin, source_lines_from_spans, ClimbAction, DeltaKind,
    RawDelta, RawHunk, RawLine,
};
use operator::rendered::{
    buffer_row_to_visual, compute_buffer_and_lines, plain_lines, precompute_lines, soft_wrap_line, visual_to_buffer, LineHighlight,
    RenderedLine,
};
use operator::syntax::{HighlightSpan, SyntaxColor};

fn shape(v: &[RenderedLine]) -> Vec<(String, usize, usize)> {
    v.iter().map(|l| (l.text.clone(), l.buffer_row, l.byte_offset)).collect()
}

#[test]
fn soft_wrap_breaks_after_the_last_space_that_fits() {
    assert_eq!(soft_wrap_line("hello world foo", 8), vec![("hello ", 0), ("world ", 6), ("foo", 12)]);
    assert_eq!(soft_wrap_line("abcdefghij", 4), vec![("abcd", 0), ("efgh", 4), ("ij", 8)]);
    assert_eq!(soft_wrap_line("", 4), vec![("", 0)]);
    assert_eq!(soft_wrap_line("héllo wörld", 6), vec![("héllo ", 0), ("wörld", 7)]);
}

#[test]
fn display_lines_follow_the_text_lines() {
    let spans = vec![HighlightSpan { start: 0, end: 4, color: SyntaxColor::Keyword }];
    let r = precompute_lines("ab\r\ncd\n\nx", &spans, false, 0);
    assert_eq!(
        shape(&r),
        vec![("ab".to_string(), 0, 0), ("cd".to_string(), 1, 0), (" ".to_string(), 2, 0), ("x".to_string(), 3, 0)]
    );
    assert_eq!(r[0].highlights, vec![LineHighlight { start: 0, end: 2, color: SyntaxColor::Keyword }]);
    assert!(r[1].highlights.is_empty());
    let empty = precompute_lines("", &[], false, 0);
    assert_eq!(shape(&empty), vec![(" ".to_string(), 0, 0)]);
}

#[test]
fn wrapped_display_lines_rebase_their_highlights() {
    let spans = vec![HighlightSpan { start: 6, end: 11, color: SyntaxColor::Str }];
    let r = precompute_lines("hello world foo\nok", &spans, true, 8);
    assert_eq!(
        shape(&r),
        vec![("hello ".to_string(), 0, 0), ("world ".to_string(), 0, 6), ("foo".to_string(), 0, 12), ("ok".to_string(), 1, 0)]
    );
    assert!(r[0].highlights.is_empty());
    assert_eq!(r[1].highlights, vec![LineHighlight { start: 0, end: 5, color: SyntaxColor::Str }]);
    assert_eq!(buffer_row_to_visual(&r, 1), 3);
    assert_eq!(buffer_row_to_visual(&r, 0), 0);
    assert_eq!(buffer_row_to_visual(&r, 9), 9);
    assert_eq!(visual_to_buffer(&r, 2), (0, 12));
    assert_eq!(visual_to_buffer(&r, 7), (7, 0));
}

#[test]
fn plain_display_lines_of_a_buffer() {
    let r = plain_lines(&vec![b"ab".to_vec(), Vec::new()], false, 0);
    assert_eq!(shape(&r), vec![("ab".to_string(), 0, 0), (" ".to_string(), 1, 0)]);
    let (buffer, lines) = compute_buffer_and_lines("a\nb\n", None, 80);
    assert_eq!(buffer, vec![b"a".to_vec(), b"b".to_vec()]);
    assert_eq!(shape(&lines), vec![("a".to_string(), 0, 0), ("b".to_string(), 1, 0)]);
}

fn raw_line(origin: char, text: &str, old: Option<u32>, new: Option<u32>) -> RawLine {
    RawLine { origin, content: text.as_bytes().to_vec(), old_lineno: old, new_lineno: new }
}

#[test]
fn statuses_and_line_kinds_from_the_repository() {
    assert_eq!(file_status_from(DeltaKind::Untracked), FileStatus::Added);
    assert_eq!(file_status_from(DeltaKind::Renamed), FileStatus::Renamed);
    assert_eq!(file_status_from(DeltaKind::Copied), FileStatus::Modified);
    assert_eq!(file_status_from(DeltaKind::Deleted), FileStatus::Deleted);
    assert_eq!(line_kind_from_origin('+'), DiffLineKind::Added);
    assert_eq!(line_kind_from_origin('-'), DiffLineKind::Removed);
    assert_eq!(line_kind_from_origin(' '), DiffLineKind::Context);
}

#[test]
fn source_lines_are_trimmed_with_their_spans() {
    let spans = vec![
        HighlightSpan { start: 0, end: 2, color: SyntaxColor::Keyword },
        HighlightSpan { start: 3, end: 8, color: SyntaxColor::Str },
    ];
    let r = source_lines_from_spans("fn x  \nyz\n", &spans);
    assert_eq!(r.len(), 3);
    assert_eq!(r[0].content, "fn x");
    assert_eq!(
        r[0].highlights,
        Some(vec![HighlightSpan { start: 0, end: 2, color: SyntaxColor::Keyword }, HighlightSpan { start: 3, end: 4, color: SyntaxColor::Str }])
    );
    assert_eq!(r[1].content, "yz");
    assert_eq!(r[1].highlights, Some(vec![HighlightSpan { start: 0, end: 1, color: SyntaxColor::Str }]));
    assert_eq!(r[2].content, "");
    assert_eq!(r[2].highlights, None);
}

#[test]
fn diff_files_from_repository_deltas() {
    let renamed = RawDelta {
        kind: DeltaKind::Renamed,
        new_path: Some("new.txt".to_string()),
        old_path: Some("old.txt".to_string()),
        hunks: vec![],
        new_content: None,
        old_content: None,
    };
    let f = diff_file_from(&renamed);
    assert_eq!((f.path.as_str(), f.status, f.old_path.as_deref()), ("new.txt", FileStatus::Renamed, Some("old.txt")));
    let deleted = RawDelta { kind: DeltaKind::Deleted, new_path: None, old_path: Some("gone.txt".to_string()), hunks: vec![], new_content: None, old_content: None };
    assert_eq!(diff_file_from(&deleted).path, "gone.txt");
    let nameless = RawDelta { kind: DeltaKind::Modified, new_path: None, old_path: None, hunks: vec![], new_content: None, old_content: None };
    assert_eq!(diff_file_from(&nameless).path, "unknown");

    let rust = RawDelta {
        kind: DeltaKind::Modified,
        new_path: Some("src/lib.rs".to_string()),
        old_path: Some("src/lib.rs".to_string()),
        hunks: vec![RawHunk {
            header: b"@@ -1,2 +1,2 @@".to_vec(),
            lines: vec![raw_line(' ', "fn a() {}\n", Some(1), Some(1)), raw_line('-', "let x = 1;\n", Some(2), None), raw_line('+', "let x = 2;\n", None, Some(2))],
        }],
        new_content: Some("fn a() {}\nlet x = 2;\n".to_string()),
        old_content: Some("fn a() {}\nlet x = 1;\n".to_string()),
    };
    let f = build_diff_file(&rust);
    assert_eq!(f.hunks[0]._header, "@@ -1,2 +1,2 @@");
    assert_eq!(f.hunks[0].lines[1].kind, DiffLineKind::Removed);
    assert_eq!(f.hunks[0].lines[1].content, "let x = 1;\n");
    let src = f.source_lines.as_ref().unwrap();
    assert_eq!(src[1].content, "let x = 2;");
    assert!(f.hunks[0].lines[0].highlights.is_some());
    assert!(f.hunks[0].lines[2].highlights.is_some());

    let text = RawDelta { kind: DeltaKind::Added, new_path: Some("notes.txt".to_string()), old_path: None, hunks: vec![], new_content: Some("x".to_string()), old_content: None };
    let all = extract_files(&vec![text, renamed]);
    assert_eq!(all.len(), 2);
    assert!(all[0].source_lines.is_none());
    assert_eq!(all[0].status, FileStatus::Added);
    assert_eq!(all[1].path, "new.txt");
}

#[test]
fn default_branch_prefers_origin_head() {
    assert_eq!(default_branch_from(Some("refs/remotes/origin/develop"), true, true), "develop");
    assert_eq!(default_branch_from(Some("refs/heads/other"), false, true), "master");
    assert_eq!(default_branch_from(None, true, true), "main");
    assert_eq!(default_branch_from(None, false, false), "main");
    assert_eq!(default_branch_from(Some("refs/remotes/origin/"), false, false), "");
}

#[test]
fn reverting_climbs_through_empty_directories_only() {
    assert_eq!(climb_action(false, true), ClimbAction::RemoveAndClimb);
    assert_eq!(climb_action(false, false), ClimbAction::Stop);
    assert_eq!(climb_action(true, true), ClimbAction::Stop);
    assert_eq!(climb_action(true, false), ClimbAction::Stop);
}
