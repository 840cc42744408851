use operator::diff::{DiffFile, DiffHunk, DiffLine, DiffLineKind, ExpandDirection, FileStatus};
use operator::flat::FlatRow;
use operator::github::{GhStatus, GhUser, PrInfo, PrReviewComment};
use operator::panels::{is_line_selected, selected_copy_text, CommentSide, DiffSection, DiffViewMode, GitDiffPanel, PrDiffPanel};
use std::collections::HashSet;

fn pline(kind: DiffLineKind, text: &str, old: Option<u32>, new: Option<u32>) -> DiffLine {
    DiffLine { kind, content: text.to_string(), old_lineno: old, new_lineno: new, highlights: None }
}

/// A file whose one hunk has `ctx` context lines, an added line, and `ctx` more.
fn file_with_context(path: &str, ctx: u32) -> DiffFile {
    let mut lines = Vec::new();
    for i in 1..=ctx {
        lines.push(pline(DiffLineKind::Context, &format!("a{}", i), Some(i), Some(i)));
    }
    lines.push(pline(DiffLineKind::Added, "added", None, Some(ctx + 1)));
    lines.push(pline(DiffLineKind::Removed, "removed", Some(ctx + 1), None));
    for i in 1..=ctx {
        lines.push(pline(DiffLineKind::Context, &format!("b{}", i), Some(ctx + 1 + i), Some(ctx + 1 + i)));
    }
    DiffFile {
        path: path.to_string(),
        status: FileStatus::Modified,
        old_path: None,
        hunks: vec![DiffHunk { _header: "@@".to_string(), lines }],
        source_lines: None,
    }
}

fn comment(id: u64, path: &str, line: Option<u32>, side: Option<&str>, reply_to: Option<u64>) -> PrReviewComment {
    PrReviewComment {
        id,
        body: format!("comment {}", id),
        path: path.to_string(),
        line,
        start_line: None,
        side: side.map(|s| s.to_string()),
        start_side: None,
        user: GhUser { login: "dev".to_string() },
        created_at: "2024-01-01T00:00:00Z".to_string(),
        in_reply_to_id: reply_to,
    }
}

#[test]
fn git_panel_opens_on_staged_changes_when_there_are_any() {
    let p = GitDiffPanel::with_files("main".to_string(), vec![file_with_context("a", 1)], vec![]);
    assert_eq!(p.active_section, DiffSection::Staged);
    assert_eq!(p.file_count(), 1);
    let q = GitDiffPanel::with_files("main".to_string(), vec![], vec![file_with_context("a", 1)]);
    assert_eq!(q.active_section, DiffSection::Unstaged);
    assert_eq!(q.active_files().len(), 1);
    let e = GitDiffPanel::empty();
    assert_eq!(e.file_count(), 0);
    assert!(e.flat_cache_dirty);
}

#[test]
fn git_panel_rows_and_collapse_toggle() {
    let mut p = GitDiffPanel::with_files("main".to_string(), vec![], vec![file_with_context("a", 2)]);
    assert!(p.rebuild_flat_cache());
    assert!(!p.flat_cache_dirty);
    // Header, then the six lines of the hunk (all within three lines of a change).
    assert_eq!(p.flat_rows.len(), 7);
    assert_eq!(p.flat_rows[0], FlatRow::FileHeader { file_idx: 0 });
    assert_eq!(p.copy_line_contents, vec!["a1", "a2", "added", "removed", "b1", "b2"]);
    p.toggle_file_collapsed(0);
    assert!(p.flat_cache_dirty);
    assert!(p.rebuild_flat_cache());
    assert_eq!(p.flat_rows, vec![FlatRow::FileHeader { file_idx: 0 }]);
    p.toggle_file_collapsed(0);
    assert!(p.rebuild_flat_cache());
    assert_eq!(p.flat_rows.len(), 7);
}

#[test]
fn git_panel_expand_context_shows_more_lines() {
    let mut p = GitDiffPanel::with_files("main".to_string(), vec![], vec![file_with_context("a", 30)]);
    assert!(p.rebuild_flat_cache());
    // Header, top bar, 3 + 2 + 3 lines, bottom bar.
    assert_eq!(p.flat_rows.len(), 1 + 1 + 8 + 1);
    match p.flat_rows[1] {
        FlatRow::CollapsedContext { count, direction, .. } => {
            assert_eq!(count, 27);
            assert_eq!(direction, ExpandDirection::Top);
        }
        _ => panic!("expected the top collapse bar"),
    }
    assert!(p.expand_context(0, 0, ExpandDirection::Top));
    assert!(p.rebuild_flat_cache());
    match p.flat_rows[1] {
        FlatRow::CollapsedContext { count, .. } => assert_eq!(count, 7),
        _ => panic!("expected the top collapse bar"),
    }
    assert_eq!(p.flat_rows.len(), 1 + 1 + 28 + 1);
    p.reset_expanded_context();
    assert!(p.expanded_context.is_empty());
    assert!(p.rebuild_flat_cache());
    assert_eq!(p.flat_rows.len(), 11);
}

#[test]
fn git_panel_load_more_adds_a_batch() {
    let files: Vec<DiffFile> = (0..45).map(|i| file_with_context(&format!("f{}", i), 0)).collect();
    let mut p = GitDiffPanel::with_files("main".to_string(), vec![], files);
    assert!(p.rebuild_flat_cache());
    assert_eq!(p.flat_rows.last(), Some(&FlatRow::LoadMore { remaining: 25 }));
    p.load_more();
    assert_eq!(p.rendered_file_limit, 40);
    assert!(p.rebuild_flat_cache());
    assert_eq!(p.flat_rows.last(), Some(&FlatRow::LoadMore { remaining: 5 }));
    p.load_more();
    p.load_more();
    assert_eq!(p.rendered_file_limit, 60);
    assert!(p.rebuild_flat_cache());
    assert!(matches!(p.flat_rows.last(), Some(FlatRow::Line { file_idx: 44, is_last_in_file: true, .. })));
}

#[test]
fn git_panel_totals_count_both_sections() {
    let p = GitDiffPanel::with_files("main".to_string(), vec![file_with_context("a", 1)], vec![file_with_context("b", 1), file_with_context("c", 0)]);
    assert_eq!(p.total_additions(), 3);
    assert_eq!(p.total_deletions(), 3);
}

#[test]
fn selection_covers_lines_in_either_order() {
    assert!(is_line_selected(Some(5), Some(2), 3));
    assert!(is_line_selected(Some(2), Some(5), 5));
    assert!(!is_line_selected(Some(2), Some(5), 6));
    assert!(!is_line_selected(Some(2), None, 2));
    let contents = vec!["one".to_string(), "two".to_string(), "".to_string(), "four".to_string()];
    assert_eq!(selected_copy_text(Some(3), Some(1), &contents), Some("two\n\nfour".to_string()));
    assert_eq!(selected_copy_text(Some(2), Some(9), &contents), Some("\nfour".to_string()));
    assert_eq!(selected_copy_text(Some(2), Some(2), &contents), None);
    assert_eq!(selected_copy_text(Some(7), Some(9), &contents), None);
    assert_eq!(selected_copy_text(None, Some(1), &contents), None);
}

#[test]
fn pr_panel_status_and_view_mode() {
    let mut p = PrDiffPanel::empty("feature".to_string());
    assert_eq!(p.base_ref, "main");
    assert!(!p.can_comment());
    p.apply_pr_status(
        GhStatus::Available,
        Some(PrInfo {
            number: 4,
            title: "t".to_string(),
            state: "OPEN".to_string(),
            base_ref_name: "develop".to_string(),
            head_ref_name: "feature".to_string(),
            url: "u".to_string(),
            additions: 1,
            deletions: 0,
            changed_files: 1,
        }),
    );
    assert_eq!(p.base_ref, "develop");
    assert!(p.can_comment());
    assert!(!p.is_split_view());
    p.flat_cache_dirty = false;
    p.set_split_view(true);
    assert!(p.is_split_view());
    assert_eq!(p.view_mode, DiffViewMode::Split);
    assert!(p.flat_cache_dirty);
    assert_eq!(CommentSide::Left.api_str(), "LEFT");
    assert_eq!(CommentSide::Right.api_str(), "RIGHT");
}

#[test]
fn pr_panel_comments_by_line_and_unresolved_count() {
    let mut p = PrDiffPanel::empty("feature".to_string());
    let comments = vec![
        comment(1, "src/a.rs", Some(10), Some("RIGHT"), None),
        comment(2, "src/a.rs", Some(10), None, None),
        comment(3, "src/a.rs", Some(10), Some("LEFT"), None),
        comment(4, "src/a.rs", Some(10), Some("RIGHT"), Some(1)),
        comment(5, "src/b.rs", Some(10), Some("RIGHT"), None),
    ];
    let mut resolved = HashSet::new();
    resolved.insert(2u64);
    p.apply_review_data(comments, Some(operator::github::ThreadInfo { resolved_ids: resolved, thread_node_ids: Default::default() }));
    assert_eq!(p.comment_indices("src/a.rs", 10, "RIGHT"), vec![0, 1]);
    assert_eq!(p.comment_indices("src/a.rs", 10, "LEFT"), vec![2]);
    assert!(!p.has_comments("src/a.rs", 11, "RIGHT"));
    // Comments 1, 3 and 5 are top level and not resolved.
    assert_eq!(p.unresolved_comment_count(), 3);
    p.apply_review_data(vec![], None);
    assert_eq!(p.unresolved_comment_count(), 0);
    assert!(p.resolved_thread_ids.is_empty());
}

#[test]
fn pr_panel_search_finds_overlapping_matches_ignoring_case() {
    let mut p = PrDiffPanel::empty("feature".to_string());
    p.copy_line_contents = vec!["Hello foo".to_string(), "FOO bar foo".to_string(), "aaa".to_string()];
    p.open_search();
    assert!(p.search_active);
    assert!(p.set_search_query("Foo".to_string()));
    assert_eq!(p.search_matches, vec![(0, 6, 9), (1, 0, 3), (1, 8, 11)]);
    assert_eq!(p.search_match_ix, 0);
    p.search_next();
    assert_eq!(p.search_match_ix, 1);
    assert_eq!(p.search_highlights_for_gli(1), vec![(0, 3, true), (8, 11, false)]);
    p.search_next();
    p.search_next();
    assert_eq!(p.search_match_ix, 0);
    assert!(p.set_search_query("aa".to_string()));
    assert_eq!(p.search_matches, vec![(2, 0, 2), (2, 1, 3)]);
    p.close_search();
    assert!(!p.search_active);
    assert!(p.search_matches.is_empty());
    assert!(p.search_highlights_for_gli(2).is_empty());
}

#[test]
fn pr_panel_active_match_row_finds_the_line() {
    let mut p = PrDiffPanel::empty("feature".to_string());
    p.apply_branch_diff(vec![file_with_context("src/a.rs", 1)]);
    assert!(p.rebuild_flat_cache());
    assert_eq!(p.copy_line_contents, vec!["a1", "added", "removed", "b1"]);
    p.open_search();
    assert!(p.set_search_query("removed".to_string()));
    assert_eq!(p.search_matches, vec![(2, 0, 7)]);
    let row = p.active_match_row().unwrap();
    assert_eq!(p.gli_for_row(row), Some(2));
    assert_eq!(row, 3);
}

#[test]
fn setting_the_same_view_mode_changes_nothing() {
    let mut p = PrDiffPanel::empty("feature".to_string());
    p.flat_cache_dirty = false;
    p.set_split_view(false);
    assert!(!p.flat_cache_dirty);
    assert_eq!(p.view_mode, DiffViewMode::Unified);
    p.set_split_view(true);
    assert!(p.flat_cache_dirty);
}

#[test]
fn pr_panel_header_totals_prefer_github_figures() {
    let mut p = PrDiffPanel::empty("feature".to_string());
    p.diff_files = vec![file_with_context("a", 1), file_with_context("b", 2)];
    assert_eq!(p.header_totals(), (2, 2, 2));
    p.apply_pr_status(
        GhStatus::Available,
        Some(PrInfo {
            number: 9,
            title: "t".to_string(),
            state: "OPEN".to_string(),
            base_ref_name: "main".to_string(),
            head_ref_name: "feature".to_string(),
            url: "u".to_string(),
            additions: 10,
            deletions: 4,
            changed_files: 3,
        }),
    );
    assert_eq!(p.header_totals(), (3, 10, 4));
}

#[test]
fn both_panels_flatten_a_file_alike() {
    let mut g = GitDiffPanel::with_files("main".to_string(), vec![], vec![file_with_context("a", 30)]);
    let mut p = PrDiffPanel::empty("feature".to_string());
    p.diff_files = vec![file_with_context("a", 30)];
    assert!(g.expand_context(0, 0, ExpandDirection::Top));
    assert!(p.expand_context(0, 0, ExpandDirection::Top));
    assert!(g.rebuild_flat_cache());
    assert!(p.rebuild_flat_cache());
    assert_eq!(g.cached_file_segments.len(), 1);
    assert_eq!(p.cached_file_segments.len(), 1);
    let describe = |segs: &Vec<operator::diff::LineSegment>| -> Vec<String> {
        segs.iter()
            .map(|s| match s {
                operator::diff::LineSegment::Line(l) => format!("line:{}", l.content),
                operator::diff::LineSegment::CollapsedContext { count, hunk_idx, direction } => {
                    format!("bar:{}:{}:{:?}", count, hunk_idx, direction)
                }
            })
            .collect()
    };
    assert_eq!(describe(&g.cached_file_segments[0]), describe(&p.cached_file_segments[0]));
    assert_eq!(describe(&g.cached_file_segments[0])[0], "bar:7:0:Top");
}

#[test]
fn expanding_a_hunk_again_updates_its_one_entry() {
    let mut g = GitDiffPanel::with_files("main".to_string(), vec![], vec![file_with_context("a", 60)]);
    assert!(g.expand_context(0, 0, ExpandDirection::Top));
    assert!(g.expand_context(0, 0, ExpandDirection::Top));
    assert!(g.expand_context(0, 0, ExpandDirection::Bottom));
    assert_eq!(g.expanded_context.len(), 1);
    assert_eq!(g.expanded_context[0].1, (40, 20));
    let mut p = PrDiffPanel::empty("feature".to_string());
    p.diff_files = vec![file_with_context("a", 60)];
    assert!(p.expand_context(0, 0, ExpandDirection::Bottom));
    assert!(p.expand_context(0, 0, ExpandDirection::Bottom));
    assert!(p.expand_context(0, 1, ExpandDirection::Top));
    assert_eq!(p.expanded_context.len(), 2);
    assert_eq!(p.expanded_context[0], ((0, 0), (0, 40)));
    g.toggle_file_collapsed(0);
    g.toggle_file_collapsed(0);
    g.toggle_file_collapsed(0);
    assert_eq!(g.collapsed_files.len(), 1);
    p.toggle_file_collapsed(0);
    p.toggle_file_collapsed(0);
    assert!(p.collapsed_files.is_empty());
}
