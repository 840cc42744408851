use operator::diff::{DiffFile, DiffHunk, DiffLine, DiffLineKind, FileStatus};
use operator::github::{GhStatus, GhUser, PrInfo, PrReviewComment, ThreadInfo};
use operator::panels::{CommentSide, PrDiffPanel};
use std::collections::{HashMap, HashSet};

fn rline(kind: DiffLineKind, text: &str, old: Option<u32>, new: Option<u32>) -> DiffLine {
    DiffLine { kind, content: text.to_string(), old_lineno: old, new_lineno: new, highlights: None }
}

fn rcomment(id: u64, line: Option<u32>, start: Option<u32>, side: &str, reply_to: Option<u64>, login: &str, body: &str) -> PrReviewComment {
    PrReviewComment {
        id,
        body: body.to_string(),
        path: "src/lib.rs".to_string(),
        line,
        start_line: start,
        side: Some(side.to_string()),
        start_side: None,
        user: GhUser { login: login.to_string() },
        created_at: "2024-01-01T00:00:00Z".to_string(),
        in_reply_to_id: reply_to,
    }
}

fn pr(number: u64) -> PrInfo {
    PrInfo {
        number,
        title: "t".to_string(),
        state: "OPEN".to_string(),
        base_ref_name: "main".to_string(),
        head_ref_name: "feature".to_string(),
        url: "u".to_string(),
        additions: 0,
        deletions: 0,
        changed_files: 0,
    }
}

fn panel_with_diff() -> PrDiffPanel {
    let mut p = PrDiffPanel::empty("feature".to_string());
    p.apply_branch_diff(vec![DiffFile {
        path: "src/lib.rs".to_string(),
        status: FileStatus::Modified,
        old_path: None,
        hunks: vec![DiffHunk {
            _header: "@@".to_string(),
            lines: vec![
                rline(DiffLineKind::Context, "fn a() {  ", Some(10), Some(10)),
                rline(DiffLineKind::Removed, "    old();", Some(11), None),
                rline(DiffLineKind::Added, "    new();", None, Some(11)),
                rline(DiffLineKind::Context, "}", Some(12), Some(12)),
            ],
        }],
        source_lines: None,
    }]);
    p
}

#[test]
fn prompt_header_quotes_the_commented_code() {
    let p = panel_with_diff();
    let right = rcomment(1, Some(11), Some(10), "RIGHT", None, "ann", "x");
    assert_eq!(p.build_prompt_header(&right), "Address this PR comment in src/lib.rs (lines 10-11):\n```\nfn a() {\n    old();\n    new();\n```\n");
    let left = rcomment(2, Some(11), None, "LEFT", None, "ann", "x");
    assert_eq!(p.build_prompt_header(&left), "Address this PR comment in src/lib.rs (line 11):\n```\n    old();\n```\n");
    let nowhere = rcomment(3, Some(90), None, "RIGHT", None, "ann", "x");
    assert_eq!(p.build_prompt_header(&nowhere), "Address this PR comment in src/lib.rs (line 90):");
}

#[test]
fn single_comment_and_thread_prompts() {
    let p = panel_with_diff();
    let c = rcomment(2, Some(11), None, "LEFT", None, "ann", "why?");
    assert_eq!(
        p.build_single_comment_prompt(&c, "why?", "ann"),
        "Address this PR comment in src/lib.rs (line 11):\n```\n    old();\n```\n\n@ann: why?"
    );
    let r = rcomment(5, None, None, "LEFT", Some(2), "bob", "because");
    assert_eq!(
        p.build_thread_prompt(&c, &vec![&r]),
        "Address this PR comment in src/lib.rs (line 11):\n```\n    old();\n```\n\n@ann: why?\n  @bob: because"
    );
}

#[test]
fn all_unresolved_prompt_joins_the_open_threads() {
    let mut p = panel_with_diff();
    assert_eq!(p.build_all_unresolved_prompt(), "");
    let mut resolved = HashSet::new();
    resolved.insert(3u64);
    p.apply_review_data(
        vec![
            rcomment(1, Some(90), None, "RIGHT", None, "ann", "one"),
            rcomment(2, Some(91), None, "RIGHT", Some(1), "bob", "reply"),
            rcomment(3, Some(92), None, "RIGHT", None, "cy", "resolved"),
        ],
        Some(ThreadInfo { resolved_ids: resolved, thread_node_ids: HashMap::new() }),
    );
    assert_eq!(
        p.build_all_unresolved_prompt(),
        "Address these 1 unresolved PR comment:\nAddress this PR comment in src/lib.rs (line 90):\n@ann: one\n  @bob: reply"
    );
    p.resolved_thread_ids.clear();
    let all = p.build_all_unresolved_prompt();
    assert!(all.starts_with("Address these 2 unresolved PR comments:\n"));
    assert!(all.contains("\n\n---\n\n"));
}

#[test]
fn comment_request_needs_a_pr_a_range_and_a_commit() {
    let mut p = PrDiffPanel::empty("feature".to_string());
    p.start_comment("src/lib.rs".to_string(), 14, 12, CommentSide::Right);
    assert!(p.comment_request("hi".to_string(), Some("abc".to_string())).is_none());
    p.work_dir = Some("/repo".to_string());
    p.apply_pr_status(GhStatus::Available, Some(pr(8)));
    assert!(p.comment_request("hi".to_string(), None).is_none());
    assert!(!p.submitting_comment);
    let q = p.comment_request("hi".to_string(), Some("abc".to_string())).unwrap();
    assert!(p.submitting_comment);
    assert_eq!((q.work_dir.as_str(), q.pr_number, q.body.as_str(), q.commit_sha.as_str()), ("/repo", 8, "hi", "abc"));
    assert_eq!((q.path.as_str(), q.line, q.side.as_str()), ("src/lib.rs", 14, "RIGHT"));
    assert_eq!(q.start_line, Some(12));
    assert_eq!(q.start_side.as_deref(), Some("RIGHT"));
    p.comment_posted(Err("network".to_string()));
    assert!(!p.submitting_comment);
    assert!(p.active_comment_line.is_some());
    p.start_comment("src/lib.rs".to_string(), 5, 5, CommentSide::Left);
    let q = p.comment_request("one line".to_string(), Some("abc".to_string())).unwrap();
    assert_eq!((q.line, q.start_line, q.start_side), (5, None, None));
    assert_eq!(q.side, "LEFT");
    p.comment_posted(Ok(rcomment(9, Some(5), None, "LEFT", None, "me", "one line")));
    assert!(p.active_comment_line.is_none());
    assert_eq!(p.pr_comments.len(), 1);
    p.start_comment("a".to_string(), 1, 1, CommentSide::Left);
    p.cancel_comment();
    assert!(p.active_comment_line.is_none());
}

#[test]
fn reply_request_and_answer() {
    let mut p = PrDiffPanel::empty("feature".to_string());
    p.work_dir = Some("/repo".to_string());
    p.apply_pr_status(GhStatus::Available, Some(pr(3)));
    assert!(p.reply_request("x".to_string()).is_none());
    p.start_reply(77, 0);
    let q = p.reply_request("thanks".to_string()).unwrap();
    assert_eq!((q.pr_number, q.comment_id, q.body.as_str()), (3, 77, "thanks"));
    assert!(p.submitting_reply);
    p.reply_posted(Ok(rcomment(78, None, None, "RIGHT", Some(77), "me", "thanks")));
    assert!(!p.submitting_reply);
    assert!(p.reply_to.is_none());
    assert_eq!(p.pr_comments[0].in_reply_to_id, Some(77));
    p.start_reply(1, 0);
    p.cancel_reply();
    assert!(p.reply_to.is_none());
}

#[test]
fn resolving_flips_the_thread_and_failure_flips_it_back() {
    let mut p = PrDiffPanel::empty("feature".to_string());
    p.work_dir = Some("/repo".to_string());
    let mut ids = HashMap::new();
    ids.insert(10u64, "T_10".to_string());
    p.apply_review_data(vec![], Some(ThreadInfo { resolved_ids: HashSet::new(), thread_node_ids: ids }));
    assert!(p.toggle_resolve_thread(11).is_none());
    let q = p.toggle_resolve_thread(10).unwrap();
    assert_eq!((q.thread_node_id.as_str(), q.resolve), ("T_10", true));
    assert!(p.resolved_thread_ids.contains(&10));
    p.resolve_failed(10, false);
    assert!(!p.resolved_thread_ids.contains(&10));
    p.resolved_thread_ids.insert(10);
    let q = p.toggle_resolve_thread(10).unwrap();
    assert!(!q.resolve);
    assert!(!p.resolved_thread_ids.contains(&10));
}
