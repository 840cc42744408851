use operator::command_center::{
    extract_repo_name, parse_search_output, parse_usize, rg_answered, CommandAction, CommandCenter, CommandCenterMode, SubmitEffect,
};

#[test]
fn extract_repo_name_cases() {
    assert_eq!(extract_repo_name("https://github.com/user/repo.git"), "repo");
    assert_eq!(extract_repo_name("https://github.com/user/repo/"), "repo");
    assert_eq!(extract_repo_name("  git@github.com:user/tool.git  "), "tool");
    assert_eq!(extract_repo_name("plain"), "plain");
    assert_eq!(extract_repo_name("https://host/a/b.git/"), "b");
}

#[test]
fn parse_usize_like_str_parse() {
    assert_eq!(parse_usize(b"42"), Some(42));
    assert_eq!(parse_usize(b"+7"), Some(7));
    assert_eq!(parse_usize(b""), None);
    assert_eq!(parse_usize(b"+"), None);
    assert_eq!(parse_usize(b"4x"), None);
    assert_eq!(parse_usize(b"-1"), None);
    assert_eq!(parse_usize(b"99999999999999999999999"), None);
}

#[test]
fn parse_search_output_reads_rg_lines() {
    let out = "src/a.rs:12:    let x = 1;\nbad line\nsrc/b.rs:x:nope\nsrc/c.rs:3:a:b:c\n";
    let r = parse_search_output(out, None);
    assert_eq!(r.len(), 2);
    assert_eq!(r[0].path, "src/a.rs");
    assert_eq!(r[0].line_num, 12);
    assert_eq!(r[0].line_text, "let x = 1;");
    assert_eq!(r[1].path, "src/c.rs");
    assert_eq!(r[1].line_num, 3);
    assert_eq!(r[1].line_text, "a:b:c");
}

#[test]
fn parse_search_output_joins_root_and_caps_results() {
    let mut out = String::new();
    for i in 0..150 {
        out.push_str(&format!("f.rs:{}:line {}\n", i + 1, i));
    }
    let r = parse_search_output(&out, Some("/work"));
    assert_eq!(r.len(), 100);
    assert_eq!(r[0].path, "/work/f.rs");
    assert_eq!(r[99].line_num, 100);
}

#[test]
fn command_filter_is_case_insensitive() {
    let mut c = CommandCenter::new();
    c.toggle();
    assert!(c.visible);
    assert_eq!(c.filtered_commands().len(), 7);
    c.query_changed("TOGGLE".to_string());
    let f = c.filtered_commands();
    let labels: Vec<&str> = f.iter().map(|(_, e)| e.label.as_str()).collect();
    assert_eq!(labels, vec!["Toggle Files Panel", "Toggle Sidebar", "Toggle Diff Panel"]);
    c.query_changed("browser".to_string());
    let f = c.filtered_commands();
    assert_eq!(f.len(), 1);
    assert_eq!(f[0].0, 3);
}

#[test]
fn submit_in_command_mode_picks_selected_action() {
    let mut c = CommandCenter::new();
    c.toggle();
    c.query_changed("clone".to_string());
    assert_eq!(c.selected_action(), Some(CommandAction::CloneRepo));
    assert!(matches!(c.handle_submit(), SubmitEffect::Nothing));
    assert_eq!(c.pending_action, Some(CommandAction::CloneRepo));
}

#[test]
fn clone_mode_submits_the_url_once() {
    let mut c = CommandCenter::new();
    c.show_clone_mode();
    assert_eq!(c.mode, CommandCenterMode::CloneRepo);
    c.query_changed("   ".to_string());
    assert!(matches!(c.handle_submit(), SubmitEffect::Nothing));
    c.query_changed("https://github.com/u/r.git".to_string());
    match c.handle_submit() {
        SubmitEffect::Clone(u) => assert_eq!(u, "https://github.com/u/r.git"),
        _ => panic!("expected a clone"),
    }
    assert!(c.cloning);
    assert!(matches!(c.handle_submit(), SubmitEffect::Nothing));
    c.clone_finished(Err("boom".to_string()));
    assert!(!c.cloning);
    assert_eq!(c.status_message.as_deref(), Some("Error: boom"));
}

#[test]
fn workspace_search_flow() {
    let mut c = CommandCenter::new();
    c.search_root = Some("/w".to_string());
    c.show_workspace_search_mode();
    assert_eq!(c.mode, CommandCenterMode::SearchWorkspace);
    assert!(c.query_changed("needle".to_string()));
    assert_eq!(c.status_message.as_deref(), Some("Searching..."));
    match c.handle_submit() {
        SubmitEffect::Search { query, root } => {
            assert_eq!(query, "needle");
            assert_eq!(root, "/w");
        }
        _ => panic!("expected a search"),
    }
    c.search_finished(Ok(parse_search_output("a.rs:1:needle here\nb.rs:2:needle\n", None)));
    assert_eq!(c.result_count(), 2);
    c.selected_ix = 5;
    assert!(matches!(c.handle_submit(), SubmitEffect::Nothing));
    assert_eq!(c.pending_search_result.as_ref().map(|r| r.path.as_str()), Some("b.rs"));
}

#[test]
fn dismiss_hides_and_resets() {
    let mut c = CommandCenter::new();
    c.toggle();
    c.query_changed("x".to_string());
    c.dismiss();
    assert!(!c.visible);
}

#[test]
fn palette_arrows_move_the_selection_within_the_list() {
    let mut c = CommandCenter::new();
    let n = c.result_count();
    assert!(n >= 2);
    c.select_previous();
    assert_eq!(c.selected_ix, 0);
    c.select_next();
    assert_eq!(c.selected_ix, 1);
    for _ in 0..n + 3 {
        c.select_next();
    }
    assert_eq!(c.selected_ix, n - 1);
    c.select_previous();
    assert_eq!(c.selected_ix, n - 2);
    c.mode = CommandCenterMode::CloneRepo;
    c.selected_ix = 0;
    c.select_next();
    assert_eq!(c.selected_ix, 0);
}

#[test]
fn rg_answers_on_exit_zero_or_one_only() {
    assert!(rg_answered(true, Some(0)));
    assert!(rg_answered(true, Some(1)));
    assert!(!rg_answered(true, Some(2)));
    assert!(!rg_answered(true, None));
    assert!(!rg_answered(false, None));
}
