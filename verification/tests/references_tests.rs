use operator::file_viewer::{CmdClick, FileViewer};
use operator::references::{
    decide_cmd_click, file_references, order_groups_by_path, flat_ref_at, is_code_ext, is_definition_ref, line_is_definition,
    references_in_lines, searchable_file, total_refs, ClickDecision, FileReference, PanelKey, ReferencesPanel,
};
use operator::text::content_lines;

fn fref(path: &str, row: usize, start: usize, end: usize, text: &str) -> FileReference {
    FileReference { path: path.to_string(), row, col_start: start, col_end: end, line_text: text.to_string() }
}

fn spots(v: &[FileReference]) -> Vec<(String, usize, usize, usize)> {
    v.iter().map(|r| (r.path.clone(), r.row, r.col_start, r.col_end)).collect()
}

#[test]
fn references_are_whole_word_occurrences() {
    let lines = content_lines(b"fn area() {}\nlet a = area() + areas;\n");
    let r = references_in_lines("src/geo.rs", &lines, b"area");
    assert_eq!(spots(&r), vec![("src/geo.rs".to_string(), 0, 3, 7), ("src/geo.rs".to_string(), 1, 8, 12)]);
    assert_eq!(r[1].line_text, "let a = area() + areas;");
    let g = file_references("b.rs", "use area;\n", "area").unwrap();
    assert_eq!(g.0, "b.rs");
    assert_eq!(spots(&g.1), vec![("b.rs".to_string(), 0, 4, 8)]);
    assert!(file_references("c.rs", "nothing here", "area").is_none());
}

#[test]
fn definitions_follow_a_keyword() {
    assert!(line_is_definition("pub fn area() {}", 7));
    assert!(line_is_definition("    let  x = 1;", 9));
    assert!(line_is_definition("export default thing", 15));
    assert!(!line_is_definition("area();", 0));
    assert!(!line_is_definition("x = area();", 4));
    assert!(is_definition_ref(&fref("a.rs", 0, 3, 7, "fn area() {}")));
    assert!(!is_definition_ref(&fref("a.rs", 0, 30, 34, "fn area() {}")));
}

#[test]
fn searched_files_are_text_files_other_than_the_open_one() {
    assert!(searchable_file("/w/a.rs", "/w/b.rs"));
    assert!(!searchable_file("/w/a.rs", "/w/a.rs"));
    assert!(!searchable_file("/w/a.rs", "/w/logo.png"));
    assert!(!searchable_file("/w/a.rs", "/w/Makefile"));
    assert!(is_code_ext("graphql"));
    assert!(!is_code_ext(""));
}

#[test]
fn flat_reference_lookup_and_totals() {
    let groups = vec![
        ("a.rs".to_string(), vec![fref("a.rs", 0, 0, 1, "x"), fref("a.rs", 2, 0, 1, "x")]),
        ("b.rs".to_string(), vec![]),
        ("c.rs".to_string(), vec![fref("c.rs", 5, 1, 2, " x")]),
    ];
    assert_eq!(total_refs(&groups), 3);
    assert_eq!(flat_ref_at(&groups, 2).map(|r| r.path), Some("c.rs".to_string()));
    assert_eq!(flat_ref_at(&groups, 1).map(|r| r.row), Some(2));
    assert!(flat_ref_at(&groups, 3).is_none());
}

#[test]
fn panel_keys_move_wrap_and_open() {
    let groups = vec![("a.rs".to_string(), vec![fref("a.rs", 0, 0, 1, "x"), fref("a.rs", 4, 0, 1, "x")])];
    let mut p = ReferencesPanel { word: "x".to_string(), anchor_row: 0, groups, selected_ix: 0, total_refs: 2 };
    assert!(matches!(p.handle_key("up"), PanelKey::Moved));
    assert_eq!(p.selected_ix, 1);
    assert!(matches!(p.handle_key("down"), PanelKey::Moved));
    assert_eq!(p.selected_ix, 0);
    p.handle_key("down");
    match p.handle_key("enter") {
        PanelKey::Open(Some(r)) => assert_eq!(r.row, 4),
        _ => panic!("enter opens the selected reference"),
    }
    assert!(matches!(p.handle_key("escape"), PanelKey::Close));
    assert!(matches!(p.handle_key("a"), PanelKey::Dismiss));
}

#[test]
fn cmd_click_decisions() {
    let def = fref("a.rs", 0, 3, 7, "fn area() {}");
    let use1 = fref("a.rs", 1, 8, 12, "let a = area();");
    let use2 = fref("b.rs", 3, 0, 4, "area()");
    let groups = vec![("a.rs".to_string(), vec![def, use1]), ("b.rs".to_string(), vec![use2])];
    match decide_cmd_click("a.rs", 1, 8, &groups) {
        ClickDecision::GoTo(r) => assert_eq!((r.row, r.col_start), (0, 3)),
        _ => panic!("a use goes to the definition"),
    }
    match decide_cmd_click("a.rs", 0, 3, &groups) {
        ClickDecision::Definition(g) => {
            assert_eq!(g.len(), 2);
            assert_eq!(spots(&g[0].1), vec![("a.rs".to_string(), 1, 8, 12)]);
        }
        _ => panic!("the definition lists the other references"),
    }
    let no_def = vec![("b.rs".to_string(), vec![fref("b.rs", 3, 0, 4, "area()")])];
    assert!(matches!(decide_cmd_click("a.rs", 1, 8, &no_def), ClickDecision::All));
    assert!(matches!(decide_cmd_click("a.rs", 1, 8, &vec![]), ClickDecision::Nothing));
    let only_def = vec![("a.rs".to_string(), vec![fref("a.rs", 0, 3, 7, "fn area() {}")])];
    assert!(matches!(decide_cmd_click("a.rs", 0, 3, &only_def), ClickDecision::Nothing));
}

#[test]
fn cmd_click_in_the_viewer_jumps_to_the_definition() {
    let mut v = FileViewer::open("a.rs".to_string());
    v.apply_loaded_buffer(content_lines(b"fn area() {}\nlet a = area();"));
    v.navigate_to_line(2, Some((9, 9)));
    assert_eq!(v.cmd_click_word(), Some("area".to_string()));
    assert!(matches!(v.cmd_click(vec![]), CmdClick::Jumped));
    assert_eq!((v.cursor_row(), v.cursor_col()), (0, 3));
    v.navigate_to_line(1, Some((4, 4)));
    match v.cmd_click(vec![("b.rs".to_string(), vec![fref("b.rs", 3, 0, 4, "area()")])]) {
        CmdClick::Panel(p) => {
            assert_eq!(p.total_refs, 2);
            assert_eq!(p.word, "area");
        }
        _ => panic!("clicking the definition opens the references panel"),
    }
}

#[test]
fn groups_sort_by_path_components() {
    let g = |p: &str| (p.to_string(), vec![fref(p, 0, 0, 1, "x")]);
    let groups = || vec![g("/w/z.rs"), g("/w/b.rs"), g("/w/a-b.rs"), g("/w/a/b.rs")];
    let paths = |r: &Vec<(String, Vec<FileReference>)>| r.iter().map(|x| x.0.clone()).collect::<Vec<_>>();
    // The open file's group stays first; `/w/a/b.rs` sorts before `/w/a-b.rs` as paths compare by component.
    assert_eq!(paths(&order_groups_by_path(groups(), true)), vec!["/w/z.rs", "/w/a/b.rs", "/w/a-b.rs", "/w/b.rs"]);
    // Without references in the open file, every group is sorted.
    assert_eq!(paths(&order_groups_by_path(groups(), false)), vec!["/w/a/b.rs", "/w/a-b.rs", "/w/b.rs", "/w/z.rs"]);
    assert_eq!(order_groups_by_path(vec![g("/w/z.rs")], true).len(), 1);
    assert!(order_groups_by_path(vec![], true).is_empty());
}
