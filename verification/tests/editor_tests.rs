use operator::diff::{DiffFile, FileStatus};
use operator::editor::{is_ignored_name, tree_children, untitled_name, DirChild, EditorTabs, FileTree};
use operator::styles::{merge_highlights, Style};
use operator::tree::{build_file_tree, split_path, TreeNode};

fn child(name: &str, is_dir: bool) -> DirChild {
    DirChild { name: name.to_string(), path: format!("/w/{}", name), is_dir }
}

fn names(v: &[DirChild]) -> Vec<&str> {
    v.iter().map(|c| c.name.as_str()).collect()
}

#[test]
fn untitled_names_count_from_two() {
    assert_eq!(untitled_name(1), "Untitled");
    assert_eq!(untitled_name(2), "Untitled-2");
    assert_eq!(untitled_name(10), "Untitled-10");
}

#[test]
fn new_file_name_is_the_first_free_untitled_name() {
    let mut t: EditorTabs<u32> = EditorTabs::new("/w".to_string());
    assert_eq!(t.new_file_name(), "Untitled");
    let n = t.new_file_name();
    t.push_untitled(n, 1);
    assert_eq!(t.open_files[0].path, "/w/Untitled");
    assert_eq!(t.new_file_name(), "Untitled-2");
    t.push_file("/w/b.rs".to_string(), "Untitled-2".to_string(), 2);
    assert_eq!(t.new_file_name(), "Untitled-3");
    t.close_file(0);
    assert_eq!(t.new_file_name(), "Untitled");
}

#[test]
fn tabs_open_activate_and_close() {
    let mut t: EditorTabs<u32> = EditorTabs::new("/w".to_string());
    t.push_file("/w/a.rs".to_string(), "a.rs".to_string(), 1);
    t.push_file("/w/b.rs".to_string(), "b.rs".to_string(), 2);
    t.push_file("/w/c.rs".to_string(), "c.rs".to_string(), 3);
    assert_eq!(t.active_file_ix, 2);
    assert_eq!(t.find_open("/w/b.rs"), Some(1));
    assert_eq!(t.find_open("/w/z.rs"), None);
    assert!(t.activate_open("/w/b.rs"));
    assert_eq!(t.active_file_ix, 1);
    assert_eq!(t.selected_path.as_deref(), Some("/w/b.rs"));
    assert!(!t.activate_open("/w/z.rs"));
    assert_eq!(t.active_file_ix, 1);
    // Closing a tab before the active one keeps the same file active.
    t.close_file(0);
    assert_eq!(t.active_file_ix, 0);
    assert_eq!(t.selected_path.as_deref(), Some("/w/b.rs"));
    // Closing the last tab while it is active moves to the new last one.
    t.activate_open("/w/c.rs");
    t.close_file(1);
    assert_eq!(t.active_file_ix, 0);
    assert_eq!(t.selected_path.as_deref(), Some("/w/b.rs"));
    t.close_file(5);
    assert_eq!(t.open_files.len(), 1);
    t.close_file(0);
    assert!(t.open_files.is_empty());
    assert_eq!(t.selected_path, None);
}

#[test]
fn directory_entries_list_directories_first_by_lowercase_name() {
    let kids = vec![
        child("b.rs", false),
        child("target", true),
        child("Src", true),
        child("A.md", false),
        child("docs", true),
        child(".git", true),
        child("node_modules", true),
    ];
    let r = tree_children(&kids);
    assert_eq!(names(&r), vec!["docs", "Src", "A.md", "b.rs"]);
    assert!(is_ignored_name("__pycache__"));
    assert!(is_ignored_name(".DS_Store"));
    assert!(!is_ignored_name("src"));
}

#[test]
fn file_tree_groups_paths_under_directories() {
    let file = |p: &str, s: FileStatus| DiffFile { path: p.to_string(), status: s, old_path: None, hunks: vec![], source_lines: None };
    let files = vec![
        file("src/a.rs", FileStatus::Modified),
        file("README.md", FileStatus::Added),
        file("src/ui/b.rs", FileStatus::Deleted),
        file("src/c.rs", FileStatus::Modified),
    ];
    let tree = build_file_tree(&files);
    assert_eq!(tree.len(), 2);
    match &tree[0] {
        TreeNode::Dir { name, full_path, children } => {
            assert_eq!((name.as_str(), full_path.as_str()), ("src", "src"));
            assert_eq!(children.len(), 3);
            match &children[1] {
                TreeNode::Dir { name, full_path, children } => {
                    assert_eq!((name.as_str(), full_path.as_str()), ("ui", "src/ui"));
                    assert!(matches!(&children[0], TreeNode::File { file_idx: 2, status: FileStatus::Deleted, .. }));
                }
                _ => panic!("expected the ui directory"),
            }
            assert!(matches!(&children[2], TreeNode::File { name, file_idx: 3, .. } if name == "c.rs"));
        }
        _ => panic!("expected the src directory"),
    }
    assert!(matches!(&tree[1], TreeNode::File { name, file_idx: 1, status: FileStatus::Added } if name == "README.md"));
    assert_eq!(split_path("a//b"), vec!["a", "", "b"]);
}

fn style(color: Option<u32>, weight: Option<u32>) -> Style {
    Style { color, background_color: None, font_weight: weight, font_style: None, underline: None, strikethrough: None, fade_out: None }
}

#[test]
fn overlapping_styles_merge_into_segments() {
    let r = merge_highlights(vec![((0, 10), style(Some(1), None)), ((4, 6), style(None, Some(7)))]);
    assert_eq!(
        r,
        vec![((0, 4), style(Some(1), None)), ((4, 6), style(Some(1), Some(7))), ((6, 10), style(Some(1), None))]
    );
    // Later ranges win, and equal neighbours join.
    let r = merge_highlights(vec![((0, 5), style(Some(1), None)), ((0, 5), style(Some(2), None)), ((5, 8), style(Some(2), None))]);
    assert_eq!(r, vec![((0, 8), style(Some(2), None))]);
    // Gaps stay uncovered.
    let r = merge_highlights(vec![((0, 2), style(Some(1), None)), ((4, 6), style(Some(1), None))]);
    assert_eq!(r, vec![((0, 2), style(Some(1), None)), ((4, 6), style(Some(1), None))]);
    let one = vec![((3, 3), style(None, None))];
    assert_eq!(merge_highlights(one.clone()), one);
    let same = vec![((2, 2), style(Some(1), None)), ((2, 2), style(Some(3), None))];
    assert_eq!(merge_highlights(same.clone()), same);
}

fn listing_of(dir: &str, kids: &[(&str, bool)]) -> (String, Vec<DirChild>) {
    (
        dir.to_string(),
        kids.iter().map(|(n, d)| DirChild { name: n.to_string(), path: format!("{}/{}", dir, n), is_dir: *d }).collect(),
    )
}

#[test]
fn file_tree_rows_follow_the_expanded_directories() {
    let listings = vec![
        listing_of("/w", &[("main.rs", false), ("src", true), ("target", true), ("docs", true)]),
        listing_of("/w/src", &[("lib.rs", false), ("ui", true)]),
        listing_of("/w/src/ui", &[("view.rs", false)]),
        listing_of("/w/docs", &[("a.md", false)]),
    ];
    let mut t = FileTree::new("/w".to_string());
    t.rebuild_entries(&listings);
    let rows = |t: &FileTree| t.entries.iter().map(|e| format!("{}:{}", e.depth, e.name)).collect::<Vec<_>>();
    assert_eq!(rows(&t), vec!["0:docs", "0:src", "0:main.rs"]);
    t.toggle_dir("/w/src");
    assert!(t.is_expanded("/w/src"));
    t.rebuild_entries(&listings);
    assert_eq!(rows(&t), vec!["0:docs", "0:src", "1:ui", "1:lib.rs", "0:main.rs"]);
    t.toggle_dir("/w/src/ui");
    t.rebuild_entries(&listings);
    assert_eq!(rows(&t), vec!["0:docs", "0:src", "1:ui", "2:view.rs", "1:lib.rs", "0:main.rs"]);
    assert_eq!(t.entries[3].path, "/w/src/ui/view.rs");
    t.toggle_dir("/w/src");
    assert!(!t.is_expanded("/w/src"));
    assert!(t.is_expanded("/w/src/ui"));
    t.rebuild_entries(&listings);
    assert_eq!(rows(&t), vec!["0:docs", "0:src", "0:main.rs"]);
}

#[test]
fn equal_names_keep_their_order() {
    let r = tree_children(&vec![child("b", false), child("A", false), child("a", false), child("B", false)]);
    assert_eq!(names(&r), vec!["A", "a", "b", "B"]);
}

#[test]
fn merged_ranges_style_every_byte_as_the_inputs_do() {
    let a = style(Some(1), None);
    let b = style(None, Some(7));
    let c = style(Some(3), None);
    let input = vec![((0, 10), a), ((4, 12), b), ((6, 8), c), ((20, 20), c), ((15, 18), a)];
    let out = merge_highlights(input.clone());
    for x in 0..25usize {
        let mut covered = false;
        let mut st = style(None, None);
        for ((s, e), h) in &input {
            if *s <= x && x < *e {
                covered = true;
                st = Style {
                    color: h.color.or(st.color),
                    background_color: h.background_color.or(st.background_color),
                    font_weight: h.font_weight.or(st.font_weight),
                    font_style: h.font_style.or(st.font_style),
                    underline: h.underline.or(st.underline),
                    strikethrough: h.strikethrough.or(st.strikethrough),
                    fade_out: h.fade_out.or(st.fade_out),
                };
            }
        }
        let held: Vec<&((usize, usize), Style)> = out.iter().filter(|((s, e), _)| *s <= x && x < *e).collect();
        if covered {
            assert_eq!(held.len(), 1, "byte {}", x);
            assert_eq!(held[0].1, st, "byte {}", x);
        } else {
            assert!(held.is_empty(), "byte {}", x);
        }
    }
}
