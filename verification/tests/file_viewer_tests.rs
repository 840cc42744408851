use operator::file_viewer::{comment_prefix, occurrences_in, search_lines, FileViewer, KeyAction, KeyResult, Keystroke, VimMode};
use operator::text::content_lines;

fn key(k: &str) -> Keystroke {
    Keystroke { key: k.to_string(), key_char: None, platform: false, shift: false, alt: false, control: false }
}

fn typed(c: &str) -> Keystroke {
    Keystroke { key: c.to_string(), key_char: Some(c.to_string()), platform: false, shift: false, alt: false, control: false }
}

fn cmd(k: &str, shift: bool) -> Keystroke {
    Keystroke { key: k.to_string(), key_char: None, platform: true, shift, alt: false, control: false }
}

fn viewer(path: &str, text: &str) -> FileViewer {
    let mut v = FileViewer::open(path.to_string());
    v.apply_loaded_buffer(content_lines(text.as_bytes()));
    v
}

fn text_of(v: &FileViewer) -> Vec<String> {
    v.lines().iter().map(|l| String::from_utf8(l.clone()).unwrap()).collect()
}

fn handled() -> KeyAction {
    KeyAction::Key { result: KeyResult::Handled, clipboard: None }
}

#[test]
fn loaded_text_saves_back_joined_by_line_feeds() {
    let v = viewer("src/main.rs", "fn main() {\n    x\n}\n");
    assert_eq!(text_of(&v), vec!["fn main() {", "    x", "}"]);
    assert_eq!(v.save_content(), b"fn main() {\n    x\n}".to_vec());
    assert_eq!((v.cursor_row(), v.cursor_col()), (0, 0));
    assert_eq!(v.vim_mode(), VimMode::Normal);
    let e = FileViewer::new_empty("Untitled-1".to_string());
    assert_eq!(text_of(&e), vec![""]);
}

#[test]
fn typing_run_is_undone_at_once_and_redone() {
    let mut v = viewer("notes.txt", "");
    assert_eq!(v.handle_key_down(&typed("a"), false, None, 0), handled());
    assert_eq!(v.handle_key_down(&typed("b"), false, None, 500), handled());
    assert_eq!(text_of(&v), vec!["ab"]);
    // A pause of more than a second starts a new group.
    v.handle_key_down(&typed("c"), false, None, 2000);
    assert_eq!(text_of(&v), vec!["abc"]);
    v.handle_key_down(&cmd("z", false), false, None, 2100);
    assert_eq!(text_of(&v), vec!["ab"]);
    v.handle_key_down(&cmd("z", false), false, None, 2200);
    assert_eq!(text_of(&v), vec![""]);
    v.handle_key_down(&cmd("z", true), false, None, 2300);
    assert_eq!(text_of(&v), vec!["ab"]);
    assert_eq!(v.cursor_col(), 2);
}

#[test]
fn whitespace_after_a_word_starts_a_new_undo_group() {
    let mut v = viewer("notes.txt", "");
    v.insert_text("x", 0);
    v.insert_text(" ", 10);
    v.insert_text("y", 20);
    assert_eq!(text_of(&v), vec!["x y"]);
    v.undo();
    assert_eq!(text_of(&v), vec!["x "]);
    v.undo();
    assert_eq!(text_of(&v), vec!["x"]);
    v.redo();
    v.redo();
    assert_eq!(text_of(&v), vec!["x y"]);
}

#[test]
fn enter_splits_and_backspace_joins() {
    let mut v = viewer("a.txt", "hello");
    v.handle_key_down(&key("right"), false, None, 0);
    v.handle_key_down(&key("right"), false, None, 0);
    v.handle_key_down(&key("enter"), false, None, 0);
    assert_eq!(text_of(&v), vec!["he", "llo"]);
    assert_eq!((v.cursor_row(), v.cursor_col()), (1, 0));
    v.handle_key_down(&key("backspace"), false, None, 0);
    assert_eq!(text_of(&v), vec!["hello"]);
    assert_eq!((v.cursor_row(), v.cursor_col()), (0, 2));
    v.handle_key_down(&key("delete"), false, None, 0);
    assert_eq!(text_of(&v), vec!["helo"]);
    v.handle_key_down(&key("tab"), false, None, 0);
    assert_eq!(text_of(&v), vec!["he    lo"]);
}

#[test]
fn cursor_steps_over_multibyte_characters() {
    let mut v = viewer("a.txt", "héllo");
    v.move_right();
    v.move_right();
    assert_eq!(v.cursor_col(), 3);
    v.move_left();
    assert_eq!(v.cursor_col(), 1);
    v.delete_forward(0);
    assert_eq!(text_of(&v), vec!["hllo"]);
}

#[test]
fn vim_normal_mode_commands() {
    let mut v = viewer("a.txt", "one two\nsecond\nthird");
    assert_eq!(v.handle_key_down(&typed("w"), true, None, 0), handled());
    assert_eq!(v.cursor_col(), 4);
    v.handle_key_down(&typed("x"), true, None, 0);
    assert_eq!(text_of(&v), vec!["one wo", "second", "third"]);
    v.handle_key_down(&typed("j"), true, None, 0);
    v.handle_key_down(&typed("d"), true, None, 0);
    v.handle_key_down(&typed("d"), true, None, 0);
    assert_eq!(text_of(&v), vec!["one wo", "third"]);
    assert_eq!(v.cursor_row(), 1);
    v.handle_key_down(&typed("u"), true, None, 0);
    assert_eq!(text_of(&v), vec!["one wo", "second", "third"]);
    v.handle_key_down(&typed("G"), true, None, 0);
    assert_eq!(v.cursor_row(), 2);
    v.handle_key_down(&typed("g"), true, None, 0);
    v.handle_key_down(&typed("g"), true, None, 0);
    assert_eq!((v.cursor_row(), v.cursor_col()), (0, 0));
}

#[test]
fn vim_insert_mode_and_escape() {
    let mut v = viewer("a.txt", "ab");
    v.handle_key_down(&typed("A"), true, None, 0);
    assert_eq!(v.vim_mode(), VimMode::Insert);
    assert_eq!(v.vim_mode().label(), "INSERT");
    v.handle_key_down(&typed("c"), true, None, 0);
    assert_eq!(text_of(&v), vec!["abc"]);
    v.handle_key_down(&key("escape"), true, None, 0);
    assert_eq!(v.vim_mode(), VimMode::Normal);
    assert_eq!(v.cursor_col(), 2);
    v.handle_key_down(&typed("o"), true, None, 0);
    assert_eq!(text_of(&v), vec!["abc", ""]);
    assert_eq!(v.vim_mode(), VimMode::Insert);
    assert_eq!(v.cursor_row(), 1);
}

#[test]
fn vim_visual_line_deletes_whole_lines() {
    let mut v = viewer("a.txt", "a\nb\nc\nd");
    v.handle_key_down(&typed("j"), true, None, 0);
    v.handle_key_down(&typed("V"), true, None, 0);
    assert_eq!(v.vim_mode(), VimMode::VisualLine);
    v.handle_key_down(&typed("j"), true, None, 0);
    assert_eq!(v.visual_line_range(), (1, 2));
    v.handle_key_down(&typed("d"), true, None, 0);
    assert_eq!(text_of(&v), vec!["a", "d"]);
    assert_eq!(v.vim_mode(), VimMode::Normal);
}

#[test]
fn select_all_copy_and_cut() {
    let mut v = viewer("a.txt", "ab\ncd");
    v.select_all();
    assert_eq!(v.selected_text(), Some(b"ab\ncd".to_vec()));
    let a = v.handle_key_down(&cmd("c", false), false, None, 0);
    assert_eq!(a, KeyAction::Key { result: KeyResult::Handled, clipboard: Some(b"ab\ncd".to_vec()) });
    let a = v.handle_key_down(&cmd("x", false), false, None, 0);
    assert_eq!(a, KeyAction::Key { result: KeyResult::Handled, clipboard: Some(b"ab\ncd".to_vec()) });
    assert_eq!(text_of(&v), vec![""]);
    v.handle_key_down(&cmd("v", false), false, Some("x\ny"), 0);
    assert_eq!(text_of(&v), vec!["x", "y"]);
    assert_eq!(v.handle_key_down(&cmd("s", false), false, None, 0), KeyAction::PassThrough);
}

#[test]
fn line_comments_toggle_at_the_least_indent() {
    let mut v = viewer("src/lib.rs", "    let a = 1;\n\n  let b = 2;");
    v.mouse_down(0, 0, 1);
    v.mouse_drag(2, 3);
    v.mouse_up(2, 3);
    assert_eq!(v.toggle_line_comment(0), KeyResult::Handled);
    assert_eq!(text_of(&v), vec!["  //   let a = 1;", "", "  // let b = 2;"]);
    assert_eq!(v.toggle_line_comment(0), KeyResult::Handled);
    assert_eq!(text_of(&v), vec!["    let a = 1;", "", "  let b = 2;"]);
    let mut p = viewer("script.py", "x = 1");
    p.toggle_line_comment(0);
    assert_eq!(text_of(&p), vec!["# x = 1"]);
    let mut t = viewer("notes.txt", "x");
    assert_eq!(t.toggle_line_comment(0), KeyResult::Handled);
    assert_eq!(text_of(&t), vec!["x"]);
    assert_eq!(comment_prefix("lua"), Some("--"));
    assert_eq!(comment_prefix("md"), None);
}

#[test]
fn whole_word_occurrences_in_document_order() {
    let lines = content_lines(b"foo food foo\nbar_foo foo");
    assert_eq!(occurrences_in(&lines, b"foo"), vec![(0, 0, 3), (0, 9, 12), (1, 8, 11)]);
    let v = viewer("a.rs", "let foo_bar = 1;");
    assert_eq!(v.word_at(0, 6), Some((4, 11)));
    assert_eq!(v.word_at(0, 3), Some((0, 3)));
    assert_eq!(v.find_all_occurrences(b"foo_bar"), vec![(0, 4, 11)]);
}

#[test]
fn search_is_case_insensitive_and_moves_the_cursor() {
    let mut v = viewer("a.txt", "Alpha beta\nALPHA");
    v.open_search();
    assert!(v.set_search_query("alpha".to_string()));
    v.search_next();
    assert_eq!((v.cursor_row(), v.cursor_col()), (1, 0));
    v.close_search();
    let lines = content_lines(b"aaa");
    assert_eq!(search_lines(&lines, &b"aa".to_vec(), 2), Some(vec![(0, 0, 2), (0, 1, 3)]));
}

#[test]
fn navigate_to_line_clamps_to_the_buffer() {
    let mut v = viewer("a.txt", "a\nbb\nccc");
    v.navigate_to_line(2, Some((1, 2)));
    assert_eq!((v.cursor_row(), v.cursor_col()), (1, 1));
    v.navigate_to_line(99, None);
    assert_eq!((v.cursor_row(), v.cursor_col()), (2, 0));
    v.navigate_to_line(0, None);
    assert_eq!(v.cursor_row(), 0);
}

#[test]
fn click_position_counts_characters() {
    let v = viewer("a.txt", "héllo");
    assert_eq!(v.click_position(0, 0, 2), (0, 3));
    assert_eq!(v.click_position(0, 0, 99), (0, 6));
}

#[test]
fn find_key_toggles_the_search() {
    let mut v = viewer("a.txt", "abc");
    v.handle_find();
    assert!(v.search_active);
    v.set_search_query("b".to_string());
    v.handle_find();
    assert!(!v.search_active);
    assert_eq!(v.search_query, "");
}
