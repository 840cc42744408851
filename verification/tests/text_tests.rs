use operator::text::{content_lines, join_lines, str_lines, split_lines, find_from, push_decimal, all_whitespace, lowercase_str, leading_ws_len};

fn lines(v: &[&str]) -> Vec<Vec<u8>> {
    v.iter().map(|s| s.as_bytes().to_vec()).collect()
}

#[test]
fn str_lines_follows_str_lines() {
    for text in ["", "a", "a\n", "a\nb", "a\r\nb\r\n", "\n", "\n\n", "x\r", "a\rb\nc", "one\ntwo\r\nthree"] {
        let expected: Vec<Vec<u8>> = text.lines().map(|l| l.as_bytes().to_vec()).collect();
        assert_eq!(str_lines(text.as_bytes()), expected, "text {:?}", text);
    }
}

#[test]
fn content_lines_of_empty_text_is_one_empty_line() {
    assert_eq!(content_lines(b""), vec![Vec::<u8>::new()]);
    assert_eq!(content_lines(b"a\r\nb\n"), lines(&["a", "b"]));
}

#[test]
fn split_lines_keeps_trailing_piece() {
    assert_eq!(split_lines(b"a\nb\n"), lines(&["a", "b", ""]));
    assert_eq!(split_lines(b""), lines(&[""]));
}

#[test]
fn join_lines_puts_line_feeds_between() {
    assert_eq!(join_lines(&lines(&["a", "", "b"])), b"a\n\nb".to_vec());
    assert_eq!(join_lines(&lines(&[""])), Vec::<u8>::new());
}

#[test]
fn reload_after_save_gives_the_lines_back() {
    for ls in [vec!["fn main() {", "    x", "}"], vec!["only"], vec![""], vec!["a", "", "c"], vec!["é", "ü"]] {
        let buf = lines(&ls);
        let saved = join_lines(&buf);
        assert_eq!(content_lines(&saved), buf);
    }
}

#[test]
fn find_from_finds_first_occurrence() {
    assert_eq!(find_from(b"abcabc", b"bc", 0), Some(1));
    assert_eq!(find_from(b"abcabc", b"bc", 2), Some(4));
    assert_eq!(find_from(b"abcabc", b"x", 0), None);
}

#[test]
fn push_decimal_writes_digits() {
    let mut s = String::from("n=");
    push_decimal(&mut s, 1234567890);
    assert_eq!(s, "n=1234567890");
    let mut z = String::new();
    push_decimal(&mut z, 0);
    assert_eq!(z, "0");
}

#[test]
fn whitespace_and_lowercase() {
    assert!(all_whitespace(" \t\u{3000}"));
    assert!(!all_whitespace(" x "));
    assert_eq!(lowercase_str("HeLLo"), b"hello".to_vec());
    assert_eq!(leading_ws_len(b"  \tx"), 3);
}
