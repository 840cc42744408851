use operator::diff::{flatten_file_lines, DiffFile, DiffHunk, DiffLine, DiffLineKind, ExpandDirection, FileStatus, LineSegment, SourceLine};
use operator::flat::{build_flat_rows, FileShape, FlatRow};

fn line(kind: DiffLineKind, text: &str, old: Option<u32>, new: Option<u32>) -> DiffLine {
    DiffLine { kind, content: text.to_string(), old_lineno: old, new_lineno: new, highlights: None }
}

/// Eight context lines, one added line, eight context lines.
fn sample_file(with_source: bool) -> DiffFile {
    let mut lines = Vec::new();
    for i in 1..=8u32 {
        lines.push(line(DiffLineKind::Context, &format!("c{}", i), Some(i), Some(i)));
    }
    lines.push(line(DiffLineKind::Added, "new", None, Some(9)));
    for i in 9..=16u32 {
        lines.push(line(DiffLineKind::Context, &format!("c{}", i), Some(i), Some(i + 1)));
    }
    let source_lines = if with_source {
        Some((1..=20).map(|i| SourceLine { content: format!("s{}", i), highlights: None }).collect())
    } else {
        None
    };
    DiffFile {
        path: "src/lib.rs".to_string(),
        status: FileStatus::Modified,
        old_path: None,
        hunks: vec![DiffHunk { _header: "@@".to_string(), lines }],
        source_lines,
    }
}

fn describe(segs: &[LineSegment]) -> Vec<String> {
    segs.iter()
        .map(|s| match s {
            LineSegment::Line(l) => format!("L:{}", l.content),
            LineSegment::CollapsedContext { count, hunk_idx, direction } => {
                format!("C:{}:{}:{}", count, hunk_idx, if *direction == ExpandDirection::Top { "top" } else { "bottom" })
            }
        })
        .collect()
}

#[test]
fn flatten_shows_three_lines_of_context() {
    let f = sample_file(false);
    let segs = flatten_file_lines(&f, &vec![(0, 0)]).unwrap();
    assert_eq!(
        describe(&segs),
        vec!["C:5:0:top", "L:c6", "L:c7", "L:c8", "L:new", "L:c9", "L:c10", "L:c11", "C:5:0:bottom"]
    );
}

#[test]
fn flatten_expands_context_within_the_hunk() {
    let f = sample_file(false);
    let segs = flatten_file_lines(&f, &vec![(2, 20)]).unwrap();
    // Lines 3..17 of the hunk are shown: the change reaches the hunk's end.
    assert_eq!(describe(&segs)[0], "C:3:0:top");
    assert_eq!(segs.len(), 1 + 14);
}

#[test]
fn flatten_with_source_reaches_the_file_start() {
    let f = sample_file(true);
    let segs = flatten_file_lines(&f, &vec![(10, 0)]).unwrap();
    let d = describe(&segs);
    assert_eq!(d[0], "L:c1");
    // Five hunk lines stay hidden, then the three file lines after the hunk.
    assert_eq!(d[d.len() - 2], "C:5:0:bottom");
    assert_eq!(d.last().unwrap(), "C:3:0:bottom");
    assert_eq!(segs.len(), 12 + 2);
}

#[test]
fn flatten_with_source_shows_lines_after_the_hunk() {
    let f = sample_file(true);
    let segs = flatten_file_lines(&f, &vec![(0, 8)]).unwrap();
    let d = describe(&segs);
    // The hunk ends at new line 17; eleven extra lines below reach 20.
    assert_eq!(d.last().unwrap(), "L:s20");
    assert!(d.contains(&"L:s18".to_string()));
}

#[test]
fn additions_and_deletions_count_lines() {
    let mut f = sample_file(false);
    f.hunks[0].lines.push(line(DiffLineKind::Removed, "gone", Some(17), None));
    assert_eq!(f.additions(), 1);
    assert_eq!(f.deletions(), 1);
}

#[test]
fn flat_rows_of_a_file() {
    let f = sample_file(false);
    let segs = flatten_file_lines(&f, &vec![(0, 0)]).unwrap();
    let (rows, starts, texts) = build_flat_rows(&vec![segs], &vec![FileShape::Body], false, 1);
    assert_eq!(starts, vec![0]);
    assert_eq!(rows[0], FlatRow::FileHeader { file_idx: 0 });
    assert_eq!(rows.len(), 1 + 9);
    assert_eq!(texts.len(), 7);
    assert_eq!(texts[3], "new");
    match rows[1] {
        FlatRow::CollapsedContext { count, direction, .. } => {
            assert_eq!(count, 5);
            assert_eq!(direction, ExpandDirection::Top);
        }
        _ => panic!("expected a collapsed row"),
    }
    match rows[9] {
        FlatRow::CollapsedContext { is_last_in_file, .. } => assert!(is_last_in_file),
        _ => panic!("expected a collapsed row"),
    }
}

#[test]
fn flat_rows_of_collapsed_and_empty_files() {
    let (rows, starts, texts) = build_flat_rows(&vec![vec![], vec![]], &vec![FileShape::Collapsed, FileShape::Empty], false, 2);
    assert_eq!(rows, vec![FlatRow::FileHeader { file_idx: 0 }, FlatRow::FileHeader { file_idx: 1 }, FlatRow::EmptyFile { file_idx: 1 }]);
    assert_eq!(starts, vec![0, 1]);
    assert!(texts.is_empty());
}

#[test]
fn split_rows_keep_one_copy_text_per_line() {
    let lines = vec![
        line(DiffLineKind::Context, "ctx", Some(1), Some(1)),
        line(DiffLineKind::Removed, "old a", Some(2), None),
        line(DiffLineKind::Removed, "old b", Some(3), None),
        line(DiffLineKind::Added, "new a", None, Some(2)),
        line(DiffLineKind::Added, "new c", None, Some(3)),
        line(DiffLineKind::Added, "new d", None, Some(4)),
    ];
    let segs: Vec<LineSegment> = lines.into_iter().map(LineSegment::Line).collect();
    let (rows, _, texts) = build_flat_rows(&vec![segs], &vec![FileShape::Body], true, 1);
    // Context, then three pairs: (old a, new a), (old b, new c), (-, new d).
    assert_eq!(rows.len(), 1 + 4);
    assert_eq!(texts, vec!["ctx", "old a", "old b", "new d"]);
    match rows[4] {
        FlatRow::SplitLine { left_seg, right_seg, global_line_idx, is_last_in_file, .. } => {
            assert_eq!((left_seg, right_seg, global_line_idx, is_last_in_file), (None, Some(5), 3, true));
        }
        _ => panic!("expected a split row"),
    }
}

#[test]
fn more_context_only_adds_lines() {
    let mut lines = Vec::new();
    for i in 1..=12u32 {
        lines.push(DiffLine { kind: DiffLineKind::Context, content: format!("c{}", i), old_lineno: Some(i), new_lineno: Some(i), highlights: None });
    }
    lines.push(DiffLine { kind: DiffLineKind::Added, content: "new".to_string(), old_lineno: None, new_lineno: Some(13), highlights: None });
    for i in 14..=25u32 {
        lines.push(DiffLine { kind: DiffLineKind::Context, content: format!("c{}", i), old_lineno: Some(i - 1), new_lineno: Some(i), highlights: None });
    }
    let f = DiffFile {
        path: "x.rs".to_string(),
        status: FileStatus::Modified,
        old_path: None,
        hunks: vec![DiffHunk { _header: "@@".to_string(), lines }],
        source_lines: None,
    };
    let shown = |exps: Vec<(usize, usize)>| -> (Vec<String>, usize) {
        let segs = flatten_file_lines(&f, &exps).unwrap();
        let mut ls = Vec::new();
        let mut hidden = 0;
        for s in &segs {
            match s {
                LineSegment::Line(l) => ls.push(l.content.clone()),
                LineSegment::CollapsedContext { count, .. } => hidden += count,
            }
        }
        (ls, hidden)
    };
    let (few, hidden_few) = shown(vec![(0, 0)]);
    let (more, hidden_more) = shown(vec![(5, 2)]);
    assert_eq!(few, vec!["c10", "c11", "c12", "new", "c14", "c15", "c16"]);
    assert_eq!(few.len() + hidden_few, 25);
    assert_eq!(more.len() + hidden_more, 25);
    assert_eq!(more.first().map(String::as_str), Some("c5"));
    assert_eq!(more.last().map(String::as_str), Some("c18"));
    let mut it = more.iter();
    for l in &few {
        assert!(it.any(|m| m == l), "{} missing", l);
    }
}
