use operator::metrics::{format_bytes, ProcessMetrics, SubsystemMetrics};

fn reference_format(bytes: u64) -> String {
    const KB: u64 = 1024;
    const MB: u64 = 1024 * KB;
    const GB: u64 = 1024 * MB;
    if bytes >= GB {
        format!("{:.1} GB", bytes as f64 / GB as f64)
    } else if bytes >= MB {
        format!("{:.1} MB", bytes as f64 / MB as f64)
    } else {
        format!("{:.0} KB", bytes as f64 / KB as f64)
    }
}

#[test]
fn format_bytes_half_kilobyte_rounds_to_even() {
    assert_eq!(format_bytes(512), "0 KB");
    assert_eq!(format_bytes(1536), "2 KB");
    assert_eq!(format_bytes(2560), "2 KB");
}

#[test]
fn format_bytes_exact_units() {
    assert_eq!(format_bytes(0), "0 KB");
    assert_eq!(format_bytes(1024), "1 KB");
    assert_eq!(format_bytes(1024 * 1024), "1.0 MB");
    assert_eq!(format_bytes(1024 * 1024 * 1024), "1.0 GB");
    assert_eq!(format_bytes(3 * 1024 * 1024 / 2), "1.5 MB");
}

#[test]
fn format_bytes_matches_float_formatting() {
    let mut values: Vec<u64> = vec![
        1, 511, 513, 1023, 1025, 1535, 1537, 1048575, 1048576, 1101004, 1153433, 1205862,
        1073741823, 1073741824, 1127428915, 1181116006, 1234803097, u64::MAX, u64::MAX - 1,
        (1u64 << 53) + 1, (1u64 << 54) + 3, 9007199254740993, 123456789012345,
    ];
    let mut x: u64 = 7;
    for _ in 0..20000 {
        x = x.wrapping_mul(6364136223846793005).wrapping_add(1442695040888963407);
        values.push(x >> (x % 64));
        values.push((x % 5000) * 1024 + 512);
        values.push((x % 5000) * 1024 * 1024 / 20 + (x % 7));
    }
    for v in values {
        assert_eq!(format_bytes(v), reference_format(v), "value {}", v);
    }
}

#[test]
fn process_metrics_displays_and_totals() {
    let subsystems = SubsystemMetrics { terminal_grid_bytes: 1000, git_diff_bytes: 200, pr_diff_bytes: 30, ..Default::default() };
    let m = ProcessMetrics::collect((3 * 1024 * 1024, 5 * 1024 * 1024 * 1024, 12), 4, 2, subsystems);
    assert_eq!(m.resident_display(), "3.0 MB");
    assert_eq!(m.virtual_display(), "5.0 GB");
    assert_eq!(m.tracked_total(), 1230);
    assert_eq!(m.untracked_bytes(), 3 * 1024 * 1024 - 1230);
    assert_eq!(m.thread_count, 12);
    assert_eq!(m.terminal_count, 4);
    assert_eq!(m.workspace_count, 2);
}

#[test]
fn untracked_bytes_saturates_at_zero() {
    let subsystems = SubsystemMetrics { terminal_grid_bytes: 5000, git_diff_bytes: 0, pr_diff_bytes: 0, ..Default::default() };
    let m = ProcessMetrics::collect((100, 0, 1), 0, 0, subsystems);
    assert_eq!(m.untracked_bytes(), 0);
}

#[test]
fn collect_reports_counts() {
    let m = ProcessMetrics::collect((0, 0, 0), 3, 1, SubsystemMetrics::default());
    assert_eq!(m.terminal_count, 3);
    assert_eq!(m.workspace_count, 1);
    assert_eq!(m.resident_bytes, 0);
    let m = ProcessMetrics::collect((4096, 8192, 7), 0, 0, SubsystemMetrics::default());
    assert_eq!((m.resident_bytes, m.virtual_bytes, m.thread_count), (4096, 8192, 7));
}
