//! Process metrics for the debug panel: memory and thread counts, the
//! subsystems' estimated memory, and byte counts for display.
use vstd::prelude::*;
use crate::text::{push_decimal, decimal};

verus! {

#[verifier::external_type_specification]
#[verifier::external_body]
pub struct ExInstant(std::time::Instant);

/// The current time.
///
/// Calls `Instant::now`; nothing is stated of the (opaque) result.
#[verifier::external_body]
fn instant_now() -> std::time::Instant {
    std::time::Instant::now()
}

/// Estimated memory of the app's subsystems.
#[derive(Clone, Debug, Default)]
pub struct SubsystemMetrics {
    /// Terminal grids, all terminals together.
    pub terminal_grid_bytes: usize,
    /// Per terminal: (total lines, columns, estimated bytes).
    pub terminal_details: Vec<(usize, usize, usize)>,
    /// The working-tree diff panel.
    pub git_diff_bytes: usize,
    pub git_diff_files: usize,
    /// The pull request diff panel.
    pub pr_diff_bytes: usize,
    pub pr_diff_files: usize,
}

/// A snapshot of the process's metrics.
pub struct ProcessMetrics {
    /// Resident (physical) memory in bytes.
    pub resident_bytes: u64,
    /// Virtual memory in bytes.
    pub virtual_bytes: u64,
    pub thread_count: u32,
    /// Terminal tabs over all workspaces.
    pub terminal_count: usize,
    pub workspace_count: usize,
    /// When the snapshot was taken.
    pub sampled_at: std::time::Instant,
    pub subsystems: SubsystemMetrics,
}

/// The subsystems' tracked total.
pub open spec fn tracked_spec(s: SubsystemMetrics) -> int {
    s.terminal_grid_bytes + s.git_diff_bytes + s.pr_diff_bytes
}

impl ProcessMetrics {
    /// A snapshot, taken now, from the operating system's figures for the
    /// process (resident bytes, virtual bytes, thread count; zeros where the
    /// platform has no such query) and the app's own counts.
    ///
    /// `sampled_at` is the clock read at the call; nothing more is stated
    /// of it.
    pub fn collect(
        task_info: (u64, u64, u32),
        terminal_count: usize,
        workspace_count: usize,
        subsystems: SubsystemMetrics,
    ) -> (m: Self)
        ensures
            (m.resident_bytes, m.virtual_bytes, m.thread_count) == task_info,
            m.terminal_count == terminal_count,
            m.workspace_count == workspace_count,
            m.subsystems == subsystems,
    {
        let (resident_bytes, virtual_bytes, thread_count) = task_info;
        ProcessMetrics {
            resident_bytes,
            virtual_bytes,
            thread_count,
            terminal_count,
            workspace_count,
            sampled_at: instant_now(),
            subsystems,
        }
    }

    /// Resident memory for display.
    pub fn resident_display(&self) -> (s: String)
        ensures
            s@ == format_bytes_spec(self.resident_bytes as nat),
    {
        format_bytes(self.resident_bytes)
    }

    /// Virtual memory for display.
    pub fn virtual_display(&self) -> (s: String)
        ensures
            s@ == format_bytes_spec(self.virtual_bytes as nat),
    {
        format_bytes(self.virtual_bytes)
    }

    /// The subsystems' estimated total.
    pub fn tracked_total(&self) -> (n: usize)
        requires
            tracked_spec(self.subsystems) <= usize::MAX,
        ensures
            n == tracked_spec(self.subsystems),
    {
        self.subsystems.terminal_grid_bytes + self.subsystems.git_diff_bytes + self.subsystems.pr_diff_bytes
    }

    /// Resident memory the subsystems do not account for (0 when they
    /// account for more).
    pub fn untracked_bytes(&self) -> (n: u64)
        requires
            tracked_spec(self.subsystems) <= usize::MAX,
        ensures
            n == if self.resident_bytes >= tracked_spec(self.subsystems) {
                self.resident_bytes - tracked_spec(self.subsystems)
            } else {
                0
            },
    {
        self.resident_bytes.saturating_sub(self.tracked_total() as u64)
    }
}

pub const KB: u64 = 1024;
pub const MB: u64 = 1048576;
pub const GB: u64 = 1073741824;

/// `n / d` rounded to the nearest integer, ties to the even one.
pub open spec fn round_half_even(n: nat, d: nat) -> nat {
    let q = n / d;
    let r = n % d;
    if 2 * r > d {
        q + 1
    } else if 2 * r < d {
        q
    } else if q % 2 == 0 {
        q
    } else {
        q + 1
    }
}

/// The spacing of 64-bit floats around `n` (1 below 2^53, doubling with
/// each binade).
pub open spec fn f64_step(n: nat) -> nat {
    if n < 0x20000000000000 {
        1
    } else if n < 0x40000000000000 {
        2
    } else if n < 0x80000000000000 {
        4
    } else if n < 0x100000000000000 {
        8
    } else if n < 0x200000000000000 {
        16
    } else if n < 0x400000000000000 {
        32
    } else if n < 0x800000000000000 {
        64
    } else if n < 0x1000000000000000 {
        128
    } else if n < 0x2000000000000000 {
        256
    } else if n < 0x4000000000000000 {
        512
    } else if n < 0x8000000000000000 {
        1024
    } else {
        2048
    }
}

/// The value `n as f64` holds: `n` rounded to the float spacing, ties to even.
pub open spec fn f64_of(n: nat) -> nat {
    round_half_even(n, f64_step(n)) * f64_step(n)
}

/// `format_bytes`: whole kilobytes below a megabyte, megabytes with one
/// decimal below a gigabyte, gigabytes with one decimal above (the
/// float value rounded as `{:.1}` / `{:.0}` print it, ties to even).
pub open spec fn format_bytes_spec(b: nat) -> Seq<char> {
    if b >= GB {
        let q = round_half_even(f64_of(b) * 10, GB as nat);
        decimal(q / 10) + "."@ + decimal(q % 10) + " GB"@
    } else if b >= MB {
        let q = round_half_even(b * 10, MB as nat);
        decimal(q / 10) + "."@ + decimal(q % 10) + " MB"@
    } else {
        decimal(round_half_even(b, KB as nat)) + " KB"@
    }
}

/// `n / d` rounded half to even, on integers.
fn div_round_half_even(n: u128, d: u128) -> (q: u128)
    requires
        d > 0,
        n / d < u128::MAX,
    ensures
        q == round_half_even(n as nat, d as nat),
{
    let q = n / d;
    let r = n % d;
    if r > d - r {
        q + 1
    } else if r < d - r {
        q
    } else if q % 2 == 0 {
        q
    } else {
        q + 1
    }
}

/// The float spacing around `n`.
fn f64_step_of(n: u64) -> (s: u64)
    ensures
        s == f64_step(n as nat),
        1 <= s <= 2048,
{
    if n < 0x20000000000000 {
        1
    } else if n < 0x40000000000000 {
        2
    } else if n < 0x80000000000000 {
        4
    } else if n < 0x100000000000000 {
        8
    } else if n < 0x200000000000000 {
        16
    } else if n < 0x400000000000000 {
        32
    } else if n < 0x800000000000000 {
        64
    } else if n < 0x1000000000000000 {
        128
    } else if n < 0x2000000000000000 {
        256
    } else if n < 0x4000000000000000 {
        512
    } else if n < 0x8000000000000000 {
        1024
    } else {
        2048
    }
}

/// A byte count for display: "512 KB", "1.5 MB", "2.0 GB".
pub fn format_bytes(bytes: u64) -> (s: String)
    ensures
        s@ == format_bytes_spec(bytes as nat),
{
    let mut s = String::new();
    if bytes >= GB {
        let step = f64_step_of(bytes);
        let k = div_round_half_even(bytes as u128, step as u128);
        assert(k <= bytes as nat / step as nat + 1) by (nonlinear_arith)
            requires
                k == round_half_even(bytes as nat, step as nat),
                step >= 1;
        assert(k * step <= bytes + step) by (nonlinear_arith)
            requires
                k <= bytes as nat / step as nat + 1,
                step >= 1;
        let f = k * (step as u128);
        let q = div_round_half_even(f * 10, GB as u128);
        assert(q / 10 <= u64::MAX) by (nonlinear_arith)
            requires
                q == round_half_even((f * 10) as nat, GB as nat),
                f <= 0x10000000000000800;
        push_decimal(&mut s, (q / 10) as u64);
        s.append(".");
        push_decimal(&mut s, (q % 10) as u64);
        s.append(" GB");
    } else if bytes >= MB {
        let q = div_round_half_even((bytes as u128) * 10, MB as u128);
        assert(q / 10 <= u64::MAX) by (nonlinear_arith)
            requires
                q == round_half_even((bytes * 10) as nat, MB as nat),
                bytes < GB;
        push_decimal(&mut s, (q / 10) as u64);
        s.append(".");
        push_decimal(&mut s, (q % 10) as u64);
        s.append(" MB");
    } else {
        let q = div_round_half_even(bytes as u128, KB as u128);
        assert(q <= u64::MAX) by (nonlinear_arith)
            requires
                q == round_half_even(bytes as nat, KB as nat),
                bytes < MB;
        push_decimal(&mut s, q as u64);
        s.append(" KB");
    }
    s
}

} // verus!
