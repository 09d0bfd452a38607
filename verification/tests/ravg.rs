use ravg::reader::{ravg_read, AccountingSnapshot, DecayParameters};

/// Scale of the fixed-point results when `frac_bits` is 10.
const S10: f64 = 1024.0;

fn as_real(fixed: u128, frac_bits: u32) -> f64 {
    fixed as f64 / (1u64 << frac_bits) as f64
}

// A query inside the snapshot's own half-life window (no boundary crossed):
// the elapsed half window contributes value * 0.5 to the current total, the
// decayed total stays untouched, and the blend halves the current total.
#[test]
fn case_a_half_window() {
    let r = ravg_read(100, 0, 0, 0, 500, 1000, 10);
    // current total: floor(100 * 500 * 1024 / 1000) = 50 * 1024
    // blend: 0 * (1 - 500/2000) + 51200 / 2
    assert_eq!(r, 25600);
    assert!((as_real(r, 10) - 25.0).abs() < 1e-9);
}

// A query 2.5 half-lives later (two boundaries crossed): the originating
// window's tail is decayed by 4, the one full intermediate window comes from
// table entry 0 (one window at weight 1/2), and half of the new window
// accrues to the current total.
#[test]
fn case_b_two_boundaries() {
    let r = ravg_read(100, 0, 0, 0, 2500, 1000, 10);
    // tail: floor(100 * 1000 * 1024 / 1000) / 4            = 25600
    // table entry 0: floor(100 * 524288 * 1024 / 1048576)  = 51200
    // current: floor(100 * 500 * 1024 / 1000)              = 51200
    // blend: floor(76800 * 1500 / 2000) + 51200 / 2        = 83200
    assert_eq!(r, 83200);
    assert!((as_real(r, 10) - 81.25).abs() < 1e-9);
    // Decay must keep the result under the no-decay extrapolation of the
    // half-window reading (25.0 over half a half-life, scaled to 2.5).
    let extrapolated = 25.0 * 5.0;
    assert!(as_real(r, 10) < extrapolated);
}

// Queries at or before the snapshot's capture time all read the same value
// as a query exactly at the capture time.
#[test]
fn clamping_idempotent() {
    let at_capture = ravg_read(7, 5000, 1234, 567, 5000, 100, 8);
    assert_eq!(ravg_read(7, 5000, 1234, 567, 0, 100, 8), at_capture);
    assert_eq!(ravg_read(7, 5000, 1234, 567, 10, 100, 8), at_capture);
    assert_eq!(ravg_read(7, 5000, 1234, 567, 4999, 100, 8), at_capture);
}

// With a zero rate the reading never increases as the query time advances.
#[test]
fn zero_value_monotonic_decay() {
    let mut previous = u128::MAX;
    let mut now: u64 = 0;
    while now <= 20_000 {
        let r = ravg_read(0, 0, 500_000, 300_000, now, 1000, 10);
        assert!(r <= previous);
        previous = r;
        now += 137;
    }
}

// The blended result moves smoothly across a half-life boundary: the steps
// just before, at, and just after the boundary are tiny compared to the
// per-window activity.
#[test]
fn boundary_continuity() {
    let before = as_real(ravg_read(100, 0, 0, 0, 1999, 1000, 10), 10);
    let at_boundary = as_real(ravg_read(100, 0, 0, 0, 2000, 1000, 10), 10);
    let after = as_real(ravg_read(100, 0, 0, 0, 2001, 1000, 10), 10);
    assert!((at_boundary - before).abs() < 0.1);
    assert!((after - at_boundary).abs() < 0.1);
    // The same at a boundary with accumulated history.
    let b2 = as_real(ravg_read(50, 1500, 40_000, 30_000, 2999, 1000, 10), 10);
    let a2 = as_real(ravg_read(50, 1500, 40_000, 30_000, 3000, 1000, 10), 10);
    let c2 = as_real(ravg_read(50, 1500, 40_000, 30_000, 3001, 1000, 10), 10);
    assert!((a2 - b2).abs() < 0.1);
    assert!((c2 - a2).abs() < 0.1);
}

// One clock tick never moves the reading by more than the per-tick drift:
// upward at most the rate over twice the half-life, downward at most the
// decayed total over twice the half-life plus the table tail, plus a few
// rounding units — with no jump where a boundary is crossed.
#[test]
fn single_step_bounded() {
    // rate 100 at frac_bits 10 over half-life 1000: drift 102400 / 2000.
    let drift: i128 = 102400 / 2000;
    for t in 0..5000u64 {
        let here = ravg_read(100, 250, 30_000, 7_000, t, 1000, 10) as i128;
        let next = ravg_read(100, 250, 30_000, 7_000, t + 1, 1000, 10) as i128;
        assert!(next - here <= drift + 8);
        // The decayed total never exceeds the starting totals plus two
        // windows of the rate here, so its drift stays under 100 units.
        assert!(here - next <= 100);
    }
}

// A constant rate held across many half-lives converges to the rate itself:
// the error shrinks monotonically and ends within the decay-sum table's
// tail, under one part in a million of the true mean.
#[test]
fn steady_state_convergence() {
    let mut last_error = f64::INFINITY;
    for n in 1..=150u64 {
        let r = as_real(ravg_read(100, 0, 0, 0, n * 1000, 1000, 10), 10);
        let error = (100.0 - r).abs();
        assert!(error <= last_error);
        last_error = error;
    }
    assert!(last_error < 0.01);
    // The limit keeps the table's closing gap of one part in 2^20 of the
    // rate (one fixed-point unit here): convergence is to 100 - 1/1024.
    assert!((last_error - 1.0 / S10).abs() < 1e-9);
}

// Past the end of the decay-sum table the largest constant is reused: a
// query 21 periods out and one 1000 periods out agree to within 1e-6
// relative — the asymptotic fallback is saturated.
#[test]
fn table_boundary_saturated() {
    let v: u64 = 1 << 40;
    let r21 = as_real(ravg_read(v, 0, 0, 0, 21_000, 1000, 10), 10);
    let r1000 = as_real(ravg_read(v, 0, 0, 0, 1_000_000, 1000, 10), 10);
    let relative = (r21 - r1000).abs() / r1000;
    assert!(relative < 1e-6);
    // Far beyond the table every trace of the pre-table state is gone: two
    // deep queries at the same window offset agree exactly.
    assert_eq!(
        ravg_read(v, 0, 9_999, 1_234, 150_000, 1000, 10),
        ravg_read(v, 0, 9_999, 1_234, 999_000, 1000, 10)
    );
}

// The struct-based reader and the unbundled-argument reader agree.
#[test]
fn snapshot_read_matches_ravg_read() {
    let snapshot = AccountingSnapshot {
        value: 42,
        updated_at: 777,
        decayed_total: 10_000,
        current_total: 2_000,
    };
    let params = DecayParameters { half_life: 250, frac_bits: 12 };
    for now in [0u64, 777, 800, 1000, 5000, 1_000_000] {
        assert_eq!(
            snapshot.read(now, &params),
            ravg_read(42, 777, 10_000, 2_000, now, 250, 12)
        );
    }
}

// An all-zero snapshot reads zero at any time.
#[test]
fn empty_snapshot_reads_zero() {
    assert_eq!(ravg_read(0, 0, 0, 0, 0, 1000, 10), 0);
    assert_eq!(ravg_read(0, 0, 0, 0, 123_456_789, 1000, 10), 0);
}

// The smallest half-life and zero fractional bits still read exactly.
#[test]
fn smallest_half_life() {
    // No boundary crossed (both times fall in the same unit window), so the
    // totals pass straight into the blend at offset zero.
    let r = ravg_read(5, 10, 100, 200, 10, 1, 0);
    assert_eq!(r, 200);
}

// Extreme inputs are absorbed, never rejected: the reader is total over
// its domain.
#[test]
fn extreme_inputs_are_defined() {
    let r = ravg_read(
        u64::MAX,
        u64::MAX - 1,
        u64::MAX,
        u64::MAX,
        u64::MAX,
        u32::MAX,
        20,
    );
    assert!(r > 0);
    let _ = ravg_read(u64::MAX, 0, u64::MAX, u64::MAX, u64::MAX, 1, 20);
}
