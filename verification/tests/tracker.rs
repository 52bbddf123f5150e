use simpletaskmgr::cpu_tracker::{CpuTracker, TickSample};
use simpletaskmgr::{CpuPercent, Process, UserFilter};

fn row(pid: i32) -> Process {
    Process::new(format!("proc{}", pid), pid, 0, "user".to_string(), CpuPercent::zero())
}

fn tick(pid: i32, user: u64, system: u64) -> TickSample {
    TickSample { pid, user_ticks: user, system_ticks: system }
}

fn pct(p: &CpuPercent) -> f64 {
    p.numer as f64 / p.denom as f64
}

const EPS: f64 = 1e-9;

#[test]
fn test_single_sample_is_cold_start() {
    // One recorded sample ever: cpu_percent must be exactly zero.
    let mut t = CpuTracker::with_config(0, 100, 1000);
    let mut ps = vec![row(1)];
    t.update(&mut ps, &vec![tick(1, 100, 0)], 0);
    assert_eq!(pct(&ps[0].cpu_percent), 0.0);
    assert_eq!(t.sample_count(1), 1);
}

#[test]
fn test_full_core_reads_hundred_percent() {
    // (user=100, t=0s) then (user=200, t=1s) at 100 Hz: 100%.
    let mut t = CpuTracker::with_config(0, 100, 1000);
    let mut ps = vec![row(1)];
    t.update(&mut ps, &vec![tick(1, 100, 0)], 0);
    t.update(&mut ps, &vec![tick(1, 200, 0)], 1000);
    assert!((pct(&ps[0].cpu_percent) - 100.0).abs() < EPS);
}

#[test]
fn test_ten_percent_load() {
    // (user=100, t=0s) then (user=110, t=1s) at 100 Hz: 10%.
    let mut t = CpuTracker::with_config(0, 100, 1000);
    let mut ps = vec![row(1)];
    t.update(&mut ps, &vec![tick(1, 100, 0)], 0);
    t.update(&mut ps, &vec![tick(1, 110, 0)], 1000);
    assert!((pct(&ps[0].cpu_percent) - 10.0).abs() < EPS);
}

#[test]
fn test_window_formula_user_plus_system() {
    // d = 50 busy ticks over 2 s at 100 Hz: 100 * 50 / 200 = 25%.
    let mut t = CpuTracker::with_config(0, 100, 1000);
    let mut ps = vec![row(7)];
    t.update(&mut ps, &vec![tick(7, 0, 0)], 0);
    t.update(&mut ps, &vec![tick(7, 30, 20)], 2000);
    assert!((pct(&ps[0].cpu_percent) - 25.0).abs() < EPS);
}

#[test]
fn test_history_never_exceeds_capacity() {
    // Many updates: the window stays at five samples, so the oldest
    // observations fall out of the estimate.
    let mut t = CpuTracker::with_config(0, 100, 1000);
    let mut ps = vec![row(1)];
    for k in 0..10u64 {
        t.update(&mut ps, &vec![tick(1, 10 * k, 0)], 1000 * k);
        assert!(t.sample_count(1) <= 5);
    }
    assert_eq!(t.sample_count(1), 5);
    // Window spans the last 4 seconds: d = 40 ticks, 10%.
    assert!((pct(&ps[0].cpu_percent) - 10.0).abs() < EPS);
}

#[test]
fn test_window_spans_oldest_to_newest() {
    // A burst that has left the five-sample window no longer counts.
    let mut t = CpuTracker::with_config(0, 100, 1000);
    let mut ps = vec![row(1)];
    // Burst of 100 ticks in the first second, then idle.
    let counters = [0u64, 100, 100, 100, 100, 100, 100];
    for (k, &c) in counters.iter().enumerate() {
        t.update(&mut ps, &vec![tick(1, c, 0)], 1000 * k as u64);
    }
    // Window now holds the samples at t=2s..t=6s, all at 100 ticks.
    assert_eq!(pct(&ps[0].cpu_percent), 0.0);
}

#[test]
fn test_tick_regression_resets_history() {
    // A lower summed counter means the PID was recycled: the history
    // restarts at one sample and the percentage drops to zero.
    let mut t = CpuTracker::with_config(0, 100, 1000);
    let mut ps = vec![row(1)];
    t.update(&mut ps, &vec![tick(1, 5000, 0)], 0);
    t.update(&mut ps, &vec![tick(1, 5100, 0)], 1000);
    assert!(pct(&ps[0].cpu_percent) > 0.0);
    t.update(&mut ps, &vec![tick(1, 10, 0)], 2000);
    assert_eq!(t.sample_count(1), 1);
    assert_eq!(pct(&ps[0].cpu_percent), 0.0);
}

#[test]
fn test_after_regression_only_fresh_samples_count() {
    // The discarded window must not blend into the new lifetime.
    let mut t = CpuTracker::with_config(0, 100, 1000);
    let mut ps = vec![row(1)];
    t.update(&mut ps, &vec![tick(1, 5000, 0)], 0);
    t.update(&mut ps, &vec![tick(1, 10, 0)], 1000);
    t.update(&mut ps, &vec![tick(1, 20, 0)], 2000);
    assert_eq!(t.sample_count(1), 2);
    assert!((pct(&ps[0].cpu_percent) - 10.0).abs() < EPS);
}

#[test]
fn test_needs_update_throttle() {
    let t = CpuTracker::new(0);
    assert!(!t.needs_update(0));
    assert!(!t.needs_update(999));
    assert!(t.needs_update(1000));
    assert!(t.needs_update(5000));
}

#[test]
fn test_update_restarts_the_throttle() {
    let mut t = CpuTracker::new(0);
    let mut ps = vec![row(1)];
    t.update(&mut ps, &vec![tick(1, 0, 0)], 1500);
    assert!(!t.needs_update(1500));
    assert!(!t.needs_update(2499));
    assert!(t.needs_update(2500));
}

#[test]
fn test_update_throttles_even_with_no_processes() {
    let mut t = CpuTracker::new(0);
    let mut ps: Vec<Process> = vec![];
    t.update(&mut ps, &vec![], 1200);
    assert!(!t.needs_update(1200));
    assert!(t.needs_update(2200));
}

#[test]
fn test_absent_pid_evicted_after_two_cycles() {
    // Absent from two consecutive inputs: the record is gone, so the PID
    // behaves as a cold start when it reappears.
    let mut t = CpuTracker::with_config(0, 100, 1000);
    let mut one = vec![row(1)];
    let mut two = vec![row(2)];
    t.update(&mut one, &vec![tick(1, 100, 0)], 0);
    t.update(&mut one, &vec![tick(1, 200, 0)], 1000);
    assert!(pct(&one[0].cpu_percent) > 0.0);
    // PID 1 absent once: still remembered.
    t.update(&mut two, &vec![tick(2, 0, 0)], 2000);
    assert_eq!(t.sample_count(1), 2);
    // Absent a second time: evicted.
    t.update(&mut two, &vec![tick(2, 0, 0)], 3000);
    assert_eq!(t.sample_count(1), 0);
    // Reappears: cold start again.
    t.update(&mut one, &vec![tick(1, 300, 0)], 4000);
    assert_eq!(t.sample_count(1), 1);
    assert_eq!(pct(&one[0].cpu_percent), 0.0);
}

#[test]
fn test_absent_once_then_back_keeps_history() {
    let mut t = CpuTracker::with_config(0, 100, 1000);
    let mut one = vec![row(1)];
    let mut none: Vec<Process> = vec![];
    t.update(&mut one, &vec![tick(1, 100, 0)], 0);
    t.update(&mut none, &vec![], 1000);
    assert_eq!(t.sample_count(1), 1);
    // Back before the second absent cycle: the old sample still counts.
    t.update(&mut one, &vec![tick(1, 300, 0)], 2000);
    assert_eq!(t.sample_count(1), 2);
    assert!((pct(&one[0].cpu_percent) - 100.0).abs() < EPS);
}

#[test]
fn test_missing_ticks_leave_process_untouched() {
    // The PID exited between enumeration and the tick read: its
    // percentage and history stay as they were.
    let mut t = CpuTracker::with_config(0, 100, 1000);
    let mut ps = vec![row(1)];
    t.update(&mut ps, &vec![tick(1, 100, 0)], 0);
    t.update(&mut ps, &vec![tick(1, 150, 0)], 1000);
    let before = ps[0].cpu_percent;
    t.update(&mut ps, &vec![tick(9, 0, 0)], 2000);
    assert_eq!(ps[0].cpu_percent, before);
    assert_eq!(t.sample_count(1), 2);
}

#[test]
fn test_idle_process_is_zero_not_error() {
    // Identical ticks across the whole window: legitimately 0%.
    let mut t = CpuTracker::with_config(0, 100, 1000);
    let mut ps = vec![row(1)];
    for k in 0..6u64 {
        t.update(&mut ps, &vec![tick(1, 4242, 17)], 1000 * k);
    }
    assert_eq!(pct(&ps[0].cpu_percent), 0.0);
}

#[test]
fn test_zero_width_window_is_zero() {
    // Two samples at the same instant give no usable rate.
    let mut t = CpuTracker::with_config(0, 100, 1000);
    let mut ps = vec![row(1)];
    t.update(&mut ps, &vec![tick(1, 10, 0)], 500);
    t.update(&mut ps, &vec![tick(1, 99, 0)], 500);
    assert_eq!(pct(&ps[0].cpu_percent), 0.0);
}

#[test]
fn test_multicore_value_is_not_capped() {
    // 300 busy ticks in one second at 100 Hz: 300%, left uncapped.
    let mut t = CpuTracker::with_config(0, 100, 1000);
    let mut ps = vec![row(1)];
    t.update(&mut ps, &vec![tick(1, 0, 0)], 0);
    t.update(&mut ps, &vec![tick(1, 200, 100)], 1000);
    assert!((pct(&ps[0].cpu_percent) - 300.0).abs() < EPS);
}

#[test]
fn test_initialize_seeds_the_window() {
    // After an initialize, the first update already has two samples.
    let mut t = CpuTracker::with_config(0, 100, 1000);
    let mut ps = vec![row(1)];
    t.initialize(&ps, &vec![tick(1, 100, 0)], 0);
    assert_eq!(t.sample_count(1), 1);
    t.update(&mut ps, &vec![tick(1, 150, 0)], 1000);
    assert!((pct(&ps[0].cpu_percent) - 50.0).abs() < EPS);
}

#[test]
fn test_initialize_leaves_the_throttle_alone() {
    let mut t = CpuTracker::new(0);
    let ps = vec![row(1)];
    t.initialize(&ps, &vec![tick(1, 100, 0)], 600);
    assert!(!t.needs_update(999));
    assert!(t.needs_update(1000));
}

#[test]
fn test_two_processes_tracked_independently() {
    let mut t = CpuTracker::with_config(0, 100, 1000);
    let mut ps = vec![row(1), row(2)];
    t.update(&mut ps, &vec![tick(1, 0, 0), tick(2, 0, 0)], 0);
    t.update(&mut ps, &vec![tick(1, 50, 0), tick(2, 5, 0)], 1000);
    assert!((pct(&ps[0].cpu_percent) - 50.0).abs() < EPS);
    assert!((pct(&ps[1].cpu_percent) - 5.0).abs() < EPS);
    assert_eq!(ps[0].pid, 1);
    assert_eq!(ps[1].pid, 2);
}

#[test]
fn test_custom_tick_rate() {
    // 250 Hz host: 125 ticks in one second is 50%.
    let mut t = CpuTracker::with_config(0, 250, 1000);
    let mut ps = vec![row(1)];
    t.update(&mut ps, &vec![tick(1, 0, 0)], 0);
    t.update(&mut ps, &vec![tick(1, 125, 0)], 1000);
    assert!((pct(&ps[0].cpu_percent) - 50.0).abs() < EPS);
}

#[test]
fn test_cpu_percent_str_values() {
    let mut t = CpuTracker::with_config(0, 100, 1000);
    let mut ps = vec![row(1)];
    assert_eq!(ps[0].cpu_percent_str(), "0.0%");
    t.update(&mut ps, &vec![tick(1, 0, 0)], 0);
    t.update(&mut ps, &vec![tick(1, 100, 0)], 1000);
    assert_eq!(ps[0].cpu_percent_str(), "100.0%");
    t.update(&mut ps, &vec![tick(1, 130, 0)], 2000);
    // 130 ticks over 2 s: 65%.
    assert_eq!(ps[0].cpu_percent_str(), "65.0%");
}

#[test]
fn test_cpu_percent_str_rounds_half_up() {
    // 37 ticks over 3 s at 100 Hz: 12.333..% shows as "12.3%".
    let third = CpuPercent { numer: 3_700_000, denom: 300_000 };
    assert_eq!(third.render(), "12.3%");
    // Exactly 0.05%: the tenths digit rounds half away from zero.
    let half = CpuPercent { numer: 100_000, denom: 2_000_000 };
    assert_eq!(half.render(), "0.1%");
}

#[test]
fn test_render_falls_back_to_zero_on_malformed_value() {
    // A zero denominator cannot come out of the tracker; rendering such
    // a value falls back to zero instead of dividing by it.
    let bad = CpuPercent { numer: 5, denom: 0 };
    assert_eq!(bad.render(), "0.0%");
}

#[test]
fn test_initialize_applies_regression_policy() {
    // Seeding with counters below the recorded ones restarts the window.
    let mut t = CpuTracker::with_config(0, 100, 1000);
    let ps = vec![row(1)];
    t.initialize(&ps, &vec![tick(1, 900, 0)], 0);
    t.initialize(&ps, &vec![tick(1, 950, 0)], 500);
    assert_eq!(t.sample_count(1), 2);
    t.initialize(&ps, &vec![tick(1, 3, 0)], 1000);
    assert_eq!(t.sample_count(1), 1);
}

#[test]
fn test_user_filter_admits() {
    assert!(UserFilter::Current.admits(1000, 1000));
    assert!(!UserFilter::Current.admits(0, 1000));
    assert!(UserFilter::All.admits(0, 1000));
    assert!(UserFilter::All.admits(1000, 1000));
}
