//! The CPU utilization tracker.
//!
//! Each tracked process keeps a short FIFO window of tick samples; the
//! percentage over the window is the exact rational
//! `100 * busy_delta / (rate * elapsed)` (see [`crate::CpuPercent`]).

use vstd::prelude::*;

use crate::percent::{CpuPercent, MAX_BUSY_DELTA, PERCENT_SCALE};
use crate::Process;

verus! {

/// Bound on a process's history: samples beyond this are evicted oldest
/// first.
pub const HISTORY_CAP: usize = 5;

/// One observation of a process's cumulative CPU tick counters at one
/// instant.
#[derive(Clone, Copy, Debug, PartialEq, Eq, Structural)]
pub struct Sample {
    /// Cumulative user-mode ticks since the process started.
    pub user_ticks: u64,
    /// Cumulative kernel-mode ticks since the process started.
    pub system_ticks: u64,
    /// When the counters were read, in milliseconds of a monotonic clock.
    pub timestamp_ms: u64,
}

/// Summed user- and kernel-mode ticks of a sample.
pub open spec fn busy_ticks(s: Sample) -> int {
    s.user_ticks + s.system_ticks
}

/// Componentwise ordering of samples: counters and timestamp all at most
/// the other's.
pub open spec fn sample_le(a: Sample, b: Sample) -> bool {
    &&& a.user_ticks <= b.user_ticks
    &&& a.system_ticks <= b.system_ticks
    &&& a.timestamp_ms <= b.timestamp_ms
}

/// A well-formed history: at most `HISTORY_CAP` samples, ordered oldest
/// first with nondecreasing counters and timestamps.
pub open spec fn wf_history(h: Seq<Sample>) -> bool {
    &&& h.len() <= HISTORY_CAP
    &&& forall|i: int| 0 <= i < h.len() - 1 ==> sample_le(#[trigger] h[i], h[i + 1])
}

/// In a well-formed history every earlier sample is below every later one.
pub proof fn lemma_history_ordered(h: Seq<Sample>, i: int, j: int)
    requires
        wf_history(h),
        0 <= i <= j < h.len(),
    ensures
        sample_le(h[i], h[j]),
    decreases j - i,
{
    if i < j {
        lemma_history_ordered(h, i, j - 1);
        assert(sample_le(h[j - 1], h[j]));
    }
}

/// Tick regression: the new counters fell below the last recorded ones,
/// so the PID must have been recycled by a new process lifetime.
pub open spec fn regressed(h: Seq<Sample>, s: Sample) -> bool {
    h.len() > 0 && (s.user_ticks < h.last().user_ticks || s.system_ticks < h.last().system_ticks)
}

/// The history after recording `s` on top of `h`: a regression discards
/// the old window first, then `s` is appended, and the oldest sample is
/// evicted if the capacity is exceeded.
pub open spec fn stepped_history(h: Seq<Sample>, s: Sample) -> Seq<Sample> {
    let base = if regressed(h, s) {
        Seq::<Sample>::empty()
    } else {
        h
    };
    let grown = base.push(s);
    if grown.len() > HISTORY_CAP {
        grown.skip(1)
    } else {
        grown
    }
}

/// Records `s` at the tail of `h`, applying the regression reset and the
/// FIFO capacity bound.
pub fn record_sample(h: &mut Vec<Sample>, s: Sample)
    requires
        wf_history(old(h)@),
        old(h)@.len() > 0 ==> old(h)@.last().timestamp_ms <= s.timestamp_ms,
    ensures
        final(h)@ == stepped_history(old(h)@, s),
        wf_history(final(h)@),
        1 <= final(h)@.len(),
{
    if h.len() > 0 {
        let last: Sample = h[h.len() - 1];
        if s.user_ticks < last.user_ticks || s.system_ticks < last.system_ticks {
            h.clear();
        }
    }
    h.push(s);
    if h.len() > HISTORY_CAP {
        h.remove(0);
        proof {
            let ghost base = if regressed(old(h)@, s) {
                Seq::<Sample>::empty()
            } else {
                old(h)@
            };
            assert(h@ =~= base.push(s).skip(1));
        }
    }
    proof {
        assert(final(h)@ =~= stepped_history(old(h)@, s));
    }
}

/// The percentage a history shows: zero while fewer than two samples (or
/// a zero-width window) are recorded, else the exact rational
/// `100 * busy_delta / (rate * elapsed_seconds)` in percent units.
pub open spec fn window_percent(h: Seq<Sample>, rate: u64) -> CpuPercent {
    if h.len() < 2 {
        CpuPercent::spec_zero()
    } else {
        let d = busy_ticks(h.last()) - busy_ticks(h[0]);
        let e = h.last().timestamp_ms - h[0].timestamp_ms;
        if e <= 0 {
            CpuPercent::spec_zero()
        } else {
            CpuPercent { numer: (PERCENT_SCALE * d) as u128, denom: (rate * e) as u128 }
        }
    }
}

/// Computes the window percentage of a well-formed history.
pub fn window_percent_of(h: &Vec<Sample>, rate: u64) -> (r: CpuPercent)
    requires
        wf_history(h@),
        1 <= rate,
    ensures
        r == window_percent(h@, rate),
        r.wf(),
{
    if h.len() < 2 {
        return CpuPercent::zero();
    }
    let first: Sample = h[0];
    let last: Sample = h[h.len() - 1];
    proof {
        lemma_history_ordered(h@, 0, h@.len() - 1);
    }
    let e: u64 = last.timestamp_ms - first.timestamp_ms;
    if e == 0 {
        return CpuPercent::zero();
    }
    let first_busy: u128 = first.user_ticks as u128 + first.system_ticks as u128;
    let last_busy: u128 = last.user_ticks as u128 + last.system_ticks as u128;
    let d: u128 = last_busy - first_busy;
    assert(d <= MAX_BUSY_DELTA);
    let numer: u128 = PERCENT_SCALE * d;
    assert((rate as int) * (e as int) <= 0xFFFF_FFFF_FFFF_FFFF * 0xFFFF_FFFF_FFFF_FFFF && 1 <= (
    rate as int) * (e as int)) by (nonlinear_arith)
        requires
            1 <= rate <= 0xFFFF_FFFF_FFFF_FFFF,
            1 <= e <= 0xFFFF_FFFF_FFFF_FFFF,
    ;
    let denom: u128 = (rate as u128) * (e as u128);
    CpuPercent { numer, denom }
}

/// Cold start: a history of fewer than two samples always shows zero
/// percent.
pub proof fn lemma_cold_start_zero(h: Seq<Sample>, rate: u64)
    requires
        h.len() < 2,
    ensures
        window_percent(h, rate).is_zero(),
{
}

/// Recording a sample keeps the history within its capacity and never
/// leaves it empty.
pub proof fn lemma_step_bounded(h: Seq<Sample>, s: Sample)
    requires
        h.len() <= HISTORY_CAP,
    ensures
        stepped_history(h, s).len() <= HISTORY_CAP,
        1 <= stepped_history(h, s).len(),
{
}

/// Regression reset: a sample whose summed ticks fall below the last
/// recorded sample's restarts that history at length one, and the
/// percentage stays zero until two fresh samples accumulate.
pub proof fn lemma_regression_resets(h: Seq<Sample>, s: Sample, rate: u64)
    requires
        h.len() > 0,
        busy_ticks(s) < busy_ticks(h.last()),
    ensures
        regressed(h, s),
        stepped_history(h, s) == seq![s],
        window_percent(stepped_history(h, s), rate).is_zero(),
{
    assert(stepped_history(h, s) =~= seq![s]);
}

/// Window formula: with at least two samples whose counters grew by `d`
/// busy ticks over a positive span of `e` milliseconds, the percentage
/// is exactly the rational `(100_000 * d) / (rate * e)` — that is,
/// `100 * d / (rate * seconds)` percent, uncapped.
pub proof fn lemma_window_formula(h: Seq<Sample>, rate: u64)
    requires
        2 <= h.len(),
        h[0].timestamp_ms < h.last().timestamp_ms,
        busy_ticks(h[0]) <= busy_ticks(h.last()),
    ensures
        window_percent(h, rate).numer == PERCENT_SCALE * (busy_ticks(h.last()) - busy_ticks(
            h[0],
        )),
        window_percent(h, rate).denom == rate * (h.last().timestamp_ms - h[0].timestamp_ms),
{
    let d = busy_ticks(h.last()) - busy_ticks(h[0]);
    let e = h.last().timestamp_ms - h[0].timestamp_ms;
    assert(rate * e <= 0xFFFF_FFFF_FFFF_FFFF * 0xFFFF_FFFF_FFFF_FFFF) by (nonlinear_arith)
        requires
            0 <= rate <= 0xFFFF_FFFF_FFFF_FFFF,
            0 <= e <= 0xFFFF_FFFF_FFFF_FFFF,
    ;
    assert(PERCENT_SCALE * d == (PERCENT_SCALE * d) as u128);
    assert(rate * e == (rate * e) as u128);
}

/// One reading of the tick source for one process.
#[derive(Clone, Copy, Debug, PartialEq, Eq, Structural)]
pub struct TickSample {
    /// The process the counters belong to.
    pub pid: i32,
    /// Cumulative user-mode ticks since the process started.
    pub user_ticks: u64,
    /// Cumulative kernel-mode ticks since the process started.
    pub system_ticks: u64,
}

/// Per-PID record of the tracker: the sample window and how many
/// consecutive `update` inputs the PID has been absent from.
struct TrackEntry {
    pid: i32,
    samples: Vec<Sample>,
    missed: u32,
}

/// Maintains a rolling window of CPU tick samples per process and derives
/// a stable percentage estimate over that window, refreshed no more often
/// than once per configured interval.
pub struct CpuTracker {
    entries: Vec<TrackEntry>,
    last_update_ms: u64,
    clock_ms: u64,
    ticks_per_second: u64,
    interval_ms: u64,
}

/// Tick rate assumed when none is supplied: 100 Hz, the common Linux
/// `USER_HZ`.
pub const DEFAULT_TICKS_PER_SECOND: u64 = 100;

/// Default throttle interval: one second.
pub const DEFAULT_INTERVAL_MS: u64 = 1000;

spec fn entries_distinct(s: Seq<TrackEntry>) -> bool {
    forall|i: int, j: int| 0 <= i < j < s.len() ==> (#[trigger] s[i].pid) != (#[trigger] s[j].pid)
}

spec fn seq_has_pid(s: Seq<TrackEntry>, pid: int) -> bool {
    exists|i: int| 0 <= i < s.len() && (#[trigger] s[i].pid) == pid
}

spec fn pid_index(s: Seq<TrackEntry>, pid: int) -> int {
    choose|i: int| 0 <= i < s.len() && (#[trigger] s[i].pid) == pid
}

spec fn entry_of(s: Seq<TrackEntry>, pid: int) -> TrackEntry {
    s[pid_index(s, pid)]
}

/// An entry of a distinct sequence is found by its own PID.
proof fn lemma_entry_at(s: Seq<TrackEntry>, i: int)
    requires
        entries_distinct(s),
        0 <= i < s.len(),
    ensures
        seq_has_pid(s, s[i].pid as int),
        entry_of(s, s[i].pid as int) == s[i],
{
    let pid = s[i].pid as int;
    assert(seq_has_pid(s, pid));
    let k = pid_index(s, pid);
    if k != i {
        assert(s[k].pid == s[i].pid);
        assert(false);
    }
}

/// Pushing an entry extends membership by exactly its PID and leaves the
/// other entries where they were.
proof fn lemma_push_entry(s: Seq<TrackEntry>, e: TrackEntry, pid: int)
    requires
        entries_distinct(s),
        !seq_has_pid(s, e.pid as int),
    ensures
        entries_distinct(s.push(e)),
        seq_has_pid(s.push(e), pid) <==> (seq_has_pid(s, pid) || e.pid == pid),
        e.pid == pid ==> entry_of(s.push(e), pid) == e,
        e.pid != pid && seq_has_pid(s, pid) ==> entry_of(s.push(e), pid) == entry_of(s, pid),
{
    let t = s.push(e);
    assert forall|i: int, j: int| 0 <= i < j < t.len() implies (#[trigger] t[i].pid) != (
    #[trigger] t[j].pid) by {
        if j == s.len() {
            assert(t[i] == s[i]);
            if t[i].pid == e.pid {
                assert(seq_has_pid(s, e.pid as int));
            }
        } else {
            assert(t[i] == s[i] && t[j] == s[j]);
        }
    }
    if seq_has_pid(s, pid) {
        let k = pid_index(s, pid);
        assert(t[k] == s[k]);
        assert(seq_has_pid(t, pid));
    }
    assert(t[s.len() as int] == e);
    if e.pid == pid {
        assert(seq_has_pid(t, pid));
        lemma_entry_at(t, s.len() as int);
    }
    if seq_has_pid(t, pid) {
        let k = pid_index(t, pid);
        if e.pid != pid {
            assert(k < s.len());
            assert(t[k] == s[k]);
            assert(seq_has_pid(s, pid));
            if seq_has_pid(s, pid) {
                lemma_entry_at(s, k);
            }
        }
    }
}

impl CpuTracker {
    /// Whether the tracker currently holds a history for `pid`.
    pub closed spec fn has_pid(self, pid: int) -> bool {
        seq_has_pid(self.entries@, pid)
    }

    /// The sample window recorded for `pid` (meaningful when
    /// `has_pid(pid)`).
    pub closed spec fn history(self, pid: int) -> Seq<Sample> {
        entry_of(self.entries@, pid).samples@
    }

    /// How many consecutive `update` inputs `pid` has been absent from
    /// (meaningful when `has_pid(pid)`; an entry is evicted before this
    /// reaches two).
    pub closed spec fn missed(self, pid: int) -> nat {
        entry_of(self.entries@, pid).missed as nat
    }

    /// When `update` last ran, on the caller's monotonic clock.
    pub closed spec fn spec_last_update(self) -> u64 {
        self.last_update_ms
    }

    /// The latest instant the tracker has been shown; timestamps it
    /// stores never exceed this.
    pub closed spec fn spec_clock(self) -> u64 {
        self.clock_ms
    }

    /// The configured tick rate of the host, in ticks per second.
    pub closed spec fn spec_rate(self) -> u64 {
        self.ticks_per_second
    }

    /// The configured throttle interval, in milliseconds.
    pub closed spec fn spec_interval(self) -> u64 {
        self.interval_ms
    }

    /// Internal well-formedness: distinct PIDs; each history well formed,
    /// nonempty, within capacity and no newer than the clock; each
    /// absence count at most one; positive rate and interval.
    pub closed spec fn wf(self) -> bool {
        &&& entries_distinct(self.entries@)
        &&& forall|i: int|
            0 <= i < self.entries@.len() ==> {
                let e = #[trigger] self.entries@[i];
                &&& wf_history(e.samples@)
                &&& 1 <= e.samples@.len()
                &&& e.missed <= 1
                &&& e.samples@.last().timestamp_ms <= self.clock_ms
            }
        &&& self.last_update_ms <= self.clock_ms
        &&& 1 <= self.ticks_per_second
        &&& 1 <= self.interval_ms
    }

    /// A fresh tracker with the default tick rate and refresh interval,
    /// holding no histories; `now_ms` is the current monotonic time.
    pub fn new(now_ms: u64) -> (t: CpuTracker)
        ensures
            t.wf(),
            forall|pid: int| !t.has_pid(pid),
            t.spec_last_update() == now_ms,
            t.spec_clock() == now_ms,
            t.spec_rate() == DEFAULT_TICKS_PER_SECOND,
            t.spec_interval() == DEFAULT_INTERVAL_MS,
    {
        CpuTracker {
            entries: Vec::new(),
            last_update_ms: now_ms,
            clock_ms: now_ms,
            ticks_per_second: DEFAULT_TICKS_PER_SECOND,
            interval_ms: DEFAULT_INTERVAL_MS,
        }
    }

    /// A fresh tracker with an explicit tick rate and refresh interval.
    pub fn with_config(now_ms: u64, ticks_per_second: u64, interval_ms: u64) -> (t: CpuTracker)
        requires
            1 <= ticks_per_second,
            1 <= interval_ms,
        ensures
            t.wf(),
            forall|pid: int| !t.has_pid(pid),
            t.spec_last_update() == now_ms,
            t.spec_clock() == now_ms,
            t.spec_rate() == ticks_per_second,
            t.spec_interval() == interval_ms,
    {
        CpuTracker {
            entries: Vec::new(),
            last_update_ms: now_ms,
            clock_ms: now_ms,
            ticks_per_second,
            interval_ms,
        }
    }

    /// Throttle query: true iff at least the configured interval has
    /// elapsed since the last `update`. Pure query, no side effects.
    pub fn needs_update(&self, now_ms: u64) -> (r: bool)
        requires
            self.spec_last_update() <= now_ms,
        ensures
            r == self.spec_needs_update(now_ms),
    {
        now_ms - self.last_update_ms >= self.interval_ms
    }

    /// What `needs_update` decides: the interval has elapsed since
    /// `last_update`.
    pub open spec fn spec_needs_update(self, now_ms: u64) -> bool {
        now_ms - self.spec_last_update() >= self.spec_interval()
    }

    /// Ingests one snapshot: for each process of `processes` whose ticks
    /// appear in `ticks`, appends a sample (resetting on tick regression,
    /// evicting beyond the capacity) and writes the window percentage to
    /// its `cpu_percent`; a process whose ticks are missing is left
    /// untouched. Entries absent from the snapshot for a second
    /// consecutive call are evicted. Finally the throttle clock is set to
    /// `now_ms`.
    ///
    /// The caller reads the tick source and the monotonic clock; a batch
    /// read that fails entirely is handled by not calling `update` at
    /// all, which leaves every percentage at its previous value.
    pub fn update(&mut self, processes: &mut Vec<Process>, ticks: &Vec<TickSample>, now_ms: u64)
        requires
            old(self).wf(),
            old(self).spec_clock() <= now_ms,
            distinct_pids(old(processes)@),
            distinct_tick_pids(ticks@),
        ensures
            final(self).wf(),
            final(self).spec_rate() == old(self).spec_rate(),
            final(self).spec_interval() == old(self).spec_interval(),
            final(self).spec_last_update() == now_ms,
            final(self).spec_clock() == now_ms,
            tracker_stepped(*old(self), *final(self), old(processes)@, ticks@, now_ms),
            processes_annotated(old(processes)@, final(processes)@, *old(self), ticks@, now_ms),
    {
        let rate = self.ticks_per_second;
        let mut rebuilt: Vec<TrackEntry> = Vec::new();
        let n = processes.len();
        proof {
            assert(old(processes)@.take(0) =~= Seq::<Process>::empty());
        }
        for j in 0..n
            invariant
                *self == *old(self),
                old(self).wf(),
                old(self).spec_clock() <= now_ms,
                rate == old(self).spec_rate(),
                distinct_pids(old(processes)@),
                distinct_tick_pids(ticks@),
                n == old(processes)@.len(),
                processes@.len() == n,
                forall|k: int|
                    0 <= k < n ==> same_identity(old(processes)@[k], #[trigger] processes@[k]),
                forall|k: int|
                    j <= k < n ==> (#[trigger] processes@[k]).cpu_percent
                        == old(processes)@[k].cpu_percent,
                forall|k: int|
                    0 <= k < j && !tick_found(ticks@, old(processes)@[k].pid as int) ==> (
                    #[trigger] processes@[k]).cpu_percent == old(processes)@[k].cpu_percent,
                forall|k: int|
                    0 <= k < j && tick_found(ticks@, old(processes)@[k].pid as int) ==> (
                    #[trigger] processes@[k]).cpu_percent == window_percent(
                        stepped_history(
                            old_history(*old(self), old(processes)@[k].pid as int),
                            made_sample(ticks@, old(processes)@[k].pid as int, now_ms),
                        ),
                        rate,
                    ) && processes@[k].cpu_percent.wf(),
                entries_distinct(rebuilt@),
                forall|pid: int|
                    #![trigger seq_has_pid(rebuilt@, pid)]
                    seq_has_pid(rebuilt@, pid) <==> (procs_has(old(processes)@.take(j as int), pid)
                        && (tick_found(ticks@, pid) || old(self).has_pid(pid))),
                forall|pid: int|
                    #![trigger seq_has_pid(rebuilt@, pid)]
                    seq_has_pid(rebuilt@, pid) ==> kept_entry_ok(
                        rebuilt@,
                        *old(self),
                        ticks@,
                        now_ms,
                        pid,
                    ),
        {
            let pid = processes[j].pid;
            proof {
                assert(same_identity(old(processes)@[j as int], processes@[j as int]));
                assert(old(processes)@[j as int].pid == pid);
                if seq_has_pid(rebuilt@, pid as int) {
                    let k = choose|k: int|
                        0 <= k < old(processes)@.take(j as int).len() && (#[trigger] old(
                            processes,
                        )@.take(j as int)[k].pid) == pid as int;
                    assert(old(processes)@[k].pid == old(processes)@[j as int].pid);
                    assert(false);
                }
            }
            let ghost prev = rebuilt@;
            match find_tick(ticks, pid) {
                Some(t) => {
                    let mut hist: Vec<Sample>;
                    match find_entry(&self.entries, pid) {
                        Some(i) => {
                            proof {
                                assert(old(self).entries@[i as int] == entry_of(
                                    old(self).entries@,
                                    pid as int,
                                ));
                            }
                            hist = clone_samples(&self.entries[i].samples);
                        },
                        None => {
                            hist = Vec::new();
                        },
                    }
                    proof {
                        assert(hist@ == old_history(*old(self), pid as int));
                    }
                    let s = Sample {
                        user_ticks: t.user_ticks,
                        system_ticks: t.system_ticks,
                        timestamp_ms: now_ms,
                    };
                    proof {
                        assert(s == made_sample(ticks@, pid as int, now_ms));
                    }
                    record_sample(&mut hist, s);
                    let pct = window_percent_of(&hist, rate);
                    let ghost hist_v = hist@;
                    processes[j].cpu_percent = pct;
                    rebuilt.push(TrackEntry { pid, samples: hist, missed: 0 });
                    proof {
                        let e = rebuilt@.last();
                        assert(rebuilt@ == prev.push(e));
                        assert(e.pid == pid && e.missed == 0 && e.samples@ == hist_v);
                        assert(e.samples@.last() == s);
                        assert forall|pid2: int| #[trigger]
                            seq_has_pid(rebuilt@, pid2) <==> (procs_has(
                                old(processes)@.take(j as int + 1),
                                pid2,
                            ) && (tick_found(ticks@, pid2) || old(self).has_pid(pid2))) by {
                            lemma_push_entry(prev, e, pid2);
                            lemma_procs_take_step(old(processes)@, j as int, pid2);
                        }
                        assert forall|pid2: int| #[trigger]
                            seq_has_pid(rebuilt@, pid2) implies kept_entry_ok(
                            rebuilt@,
                            *old(self),
                            ticks@,
                            now_ms,
                            pid2,
                        ) by {
                            lemma_push_entry(prev, e, pid2);
                            if pid2 == pid as int {
                                assert(entry_of(rebuilt@, pid2) == e);
                            } else {
                                assert(seq_has_pid(prev, pid2));
                                assert(entry_of(rebuilt@, pid2) == entry_of(prev, pid2));
                            }
                        }
                    }
                },
                None => {
                    match find_entry(&self.entries, pid) {
                        Some(i) => {
                            proof {
                                assert(old(self).entries@[i as int] == entry_of(
                                    old(self).entries@,
                                    pid as int,
                                ));
                            }
                            let samples = clone_samples(&self.entries[i].samples);
                            let ghost samples_v = samples@;
                            rebuilt.push(TrackEntry { pid, samples, missed: 0 });
                            proof {
                                let e = rebuilt@.last();
                                assert(rebuilt@ == prev.push(e));
                                assert(e.pid == pid && e.missed == 0 && e.samples@ == samples_v);
                                assert forall|pid2: int| #[trigger]
                                    seq_has_pid(rebuilt@, pid2) <==> (procs_has(
                                        old(processes)@.take(j as int + 1),
                                        pid2,
                                    ) && (tick_found(ticks@, pid2) || old(self).has_pid(
                                        pid2,
                                    ))) by {
                                    lemma_push_entry(prev, e, pid2);
                                    lemma_procs_take_step(old(processes)@, j as int, pid2);
                                }
                                assert forall|pid2: int| #[trigger]
                                    seq_has_pid(rebuilt@, pid2) implies kept_entry_ok(
                                    rebuilt@,
                                    *old(self),
                                    ticks@,
                                    now_ms,
                                    pid2,
                                ) by {
                                    lemma_push_entry(prev, e, pid2);
                                    if pid2 == pid as int {
                                        assert(entry_of(rebuilt@, pid2) == e);
                                    } else {
                                        assert(seq_has_pid(prev, pid2));
                                        assert(entry_of(rebuilt@, pid2) == entry_of(prev, pid2));
                                    }
                                }
                            }
                        },
                        None => {
                            proof {
                                assert forall|pid2: int| #[trigger]
                                    seq_has_pid(rebuilt@, pid2) <==> (procs_has(
                                        old(processes)@.take(j as int + 1),
                                        pid2,
                                    ) && (tick_found(ticks@, pid2) || old(self).has_pid(
                                        pid2,
                                    ))) by {
                                    lemma_procs_take_step(old(processes)@, j as int, pid2);
                                }
                            }
                        },
                    }
                },
            }
        }
        proof {
            assert(old(processes)@.take(n as int) =~= old(processes)@);
            assert(old(self).entries@.take(0) =~= Seq::<TrackEntry>::empty());
        }
        let m = self.entries.len();
        for i in 0..m
            invariant
                *self == *old(self),
                old(self).wf(),
                old(self).spec_clock() <= now_ms,
                rate == old(self).spec_rate(),
                distinct_pids(old(processes)@),
                distinct_tick_pids(ticks@),
                n == old(processes)@.len(),
                m == old(self).entries@.len(),
                processes@.len() == n,
                forall|k: int|
                    0 <= k < n ==> same_identity(old(processes)@[k], #[trigger] processes@[k]),
                forall|k: int|
                    0 <= k < n && !tick_found(ticks@, old(processes)@[k].pid as int) ==> (
                    #[trigger] processes@[k]).cpu_percent == old(processes)@[k].cpu_percent,
                forall|k: int|
                    0 <= k < n && tick_found(ticks@, old(processes)@[k].pid as int) ==> (
                    #[trigger] processes@[k]).cpu_percent == window_percent(
                        stepped_history(
                            old_history(*old(self), old(processes)@[k].pid as int),
                            made_sample(ticks@, old(processes)@[k].pid as int, now_ms),
                        ),
                        rate,
                    ) && processes@[k].cpu_percent.wf(),
                entries_distinct(rebuilt@),
                forall|pid: int|
                    #![trigger seq_has_pid(rebuilt@, pid)]
                    seq_has_pid(rebuilt@, pid) <==> ((procs_has(old(processes)@, pid) && (
                    tick_found(ticks@, pid) || old(self).has_pid(pid))) || (seq_has_pid(
                        old(self).entries@.take(i as int),
                        pid,
                    ) && !procs_has(old(processes)@, pid) && old(self).missed(pid) == 0)),
                forall|pid: int|
                    #![trigger seq_has_pid(rebuilt@, pid)]
                    seq_has_pid(rebuilt@, pid) && procs_has(old(processes)@, pid)
                        ==> kept_entry_ok(rebuilt@, *old(self), ticks@, now_ms, pid),
                forall|pid: int|
                    #![trigger seq_has_pid(rebuilt@, pid)]
                    seq_has_pid(rebuilt@, pid) && !procs_has(old(processes)@, pid)
                        ==> aged_entry_ok(rebuilt@, *old(self), now_ms, pid),
        {
            let pid = self.entries[i].pid;
            let in_procs = procs_contain(processes, pid);
            proof {
                lemma_procs_has_same(old(processes)@, processes@, pid as int);
                lemma_entry_at(old(self).entries@, i as int);
            }
            if !in_procs {
                if self.entries[i].missed == 0 {
                    let ghost prev = rebuilt@;
                    proof {
                        if seq_has_pid(rebuilt@, pid as int) {
                            let k = choose|k: int|
                                0 <= k < old(self).entries@.take(i as int).len() && (#[trigger] old(
                                    self,
                                ).entries@.take(i as int)[k].pid) == pid as int;
                            assert(old(self).entries@[k].pid == old(self).entries@[i as int].pid);
                            assert(false);
                        }
                    }
                    let samples = clone_samples(&self.entries[i].samples);
                    let ghost samples_v = samples@;
                    rebuilt.push(TrackEntry { pid, samples, missed: 1 });
                    proof {
                        let e = rebuilt@.last();
                        assert(rebuilt@ == prev.push(e));
                        assert(e.pid == pid && e.missed == 1 && e.samples@ == samples_v);
                        assert forall|pid2: int| #[trigger]
                            seq_has_pid(rebuilt@, pid2) <==> ((procs_has(old(processes)@, pid2) && (
                            tick_found(ticks@, pid2) || old(self).has_pid(pid2))) || (seq_has_pid(
                                old(self).entries@.take(i as int + 1),
                                pid2,
                            ) && !procs_has(old(processes)@, pid2) && old(self).missed(pid2)
                                == 0)) by {
                            lemma_push_entry(prev, e, pid2);
                            lemma_entries_take_step(old(self).entries@, i as int, pid2);
                        }
                        assert forall|pid2: int| #[trigger]
                            seq_has_pid(rebuilt@, pid2) && procs_has(old(processes)@, pid2)
                            implies kept_entry_ok(rebuilt@, *old(self), ticks@, now_ms, pid2) by {
                            lemma_push_entry(prev, e, pid2);
                            assert(seq_has_pid(prev, pid2));
                            assert(entry_of(rebuilt@, pid2) == entry_of(prev, pid2));
                        }
                        assert forall|pid2: int| #[trigger]
                            seq_has_pid(rebuilt@, pid2) && !procs_has(old(processes)@, pid2)
                            implies aged_entry_ok(rebuilt@, *old(self), now_ms, pid2) by {
                            lemma_push_entry(prev, e, pid2);
                            if pid2 == pid as int {
                                assert(entry_of(rebuilt@, pid2) == e);
                            } else {
                                assert(seq_has_pid(prev, pid2));
                                assert(entry_of(rebuilt@, pid2) == entry_of(prev, pid2));
                            }
                        }
                    }
                } else {
                    proof {
                        assert forall|pid2: int| #[trigger]
                            seq_has_pid(rebuilt@, pid2) <==> ((procs_has(old(processes)@, pid2) && (
                            tick_found(ticks@, pid2) || old(self).has_pid(pid2))) || (seq_has_pid(
                                old(self).entries@.take(i as int + 1),
                                pid2,
                            ) && !procs_has(old(processes)@, pid2) && old(self).missed(pid2)
                                == 0)) by {
                            lemma_entries_take_step(old(self).entries@, i as int, pid2);
                        }
                    }
                }
            } else {
                proof {
                    assert forall|pid2: int| #[trigger]
                        seq_has_pid(rebuilt@, pid2) <==> ((procs_has(old(processes)@, pid2) && (
                        tick_found(ticks@, pid2) || old(self).has_pid(pid2))) || (seq_has_pid(
                            old(self).entries@.take(i as int + 1),
                            pid2,
                        ) && !procs_has(old(processes)@, pid2) && old(self).missed(pid2)
                            == 0)) by {
                        lemma_entries_take_step(old(self).entries@, i as int, pid2);
                    }
                }
            }
        }
        proof {
            assert(old(self).entries@.take(m as int) =~= old(self).entries@);
        }
        self.entries = rebuilt;
        self.last_update_ms = now_ms;
        self.clock_ms = now_ms;
        proof {
            assert forall|i2: int| 0 <= i2 < self.entries@.len() implies {
                let e = #[trigger] self.entries@[i2];
                &&& wf_history(e.samples@)
                &&& 1 <= e.samples@.len()
                &&& e.missed <= 1
                &&& e.samples@.last().timestamp_ms <= self.clock_ms
            } by {
                lemma_entry_at(self.entries@, i2);
                assert(seq_has_pid(self.entries@, self.entries@[i2].pid as int));
            }
            assert(final(self).wf());
            let t0 = *old(self);
            let t1 = *self;
            let p0 = old(processes)@;
            let tks = ticks@;
            assert(t0.entries@.take(m as int) == t0.entries@);
            assert forall|pid: int|
                #![trigger t1.has_pid(pid)]
                #![trigger t0.has_pid(pid)]
                t1.has_pid(pid) <==> ((procs_has(p0, pid) && tick_found(tks, pid)) || (t0.has_pid(
                    pid,
                ) && (procs_has(p0, pid) || t0.missed(pid) == 0))) by {
                if seq_has_pid(t1.entries@, pid) {
                }
                if seq_has_pid(t0.entries@.take(m as int), pid) {
                }
            }
            assert forall|pid: int|
                #![trigger t1.history(pid)]
                #![trigger t0.history(pid)]
                procs_has(p0, pid) && tick_found(tks, pid) implies t1.history(pid)
                == stepped_history(old_history(t0, pid), made_sample(tks, pid, now_ms))
                && t1.missed(pid) == 0 by {
                assert(seq_has_pid(t1.entries@, pid));
                assert(kept_entry_ok(t1.entries@, t0, tks, now_ms, pid));
            }
            assert forall|pid: int|
                #![trigger t1.history(pid)]
                #![trigger t0.history(pid)]
                procs_has(p0, pid) && !tick_found(tks, pid) && t0.has_pid(pid) implies t1.history(
                pid,
            ) == t0.history(pid) && t1.missed(pid) == 0 by {
                assert(seq_has_pid(t1.entries@, pid));
                assert(kept_entry_ok(t1.entries@, t0, tks, now_ms, pid));
            }
            assert forall|pid: int|
                #![trigger t1.history(pid)]
                #![trigger t0.history(pid)]
                !procs_has(p0, pid) && t0.has_pid(pid) && t0.missed(pid) == 0 implies t1.history(
                pid,
            ) == t0.history(pid) && t1.missed(pid) == 1 by {
                assert(seq_has_pid(t1.entries@, pid));
                assert(aged_entry_ok(t1.entries@, t0, now_ms, pid));
            }
            assert(tracker_stepped(t0, t1, p0, tks, now_ms));
        }
    }

    /// Collects an initial round of samples: for each process of the
    /// snapshot whose ticks appear in `ticks`, records one sample so that
    /// a later `update` already has a window to measure. Nothing else
    /// changes: no percentage is written and the throttle clock is left as
    /// it was.
    pub fn initialize(&mut self, processes: &Vec<Process>, ticks: &Vec<TickSample>, now_ms: u64)
        requires
            old(self).wf(),
            old(self).spec_clock() <= now_ms,
            distinct_pids(processes@),
            distinct_tick_pids(ticks@),
        ensures
            final(self).wf(),
            final(self).spec_rate() == old(self).spec_rate(),
            final(self).spec_interval() == old(self).spec_interval(),
            final(self).spec_last_update() == old(self).spec_last_update(),
            final(self).spec_clock() == now_ms,
            tracker_seeded(*old(self), *final(self), processes@, ticks@, now_ms),
    {
        let mut rebuilt: Vec<TrackEntry> = Vec::new();
        let n = processes.len();
        proof {
            assert(processes@.take(0) =~= Seq::<Process>::empty());
        }
        for j in 0..n
            invariant
                *self == *old(self),
                old(self).wf(),
                old(self).spec_clock() <= now_ms,
                distinct_pids(processes@),
                distinct_tick_pids(ticks@),
                n == processes@.len(),
                entries_distinct(rebuilt@),
                forall|pid: int|
                    #![trigger seq_has_pid(rebuilt@, pid)]
                    seq_has_pid(rebuilt@, pid) <==> (procs_has(processes@.take(j as int), pid) && (
                    tick_found(ticks@, pid) || old(self).has_pid(pid))),
                forall|pid: int|
                    #![trigger seq_has_pid(rebuilt@, pid)]
                    seq_has_pid(rebuilt@, pid) ==> seeded_entry_ok(
                        rebuilt@,
                        *old(self),
                        ticks@,
                        now_ms,
                        pid,
                    ),
        {
            let pid = processes[j].pid;
            proof {
                if seq_has_pid(rebuilt@, pid as int) {
                    let k = choose|k: int|
                        0 <= k < processes@.take(j as int).len() && (#[trigger] processes@.take(
                            j as int,
                        )[k].pid) == pid as int;
                    assert(processes@[k].pid == processes@[j as int].pid);
                    assert(false);
                }
            }
            let ghost prev = rebuilt@;
            match find_tick(ticks, pid) {
                Some(t) => {
                    let mut hist: Vec<Sample>;
                    match find_entry(&self.entries, pid) {
                        Some(i) => {
                            proof {
                                assert(old(self).entries@[i as int] == entry_of(
                                    old(self).entries@,
                                    pid as int,
                                ));
                            }
                            hist = clone_samples(&self.entries[i].samples);
                        },
                        None => {
                            hist = Vec::new();
                        },
                    }
                    proof {
                        assert(hist@ == old_history(*old(self), pid as int));
                    }
                    let s = Sample {
                        user_ticks: t.user_ticks,
                        system_ticks: t.system_ticks,
                        timestamp_ms: now_ms,
                    };
                    proof {
                        assert(s == made_sample(ticks@, pid as int, now_ms));
                    }
                    record_sample(&mut hist, s);
                    let ghost hist_v = hist@;
                    rebuilt.push(TrackEntry { pid, samples: hist, missed: 0 });
                    proof {
                        let e = rebuilt@.last();
                        assert(rebuilt@ == prev.push(e));
                        assert(e.pid == pid && e.missed == 0 && e.samples@ == hist_v);
                        assert(e.samples@.last() == s);
                        assert forall|pid2: int| #[trigger]
                            seq_has_pid(rebuilt@, pid2) <==> (procs_has(
                                processes@.take(j as int + 1),
                                pid2,
                            ) && (tick_found(ticks@, pid2) || old(self).has_pid(pid2))) by {
                            lemma_push_entry(prev, e, pid2);
                            lemma_procs_take_step(processes@, j as int, pid2);
                        }
                        assert forall|pid2: int| #[trigger]
                            seq_has_pid(rebuilt@, pid2) implies seeded_entry_ok(
                            rebuilt@,
                            *old(self),
                            ticks@,
                            now_ms,
                            pid2,
                        ) by {
                            lemma_push_entry(prev, e, pid2);
                            if pid2 == pid as int {
                                assert(entry_of(rebuilt@, pid2) == e);
                            } else {
                                assert(seq_has_pid(prev, pid2));
                                assert(entry_of(rebuilt@, pid2) == entry_of(prev, pid2));
                            }
                        }
                    }
                },
                None => {
                    match find_entry(&self.entries, pid) {
                        Some(i) => {
                            proof {
                                assert(old(self).entries@[i as int] == entry_of(
                                    old(self).entries@,
                                    pid as int,
                                ));
                            }
                            let samples = clone_samples(&self.entries[i].samples);
                            let ghost samples_v = samples@;
                            let missed = self.entries[i].missed;
                            rebuilt.push(TrackEntry { pid, samples, missed });
                            proof {
                                let e = rebuilt@.last();
                                assert(rebuilt@ == prev.push(e));
                                assert(e.pid == pid && e.missed == missed && e.samples@
                                    == samples_v);
                                assert forall|pid2: int| #[trigger]
                                    seq_has_pid(rebuilt@, pid2) <==> (procs_has(
                                        processes@.take(j as int + 1),
                                        pid2,
                                    ) && (tick_found(ticks@, pid2) || old(self).has_pid(
                                        pid2,
                                    ))) by {
                                    lemma_push_entry(prev, e, pid2);
                                    lemma_procs_take_step(processes@, j as int, pid2);
                                }
                                assert forall|pid2: int| #[trigger]
                                    seq_has_pid(rebuilt@, pid2) implies seeded_entry_ok(
                                    rebuilt@,
                                    *old(self),
                                    ticks@,
                                    now_ms,
                                    pid2,
                                ) by {
                                    lemma_push_entry(prev, e, pid2);
                                    if pid2 == pid as int {
                                        assert(entry_of(rebuilt@, pid2) == e);
                                    } else {
                                        assert(seq_has_pid(prev, pid2));
                                        assert(entry_of(rebuilt@, pid2) == entry_of(prev, pid2));
                                    }
                                }
                            }
                        },
                        None => {
                            proof {
                                assert forall|pid2: int| #[trigger]
                                    seq_has_pid(rebuilt@, pid2) <==> (procs_has(
                                        processes@.take(j as int + 1),
                                        pid2,
                                    ) && (tick_found(ticks@, pid2) || old(self).has_pid(
                                        pid2,
                                    ))) by {
                                    lemma_procs_take_step(processes@, j as int, pid2);
                                }
                            }
                        },
                    }
                },
            }
        }
        proof {
            assert(processes@.take(n as int) =~= processes@);
            assert(old(self).entries@.take(0) =~= Seq::<TrackEntry>::empty());
        }
        let m = self.entries.len();
        for i in 0..m
            invariant
                *self == *old(self),
                old(self).wf(),
                old(self).spec_clock() <= now_ms,
                distinct_pids(processes@),
                distinct_tick_pids(ticks@),
                n == processes@.len(),
                m == old(self).entries@.len(),
                entries_distinct(rebuilt@),
                forall|pid: int|
                    #![trigger seq_has_pid(rebuilt@, pid)]
                    seq_has_pid(rebuilt@, pid) <==> ((procs_has(processes@, pid) && (tick_found(
                        ticks@,
                        pid,
                    ) || old(self).has_pid(pid))) || (seq_has_pid(
                        old(self).entries@.take(i as int),
                        pid,
                    ) && !procs_has(processes@, pid))),
                forall|pid: int|
                    #![trigger seq_has_pid(rebuilt@, pid)]
                    seq_has_pid(rebuilt@, pid) && procs_has(processes@, pid) ==> seeded_entry_ok(
                        rebuilt@,
                        *old(self),
                        ticks@,
                        now_ms,
                        pid,
                    ),
                forall|pid: int|
                    #![trigger seq_has_pid(rebuilt@, pid)]
                    seq_has_pid(rebuilt@, pid) && !procs_has(processes@, pid) ==> copied_entry_ok(
                        rebuilt@,
                        *old(self),
                        now_ms,
                        pid,
                    ),
        {
            let pid = self.entries[i].pid;
            let in_procs = procs_contain(processes, pid);
            proof {
                lemma_entry_at(old(self).entries@, i as int);
            }
            if !in_procs {
                let ghost prev = rebuilt@;
                proof {
                    if seq_has_pid(rebuilt@, pid as int) {
                        let k = choose|k: int|
                            0 <= k < old(self).entries@.take(i as int).len() && (#[trigger] old(
                                self,
                            ).entries@.take(i as int)[k].pid) == pid as int;
                        assert(old(self).entries@[k].pid == old(self).entries@[i as int].pid);
                        assert(false);
                    }
                }
                let samples = clone_samples(&self.entries[i].samples);
                let ghost samples_v = samples@;
                let missed = self.entries[i].missed;
                rebuilt.push(TrackEntry { pid, samples, missed });
                proof {
                    let e = rebuilt@.last();
                    assert(rebuilt@ == prev.push(e));
                    assert(e.pid == pid && e.missed == missed && e.samples@ == samples_v);
                    assert forall|pid2: int| #[trigger]
                        seq_has_pid(rebuilt@, pid2) <==> ((procs_has(processes@, pid2) && (
                        tick_found(ticks@, pid2) || old(self).has_pid(pid2))) || (seq_has_pid(
                            old(self).entries@.take(i as int + 1),
                            pid2,
                        ) && !procs_has(processes@, pid2))) by {
                        lemma_push_entry(prev, e, pid2);
                        lemma_entries_take_step(old(self).entries@, i as int, pid2);
                    }
                    assert forall|pid2: int| #[trigger]
                        seq_has_pid(rebuilt@, pid2) && procs_has(processes@, pid2)
                        implies seeded_entry_ok(rebuilt@, *old(self), ticks@, now_ms, pid2) by {
                        lemma_push_entry(prev, e, pid2);
                        assert(seq_has_pid(prev, pid2));
                        assert(entry_of(rebuilt@, pid2) == entry_of(prev, pid2));
                    }
                    assert forall|pid2: int| #[trigger]
                        seq_has_pid(rebuilt@, pid2) && !procs_has(processes@, pid2)
                        implies copied_entry_ok(rebuilt@, *old(self), now_ms, pid2) by {
                        lemma_push_entry(prev, e, pid2);
                        if pid2 == pid as int {
                            assert(entry_of(rebuilt@, pid2) == e);
                        } else {
                            assert(seq_has_pid(prev, pid2));
                            assert(entry_of(rebuilt@, pid2) == entry_of(prev, pid2));
                        }
                    }
                }
            } else {
                proof {
                    assert forall|pid2: int| #[trigger]
                        seq_has_pid(rebuilt@, pid2) <==> ((procs_has(processes@, pid2) && (
                        tick_found(ticks@, pid2) || old(self).has_pid(pid2))) || (seq_has_pid(
                            old(self).entries@.take(i as int + 1),
                            pid2,
                        ) && !procs_has(processes@, pid2))) by {
                        lemma_entries_take_step(old(self).entries@, i as int, pid2);
                    }
                }
            }
        }
        proof {
            assert(old(self).entries@.take(m as int) =~= old(self).entries@);
        }
        self.entries = rebuilt;
        self.clock_ms = now_ms;
        proof {
            assert forall|i2: int| 0 <= i2 < self.entries@.len() implies {
                let e = #[trigger] self.entries@[i2];
                &&& wf_history(e.samples@)
                &&& 1 <= e.samples@.len()
                &&& e.missed <= 1
                &&& e.samples@.last().timestamp_ms <= self.clock_ms
            } by {
                lemma_entry_at(self.entries@, i2);
                assert(seq_has_pid(self.entries@, self.entries@[i2].pid as int));
            }
            assert(final(self).wf());
            let t0 = *old(self);
            let t1 = *self;
            let p0 = processes@;
            let tks = ticks@;
            assert(t0.entries@.take(m as int) == t0.entries@);
            assert forall|pid: int|
                #![trigger t1.has_pid(pid)]
                #![trigger t0.has_pid(pid)]
                t1.has_pid(pid) <==> (t0.has_pid(pid) || (procs_has(p0, pid) && tick_found(
                    tks,
                    pid,
                ))) by {
                if seq_has_pid(t1.entries@, pid) {
                }
                if seq_has_pid(t0.entries@.take(m as int), pid) {
                }
            }
            assert forall|pid: int|
                #![trigger t1.history(pid)]
                #![trigger t0.history(pid)]
                procs_has(p0, pid) && tick_found(tks, pid) implies t1.history(pid)
                == stepped_history(old_history(t0, pid), made_sample(tks, pid, now_ms))
                && t1.missed(pid) == 0 by {
                assert(seq_has_pid(t1.entries@, pid));
                assert(seeded_entry_ok(t1.entries@, t0, tks, now_ms, pid));
            }
            assert forall|pid: int|
                #![trigger t1.history(pid)]
                #![trigger t0.history(pid)]
                !(procs_has(p0, pid) && tick_found(tks, pid)) && t0.has_pid(pid) implies t1.history(
                pid,
            ) == t0.history(pid) && t1.missed(pid) == t0.missed(pid) by {
                assert(seq_has_pid(t1.entries@, pid));
                if procs_has(p0, pid) {
                    assert(seeded_entry_ok(t1.entries@, t0, tks, now_ms, pid));
                } else {
                    assert(copied_entry_ok(t1.entries@, t0, now_ms, pid));
                }
            }
            assert(tracker_seeded(t0, t1, p0, tks, now_ms));
        }
    }

    /// How many samples are currently recorded for `pid`; zero when the
    /// PID is not tracked.
    pub fn sample_count(&self, pid: i32) -> (r: usize)
        requires
            self.wf(),
        ensures
            r == (if self.has_pid(pid as int) {
                self.history(pid as int).len()
            } else {
                0
            }),
    {
        match find_entry(&self.entries, pid) {
            Some(i) => self.entries[i].samples.len(),
            None => 0,
        }
    }
}

/// Linear search of the tick batch; the first match is returned, and
/// under distinct PIDs it is the only one.
fn find_tick(ticks: &Vec<TickSample>, pid: i32) -> (r: Option<TickSample>)
    requires
        distinct_tick_pids(ticks@),
    ensures
        r.is_some() == tick_found(ticks@, pid as int),
        r matches Some(t) ==> t == tick_at(ticks@, pid as int) && t.pid == pid,
{
    let n = ticks.len();
    for i in 0..n
        invariant
            n == ticks@.len(),
            distinct_tick_pids(ticks@),
            forall|k: int| 0 <= k < i ==> (#[trigger] ticks@[k].pid) != pid,
    {
        if ticks[i].pid == pid {
            proof {
                lemma_tick_at(ticks@, i as int);
            }
            return Some(ticks[i]);
        }
    }
    proof {
        assert forall|k: int| 0 <= k < ticks@.len() implies (#[trigger] ticks@[k].pid) != pid by {}
        assert(!tick_found(ticks@, pid as int));
    }
    None
}

/// A tick sample of a distinct batch is found by its own PID.
proof fn lemma_tick_at(ts: Seq<TickSample>, i: int)
    requires
        distinct_tick_pids(ts),
        0 <= i < ts.len(),
    ensures
        tick_found(ts, ts[i].pid as int),
        tick_at(ts, ts[i].pid as int) == ts[i],
{
    let pid = ts[i].pid as int;
    assert(tick_found(ts, pid));
    let k = choose|k: int| 0 <= k < ts.len() && (#[trigger] ts[k].pid) == pid;
    if k != i {
        assert(ts[k].pid == ts[i].pid);
        assert(false);
    }
}

/// Linear search of the tracker's entries by PID.
fn find_entry(entries: &Vec<TrackEntry>, pid: i32) -> (r: Option<usize>)
    requires
        entries_distinct(entries@),
    ensures
        r.is_some() == seq_has_pid(entries@, pid as int),
        r matches Some(i) ==> i < entries@.len() && entries@[i as int].pid == pid && entry_of(
            entries@,
            pid as int,
        ) == entries@[i as int],
{
    let n = entries.len();
    for i in 0..n
        invariant
            n == entries@.len(),
            entries_distinct(entries@),
            forall|k: int| 0 <= k < i ==> (#[trigger] entries@[k].pid) != pid,
    {
        if entries[i].pid == pid {
            proof {
                lemma_entry_at(entries@, i as int);
            }
            return Some(i);
        }
    }
    proof {
        assert forall|k: int| 0 <= k < entries@.len() implies (#[trigger] entries@[k].pid)
            != pid by {}
    }
    None
}

/// Whether any tick sample in `ts` belongs to `pid`.
pub open spec fn tick_found(ts: Seq<TickSample>, pid: int) -> bool {
    exists|i: int| 0 <= i < ts.len() && (#[trigger] ts[i].pid) == pid
}

/// The tick sample of `pid` in `ts` (meaningful when `tick_found`, and
/// unique when the batch has distinct PIDs).
pub open spec fn tick_at(ts: Seq<TickSample>, pid: int) -> TickSample {
    ts[choose|i: int| 0 <= i < ts.len() && (#[trigger] ts[i].pid) == pid]
}

/// No two tick samples of the batch share a PID.
pub open spec fn distinct_tick_pids(ts: Seq<TickSample>) -> bool {
    forall|i: int, j: int| 0 <= i < j < ts.len() ==> (#[trigger] ts[i].pid) != (#[trigger] ts[j].pid)
}

/// No two processes of the snapshot share a PID.
pub open spec fn distinct_pids(ps: Seq<Process>) -> bool {
    forall|i: int, j: int| 0 <= i < j < ps.len() ==> (#[trigger] ps[i].pid) != (#[trigger] ps[j].pid)
}

/// Whether any process of the snapshot has this PID.
pub open spec fn procs_has(ps: Seq<Process>, pid: int) -> bool {
    exists|i: int| 0 <= i < ps.len() && (#[trigger] ps[i].pid) == pid
}

/// The fields the tracker never touches agree between two process rows.
pub open spec fn same_identity(a: Process, b: Process) -> bool {
    &&& a.name == b.name
    &&& a.pid == b.pid
    &&& a.ruid == b.ruid
    &&& a.username == b.username
}

/// The sample an `update` at `now_ms` appends for `pid` from the batch.
pub open spec fn made_sample(ts: Seq<TickSample>, pid: int, now_ms: u64) -> Sample {
    Sample {
        user_ticks: tick_at(ts, pid).user_ticks,
        system_ticks: tick_at(ts, pid).system_ticks,
        timestamp_ms: now_ms,
    }
}

/// The window `pid` brings into an update: its recorded history, or the
/// empty one if it is not yet tracked.
pub open spec fn old_history(t: CpuTracker, pid: int) -> Seq<Sample> {
    if t.has_pid(pid) {
        t.history(pid)
    } else {
        Seq::<Sample>::empty()
    }
}

/// How one `update(procs, ticks, now_ms)` call moves the per-PID
/// bookkeeping from `t0` to `t1`:
/// - a PID in the snapshot whose ticks were read gets the appended
///   (regression-checked, capacity-bounded) history and a cleared absence
///   count — whether or not it was tracked before;
/// - a tracked PID in the snapshot whose ticks were missing keeps its
///   history untouched;
/// - a tracked PID absent from the snapshot survives exactly one such
///   update (its absence count goes to one) and is evicted by the next.
pub open spec fn tracker_stepped(
    t0: CpuTracker,
    t1: CpuTracker,
    procs: Seq<Process>,
    ticks: Seq<TickSample>,
    now_ms: u64,
) -> bool {
    &&& forall|pid: int|
        #![trigger t1.has_pid(pid)]
        #![trigger t0.has_pid(pid)]
        t1.has_pid(pid) <==> ((procs_has(procs, pid) && tick_found(ticks, pid)) || (t0.has_pid(pid)
            && (procs_has(procs, pid) || t0.missed(pid) == 0)))
    &&& forall|pid: int|
        #![trigger t1.history(pid)]
        #![trigger t0.history(pid)]
        procs_has(procs, pid) && tick_found(ticks, pid) ==> t1.history(pid) == stepped_history(
            old_history(t0, pid),
            made_sample(ticks, pid, now_ms),
        ) && t1.missed(pid) == 0
    &&& forall|pid: int|
        #![trigger t1.history(pid)]
        #![trigger t0.history(pid)]
        procs_has(procs, pid) && !tick_found(ticks, pid) && t0.has_pid(pid) ==> t1.history(pid)
            == t0.history(pid) && t1.missed(pid) == 0
    &&& forall|pid: int|
        #![trigger t1.history(pid)]
        #![trigger t0.history(pid)]
        !procs_has(procs, pid) && t0.has_pid(pid) && t0.missed(pid) == 0 ==> t1.history(pid)
            == t0.history(pid) && t1.missed(pid) == 1
}

/// How one `update(procs, ticks, now_ms)` call rewrites the snapshot
/// rows: identities are untouched; a row whose ticks were missing keeps
/// its previous percentage; a row whose ticks were read is annotated with
/// the window percentage of its freshly stepped history.
pub open spec fn processes_annotated(
    p0: Seq<Process>,
    p1: Seq<Process>,
    t0: CpuTracker,
    ticks: Seq<TickSample>,
    now_ms: u64,
) -> bool {
    &&& p1.len() == p0.len()
    &&& forall|j: int| 0 <= j < p0.len() ==> same_identity(#[trigger] p0[j], p1[j])
    &&& forall|j: int|
        0 <= j < p0.len() && !tick_found(ticks, p0[j].pid as int) ==> (#[trigger] p1[j]).cpu_percent
            == p0[j].cpu_percent
    &&& forall|j: int|
        0 <= j < p0.len() && tick_found(ticks, p0[j].pid as int) ==> (#[trigger] p1[j]).cpu_percent
            == window_percent(
            stepped_history(
                old_history(t0, p0[j].pid as int),
                made_sample(ticks, p0[j].pid as int, now_ms),
            ),
            t0.spec_rate(),
        ) && p1[j].cpu_percent.wf()
}

/// Shape of a rebuilt entry for a PID that appeared in the snapshot: a
/// cleared absence count, and either the freshly stepped history (ticks
/// read) or the previous one (ticks missing).
spec fn kept_entry_ok(
    s: Seq<TrackEntry>,
    t0: CpuTracker,
    tks: Seq<TickSample>,
    now_ms: u64,
    pid: int,
) -> bool {
    let e = entry_of(s, pid);
    &&& e.pid == pid
    &&& e.missed == 0
    &&& wf_history(e.samples@)
    &&& 1 <= e.samples@.len()
    &&& e.samples@.last().timestamp_ms <= now_ms
    &&& (tick_found(tks, pid) ==> e.samples@ == stepped_history(
        old_history(t0, pid),
        made_sample(tks, pid, now_ms),
    ))
    &&& (!tick_found(tks, pid) ==> t0.has_pid(pid) && e.samples@ == t0.history(pid))
}

/// Shape of a rebuilt entry for a PID absent from the snapshot: kept one
/// more cycle with its absence count raised to one.
spec fn aged_entry_ok(s: Seq<TrackEntry>, t0: CpuTracker, now_ms: u64, pid: int) -> bool {
    let e = entry_of(s, pid);
    &&& e.pid == pid
    &&& e.missed == 1
    &&& t0.has_pid(pid)
    &&& t0.missed(pid) == 0
    &&& e.samples@ == t0.history(pid)
    &&& wf_history(e.samples@)
    &&& 1 <= e.samples@.len()
    &&& e.samples@.last().timestamp_ms <= now_ms
}

/// Shape of a seeded entry for a PID that appeared in the snapshot of an
/// `initialize` call: the freshly stepped history when its ticks were
/// read, the untouched record otherwise.
spec fn seeded_entry_ok(
    s: Seq<TrackEntry>,
    t0: CpuTracker,
    tks: Seq<TickSample>,
    now_ms: u64,
    pid: int,
) -> bool {
    let e = entry_of(s, pid);
    &&& e.pid == pid
    &&& e.missed <= 1
    &&& wf_history(e.samples@)
    &&& 1 <= e.samples@.len()
    &&& e.samples@.last().timestamp_ms <= now_ms
    &&& (tick_found(tks, pid) ==> e.samples@ == stepped_history(
        old_history(t0, pid),
        made_sample(tks, pid, now_ms),
    ) && e.missed == 0)
    &&& (!tick_found(tks, pid) ==> t0.has_pid(pid) && e.samples@ == t0.history(pid) && e.missed
        == t0.missed(pid))
}

/// Shape of an entry copied over unchanged.
spec fn copied_entry_ok(s: Seq<TrackEntry>, t0: CpuTracker, now_ms: u64, pid: int) -> bool {
    let e = entry_of(s, pid);
    &&& e.pid == pid
    &&& t0.has_pid(pid)
    &&& e.samples@ == t0.history(pid)
    &&& e.missed == t0.missed(pid)
    &&& e.missed <= 1
    &&& wf_history(e.samples@)
    &&& 1 <= e.samples@.len()
    &&& e.samples@.last().timestamp_ms <= now_ms
}

/// How one `initialize(procs, ticks, now_ms)` call moves the per-PID
/// bookkeeping from `t0` to `t1`: a PID of the snapshot whose ticks were
/// read gets a sample recorded (with the same regression and capacity
/// policy as `update`) and a cleared absence count; every other record is
/// untouched. No percentage is computed and the throttle clock is left
/// alone.
pub open spec fn tracker_seeded(
    t0: CpuTracker,
    t1: CpuTracker,
    procs: Seq<Process>,
    ticks: Seq<TickSample>,
    now_ms: u64,
) -> bool {
    &&& forall|pid: int|
        #![trigger t1.has_pid(pid)]
        #![trigger t0.has_pid(pid)]
        t1.has_pid(pid) <==> (t0.has_pid(pid) || (procs_has(procs, pid) && tick_found(ticks, pid)))
    &&& forall|pid: int|
        #![trigger t1.history(pid)]
        #![trigger t0.history(pid)]
        procs_has(procs, pid) && tick_found(ticks, pid) ==> t1.history(pid) == stepped_history(
            old_history(t0, pid),
            made_sample(ticks, pid, now_ms),
        ) && t1.missed(pid) == 0
    &&& forall|pid: int|
        #![trigger t1.history(pid)]
        #![trigger t0.history(pid)]
        !(procs_has(procs, pid) && tick_found(ticks, pid)) && t0.has_pid(pid) ==> t1.history(pid)
            == t0.history(pid) && t1.missed(pid) == t0.missed(pid)
}

/// Snapshot membership at a PID is unchanged by rewrites that keep the
/// identities.
proof fn lemma_procs_has_same(a: Seq<Process>, b: Seq<Process>, pid: int)
    requires
        a.len() == b.len(),
        forall|k: int| 0 <= k < a.len() ==> same_identity(#[trigger] a[k], b[k]),
    ensures
        procs_has(a, pid) == procs_has(b, pid),
{
    if procs_has(a, pid) {
        let k = choose|k: int| 0 <= k < a.len() && (#[trigger] a[k].pid) == pid;
        assert(b[k].pid == pid);
    }
    if procs_has(b, pid) {
        let k = choose|k: int| 0 <= k < b.len() && (#[trigger] b[k].pid) == pid;
        assert(a[k].pid == pid);
    }
}

/// Extending a snapshot prefix by one row extends its membership by that
/// row's PID.
proof fn lemma_procs_take_step(ps: Seq<Process>, j: int, pid: int)
    requires
        0 <= j < ps.len(),
    ensures
        procs_has(ps.take(j + 1), pid) <==> (procs_has(ps.take(j), pid) || ps[j].pid == pid),
{
    assert(ps.take(j + 1) =~= ps.take(j).push(ps[j]));
    if procs_has(ps.take(j), pid) {
        let k = choose|k: int| 0 <= k < ps.take(j).len() && (#[trigger] ps.take(j)[k].pid) == pid;
        assert(ps.take(j + 1)[k].pid == pid);
    }
    if ps[j].pid == pid {
        assert(ps.take(j + 1)[j].pid == pid);
    }
    if procs_has(ps.take(j + 1), pid) {
        let k = choose|k: int|
            0 <= k < ps.take(j + 1).len() && (#[trigger] ps.take(j + 1)[k].pid) == pid;
        if k < j {
            assert(ps.take(j)[k].pid == pid);
        }
    }
}

/// Extending an entry prefix by one entry extends its membership by that
/// entry's PID.
proof fn lemma_entries_take_step(s: Seq<TrackEntry>, j: int, pid: int)
    requires
        0 <= j < s.len(),
    ensures
        seq_has_pid(s.take(j + 1), pid) <==> (seq_has_pid(s.take(j), pid) || s[j].pid == pid),
{
    assert(s.take(j + 1) =~= s.take(j).push(s[j]));
    if seq_has_pid(s.take(j), pid) {
        let k = choose|k: int| 0 <= k < s.take(j).len() && (#[trigger] s.take(j)[k].pid) == pid;
        assert(s.take(j + 1)[k].pid == pid);
    }
    if s[j].pid == pid {
        assert(s.take(j + 1)[j].pid == pid);
    }
    if seq_has_pid(s.take(j + 1), pid) {
        let k = choose|k: int| 0 <= k < s.take(j + 1).len() && (#[trigger] s.take(j + 1)[k].pid)
            == pid;
        if k < j {
            assert(s.take(j)[k].pid == pid);
        }
    }
}

/// Copies a sample window.
fn clone_samples(v: &Vec<Sample>) -> (r: Vec<Sample>)
    ensures
        r@ == v@,
{
    let r = v.clone();
    proof {
        assert forall|i: int| 0 <= i < v@.len() implies r@[i] == v@[i] by {
            assert(cloned::<Sample>(v@[i], r@[i]));
        }
        assert(r@ =~= v@);
    }
    r
}

/// The history of a tracked PID always holds between one and
/// `HISTORY_CAP` samples, however many `update` calls the tracker has
/// seen: every constructor and every mutation ensures `wf`.
pub proof fn lemma_history_bounded(t: CpuTracker, pid: int)
    requires
        t.wf(),
        t.has_pid(pid),
    ensures
        1 <= t.history(pid).len() <= HISTORY_CAP,
{
    let i = pid_index(t.entries@, pid);
    assert(0 <= i < t.entries@.len() && t.entries@[i].pid == pid);
}

/// Throttling: straight after an `update` at `now_ms` no refresh is
/// due, none becomes due while the configured interval has not elapsed,
/// and one is due from the moment it has.
pub proof fn lemma_throttle(t: CpuTracker, now_ms: u64)
    requires
        t.wf(),
        t.spec_last_update() == now_ms,
    ensures
        !t.spec_needs_update(now_ms),
        forall|later: u64|
            now_ms <= later < now_ms + t.spec_interval() ==> !t.spec_needs_update(later),
        forall|later: u64| later >= now_ms + t.spec_interval() ==> t.spec_needs_update(later),
{
}

/// Garbage collection: a PID absent from the snapshots of two
/// consecutive `update` calls is no longer tracked after the second one.
pub proof fn lemma_absent_twice_evicted(
    t0: CpuTracker,
    t1: CpuTracker,
    t2: CpuTracker,
    p1: Seq<Process>,
    k1: Seq<TickSample>,
    n1: u64,
    p2: Seq<Process>,
    k2: Seq<TickSample>,
    n2: u64,
    pid: int,
)
    requires
        tracker_stepped(t0, t1, p1, k1, n1),
        tracker_stepped(t1, t2, p2, k2, n2),
        !procs_has(p1, pid),
        !procs_has(p2, pid),
    ensures
        !t2.has_pid(pid),
{
    if t2.has_pid(pid) {
        assert(t1.has_pid(pid) && t1.missed(pid) == 0);
        assert(t0.has_pid(pid) && t0.missed(pid) == 0);
        assert(t1.history(pid) == t0.history(pid) && t1.missed(pid) == 1);
        assert(false);
    }
}

/// Cold start seen at the interface: a snapshot row whose freshly
/// stepped window still holds fewer than two samples is annotated with
/// exactly zero percent.
pub proof fn lemma_cold_start_after_update(
    p0: Seq<Process>,
    p1: Seq<Process>,
    t0: CpuTracker,
    ticks: Seq<TickSample>,
    now_ms: u64,
    j: int,
)
    requires
        processes_annotated(p0, p1, t0, ticks, now_ms),
        0 <= j < p0.len(),
        tick_found(ticks, p0[j].pid as int),
        stepped_history(
            old_history(t0, p0[j].pid as int),
            made_sample(ticks, p0[j].pid as int, now_ms),
        ).len() < 2,
    ensures
        p1[j].cpu_percent.is_zero(),
{
    lemma_cold_start_zero(
        stepped_history(
            old_history(t0, p0[j].pid as int),
            made_sample(ticks, p0[j].pid as int, now_ms),
        ),
        t0.spec_rate(),
    );
}

/// Whether the snapshot contains a row with this PID.
fn procs_contain(processes: &Vec<Process>, pid: i32) -> (r: bool)
    ensures
        r == procs_has(processes@, pid as int),
{
    let n = processes.len();
    for i in 0..n
        invariant
            n == processes@.len(),
            forall|k: int| 0 <= k < i ==> (#[trigger] processes@[k].pid) != pid,
    {
        if processes[i].pid == pid {
            return true;
        }
    }
    proof {
        assert forall|k: int| 0 <= k < processes@.len() implies (#[trigger] processes@[k].pid)
            != pid by {}
    }
    false
}

} // verus!
