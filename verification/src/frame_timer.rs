use vstd::prelude::*;
use std::collections::VecDeque;
use std::time::Duration;
use std::time::Instant;

verus! {

/// A point in time, as the monotonic clock gives it.
#[verifier::external_type_specification]
#[verifier::external_body]
pub struct ExInstant(Instant);

/// The largest duration, in nanoseconds, that a `std::time::Duration` holds.
pub const MAX_DURATION_NANOS: u128 = 18_446_744_073_709_551_615_999_999_999u128;

/// How many frames the rolling average covers.
pub const FRAME_WINDOW: usize = 60;

/// The sum of a sequence of durations.
pub open spec fn total_of(s: Seq<u128>) -> int
    decreases s.len(),
{
    if s.len() == 0 { 0 } else { total_of(s.drop_last()) + s.last() }
}

proof fn lemma_total_drop_first(s: Seq<u128>)
    requires
        s.len() > 0,
    ensures
        total_of(s) == s[0] + total_of(s.drop_first()),
    decreases s.len(),
{
    if s.len() == 1 {
        assert(s.drop_last().len() == 0);
        assert(s.drop_first().len() == 0);
        assert(total_of(s.drop_last()) == 0);
        assert(total_of(s.drop_first()) == 0);
        assert(s.last() == s[0]);
    } else {
        lemma_total_drop_first(s.drop_last());
        assert(s.drop_last().drop_first() =~= s.drop_first().drop_last());
        assert(s.drop_first().last() == s.last());
        assert(total_of(s.drop_first()) == total_of(s.drop_first().drop_last()) + s.drop_first().last());
        assert(total_of(s) == total_of(s.drop_last()) + s.last());
    }
}

proof fn lemma_total_nonneg(s: Seq<u128>)
    ensures
        total_of(s) >= 0,
        s.len() > 0 ==> total_of(s) >= s[0],
    decreases s.len(),
{
    if s.len() > 0 {
        lemma_total_nonneg(s.drop_last());
        if s.len() > 1 {
            assert(s.drop_last()[0] == s[0]);
        }
    }
}

/// The monotonic clock's current time.
#[verifier::external_body]
fn instant_now() -> (t: Instant)
{
    Instant::now()
}

/// `Instant::saturating_duration_since`: the time from `earlier` to
/// `later`, zero when `earlier` is later. Nothing is stated of its length,
/// which the clock decides.
#[verifier::external_body]
fn duration_between(later: &Instant, earlier: &Instant) -> (d: Duration)
{
    later.saturating_duration_since(*earlier)
}

/// `Duration::as_nanos`: the whole duration in nanoseconds, which is never
/// more than the largest duration holds.
#[verifier::external_body]
fn duration_nanos(d: &Duration) -> (n: u128)
    ensures
        n <= MAX_DURATION_NANOS,
{
    d.as_nanos()
}

/// Rolling frame-time statistics over the last `FRAME_WINDOW` frames, with a
/// report every `report_every` frames. Durations are in nanoseconds.
pub struct FrameTimer {
    rolling_total: u128,
    window: VecDeque<u128>,
    window_size: usize,
    frames: u64,
    report_every: u64,
    origin: Instant,
    last_frame: Option<u128>,
}

/// The nanoseconds from a reading taken at `earlier` to one taken at
/// `later`, zero when `earlier` is the later one.
pub open spec fn elapsed(earlier: u128, later: u128) -> u128 {
    if later >= earlier { (later - earlier) as u128 } else { 0 }
}

/// The window after one more frame of `d` nanoseconds: the oldest frame
/// drops out once the window is over `size` frames.
pub open spec fn window_after(window: Seq<u128>, d: u128, size: int) -> Seq<u128> {
    if window.len() + 1 > size { window.push(d).drop_first() } else { window.push(d) }
}

/// One frame of `d` nanoseconds (at most the largest duration) was
/// recorded as by `record_duration`, or, when the window's total would pass
/// the largest duration, nothing was recorded.
pub open spec fn frame_recorded(before: FrameTimer, after: FrameTimer, d: u128, report: Option<u64>) -> bool {
    &&& d <= MAX_DURATION_NANOS
    &&& after.report_every() == before.report_every()
    &&& if total_of(before.window()) + d <= MAX_DURATION_NANOS {
        &&& after.window() == window_after(before.window(), d, FRAME_WINDOW as int)
        &&& after.frames() == before.frames() + 1
        &&& report == (if after.report_every() > 0 && after.frames() % after.report_every() == 0 {
            Some(after.frames())
        } else {
            None
        })
    } else {
        &&& report is None
        &&& after.window() == before.window()
        &&& after.frames() == before.frames()
    }
}

/// One frame of `d` nanoseconds was recorded as `record_duration` records
/// it, with `report` its answer.
pub open spec fn duration_recorded(before: FrameTimer, after: FrameTimer, d: u128, report: Option<u64>) -> bool {
    &&& after.window() == window_after(before.window(), d, FRAME_WINDOW as int)
    &&& after.frames() == before.frames() + 1
    &&& after.report_every() == before.report_every()
    &&& report == (if after.report_every() > 0 && after.frames() % after.report_every() == 0 {
        Some(after.frames())
    } else {
        None
    })
}

/// One recording call on a timer (`record_duration`, `record_measured` or
/// `record_frame`): either it recorded nothing and gave no report, or it
/// recorded one frame of some length as `record_duration` does.
pub open spec fn frame_step(before: FrameTimer, after: FrameTimer, report: Option<u64>) -> bool {
    ||| {
        &&& report is None
        &&& after.window() == before.window()
        &&& after.frames() == before.frames()
        &&& after.report_every() == before.report_every()
    }
    ||| exists|d: u128| #[trigger] duration_recorded(before, after, d, report)
}

/// Call `i` of a run recorded at most one frame, and reported exactly when
/// it recorded a frame whose number is a multiple of `n > 0`, that number.
pub open spec fn call_reported(timers: Seq<FrameTimer>, reports: Seq<Option<u64>>, n: u64, i: int) -> bool {
    let recorded = timers[i + 1].frames() == timers[i].frames() + 1;
    &&& recorded || timers[i + 1].frames() == timers[i].frames()
    &&& reports[i] == (if recorded && n > 0 && timers[i + 1].frames() % n == 0 {
        Some(timers[i + 1].frames())
    } else {
        None
    })
}

/// Over any run of recording calls, mixed as they come, from a fresh timer
/// that reports every `n` frames: each call records at most one frame, the
/// frame count counts the recorded frames, and a call reports exactly when
/// it records frame `k` with `n > 0` and `k` a multiple of `n`, reporting `k`.
pub proof fn lemma_reports_over_calls(timers: Seq<FrameTimer>, reports: Seq<Option<u64>>)
    requires
        timers.len() == reports.len() + 1,
        timers[0].frames() == 0,
        forall|i: int| 0 <= i < reports.len() ==> #[trigger] frame_step(timers[i], timers[i + 1], reports[i]),
    ensures
        forall|k: int| 0 <= k <= reports.len() ==> #[trigger] timers[k].report_every() == timers[0].report_every()
            && timers[k].frames() <= k,
        forall|i: int| 0 <= i < reports.len() ==> #[trigger] call_reported(timers, reports, timers[0].report_every(), i),
    decreases reports.len(),
{
    let m = reports.len() as int;
    if m > 0 {
        lemma_reports_over_calls(timers.drop_last(), reports.drop_last());
        assert(timers.drop_last()[0] == timers[0]);
        assert forall|k: int| 0 <= k <= m implies #[trigger] timers[k].report_every() == timers[0].report_every()
            && timers[k].frames() <= k by {
            if k < m {
                assert(timers.drop_last()[k] == timers[k]);
            } else {
                assert(timers.drop_last()[k - 1] == timers[k - 1]);
                assert(frame_step(timers[k - 1], timers[k], reports[k - 1]));
            }
        }
        assert forall|i: int| 0 <= i < m implies #[trigger] call_reported(timers, reports, timers[0].report_every(), i) by {
            assert(frame_step(timers[i], timers[i + 1], reports[i]));
            assert(timers[i].report_every() == timers[0].report_every());
        }
    }
}

/// The last `min(k, FRAME_WINDOW)` of the first `k` durations.
pub open spec fn last_window(durations: Seq<u128>, k: int) -> Seq<u128> {
    durations.subrange(if k > FRAME_WINDOW { k - FRAME_WINDOW } else { 0 }, k)
}

proof fn lemma_run_upto(timers: Seq<FrameTimer>, durations: Seq<u128>, reports: Seq<Option<u64>>, k: int)
    requires
        timers.len() == durations.len() + 1,
        reports.len() == durations.len(),
        timers[0].frames() == 0,
        timers[0].window() == Seq::<u128>::empty(),
        forall|i: int| 0 <= i < durations.len() ==> #[trigger] duration_recorded(timers[i], timers[i + 1], durations[i], reports[i]),
        0 <= k <= durations.len(),
    ensures
        timers[k].frames() == k,
        timers[k].report_every() == timers[0].report_every(),
        timers[k].window() == last_window(durations, k),
        k > 0 ==> reports[k - 1] == (if timers[0].report_every() > 0 && k % (timers[0].report_every() as int) == 0 {
            Some(k as u64)
        } else {
            None
        }),
    decreases k,
{
    if k == 0 {
        assert(last_window(durations, 0) =~= Seq::<u128>::empty());
    } else {
        lemma_run_upto(timers, durations, reports, k - 1);
        let i = k - 1;
        assert(duration_recorded(timers[i], timers[i + 1], durations[i], reports[i]));
        assert(i + 1 == k);
        let w = last_window(durations, i);
        if w.len() + 1 > FRAME_WINDOW {
            assert(w.push(durations[i]).drop_first() =~= last_window(durations, k));
        } else {
            assert(w.push(durations[i]) =~= last_window(durations, k));
        }
    }
}

/// Over a run of recorded frames from a fresh timer that reports every `n`
/// frames: the `k`-th frame gets a report, the frame count `k`, exactly when
/// `n > 0` and `k` is a multiple of `n`, and the window then holds the last
/// `min(k, FRAME_WINDOW)` durations, whose mean the report is about.
#[verifier::spinoff_prover]
pub proof fn lemma_reports_over_run(timers: Seq<FrameTimer>, durations: Seq<u128>, reports: Seq<Option<u64>>)
    requires
        timers.len() == durations.len() + 1,
        reports.len() == durations.len(),
        timers[0].frames() == 0,
        timers[0].window() == Seq::<u128>::empty(),
        forall|i: int| 0 <= i < durations.len() ==> #[trigger] duration_recorded(timers[i], timers[i + 1], durations[i], reports[i]),
    ensures
        forall|k: int| #![trigger timers[k]] 0 < k <= durations.len() ==> {
            &&& timers[k].frames() == k
            &&& timers[k].report_every() == timers[0].report_every()
            &&& reports[k - 1] == (if timers[0].report_every() > 0 && k % (timers[0].report_every() as int) == 0 {
                Some(k as u64)
            } else {
                None
            })
            &&& timers[k].window() == last_window(durations, k)
        },
{
    assert forall|k: int| #![trigger timers[k]] 0 < k <= durations.len() implies {
        &&& timers[k].frames() == k
        &&& timers[k].report_every() == timers[0].report_every()
        &&& reports[k - 1] == (if timers[0].report_every() > 0 && k % (timers[0].report_every() as int) == 0 {
            Some(k as u64)
        } else {
            None
        })
        &&& timers[k].window() == last_window(durations, k)
    } by {
        lemma_run_upto(timers, durations, reports, k);
    }
}

/// The durations of the frames recorded by the first `k` calls of a run,
/// in order: each call that recorded a frame added it as its window's newest.
pub open spec fn recorded_durations(timers: Seq<FrameTimer>, k: int) -> Seq<u128>
    decreases k,
{
    if k <= 0 {
        Seq::empty()
    } else if timers[k].frames() == timers[k - 1].frames() + 1 {
        recorded_durations(timers, k - 1).push(timers[k].window().last())
    } else {
        recorded_durations(timers, k - 1)
    }
}

proof fn lemma_window_after_calls(timers: Seq<FrameTimer>, reports: Seq<Option<u64>>, k: int)
    requires
        timers.len() == reports.len() + 1,
        timers[0].frames() == 0,
        timers[0].window() == Seq::<u128>::empty(),
        forall|i: int| 0 <= i < reports.len() ==> #[trigger] frame_step(timers[i], timers[i + 1], reports[i]),
        0 <= k <= reports.len(),
    ensures
        timers[k].frames() == recorded_durations(timers, k).len(),
        timers[k].window() == last_window(recorded_durations(timers, k), recorded_durations(timers, k).len() as int),
    decreases k,
{
    if k > 0 {
        lemma_window_after_calls(timers, reports, k - 1);
        let prev = recorded_durations(timers, k - 1);
        let n = prev.len() as int;
        assert(prev.subrange(0, n) =~= prev);
        let i = k - 1;
        assert(frame_step(timers[i], timers[i + 1], reports[i]));
        assert(i + 1 == k);
        if timers[k].frames() == timers[k - 1].frames() + 1 {
            let d = choose|d: u128| #[trigger] duration_recorded(timers[k - 1], timers[k], d, reports[k - 1]);
            let w = last_window(prev, n);
            let cur = prev.push(d);
            assert(timers[k].window() == window_after(w, d, FRAME_WINDOW as int));
            assert(timers[k].window().last() == d);
            assert(recorded_durations(timers, k) == cur);
            if w.len() + 1 > FRAME_WINDOW {
                assert(w.push(d).drop_first() =~= last_window(cur, n + 1));
            } else {
                assert(w.push(d) =~= last_window(cur, n + 1));
            }
        } else {
            assert(timers[k].frames() == timers[k - 1].frames());
            assert(timers[k].window() == timers[k - 1].window());
        }
    }
}

/// Over any run of recording calls, mixed as they come, from a fresh timer
/// with an empty window: the frame count is the number of frames recorded,
/// and the window holds the last `min(k, FRAME_WINDOW)` of the `k` durations
/// recorded so far, oldest first, whose mean a report is about.
pub proof fn lemma_windows_over_calls(timers: Seq<FrameTimer>, reports: Seq<Option<u64>>)
    requires
        timers.len() == reports.len() + 1,
        timers[0].frames() == 0,
        timers[0].window() == Seq::<u128>::empty(),
        forall|i: int| 0 <= i < reports.len() ==> #[trigger] frame_step(timers[i], timers[i + 1], reports[i]),
    ensures
        forall|k: int| 0 <= k <= reports.len() ==> {
            &&& #[trigger] timers[k].frames() == recorded_durations(timers, k).len()
            &&& timers[k].window() == last_window(recorded_durations(timers, k), recorded_durations(timers, k).len() as int)
        },
{
    assert forall|k: int| 0 <= k <= reports.len() implies {
        &&& #[trigger] timers[k].frames() == recorded_durations(timers, k).len()
        &&& timers[k].window() == last_window(recorded_durations(timers, k), recorded_durations(timers, k).len() as int)
    } by {
        lemma_window_after_calls(timers, reports, k);
    }
}

impl FrameTimer {
    pub closed spec fn wf(self) -> bool {
        &&& self.window_size == FRAME_WINDOW
        &&& self.window@.len() <= self.window_size
        &&& self.rolling_total == total_of(self.window@)
    }

    /// The rolling window never holds more than `FRAME_WINDOW` frames, and the
    /// rolling total is the sum of the frames it holds.
    pub proof fn lemma_window_bounded(self)
        requires
            self.wf(),
        ensures
            self.window().len() <= FRAME_WINDOW,
            self.rolling_total() == total_of(self.window()),
    {
    }

    /// The summed duration of the frames in the window.
    pub closed spec fn rolling_total(self) -> int {
        self.rolling_total as int
    }

    /// The durations of the frames in the window, oldest first.
    pub closed spec fn window(self) -> Seq<u128> {
        self.window@
    }

    /// Frames recorded so far.
    pub closed spec fn frames(self) -> u64 {
        self.frames
    }

    pub closed spec fn report_every(self) -> u64 {
        self.report_every
    }

    /// Whether a frame has started.
    pub open spec fn started(self) -> bool {
        self.last_reading() is Some
    }

    /// When the current frame started, in nanoseconds since the timer was
    /// made, or `None` before the first frame starts.
    pub closed spec fn last_reading(self) -> Option<u128> {
        self.last_frame
    }

    /// The clock's time, in nanoseconds since the timer was made.
    fn clock_reading(&self) -> (r: u128)
        ensures
            r <= MAX_DURATION_NANOS,
    {
        let now = instant_now();
        let since = duration_between(&now, &self.origin);
        duration_nanos(&since)
    }

    pub fn new(report_every: u64) -> (t: FrameTimer)
        ensures
            t.wf(),
            t.window() == Seq::<u128>::empty(),
            t.frames() == 0,
            t.report_every() == report_every,
            !t.started(),
    {
        FrameTimer {
            rolling_total: 0,
            window: VecDeque::new(),
            window_size: FRAME_WINDOW,
            frames: 0,
            report_every,
            origin: instant_now(),
            last_frame: None,
        }
    }

    /// Marks the start of a frame at the current time.
    pub fn start(&mut self)
        requires
            old(self).wf(),
        ensures
            final(self).wf(),
            final(self).started(),
            final(self).window() == old(self).window(),
            final(self).frames() == old(self).frames(),
            final(self).report_every() == old(self).report_every(),
            exists|r: u128| r <= MAX_DURATION_NANOS && final(self).last_reading() == Some(r),
    {
        self.last_frame = Some(self.clock_reading());
    }

    /// Records one frame of `duration` nanoseconds. Returns the number of
    /// frames so far when a report is due (every `report_every` frames, never
    /// when `report_every` is zero).
    pub fn record_duration(&mut self, duration: u128) -> (report: Option<u64>)
        requires
            old(self).wf(),
            total_of(old(self).window()) + duration <= MAX_DURATION_NANOS,
            old(self).frames() < u64::MAX,
        ensures
            final(self).wf(),
            duration_recorded(*old(self), *final(self), duration, report),
            frame_step(*old(self), *final(self), report),
            final(self).last_reading() == old(self).last_reading(),
            final(self).window().len() as int == vstd::math::min(old(self).window().len() as int + 1, FRAME_WINDOW as int),
            final(self).window() == old(self).window().push(duration).subrange(
                old(self).window().len() as int + 1 - final(self).window().len() as int,
                old(self).window().len() as int + 1,
            ),
            final(self).rolling_total() == total_of(final(self).window()),
            final(self).frames() == old(self).frames() + 1,
            report is Some <==> (old(self).report_every() > 0 && (old(self).frames() + 1) % (old(self).report_every() as int) == 0),
            report is Some ==> report == Some((old(self).frames() + 1) as u64),
    {
        let ghost old_window = self.window@;
        self.rolling_total = self.rolling_total + duration;
        self.window.push_back(duration);
        proof {
            assert(self.window@ == old_window.push(duration));
            assert(self.window@.drop_last() =~= old_window);
        }
        if self.window.len() > self.window_size {
            let ghost pushed = self.window@;
            match self.window.pop_front() {
                Some(removed) => {
                    proof {
                        lemma_total_drop_first(pushed);
                        lemma_total_nonneg(pushed.drop_first());
                        assert(self.window@ == pushed.drop_first());
                    }
                    self.rolling_total = if self.rolling_total >= removed { self.rolling_total - removed } else { 0 };
                },
                None => {},
            }
        }
        self.frames = self.frames + 1;
        let report = if self.report_every > 0 && self.frames % self.report_every == 0 {
            Some(self.frames)
        } else {
            None
        };
        proof {
            assert(duration_recorded(*old(self), *self, duration, report));
        }
        report
    }

    /// Ends the current frame and starts the next one at the current time;
    /// records the frame's length when a frame had started. Returns what
    /// `record_duration` returns for it, or `None` when no frame had started
    /// or when the window's total would pass the largest duration (then the
    /// frame is not recorded).
    pub fn record_frame(&mut self) -> (report: Option<u64>)
        requires
            old(self).wf(),
            old(self).frames() < u64::MAX,
        ensures
            final(self).wf(),
            final(self).report_every() == old(self).report_every(),
            exists|r: u128| {
                &&& r <= MAX_DURATION_NANOS
                &&& final(self).last_reading() == Some(r)
                &&& match old(self).last_reading() {
                    None => report is None && final(self).window() == old(self).window() && final(self).frames() == old(self).frames(),
                    Some(l) => frame_recorded(*old(self), *final(self), elapsed(l, r), report),
                }
            },
            frame_step(*old(self), *final(self), report),
    {
        let now = self.clock_reading();
        let last = self.last_frame;
        self.last_frame = Some(now);
        match last {
            None => {
                proof {
                    assert(self.last_reading() == Some(now));
                    assert(self.window() == old(self).window());
                }
                None
            },
            Some(last_reading) => {
                let d: u128 = if now >= last_reading { now - last_reading } else { 0 };
                let ghost mid = *self;
                let r = self.record_measured(d);
                proof {
                    assert(self.last_reading() == Some(now));
                    assert(d == elapsed(last_reading, now));
                    assert(frame_recorded(mid, *self, d, r));
                    if r is Some || self.frames() != mid.frames() {
                        let w = choose|w: u128| #[trigger] duration_recorded(mid, *self, w, r);
                        assert(duration_recorded(*old(self), *self, w, r));
                    }
                }
                r
            },
        }
    }

    /// Records a measured frame of `d` nanoseconds as `record_duration`
    /// does, unless the window's total would then pass the largest duration:
    /// such a frame is not recorded and gets no report.
    pub fn record_measured(&mut self, d: u128) -> (report: Option<u64>)
        requires
            old(self).wf(),
            old(self).frames() < u64::MAX,
            d <= MAX_DURATION_NANOS,
        ensures
            final(self).wf(),
            frame_recorded(*old(self), *final(self), d, report),
            frame_step(*old(self), *final(self), report),
            final(self).last_reading() == old(self).last_reading(),
    {
        if self.rolling_total > MAX_DURATION_NANOS - d {
            None
        } else {
            self.record_duration(d)
        }
    }

    /// Frames recorded so far.
    pub fn frame_count(&self) -> (n: u64)
        ensures
            n == self.frames(),
    {
        self.frames
    }

    /// The summed duration of the frames in the window and how many frames it
    /// holds, or `None` while it is empty.
    pub fn window_totals(&self) -> (r: Option<(u128, usize)>)
        requires
            self.wf(),
        ensures
            self.window().len() == 0 ==> r is None,
            self.window().len() > 0 ==> r == Some((total_of(self.window()) as u128, self.window().len() as usize)),
    {
        if self.window.len() == 0 {
            None
        } else {
            Some((self.rolling_total, self.window.len()))
        }
    }
}

} // verus!
