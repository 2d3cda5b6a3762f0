//! The schedule of the backup runs: on which week days a run happens and
//! how long to wait for the next one.

use vstd::prelude::*;

use crate::text::concat_str;

verus! {

/// A day of the week.
#[derive(Debug, PartialEq, Eq, Structural, Clone, Copy)]
pub enum Weekday {
    Mon,
    Tue,
    Wed,
    Thu,
    Fri,
    Sat,
    Sun,
}

/// The week day numbered `day`, counting Monday as 1 and Sunday as 7.
pub open spec fn weekday_of(day: u8) -> Option<Weekday> {
    if day == 1 {
        Some(Weekday::Mon)
    } else if day == 2 {
        Some(Weekday::Tue)
    } else if day == 3 {
        Some(Weekday::Wed)
    } else if day == 4 {
        Some(Weekday::Thu)
    } else if day == 5 {
        Some(Weekday::Fri)
    } else if day == 6 {
        Some(Weekday::Sat)
    } else if day == 7 {
        Some(Weekday::Sun)
    } else {
        None
    }
}

/// Returns the week day numbered `day` (Monday is 1, Sunday 7), or `None`
/// for any other number.
pub fn num_to_weekday(day: u8) -> (res: Option<Weekday>)
    ensures
        res == weekday_of(day),
{
    match day {
        1 => Some(Weekday::Mon),
        2 => Some(Weekday::Tue),
        3 => Some(Weekday::Wed),
        4 => Some(Weekday::Thu),
        5 => Some(Weekday::Fri),
        6 => Some(Weekday::Sat),
        7 => Some(Weekday::Sun),
        _ => None,
    }
}

/// The numbering of the week days is one to one on 1..=7 and names no day
/// outside it.
pub proof fn lemma_weekday_numbering(a: u8, b: u8)
    ensures
        weekday_of(a) is Some <==> 1 <= a <= 7,
        weekday_of(a) is Some && weekday_of(a) == weekday_of(b) ==> a == b,
{
}

/// Maps each number to its week day, dropping the numbers that name none.
pub open spec fn weekdays_of(days: Seq<u8>) -> Seq<Weekday> {
    days.filter_map(|d: u8| weekday_of(d))
}

/// Returns the week days that `days` name, in order, leaving out the
/// numbers outside 1..=7.
pub fn weekdays_from_numbers(days: &Vec<u8>) -> (res: Vec<Weekday>)
    ensures
        res@ == weekdays_of(days@),
{
    let mut res: Vec<Weekday> = Vec::new();
    let mut i: usize = 0;
    assert(days@.take(0) =~= Seq::<u8>::empty());
    assert(weekdays_of(Seq::<u8>::empty()) =~= Seq::<Weekday>::empty());
    while i < days.len()
        invariant
            i <= days.len(),
            res@ == weekdays_of(days@.take(i as int)),
        decreases days.len() - i,
    {
        let ghost pre = days@.take(i as int);
        let ghost next = days@.take(i + 1);
        assert(next.drop_last() =~= pre);
        assert(next.last() == days@[i as int]);
        match num_to_weekday(days[i]) {
            Some(w) => {
                res.push(w);
                assert(res@ =~= weekdays_of(next));
            },
            None => {
                assert(res@ =~= weekdays_of(next));
            },
        }
        i = i + 1;
    }
    assert(days@.take(days.len() as int) =~= days@);
    res
}

/// A run happens on `today` exactly when one of the listed numbers names
/// it: the week days kept from `days` hold `today` if and only if some
/// number in `days` is the number of `today`.
pub proof fn lemma_runs_on_listed_days(days: Seq<u8>, today: Weekday)
    ensures
        weekdays_of(days).contains(today) <==> exists|i: int|
            0 <= i < days.len() && weekday_of(days[i]) == Some(today),
    decreases days.len(),
{
    let f = |d: u8| weekday_of(d);
    if weekdays_of(days).contains(today) {
        days.lemma_filter_map_contains(f, today);
        let t = choose|t: u8| #[trigger] days.contains(t) && f(t) == Some(today);
        let i = choose|i: int| 0 <= i < days.len() && days[i] == t;
        assert(weekday_of(days[i]) == Some(today));
    }
    if exists|i: int| 0 <= i < days.len() && weekday_of(days[i]) == Some(today) {
        let i = choose|i: int| 0 <= i < days.len() && weekday_of(days[i]) == Some(today);
        let rest = days.drop_last();
        if i == days.len() - 1 {
            assert(weekdays_of(days) == weekdays_of(rest) + seq![today]);
            assert((weekdays_of(rest) + seq![today])[weekdays_of(rest).len() as int] == today);
        } else {
            assert(rest[i] == days[i]);
            lemma_runs_on_listed_days(rest, today);
            let k = choose|k: int| 0 <= k < weekdays_of(rest).len() && weekdays_of(rest)[k] == today;
            match weekday_of(days.last()) {
                Some(w) => {
                    assert(weekdays_of(days) == weekdays_of(rest) + seq![w]);
                    assert((weekdays_of(rest) + seq![w])[k] == today);
                },
                None => {
                    assert(weekdays_of(days) == weekdays_of(rest));
                },
            }
        }
    }
}

/// Whether `today` is one of the scheduled `weekdays`.
pub fn is_scheduled_day(weekdays: &Vec<Weekday>, today: Weekday) -> (res: bool)
    ensures
        res == weekdays@.contains(today),
{
    let mut i: usize = 0;
    while i < weekdays.len()
        invariant
            i <= weekdays.len(),
            forall|j: int| 0 <= j < i ==> weekdays@[j] != today,
        decreases weekdays.len() - i,
    {
        if weekdays[i] == today {
            assert(weekdays@[i as int] == today);
            return true;
        }
        i = i + 1;
    }
    false
}

/// Nanoseconds in a second.
pub open spec fn nanos_per_second() -> int {
    1_000_000_000
}

/// Seconds in a day.
pub open spec fn seconds_per_day() -> int {
    86400
}

/// Timestamps (seconds since the Unix epoch) in the range that chrono's
/// date-times take, which is within 2^43 seconds of the epoch.
pub open spec fn timestamp_in_range(secs: i64) -> bool {
    -0x800_0000_0000 < secs < 0x800_0000_0000
}

/// The time from `now` to the next run, in nanoseconds: to `target` when it
/// is still ahead, otherwise to one day after `target`.
pub open spec fn wait_nanos(now_secs: int, now_nanos: int, target_secs: int) -> int {
    let now = now_secs * nanos_per_second() + now_nanos;
    let target = target_secs * nanos_per_second();
    if now < target {
        target - now
    } else {
        target + seconds_per_day() * nanos_per_second() - now
    }
}

/// The whole seconds in `nanos`, rounding toward zero as
/// `TimeDelta::num_seconds` does.
pub open spec fn whole_seconds(nanos: int) -> int {
    if nanos >= 0 {
        nanos / nanos_per_second()
    } else {
        -((-nanos) / nanos_per_second())
    }
}

/// `v` as an `i64` turned into a `u64`: negative values wrap around.
pub open spec fn as_unsigned(v: int) -> int {
    if v >= 0 {
        v
    } else {
        v + 0x1_0000_0000_0000_0000
    }
}

/// The number of seconds to sleep before the next run, for a clock reading
/// `now_secs` seconds and `now_nanos` nanoseconds after the epoch and a run
/// due at `target_secs` today: the whole seconds to the target, or to the
/// target a day later when it has passed, converted to `u64` as `as` does.
pub fn seconds_until_run(now_secs: i64, now_nanos: u32, target_secs: i64) -> (secs: u64)
    requires
        now_nanos < 1_000_000_000,
        timestamp_in_range(now_secs),
        timestamp_in_range(target_secs),
    ensures
        secs as int == as_unsigned(
            whole_seconds(wait_nanos(now_secs as int, now_nanos as int, target_secs as int)),
        ),
{
    let now: i128 = now_secs as i128 * 1_000_000_000 + now_nanos as i128;
    let target: i128 = target_secs as i128 * 1_000_000_000;
    let wait: i128 = if now < target {
        target - now
    } else {
        target + 86400 * 1_000_000_000 - now
    };
    assert(wait == wait_nanos(now_secs as int, now_nanos as int, target_secs as int));
    let whole: i128 = if wait >= 0 {
        (wait as u128 / 1_000_000_000) as i128
    } else {
        -(((-wait) as u128 / 1_000_000_000) as i128)
    };
    assert(whole == whole_seconds(wait as int));
    if whole >= 0 {
        whole as u64
    } else {
        (whole + 0x1_0000_0000_0000_0000) as u64
    }
}

/// When the run is due later on the same day, the sleep ends in the last
/// second before it: `now + secs <= target < now + secs + 1`.
pub proof fn lemma_wakes_just_before_target(now_secs: int, now_nanos: int, target_secs: int)
    requires
        0 <= now_nanos < nanos_per_second(),
        now_secs * nanos_per_second() + now_nanos < target_secs * nanos_per_second(),
    ensures
        ({
            let secs = as_unsigned(whole_seconds(wait_nanos(now_secs, now_nanos, target_secs)));
            let now = now_secs * nanos_per_second() + now_nanos;
            let target = target_secs * nanos_per_second();
            &&& now + secs * nanos_per_second() <= target
            &&& target < now + (secs + 1) * nanos_per_second()
        }),
{
    let now = now_secs * nanos_per_second() + now_nanos;
    let target = target_secs * nanos_per_second();
    let w = target - now;
    assert(w > 0);
    let q = w / nanos_per_second();
    assert(q * nanos_per_second() <= w < (q + 1) * nanos_per_second()) by (nonlinear_arith)
        requires
            w > 0,
            q == w / 1_000_000_000,
            nanos_per_second() == 1_000_000_000,
    ;
}

/// When the run time of the day has passed, at most a day ago, the sleep
/// lasts at most a day and ends in the last second before the same time
/// on the next day.
pub proof fn lemma_waits_for_next_day(now_secs: int, now_nanos: int, target_secs: int)
    requires
        0 <= now_nanos < nanos_per_second(),
        target_secs * nanos_per_second() <= now_secs * nanos_per_second() + now_nanos,
        now_secs < target_secs + seconds_per_day(),
    ensures
        ({
            let secs = as_unsigned(whole_seconds(wait_nanos(now_secs, now_nanos, target_secs)));
            let now = now_secs * nanos_per_second() + now_nanos;
            let next = (target_secs + seconds_per_day()) * nanos_per_second();
            &&& secs <= seconds_per_day()
            &&& now + secs * nanos_per_second() <= next
            &&& next < now + (secs + 1) * nanos_per_second()
        }),
{
    let now = now_secs * nanos_per_second() + now_nanos;
    let next = (target_secs + seconds_per_day()) * nanos_per_second();
    let w = next - now;
    assert(w == wait_nanos(now_secs, now_nanos, target_secs)) by (nonlinear_arith)
        requires
            nanos_per_second() == 1_000_000_000,
            seconds_per_day() == 86400,
            target_secs * nanos_per_second() <= now,
            now == now_secs * nanos_per_second() + now_nanos,
            next == (target_secs + seconds_per_day()) * nanos_per_second(),
            w == next - now,
    ;
    assert(w > 0) by (nonlinear_arith)
        requires
            nanos_per_second() == 1_000_000_000,
            seconds_per_day() == 86400,
            now_secs < target_secs + 86400,
            0 <= now_nanos < 1_000_000_000,
            now == now_secs * 1_000_000_000 + now_nanos,
            next == (target_secs + 86400) * 1_000_000_000,
            w == next - now,
    ;
    let q = w / nanos_per_second();
    assert(q * nanos_per_second() <= w < (q + 1) * nanos_per_second() && q <= 86400) by (
    nonlinear_arith)
        requires
            w > 0,
            w <= 86400 * 1_000_000_000,
            q == w / 1_000_000_000,
            nanos_per_second() == 1_000_000_000,
    ;
}

/// What a scheduled run does once the mount has been tried; in either
/// case the folder is unmounted afterwards.
#[derive(Debug, PartialEq, Eq)]
pub enum AfterMount {
    /// The folder is mounted: make the archives.
    MakeTarball,
    /// The mount failed: report `message`.
    ReportFailure { message: String },
}

/// Decides what a scheduled run does after the mount: make the archives
/// when it succeeded, otherwise report the failure with its reason.
pub fn plan_after_mount(outcome: &Result<(), String>) -> (next: AfterMount)
    ensures
        match outcome {
            Ok(()) => next is MakeTarball,
            Err(e) => next matches AfterMount::ReportFailure { message } && message@
                == "Failed to mount directory: "@ + e@,
        },
{
    match outcome {
        Ok(()) => AfterMount::MakeTarball,
        Err(e) => AfterMount::ReportFailure {
            message: concat_str("Failed to mount directory: ", e.as_str()),
        },
    }
}

/// Where the daily loop stands between two of its steps.
#[derive(Debug, PartialEq, Eq, Structural, Clone, Copy)]
pub enum RunState {
    /// About to read the clock.
    ReadingClock,
    /// Sleeping until the run time; `run_today` tells whether the day of the
    /// clock reading is a scheduled day.
    Sleeping { run_today: bool },
    /// Pausing a second before the mount.
    Pausing,
    /// Waiting for the outcome of the mount.
    Mounting,
    /// Making the archives or reporting the failed mount.
    Finishing,
    /// Unmounting the folder.
    Unmounting,
}

/// What the loop learns from carrying out an action.
#[derive(Debug, PartialEq, Eq)]
pub enum RunEvent {
    /// The clock was read: now, the run time of today, and today's week day.
    ClockRead { now_secs: i64, now_nanos: u32, target_secs: i64, today: Weekday },
    /// A sleep or pause ended.
    Slept,
    /// The mount was tried, with this outcome.
    MountDone { outcome: Result<(), String> },
    /// Archiving, reporting or unmounting is over.
    StepDone,
}

/// What the loop does next.
#[derive(Debug, PartialEq, Eq)]
pub enum RunAction {
    /// Read the clock.
    ReadClock,
    /// Sleep this many seconds.
    Sleep { seconds: u64 },
    /// Announce the run and pause one second.
    Pause,
    /// Mount the remote folder.
    Mount,
    /// Make the archives.
    MakeTarball,
    /// Report that the mount failed, with `message`.
    ReportMountFailure { message: String },
    /// Unmount the remote folder.
    Unmount,
}

/// One step of the daily loop: from where it stands and what it just
/// learnt, where it goes and what it does. The order is: read the clock,
/// sleep until the run time; on a scheduled day pause a second, mount,
/// make the archives or report the failed mount, unmount; then read the
/// clock again. An event that does not fit the state starts over by
/// reading the clock.
pub fn next_run_step(weekdays: &Vec<Weekday>, state: RunState, event: RunEvent) -> (next: (
    RunState,
    RunAction,
))
    requires
        event matches RunEvent::ClockRead { now_secs, now_nanos, target_secs, today } ==> {
            &&& now_nanos < 1_000_000_000
            &&& timestamp_in_range(now_secs)
            &&& timestamp_in_range(target_secs)
        },
    ensures
        match (state, event) {
            (RunState::ReadingClock, RunEvent::ClockRead { now_secs, now_nanos, target_secs, today }) => {
                &&& next.0 == RunState::Sleeping { run_today: weekdays@.contains(today) }
                &&& next.1 matches RunAction::Sleep { seconds } && seconds as int == as_unsigned(
                    whole_seconds(wait_nanos(now_secs as int, now_nanos as int, target_secs as int)),
                )
            },
            (RunState::Sleeping { run_today }, RunEvent::Slept) => if run_today {
                next.0 == RunState::Pausing && next.1 is Pause
            } else {
                next.0 == RunState::ReadingClock && next.1 is ReadClock
            },
            (RunState::Pausing, RunEvent::Slept) => next.0 == RunState::Mounting && next.1 is Mount,
            (RunState::Mounting, RunEvent::MountDone { outcome }) => {
                &&& next.0 == RunState::Finishing
                &&& match outcome {
                    Ok(()) => next.1 is MakeTarball,
                    Err(e) => next.1 matches RunAction::ReportMountFailure { message } && message@
                        == "Failed to mount directory: "@ + e@,
                }
            },
            (RunState::Finishing, RunEvent::StepDone) => next.0 == RunState::Unmounting && next.1 is Unmount,
            (RunState::Unmounting, RunEvent::StepDone) => next.0 == RunState::ReadingClock && next.1 is ReadClock,
            _ => next.0 == RunState::ReadingClock && next.1 is ReadClock,
        },
{
    match (state, event) {
        (RunState::ReadingClock, RunEvent::ClockRead { now_secs, now_nanos, target_secs, today }) => {
            let seconds = seconds_until_run(now_secs, now_nanos, target_secs);
            (RunState::Sleeping { run_today: is_scheduled_day(weekdays, today) }, RunAction::Sleep { seconds })
        },
        (RunState::Sleeping { run_today }, RunEvent::Slept) => {
            if run_today {
                (RunState::Pausing, RunAction::Pause)
            } else {
                (RunState::ReadingClock, RunAction::ReadClock)
            }
        },
        (RunState::Pausing, RunEvent::Slept) => (RunState::Mounting, RunAction::Mount),
        (RunState::Mounting, RunEvent::MountDone { outcome }) => {
            match plan_after_mount(&outcome) {
                AfterMount::MakeTarball => (RunState::Finishing, RunAction::MakeTarball),
                AfterMount::ReportFailure { message } => (
                    RunState::Finishing,
                    RunAction::ReportMountFailure { message },
                ),
            }
        },
        (RunState::Finishing, RunEvent::StepDone) => (RunState::Unmounting, RunAction::Unmount),
        (RunState::Unmounting, RunEvent::StepDone) => (RunState::ReadingClock, RunAction::ReadClock),
        _ => (RunState::ReadingClock, RunAction::ReadClock),
    }
}

} // verus!
