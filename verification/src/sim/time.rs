//! Simulated time in whole ticks: running or paused, and manual steps.
use vstd::prelude::*;
use crate::protocol::TimeStateData;
use crate::sim::error::SimError;

verus! {

/// What a manual step asked for and how far it went.
#[derive(Clone, Copy, Debug, PartialEq, Eq)]
pub struct StepResult {
    pub requested_us: u64,
    pub advanced_ticks: u64,
    pub advanced_us: u64,
}

/// Why a time operation was refused.
#[derive(Clone, Debug, PartialEq, Eq)]
pub enum TimeError {
    Sim(SimError),
    StepWhileRunning,
    AlreadyRunning,
    AlreadyPaused,
}

/// The tick count of simulated time and whether it runs.
#[derive(Clone, Copy, Debug)]
pub struct TimeClock {
    pub state: TimeStateData,
    pub elapsed_ticks: u64,
}

/// The whole ticks a step of `duration_us` covers, and the time they take.
pub open spec fn step_of(tick_duration_us: u32, duration_us: u64) -> StepResult {
    let ticks: u64 = if tick_duration_us == 0 { 0 } else { (duration_us / (tick_duration_us as u64)) as u64 };
    StepResult {
        requested_us: duration_us,
        advanced_ticks: ticks,
        advanced_us: if ticks * tick_duration_us > u64::MAX { u64::MAX } else { (ticks * tick_duration_us) as u64 },
    }
}

impl TimeClock {
    pub fn new() -> (c: TimeClock)
        ensures
            c.state == TimeStateData::Paused,
            c.elapsed_ticks == 0,
    {
        TimeClock { state: TimeStateData::Paused, elapsed_ticks: 0 }
    }

    /// Elapsed simulated time, saturating.
    pub fn elapsed_time_us(&self, tick_duration_us: u32) -> (r: u64)
        ensures
            r == if self.elapsed_ticks * tick_duration_us > u64::MAX { u64::MAX } else { (self.elapsed_ticks
                * tick_duration_us) as u64 },
    {
        let a = self.elapsed_ticks as u128;
        let b = tick_duration_us as u128;
        assert(a * b <= 0xffff_ffff_ffff_ffffu128 * 0xffff_ffffu128) by (nonlinear_arith)
            requires a <= 0xffff_ffff_ffff_ffffu128, b <= 0xffff_ffffu128;
        let wide: u128 = a * b;
        if wide > u64::MAX as u128 { u64::MAX } else { wide as u64 }
    }

    /// Lets time run; refused when it already does.
    pub fn start(&mut self) -> (r: Result<(), TimeError>)
        ensures
            old(self).state == TimeStateData::Running ==> r == Err::<(), TimeError>(TimeError::AlreadyRunning)
                && *final(self) == *old(self),
            old(self).state == TimeStateData::Paused ==> r is Ok && final(self).state == TimeStateData::Running
                && final(self).elapsed_ticks == old(self).elapsed_ticks,
    {
        if self.state == TimeStateData::Running {
            return Err(TimeError::AlreadyRunning);
        }
        self.state = TimeStateData::Running;
        Ok(())
    }

    /// Stops time; refused when it is already stopped.
    pub fn pause(&mut self) -> (r: Result<(), TimeError>)
        ensures
            old(self).state == TimeStateData::Paused ==> r == Err::<(), TimeError>(TimeError::AlreadyPaused)
                && *final(self) == *old(self),
            old(self).state == TimeStateData::Running ==> r is Ok && final(self).state == TimeStateData::Paused
                && final(self).elapsed_ticks == old(self).elapsed_ticks,
    {
        if self.state == TimeStateData::Paused {
            return Err(TimeError::AlreadyPaused);
        }
        self.state = TimeStateData::Paused;
        Ok(())
    }

    /// Plans a manual step of `duration_us`: the whole ticks it covers.
    /// Refused while time runs.
    pub fn step_ticks(&self, tick_duration_us: u32, duration_us: u64) -> (r: Result<StepResult, TimeError>)
        ensures
            self.state == TimeStateData::Running ==> r == Err::<StepResult, TimeError>(TimeError::StepWhileRunning),
            self.state == TimeStateData::Paused ==> r == Ok::<StepResult, TimeError>(step_of(tick_duration_us, duration_us)),
    {
        if self.state == TimeStateData::Running {
            return Err(TimeError::StepWhileRunning);
        }
        let tick_us = tick_duration_us as u64;
        let ticks: u64 = if tick_us == 0 { 0 } else { duration_us / tick_us };
        let a = ticks as u128;
        let b = tick_us as u128;
        assert(a * b <= 0xffff_ffff_ffff_ffffu128 * 0xffff_ffffu128) by (nonlinear_arith)
            requires a <= 0xffff_ffff_ffff_ffffu128, b <= 0xffff_ffffu128;
        let wide: u128 = a * b;
        let advanced_us: u64 = if wide > u64::MAX as u128 { u64::MAX } else { wide as u64 };
        Ok(StepResult { requested_us: duration_us, advanced_ticks: ticks, advanced_us })
    }

    /// Counts ticks that ran, saturating.
    pub fn advance_ticks(&mut self, ticks: u64)
        ensures
            final(self).state == old(self).state,
            final(self).elapsed_ticks == if old(self).elapsed_ticks + ticks > u64::MAX { u64::MAX } else { (old(self).elapsed_ticks
                + ticks) as u64 },
    {
        self.elapsed_ticks = self.elapsed_ticks.saturating_add(ticks);
    }
}

/// A step advances whole ticks and reports the time they take; it never
/// goes past what was asked, and falls short by less than one tick.
pub proof fn lemma_step_bounds(tick_duration_us: u32, duration_us: u64)
    requires
        tick_duration_us > 0,
    ensures
        step_of(tick_duration_us, duration_us).requested_us == duration_us,
        step_of(tick_duration_us, duration_us).advanced_us == step_of(tick_duration_us, duration_us).advanced_ticks * tick_duration_us,
        step_of(tick_duration_us, duration_us).advanced_us <= duration_us,
        duration_us - step_of(tick_duration_us, duration_us).advanced_us < tick_duration_us,
{
    let t = tick_duration_us as int;
    let q = duration_us as int / t;
    assert(q * t <= duration_us && duration_us - q * t < t) by (nonlinear_arith)
        requires
            t > 0,
            q == duration_us as int / t,
            duration_us >= 0,
    ;
}


/// The text a `TimeError` reads as.
pub open spec fn time_error_text(e: TimeError) -> Seq<char> {
    match e {
        TimeError::Sim(s) => crate::sim::error::sim_error_text(s),
        TimeError::StepWhileRunning => "step while running is not allowed; pause first"@,
        TimeError::AlreadyRunning => "time engine is already running"@,
        TimeError::AlreadyPaused => "time engine is already paused"@,
    }
}

impl TimeError {
    /// The text the error reads as.
    pub fn message(&self) -> (r: String)
        ensures
            r@ == time_error_text(*self),
    {
        match self {
            TimeError::Sim(s) => s.message(),
            TimeError::StepWhileRunning => {
                let mut r = String::new();
                crate::text::push_str(&mut r, "step while running is not allowed; pause first");
                assert(r@ =~= time_error_text(*self));
                r
            },
            TimeError::AlreadyRunning => {
                let mut r = String::new();
                crate::text::push_str(&mut r, "time engine is already running");
                assert(r@ =~= time_error_text(*self));
                r
            },
            TimeError::AlreadyPaused => {
                let mut r = String::new();
                crate::text::push_str(&mut r, "time engine is already paused");
                assert(r@ =~= time_error_text(*self));
                r
            },
        }
    }
}

} // verus!
