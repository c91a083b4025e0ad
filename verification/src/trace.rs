//! The bookkeeping of a daemon's CSV trace: whether one is being written,
//! when the next row is due, and the figures a status request reports.
use vstd::prelude::*;
use crate::text::push_str;

verus! {

/// A trace being written: where, how many rows so far, over how many
/// signals, how often, and the tick its next row is due.
#[derive(Clone, Debug)]
pub struct ActiveTrace {
    pub path: String,
    pub row_count: u64,
    pub signal_count: usize,
    pub period_ticks: u64,
    pub period_us: u64,
    pub next_due_tick: u64,
}

/// What a daemon knows of its trace: the one being written, if any, and the
/// figures of the last one, which a status request reports once it stopped.
#[derive(Clone, Debug)]
pub struct TraceBook {
    pub active: Option<ActiveTrace>,
    pub last_path: Option<String>,
    pub last_row_count: u64,
    pub last_signal_count: usize,
    pub last_period_us: Option<u64>,
}

/// The answer to a trace status request.
#[derive(Clone, Debug)]
pub struct TraceStatus {
    pub active: bool,
    pub path: Option<String>,
    pub row_count: u64,
    pub signal_count: usize,
    pub period_us: Option<u64>,
}

/// A path as text, if there is one.
pub open spec fn path_text(p: Option<String>) -> Option<Seq<char>> {
    match p {
        Some(s) => Some(s@),
        None => None,
    }
}

/// The figures of a status: active, path, rows, signals, period.
pub type StatusFigures = (bool, Option<Seq<char>>, u64, usize, Option<u64>);

impl TraceStatus {
    pub open spec fn figures(&self) -> StatusFigures {
        (self.active, path_text(self.path), self.row_count, self.signal_count, self.period_us)
    }
}

/// The message refusing to start a second trace.
pub open spec fn already_active_message() -> Seq<char> {
    "trace is already active; stop or clear it first"@
}

/// The message refusing a trace period of zero.
pub open spec fn zero_period_message() -> Seq<char> {
    "trace period must be greater than zero"@
}

/// The message refusing a trace path that is not absolute.
pub open spec fn relative_path_message(path: Seq<char>) -> Seq<char> {
    "trace output path must be absolute, got '"@ + path + "'"@
}

/// The ticks of `tick_us` a period of `period_us` takes, rounded up.
pub open spec fn period_ticks_of(period_us: u64, tick_us: u32) -> int {
    (period_us + tick_us - 1) / (tick_us as int)
}

/// `a + b`, held at `u64::MAX`.
pub open spec fn sat_add(a: u64, b: u64) -> u64 {
    if a + b > u64::MAX { u64::MAX } else { (a + b) as u64 }
}

impl TraceBook {
    /// The last figures follow the active trace while there is one, and its
    /// period is at least one tick.
    pub open spec fn wf(&self) -> bool {
        match self.active {
            Some(a) => {
                &&& path_text(self.last_path) == Some(a.path@)
                &&& self.last_row_count == a.row_count
                &&& self.last_signal_count == a.signal_count
                &&& self.last_period_us == Some(a.period_us)
                &&& a.period_ticks >= 1
            },
            None => true,
        }
    }

    /// The figures a status request reports.
    pub open spec fn figures(&self) -> StatusFigures {
        match self.active {
            Some(a) => (true, Some(a.path@), a.row_count, a.signal_count, Some(a.period_us)),
            None => (false, path_text(self.last_path), self.last_row_count, self.last_signal_count, self.last_period_us),
        }
    }

    /// Whether a row is due at `tick`.
    pub open spec fn due(&self, tick: u64) -> bool {
        self.active matches Some(a) && tick >= a.next_due_tick
    }

    /// The figures of a book that never traced, or was cleared.
    pub open spec fn empty_figures() -> StatusFigures {
        (false, None, 0, 0, None)
    }

    /// A book that never traced.
    pub fn new() -> (b: TraceBook)
        ensures
            b.wf(),
            b.active is None,
            b.figures() == Self::empty_figures(),
    {
        TraceBook { active: None, last_path: None, last_row_count: 0, last_signal_count: 0, last_period_us: None }
    }

    /// Refuses to start a trace while one is being written.
    pub fn ensure_idle(&self) -> (r: Result<(), String>)
        ensures
            r is Ok <==> self.active is None,
            r matches Err(m) ==> m@ == already_active_message(),
    {
        if self.active.is_some() {
            let mut m = String::new();
            push_str(&mut m, "trace is already active; stop or clear it first");
            assert(m@ =~= already_active_message());
            return Err(m);
        }
        Ok(())
    }

    /// Takes up a trace whose header and first row, at `elapsed_ticks`, were
    /// written: its next row is due a period later.
    pub fn record_start(
        &mut self,
        path: String,
        signal_count: usize,
        period_us: u64,
        period_ticks: u64,
        elapsed_ticks: u64,
    )
        requires
            old(self).active is None,
            period_ticks >= 1,
        ensures
            final(self).wf(),
            final(self).active matches Some(a) && a.path == path && a.row_count == 1
                && a.signal_count == signal_count && a.period_us == period_us
                && a.period_ticks == period_ticks && a.next_due_tick == sat_add(elapsed_ticks, period_ticks),
            final(self).figures() == (true, Some(path@), 1u64, signal_count, Some(period_us)),
    {
        let next_due_tick = elapsed_ticks.saturating_add(period_ticks);
        self.last_path = Some(path.clone());
        self.last_row_count = 1;
        self.last_signal_count = signal_count;
        self.last_period_us = Some(period_us);
        self.active = Some(ActiveTrace { path, row_count: 1, signal_count, period_ticks, period_us, next_due_tick });
    }

    /// Whether a row is due at `tick`.
    pub fn is_due(&self, tick: u64) -> (r: bool)
        ensures
            r == self.due(tick),
    {
        match &self.active {
            Some(a) => tick >= a.next_due_tick,
            None => false,
        }
    }

    /// The book after a row was written at `tick`: one row more, held at
    /// `u64::MAX`, and the next one due a period later.
    pub open spec fn after_row(self, tick: u64) -> TraceBook
        recommends
            self.active is Some,
    {
        let a = self.active.unwrap();
        let rows = sat_add(a.row_count, 1);
        TraceBook {
            active: Some(ActiveTrace { row_count: rows, next_due_tick: sat_add(tick, a.period_ticks), ..a }),
            last_row_count: rows,
            ..self
        }
    }

    /// Counts a row written at `tick` and schedules the next one.
    pub fn record_row(&mut self, tick: u64)
        requires
            old(self).wf(),
            old(self).active is Some,
        ensures
            *final(self) == old(self).after_row(tick),
            final(self).wf(),
    {
        let mut a = self.active.take().unwrap();
        a.row_count = a.row_count.saturating_add(1);
        a.next_due_tick = tick.saturating_add(a.period_ticks);
        self.last_row_count = a.row_count;
        self.active = Some(a);
    }

    /// The book after its trace stopped: the last figures stay.
    pub open spec fn stopped(self) -> TraceBook {
        TraceBook { active: None, ..self }
    }

    /// Stops the trace being written, if any; its figures stay for status.
    pub fn stop(&mut self)
        requires
            old(self).wf(),
        ensures
            *final(self) == old(self).stopped(),
            final(self).wf(),
    {
        self.active = None;
    }

    /// The file a clear removes: that of the trace being written, else that
    /// of the last one.
    pub open spec fn clear_target(self) -> Option<String> {
        match self.active {
            Some(a) => Some(a.path),
            None => self.last_path,
        }
    }

    /// Stops the trace being written, if any, and gives the file a clear
    /// removes. The figures stay until `forget`, which follows the removal.
    pub fn take_clear_target(&mut self) -> (p: Option<String>)
        requires
            old(self).wf(),
        ensures
            p == old(self).clear_target(),
            *final(self) == old(self).stopped(),
            final(self).wf(),
    {
        let p = match self.active.take() {
            Some(a) => Some(a.path),
            None => match &self.last_path {
                Some(q) => Some(q.clone()),
                None => None,
            },
        };
        proof {
            assert(self.active is None);
        }
        p
    }

    /// The book after the figures were forgotten.
    pub open spec fn forgotten(self) -> TraceBook {
        TraceBook { last_path: None, last_row_count: 0, last_signal_count: 0, last_period_us: None, ..self }
    }

    /// Forgets the figures of the last trace, once its file is gone.
    pub fn forget(&mut self)
        requires
            old(self).active is None,
        ensures
            *final(self) == old(self).forgotten(),
            final(self).wf(),
    {
        self.last_path = None;
        self.last_row_count = 0;
        self.last_signal_count = 0;
        self.last_period_us = None;
    }

    /// The answer to a status request.
    pub fn status(&self) -> (s: TraceStatus)
        ensures
            s.figures() == self.figures(),
    {
        match &self.active {
            Some(a) => TraceStatus {
                active: true,
                path: Some(a.path.clone()),
                row_count: a.row_count,
                signal_count: a.signal_count,
                period_us: Some(a.period_us),
            },
            None => TraceStatus {
                active: false,
                path: match &self.last_path {
                    Some(q) => Some(q.clone()),
                    None => None,
                },
                row_count: self.last_row_count,
                signal_count: self.last_signal_count,
                period_us: self.last_period_us,
            },
        }
    }
}

/// The ticks of `tick_duration_us` a trace period of `period_us` takes,
/// rounded up so rows never come faster than asked; a period of zero is refused.
pub fn trace_period_ticks(period_us: u64, tick_duration_us: u32) -> (r: Result<u64, String>)
    requires
        tick_duration_us > 0,
    ensures
        period_us == 0 ==> (r matches Err(m) && m@ == zero_period_message()),
        period_us > 0 ==> (r matches Ok(t) && t as int == period_ticks_of(period_us, tick_duration_us) && t >= 1),
{
    if period_us == 0 {
        let mut m = String::new();
        push_str(&mut m, "trace period must be greater than zero");
        assert(m@ =~= zero_period_message());
        return Err(m);
    }
    let tick: u64 = tick_duration_us as u64;
    let t = (period_us - 1) / tick + 1;
    proof {
        assert((period_us - 1) / (tick as int) + 1 == (period_us + tick - 1) / (tick as int)) by (nonlinear_arith)
            requires
                tick >= 1,
                period_us >= 1,
        {
            let a = period_us - 1;
            assert((a + tick) / (tick as int) == a / (tick as int) + 1) by {
                vstd::arithmetic::div_mod::lemma_div_plus_one(a as int, tick as int);
            }
        }
        assert((period_us - 1) / (tick as int) >= 0) by (nonlinear_arith)
            requires
                tick >= 1,
                period_us >= 1,
        ;
    }
    Ok(t)
}

/// Accepts a trace path found absolute, refuses it otherwise.
pub fn trace_path_check(path: &str, absolute: bool) -> (r: Result<(), String>)
    ensures
        absolute ==> r is Ok,
        !absolute ==> (r matches Err(m) && m@ == relative_path_message(path@)),
{
    if absolute {
        return Ok(());
    }
    let mut m = String::new();
    push_str(&mut m, "trace output path must be absolute, got '");
    push_str(&mut m, path);
    push_str(&mut m, "'");
    assert(m@ =~= relative_path_message(path@));
    Err(m)
}

/// Refuses a trace path that is not absolute on this platform; a path without
/// any separator, or one that neither starts with a separator nor holds a
/// `:`, is refused everywhere.
pub fn ensure_trace_path_absolute(path: &str) -> (r: Result<(), String>)
    ensures
        r matches Err(m) ==> m@ == relative_path_message(path@),
        !crate::daemon::has_separator(path@) ==> r is Err,
        crate::daemon::rootless_driveless(path@) ==> r is Err,
{
    let absolute = crate::daemon::path_is_absolute(path);
    trace_path_check(path, absolute)
}

/// Stopping a trace keeps what it recorded: a status after the stop reports
/// the same path, rows, signals and period, only no longer active.
pub proof fn lemma_stop_keeps_figures(b: TraceBook)
    requires
        b.wf(),
    ensures
        b.stopped().figures() == (false, b.figures().1, b.figures().2, b.figures().3, b.figures().4),
{
}

/// A cleared trace leaves nothing to report: after the stop and the
/// forgetting a clear makes, the status is that of a book that never traced.
pub proof fn lemma_clear_forgets(b: TraceBook)
    requires
        b.wf(),
    ensures
        b.stopped().forgotten().figures() == TraceBook::empty_figures(),
{
}

/// Rows come once a period: after a row at `tick`, none is due before the
/// period has passed, and one is due once it has.
pub proof fn lemma_row_once_per_period(b: TraceBook, tick: u64, later: u64)
    requires
        b.wf(),
        b.active is Some,
        tick + b.active.unwrap().period_ticks <= u64::MAX,
    ensures
        tick <= later < tick + b.active.unwrap().period_ticks ==> !b.after_row(tick).due(later),
        b.after_row(tick).due((tick + b.active.unwrap().period_ticks) as u64),
        b.after_row(tick).wf(),
{
}

/// A trace period in ticks covers the period asked, and one tick fewer
/// would not.
pub proof fn lemma_trace_period_covers(period_us: u64, tick_us: u32)
    requires
        period_us > 0,
        tick_us > 0,
    ensures
        period_ticks_of(period_us, tick_us) * tick_us >= period_us,
        (period_ticks_of(period_us, tick_us) - 1) * tick_us < period_us,
{
    crate::envd::lemma_period_rounds_up(tick_us as int, period_us as int);
}

} // verus!
