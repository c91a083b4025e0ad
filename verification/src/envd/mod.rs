//! Decisions of the env daemon: tick durations, CAN schedules and signal catalogs.
use vstd::prelude::*;
use crate::sim::types::{SimCanFrame, CAN_FLAG_EXTENDED};
use crate::can::dbc::frame_key_spec;
use crate::text::{dec, push_str, push_dec};

pub mod spec;
pub mod catalog;
pub mod plan;
pub mod buses;
pub mod reads;

verus! {

/// Accepts the tick duration an instance reports, which must not be zero.
pub fn validate_env_tick_duration_us(instance_name: &str, tick_duration_us: u32) -> (r: Result<u32, String>)
    ensures
        tick_duration_us == 0 ==> (r matches Err(m) && m@ == "instance '"@ + instance_name@
            + "' reports invalid zero tick duration"@),
        tick_duration_us != 0 ==> r == Ok::<u32, String>(tick_duration_us),
{
    if tick_duration_us == 0 {
        let mut m = String::new();
        push_str(&mut m, "instance '");
        push_str(&mut m, instance_name);
        push_str(&mut m, "' reports invalid zero tick duration");
        assert(m@ =~= "instance '"@ + instance_name@ + "' reports invalid zero tick duration"@);
        return Err(m);
    }
    Ok(tick_duration_us)
}

/// A periodic CAN transmission of an env.
#[derive(Clone, Debug)]
pub struct CanScheduleJob {
    pub job_id: String,
    pub arb_id: u32,
    pub flags: u8,
    pub data_hex: String,
    pub frame: SimCanFrame,
    pub every_ticks: u64,
    pub next_due_tick: u64,
    pub enabled: bool,
}

/// Replaces what a schedule sends and how often, due again at `current_tick`;
/// whether it runs is left as it was.
pub fn update_schedule(
    schedule: &mut CanScheduleJob,
    arb_id: u32,
    data_hex: String,
    frame: SimCanFrame,
    every_ticks: u64,
    current_tick: u64,
)
    ensures
        final(schedule).job_id == old(schedule).job_id,
        final(schedule).arb_id == arb_id,
        final(schedule).flags == frame.flags,
        final(schedule).data_hex == data_hex,
        final(schedule).frame == frame,
        final(schedule).every_ticks == every_ticks,
        final(schedule).next_due_tick == current_tick,
        final(schedule).enabled == old(schedule).enabled,
{
    schedule.arb_id = arb_id;
    schedule.flags = frame.flags;
    schedule.data_hex = data_hex;
    schedule.frame = frame;
    schedule.every_ticks = every_ticks;
    schedule.next_due_tick = current_tick;
}

/// Lets a schedule run again.
pub fn start_schedule(schedule: &mut CanScheduleJob)
    ensures
        final(schedule).enabled,
        final(schedule).job_id == old(schedule).job_id,
        final(schedule).arb_id == old(schedule).arb_id,
        final(schedule).flags == old(schedule).flags,
        final(schedule).data_hex == old(schedule).data_hex,
        final(schedule).frame == old(schedule).frame,
        final(schedule).every_ticks == old(schedule).every_ticks,
        final(schedule).next_due_tick == old(schedule).next_due_tick,
{
    schedule.enabled = true;
}

/// The number of ticks of `tick_duration_us` (taken as at least 1) a period
/// of `duration_us` lasts, rounded up so a schedule never runs faster than asked.
pub fn ticks_for_period(tick_duration_us: u32, duration_us: u64) -> (r: Result<u64, String>)
    ensures
        duration_us == 0 ==> (r matches Err(m) && m@ == "schedule period must be greater than zero"@),
        duration_us > 0 ==> (r matches Ok(t) && t as int == (duration_us + (if tick_duration_us == 0 { 1 } else { tick_duration_us as int }) - 1)
            / (if tick_duration_us == 0 { 1 } else { tick_duration_us as int })),
{
    if duration_us == 0 {
        let mut m = String::new();
        push_str(&mut m, "schedule period must be greater than zero");
        assert(m@ =~= "schedule period must be greater than zero"@);
        return Err(m);
    }
    let tick: u64 = if tick_duration_us == 0 { 1 } else { tick_duration_us as u64 };
    let t = (duration_us - 1) / tick + 1;
    proof {
        assert((duration_us - 1) / (tick as int) + 1 == (duration_us + tick - 1) / (tick as int)) by (nonlinear_arith)
            requires
                tick >= 1,
                duration_us >= 1,
        {
            let a = duration_us - 1;
            assert((a + tick) / (tick as int) == a / (tick as int) + 1) by {
                vstd::arithmetic::div_mod::lemma_div_plus_one(a as int, tick as int);
            }
        }
    }
    Ok(t)
}

/// Refuses a job id some bus already schedules.
pub fn ensure_unique_schedule_job_id(bus_job_ids: &[Vec<String>], job_id: &str) -> (r: Result<(), String>)
    ensures
        r is Ok <==> !exists|b: int, j: int|
            0 <= b < bus_job_ids@.len() && 0 <= j < bus_job_ids@[b]@.len() && #[trigger] bus_job_ids@[b]@[j]@ == job_id@,
        r matches Err(m) ==> m@ == "CAN schedule '"@ + job_id@ + "' already exists"@,
{
    let mut b: usize = 0;
    while b < bus_job_ids.len()
        invariant
            b <= bus_job_ids@.len(),
            forall|bb: int, j: int|
                0 <= bb < b && 0 <= j < bus_job_ids@[bb]@.len() ==> #[trigger] bus_job_ids@[bb]@[j]@ != job_id@,
        decreases bus_job_ids@.len() - b,
    {
        let ids = &bus_job_ids[b];
        let mut j: usize = 0;
        while j < ids.len()
            invariant
                b < bus_job_ids@.len(),
                *ids == bus_job_ids@[b as int],
                j <= ids@.len(),
                forall|bb: int, jj: int|
                    0 <= bb < b && 0 <= jj < bus_job_ids@[bb]@.len() ==> #[trigger] bus_job_ids@[bb]@[jj]@ != job_id@,
                forall|jj: int| 0 <= jj < j ==> #[trigger] ids@[jj]@ != job_id@,
            decreases ids@.len() - j,
        {
            if crate::sim::validation::same_text(ids[j].as_str(), job_id) {
                let mut m = String::new();
                push_str(&mut m, "CAN schedule '");
                push_str(&mut m, job_id);
                push_str(&mut m, "' already exists");
                assert(m@ =~= "CAN schedule '"@ + job_id@ + "' already exists"@);
                assert(bus_job_ids@[b as int]@[j as int]@ == job_id@);
                return Err(m);
            }
            j = j + 1;
        }
        b = b + 1;
    }
    Ok(())
}

/// A schedule never runs faster than asked, and no slower than one tick
/// more: the ticks of a period cover it, and one tick fewer would not.
pub proof fn lemma_period_rounds_up(tick: int, duration: int)
    requires
        tick >= 1,
        duration >= 1,
    ensures
        ((duration + tick - 1) / tick) * tick >= duration,
        ((duration + tick - 1) / tick - 1) * tick < duration,
{
    let t = (duration + tick - 1) / tick;
    let r = (duration + tick - 1) % tick;
    assert(t * tick + r == duration + tick - 1 && 0 <= r < tick) by (nonlinear_arith)
        requires
            tick >= 1,
            t == (duration + tick - 1) / tick,
            r == (duration + tick - 1) % tick,
    ;
    assert((t - 1) * tick == t * tick - tick) by (nonlinear_arith);
}

/// A schedule that fires at `tick`: running, and due by then.
pub open spec fn due(job: CanScheduleJob, tick: u64) -> bool {
    job.enabled && job.next_due_tick <= tick
}

/// The tick a schedule that fired at `tick` is due again: a period later,
/// at least one tick, saturating.
pub open spec fn next_due_after(tick: u64, every_ticks: u64) -> u64 {
    let step: int = if every_ticks == 0 { 1 } else { every_ticks as int };
    if tick + step > u64::MAX { u64::MAX } else { (tick + step) as u64 }
}

/// The schedule as it stands after firing at `tick`.
pub open spec fn fired(job: CanScheduleJob, tick: u64) -> CanScheduleJob {
    CanScheduleJob {
        job_id: job.job_id,
        arb_id: job.arb_id,
        flags: job.flags,
        data_hex: job.data_hex,
        frame: job.frame,
        every_ticks: job.every_ticks,
        next_due_tick: next_due_after(tick, job.every_ticks),
        enabled: job.enabled,
    }
}

/// The frames the first `n` schedules send at `tick`, in order.
pub open spec fn due_frames(jobs: Seq<CanScheduleJob>, tick: u64, n: int) -> Seq<SimCanFrame>
    decreases n,
{
    if n <= 0 {
        Seq::empty()
    } else if due(jobs[n - 1], tick) {
        due_frames(jobs, tick, n - 1).push(jobs[n - 1].frame)
    } else {
        due_frames(jobs, tick, n - 1)
    }
}

/// Fires the schedules of a bus at `tick`: each one due sends its frame and
/// is due again a period later; the others stay as they were. Gives the
/// frames sent, in schedule order.
pub fn fire_due_schedules(jobs: &mut Vec<CanScheduleJob>, tick: u64) -> (frames: Vec<SimCanFrame>)
    ensures
        final(jobs)@.len() == old(jobs)@.len(),
        forall|i: int| 0 <= i < old(jobs)@.len() ==> (#[trigger] final(jobs)@[i]) == if due(old(jobs)@[i], tick) {
            fired(old(jobs)@[i], tick)
        } else {
            old(jobs)@[i]
        },
        frames@ == due_frames(old(jobs)@, tick, old(jobs)@.len() as int),
{
    let ghost start = jobs@;
    let mut frames: Vec<SimCanFrame> = Vec::new();
    let mut i: usize = 0;
    while i < jobs.len()
        invariant
            i <= jobs@.len(),
            jobs@.len() == start.len(),
            forall|k: int| 0 <= k < i ==> (#[trigger] jobs@[k]) == if due(start[k], tick) { fired(start[k], tick) } else { start[k] },
            forall|k: int| i <= k < start.len() ==> #[trigger] jobs@[k] == start[k],
            frames@ == due_frames(start, tick, i as int),
        decreases jobs@.len() - i,
    {
        if jobs[i].enabled && jobs[i].next_due_tick <= tick {
            let mut job = jobs.remove(i);
            frames.push(job.frame);
            let step: u64 = if job.every_ticks == 0 { 1 } else { job.every_ticks };
            job.next_due_tick = tick.saturating_add(step);
            let ghost before = jobs@;
            jobs.insert(i, job);
            proof {
                assert(jobs@[i as int] == fired(start[i as int], tick));
                assert forall|k: int| 0 <= k < jobs@.len() && k != i implies #[trigger] jobs@[k] == old_or_start(start, k, i as int, tick) by {
                    if k < i {
                        assert(jobs@[k] == before[k]);
                    } else {
                        assert(jobs@[k] == before[k - 1]);
                    }
                }
            }
        }
        i = i + 1;
    }
    frames
}

/// The schedule at `k` after the first `i` schedules were fired at `tick`.
spec fn old_or_start(start: Seq<CanScheduleJob>, k: int, i: int, tick: u64) -> CanScheduleJob {
    if k < i && due(start[k], tick) { fired(start[k], tick) } else { start[k] }
}

/// A schedule fires at most once per tick: after the due ones fired at
/// `tick`, none is due at `tick` any more, short of the last tick there is.
pub proof fn lemma_fired_not_due(job: CanScheduleJob, tick: u64)
    requires
        tick < u64::MAX,
    ensures
        !due(if due(job, tick) { fired(job, tick) } else { job }, tick),
{
}

/// After firing at `tick`, an enabled schedule is due again exactly once a
/// whole period has passed (one tick for a zero period), and a disabled one
/// never is; firing keeps what it sends.
pub proof fn lemma_fired_due_after_period(job: CanScheduleJob, tick: u64, later: u64)
    requires
        tick + (if job.every_ticks == 0 { 1 } else { job.every_ticks as int }) <= u64::MAX,
    ensures
        due(fired(job, tick), later) <==> (job.enabled
            && later >= tick + (if job.every_ticks == 0 { 1 } else { job.every_ticks as int })),
        fired(job, tick).frame == job.frame,
        fired(job, tick).every_ticks == job.every_ticks,
{
}

/// Puts every schedule back to due at once, as a reset of the env does.
pub fn reset_schedules(jobs: &mut Vec<CanScheduleJob>)
    ensures
        final(jobs)@.len() == old(jobs)@.len(),
        forall|i: int| 0 <= i < old(jobs)@.len() ==> #[trigger] final(jobs)@[i] == (CanScheduleJob {
            next_due_tick: 0,
            ..old(jobs)@[i]
        }),
{
    let ghost start = jobs@;
    let mut i: usize = 0;
    while i < jobs.len()
        invariant
            i <= jobs@.len(),
            jobs@.len() == start.len(),
            forall|k: int| 0 <= k < i ==> #[trigger] jobs@[k] == (CanScheduleJob { next_due_tick: 0, ..start[k] }),
            forall|k: int| i <= k < start.len() ==> #[trigger] jobs@[k] == start[k],
        decreases jobs@.len() - i,
    {
        let mut job = jobs.remove(i);
        job.next_due_tick = 0;
        let ghost before = jobs@;
        jobs.insert(i, job);
        proof {
            assert forall|k: int| 0 <= k < jobs@.len() && k != i implies #[trigger] jobs@[k] == (if k < i { before[k] } else { before[k - 1] }) by {}
        }
        i = i + 1;
    }
}

/// The key a frame is recorded under: its id, marked when extended.
pub open spec fn recorded_key(frame: SimCanFrame) -> u32 {
    frame_key_spec(frame.arb_id, frame.flags & CAN_FLAG_EXTENDED != 0)
}

/// The frames by key; each key occurs once.
pub open spec fn keyed(frames: Seq<SimCanFrame>) -> Map<u32, SimCanFrame> {
    Map::new(
        |k: u32| exists|i: int| 0 <= i < frames.len() && recorded_key(frames[i]) == k,
        |k: u32| frames[choose|i: int| 0 <= i < frames.len() && recorded_key(frames[i]) == k],
    )
}

/// The latest frame seen on a bus under each frame key.
pub struct LatestFrames {
    frames: Vec<SimCanFrame>,
}

impl View for LatestFrames {
    type V = Map<u32, SimCanFrame>;

    closed spec fn view(&self) -> Map<u32, SimCanFrame> {
        keyed(self.frames@)
    }
}

impl LatestFrames {
    /// No key occurs twice.
    pub closed spec fn wf(&self) -> bool {
        forall|i: int, j: int| 0 <= i < j < self.frames@.len() ==> recorded_key(#[trigger] self.frames@[i]) != recorded_key(#[trigger] self.frames@[j])
    }

    pub fn new() -> (r: LatestFrames)
        ensures
            r.wf(),
            r@ == Map::<u32, SimCanFrame>::empty(),
    {
        let r = LatestFrames { frames: Vec::new() };
        assert(r@ =~= Map::<u32, SimCanFrame>::empty());
        r
    }

    /// Records a frame seen on the bus; it replaces the one under its key.
    pub fn record(&mut self, frame: SimCanFrame)
        requires
            old(self).wf(),
        ensures
            final(self).wf(),
            final(self)@ == old(self)@.insert(recorded_key(frame), frame),
    {
        let key = crate::can::dbc::frame_key_from_frame(&frame);
        let ghost before = self.frames@;
        let mut i: usize = 0;
        while i < self.frames.len()
            invariant
                self.frames@ == before,
                i <= before.len(),
                forall|j: int| 0 <= j < i ==> recorded_key(#[trigger] before[j]) != key,
                key == recorded_key(frame),
                forall|a: int, b: int| 0 <= a < b < before.len() ==> recorded_key(#[trigger] before[a]) != recorded_key(#[trigger] before[b]),
                old(self)@ == keyed(before),
            decreases before.len() - i,
        {
            if crate::can::dbc::frame_key_from_frame(&self.frames[i]) == key {
                let _ = self.frames.remove(i);
                self.frames.insert(i, frame);
                proof {
                    let after = self.frames@;
                    assert(after =~= before.update(i as int, frame));
                    assert forall|a: int, b: int| 0 <= a < b < after.len() implies recorded_key(#[trigger] after[a]) != recorded_key(#[trigger] after[b]) by {
                        assert(recorded_key(before[a]) != recorded_key(before[b]));
                    }
                    assert forall|k: u32| #[trigger] keyed(after).contains_key(k) <==> old(self)@.insert(key, frame).contains_key(k) by {
                        if k != key {
                            if exists|x: int| 0 <= x < after.len() && recorded_key(after[x]) == k {
                                let x = choose|x: int| 0 <= x < after.len() && recorded_key(after[x]) == k;
                                assert(recorded_key(before[x]) == k);
                            }
                            if exists|x: int| 0 <= x < before.len() && recorded_key(before[x]) == k {
                                let x = choose|x: int| 0 <= x < before.len() && recorded_key(before[x]) == k;
                                assert(recorded_key(after[x]) == k);
                            }
                        } else {
                            assert(recorded_key(after[i as int]) == k);
                        }
                    }
                    assert forall|k: u32| #[trigger] keyed(after).contains_key(k) implies keyed(after)[k] == old(self)@.insert(key, frame)[k] by {
                        let x = choose|x: int| 0 <= x < after.len() && recorded_key(after[x]) == k;
                        if k == key {
                            assert(x == i);
                        } else {
                            let y = choose|y: int| 0 <= y < before.len() && recorded_key(before[y]) == k;
                            assert(recorded_key(before[x]) == k);
                            assert(x == y);
                        }
                    }
                    assert(keyed(after) =~= old(self)@.insert(key, frame));
                }
                return;
            }
            i = i + 1;
        }
        self.frames.push(frame);
        proof {
            let after = self.frames@;
            assert(after =~= before.push(frame));
            assert forall|a: int, b: int| 0 <= a < b < after.len() implies recorded_key(#[trigger] after[a]) != recorded_key(#[trigger] after[b]) by {
                if b < before.len() {
                    assert(recorded_key(before[a]) != recorded_key(before[b]));
                } else {
                    assert(recorded_key(before[a]) != key);
                }
            }
            assert forall|k: u32| #[trigger] keyed(after).contains_key(k) <==> old(self)@.insert(key, frame).contains_key(k) by {
                if exists|x: int| 0 <= x < after.len() && recorded_key(after[x]) == k {
                    let x = choose|x: int| 0 <= x < after.len() && recorded_key(after[x]) == k;
                    if x < before.len() {
                        assert(recorded_key(before[x]) == k);
                    }
                }
                if exists|x: int| 0 <= x < before.len() && recorded_key(before[x]) == k {
                    let x = choose|x: int| 0 <= x < before.len() && recorded_key(before[x]) == k;
                    assert(recorded_key(after[x]) == k);
                }
                if k == key {
                    assert(recorded_key(after[before.len() as int]) == k);
                }
            }
            assert forall|k: u32| #[trigger] keyed(after).contains_key(k) implies keyed(after)[k] == old(self)@.insert(key, frame)[k] by {
                let x = choose|x: int| 0 <= x < after.len() && recorded_key(after[x]) == k;
                if k == key {
                    if x < before.len() {
                        assert(recorded_key(before[x]) == key);
                    }
                    assert(x == before.len());
                } else {
                    let y = choose|y: int| 0 <= y < before.len() && recorded_key(before[y]) == k;
                    if x == before.len() {
                        assert(recorded_key(after[x]) == key);
                    }
                    assert(recorded_key(before[x]) == k);
                    if x != y {
                        if x < y {
                            assert(recorded_key(before[x]) != recorded_key(before[y]));
                        } else {
                            assert(recorded_key(before[y]) != recorded_key(before[x]));
                        }
                    }
                }
            }
            assert(keyed(after) =~= old(self)@.insert(key, frame));
        }
    }

    /// Forgets every frame.
    pub fn clear(&mut self)
        ensures
            final(self).wf(),
            final(self)@ == Map::<u32, SimCanFrame>::empty(),
    {
        self.frames = Vec::new();
        assert(self@ =~= Map::<u32, SimCanFrame>::empty());
    }

    /// The recorded frames, one per key.
    pub fn frames(&self) -> (r: &[SimCanFrame])
        requires
            self.wf(),
        ensures
            forall|i: int| 0 <= i < r@.len() ==> self@.contains_key(recorded_key(#[trigger] r@[i])) && self@[recorded_key(r@[i])] == r@[i],
            forall|k: u32| #[trigger] self@.contains_key(k) ==> exists|i: int| 0 <= i < r@.len() && recorded_key(r@[i]) == k,
            forall|i: int, j: int| 0 <= i < j < r@.len() ==> recorded_key(#[trigger] r@[i]) != recorded_key(#[trigger] r@[j]),
    {
        proof {
            assert forall|i: int| 0 <= i < self.frames@.len() implies self@.contains_key(recorded_key(#[trigger] self.frames@[i])) && self@[recorded_key(self.frames@[i])] == self.frames@[i] by {
                let k = recorded_key(self.frames@[i]);
                let x = choose|x: int| 0 <= x < self.frames@.len() && recorded_key(self.frames@[x]) == k;
                if x != i {
                    if x < i {
                        assert(recorded_key(self.frames@[x]) != recorded_key(self.frames@[i]));
                    } else {
                        assert(recorded_key(self.frames@[i]) != recorded_key(self.frames@[x]));
                    }
                }
            }
        }
        self.frames.as_slice()
    }
}


/// The message refusing a request meant for another env.
pub open spec fn other_env_message(name: Seq<char>, requested: Seq<char>) -> Seq<char> {
    "env daemon '"@ + name + "' cannot service requests for env '"@ + requested + "'"@
}

/// Accepts a request for the env this daemon runs, refuses one for another.
pub fn ensure_env_name(name: &str, requested: &str) -> (r: Result<(), String>)
    ensures
        r is Ok <==> name@ == requested@,
        r matches Err(m) ==> m@ == other_env_message(name@, requested@),
{
    if crate::sim::validation::same_text(name, requested) {
        return Ok(());
    }
    let mut m = String::new();
    push_str(&mut m, "env daemon '");
    push_str(&mut m, name);
    push_str(&mut m, "' cannot service requests for env '");
    push_str(&mut m, requested);
    push_str(&mut m, "'");
    assert(m@ =~= other_env_message(name@, requested@));
    Err(m)
}

/// The message for a worker that answered with the wrong number of values.
pub open spec fn worker_count_message(instance: Seq<char>, got: nat, asked: nat) -> Seq<char> {
    "instance '"@ + instance + "' returned "@ + dec(got) + " values for "@ + dec(asked) + " requested ids"@
}

/// The message for a worker that answered for another signal than asked.
pub open spec fn worker_id_message(instance: Seq<char>, idx: nat, expected: u32, got: u32) -> Seq<char> {
    "instance '"@ + instance + "' returned mismatched signal id at index "@ + dec(idx) + ": expected "@
        + dec(expected as nat) + ", got "@ + dec(got as nat)
}

/// The first index at or after `k` where the ids given back differ from those asked.
pub open spec fn first_id_mismatch(requested: Seq<u32>, got: Seq<u32>, k: int) -> Option<int>
    decreases requested.len() - k,
{
    if k < 0 || k >= requested.len() || k >= got.len() {
        None
    } else if requested[k] != got[k] {
        Some(k)
    } else {
        first_id_mismatch(requested, got, k + 1)
    }
}

/// Checks that a worker answered a read with one value per id asked, in order.
pub fn validate_worker_signal_values(instance: &str, requested_ids: &[u32], value_ids: &[u32]) -> (r: Result<(), String>)
    ensures
        value_ids@.len() != requested_ids@.len() ==> (r matches Err(m)
            && m@ == worker_count_message(instance@, value_ids@.len(), requested_ids@.len())),
        value_ids@.len() == requested_ids@.len() ==> match first_id_mismatch(requested_ids@, value_ids@, 0) {
            Some(i) => r matches Err(m) && m@ == worker_id_message(instance@, i as nat, requested_ids@[i], value_ids@[i]),
            None => r is Ok,
        },
{
    if value_ids.len() != requested_ids.len() {
        let mut m = String::new();
        push_str(&mut m, "instance '");
        push_str(&mut m, instance);
        push_str(&mut m, "' returned ");
        push_dec(&mut m, value_ids.len() as u64);
        push_str(&mut m, " values for ");
        push_dec(&mut m, requested_ids.len() as u64);
        push_str(&mut m, " requested ids");
        assert(m@ =~= worker_count_message(instance@, value_ids@.len(), requested_ids@.len()));
        return Err(m);
    }
    let mut k: usize = 0;
    while k < requested_ids.len()
        invariant
            k <= requested_ids@.len(),
            value_ids@.len() == requested_ids@.len(),
            first_id_mismatch(requested_ids@, value_ids@, 0) == first_id_mismatch(requested_ids@, value_ids@, k as int),
        decreases requested_ids@.len() - k,
    {
        if requested_ids[k] != value_ids[k] {
            let mut m = String::new();
            push_str(&mut m, "instance '");
            push_str(&mut m, instance);
            push_str(&mut m, "' returned mismatched signal id at index ");
            push_dec(&mut m, k as u64);
            push_str(&mut m, ": expected ");
            push_dec(&mut m, requested_ids[k] as u64);
            push_str(&mut m, ", got ");
            push_dec(&mut m, value_ids[k] as u64);
            assert(m@ =~= worker_id_message(instance@, k as nat, requested_ids@[k as int], value_ids@[k as int]));
            return Err(m);
        }
        k = k + 1;
    }
    Ok(())
}


/// Why starting or reaching an env daemon failed.
#[derive(Clone, Debug, PartialEq, Eq)]
pub enum EnvDaemonError {
    StartupTimeout,
    StartupFailed(String),
    AlreadyRunning(String),
    NotRunning(String),
    Request(String),
    Io(String),
}

/// The text an `EnvDaemonError` reads as.
pub open spec fn env_daemon_error_text(e: EnvDaemonError) -> Seq<char> {
    match e {
        EnvDaemonError::StartupTimeout => "env daemon startup timeout"@,
        EnvDaemonError::StartupFailed(m) => "env daemon startup failed: "@ + m@,
        EnvDaemonError::AlreadyRunning(s) => "env '"@ + s@ + "' already has a running daemon"@,
        EnvDaemonError::NotRunning(s) => "env '"@ + s@ + "' has no running daemon; run `agent-sim env start <name>` first"@,
        EnvDaemonError::Request(m) => "env daemon request failed: "@ + m@,
        EnvDaemonError::Io(m) => "env daemon io error: "@ + m@,
    }
}

impl EnvDaemonError {
    /// The text the error reads as.
    pub fn message(&self) -> (r: String)
        ensures
            r@ == env_daemon_error_text(*self),
    {
        let mut r = String::new();
        match self {
            EnvDaemonError::StartupTimeout => push_str(&mut r, "env daemon startup timeout"),
            EnvDaemonError::StartupFailed(m) => {
                push_str(&mut r, "env daemon startup failed: ");
                push_str(&mut r, m.as_str());
            },
            EnvDaemonError::AlreadyRunning(s) => {
                push_str(&mut r, "env '");
                push_str(&mut r, s.as_str());
                push_str(&mut r, "' already has a running daemon");
            },
            EnvDaemonError::NotRunning(s) => {
                push_str(&mut r, "env '");
                push_str(&mut r, s.as_str());
                push_str(&mut r, "' has no running daemon; run `agent-sim env start <name>` first");
            },
            EnvDaemonError::Request(m) => {
                push_str(&mut r, "env daemon request failed: ");
                push_str(&mut r, m.as_str());
            },
            EnvDaemonError::Io(m) => {
                push_str(&mut r, "env daemon io error: ");
                push_str(&mut r, m.as_str());
            },
        }
        assert(r@ =~= env_daemon_error_text(*self));
        r
    }
}

} // verus!
