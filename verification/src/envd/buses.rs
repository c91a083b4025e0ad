//! The CAN buses an env daemon runs: each with its schedules, the latest
//! frames seen on it and the DBC loaded for it, kept in the order of their
//! names, as the daemon lists them.
use vstd::prelude::*;
use crate::can::overlay::DbcBusOverlay;
use crate::envd::{CanScheduleJob, LatestFrames, due, fired, recorded_key};
use crate::can::{frame_fault, payload_of_hex};
use crate::protocol::{CanBusData, CanScheduleData};
use crate::signal_selectors::{lex_less, lex_lt, lemma_lex_asym, lemma_lex_total, lemma_lex_trans};
use crate::sim::types::SimCanFrame;
use crate::text::{push_str, str_chars};

verus! {

/// A CAN bus of an env.
pub struct EnvCanBus {
    pub name: String,
    pub vcan_iface: String,
    pub fd_capable: bool,
    pub bitrate: u32,
    pub bitrate_data: u32,
    pub dbc: Option<DbcBusOverlay>,
    pub schedules: Vec<CanScheduleJob>,
    pub latest: LatestFrames,
}

/// The buses of an env, by ascending name.
pub struct EnvCanBuses {
    pub buses: Vec<EnvCanBus>,
}

/// The job id of schedule `j` of bus `b`.
pub open spec fn job_id_at(bs: Seq<EnvCanBus>, b: int, j: int) -> Seq<char> {
    bs[b].schedules@[j].job_id@
}

/// Bus names strictly ascend.
pub open spec fn names_sorted(bs: Seq<EnvCanBus>) -> bool {
    forall|i: int, j: int| 0 <= i < j < bs.len() ==> lex_lt(#[trigger] bs[i].name@, #[trigger] bs[j].name@)
}

/// Job ids strictly ascend.
pub open spec fn jobs_sorted(js: Seq<CanScheduleJob>) -> bool {
    forall|i: int, j: int| 0 <= i < j < js.len() ==> lex_lt(#[trigger] js[i].job_id@, #[trigger] js[j].job_id@)
}

/// No job id is scheduled on two buses.
pub open spec fn jobs_apart(bs: Seq<EnvCanBus>) -> bool {
    forall|b1: int, j1: int, b2: int, j2: int|
        0 <= b1 < bs.len() && 0 <= b2 < bs.len() && b1 != b2 && 0 <= j1 < bs[b1].schedules@.len()
            && 0 <= j2 < bs[b2].schedules@.len() ==> #[trigger] job_id_at(bs, b1, j1) != #[trigger] job_id_at(bs, b2, j2)
}

/// Some bus schedules `job_id`.
pub open spec fn has_job(bs: Seq<EnvCanBus>, job_id: Seq<char>) -> bool {
    exists|b: int, j: int| 0 <= b < bs.len() && 0 <= j < bs[b].schedules@.len() && #[trigger] job_id_at(bs, b, j) == job_id
}

/// The position of the bus named `name`, if there is one.
pub open spec fn bus_at(bs: Seq<EnvCanBus>, name: Seq<char>) -> Option<int> {
    if exists|i: int| 0 <= i < bs.len() && bs[i].name@ == name {
        Some(choose|i: int| 0 <= i < bs.len() && bs[i].name@ == name)
    } else {
        None
    }
}

/// The message for a bus the env does not have.
pub open spec fn bus_missing_message(name: Seq<char>) -> Seq<char> {
    "env CAN bus '"@ + name + "' not found"@
}

/// The message for a schedule no bus has.
pub open spec fn schedule_missing_message(job_id: Seq<char>) -> Seq<char> {
    "CAN schedule '"@ + job_id + "' not found"@
}

/// The message for a job id already scheduled.
pub open spec fn schedule_exists_message(job_id: Seq<char>) -> Seq<char> {
    "CAN schedule '"@ + job_id + "' already exists"@
}

impl EnvCanBuses {
    /// Names ascend, each bus's job ids ascend, no job id is on two buses,
    /// and each bus keeps one latest frame per key.
    pub open spec fn wf(&self) -> bool {
        &&& names_sorted(self.buses@)
        &&& forall|b: int| 0 <= b < self.buses@.len() ==> jobs_sorted((#[trigger] self.buses@[b]).schedules@)
        &&& forall|b: int| 0 <= b < self.buses@.len() ==> (#[trigger] self.buses@[b]).latest.wf()
        &&& jobs_apart(self.buses@)
    }

    /// An env without CAN buses.
    pub fn new() -> (r: EnvCanBuses)
        ensures
            r.wf(),
            r.buses@.len() == 0,
    {
        EnvCanBuses { buses: Vec::new() }
    }

    /// Finds the bus named `name`.
    pub fn position(&self, name: &str) -> (r: Option<usize>)
        requires
            self.wf(),
        ensures
            match r {
                Some(i) => i < self.buses@.len() && self.buses@[i as int].name@ == name@ && bus_at(self.buses@, name@) == Some(i as int),
                None => bus_at(self.buses@, name@) is None,
            },
    {
        let mut i: usize = 0;
        while i < self.buses.len()
            invariant
                self.wf(),
                i <= self.buses@.len(),
                forall|k: int| 0 <= k < i ==> self.buses@[k].name@ != name@,
            decreases self.buses@.len() - i,
        {
            if crate::sim::validation::same_text(self.buses[i].name.as_str(), name) {
                proof {
                    let c = choose|c: int| 0 <= c < self.buses@.len() && self.buses@[c].name@ == name@;
                    assert(0 <= i < self.buses@.len() && self.buses@[i as int].name@ == name@);
                    if c != i as int {
                        if c < i {
                            assert(lex_lt(self.buses@[c].name@, self.buses@[i as int].name@));
                        } else {
                            assert(lex_lt(self.buses@[i as int].name@, self.buses@[c].name@));
                        }
                        lemma_lex_asym(name@, name@);
                    }
                }
                return Some(i);
            }
            i = i + 1;
        }
        None
    }

    /// Finds the bus named `name`, or says that the env has none.
    pub fn require(&self, name: &str) -> (r: Result<usize, String>)
        requires
            self.wf(),
        ensures
            r is Err <==> bus_at(self.buses@, name@) is None,
            r matches Ok(i) ==> i < self.buses@.len() && self.buses@[i as int].name@ == name@
                && bus_at(self.buses@, name@) == Some(i as int),
            r matches Err(m) ==> m@ == bus_missing_message(name@),
    {
        match self.position(name) {
            Some(i) => Ok(i),
            None => {
                let mut m = String::new();
                push_str(&mut m, "env CAN bus '");
                push_str(&mut m, name);
                push_str(&mut m, "' not found");
                assert(m@ =~= bus_missing_message(name@));
                Err(m)
            },
        }
    }

    /// Adds a bus without schedules, in name order; one of the same name is
    /// replaced.
    pub fn insert_bus(&mut self, bus: EnvCanBus)
        requires
            old(self).wf(),
            bus.schedules@.len() == 0,
            bus.latest.wf(),
        ensures
            final(self).wf(),
            match bus_at(old(self).buses@, bus.name@) {
                Some(i) => final(self).buses@ == old(self).buses@.update(i, bus),
                None => exists|p: int| 0 <= p <= old(self).buses@.len() && final(self).buses@ == old(self).buses@.insert(p, bus),
            },
    {
        let key = str_chars(bus.name.as_str());
        let ghost before = self.buses@;
        let mut p: usize = 0;
        while p < self.buses.len()
            invariant
                self.buses@ == before,
                p <= before.len(),
                key@ == bus.name@,
                forall|k: int| 0 <= k < p ==> lex_lt(#[trigger] before[k].name@, bus.name@),
            ensures
                self.buses@ == before,
                p <= before.len(),
                forall|k: int| 0 <= k < p ==> lex_lt(#[trigger] before[k].name@, bus.name@),
                p == before.len() || !lex_lt(before[p as int].name@, bus.name@),
            decreases before.len() - p,
        {
            let here = str_chars(self.buses[p].name.as_str());
            if !lex_less(here.as_slice(), key.as_slice()) {
                break;
            }
            p = p + 1;
        }
        if p < self.buses.len() && crate::sim::validation::same_text(self.buses[p].name.as_str(), bus.name.as_str()) {
            let _ = self.buses.remove(p);
            self.buses.insert(p, bus);
            proof {
                assert(self.buses@ =~= before.update(p as int, bus));
                assert(bus_at(before, bus.name@) == Some(p as int)) by {
                    let c = choose|c: int| 0 <= c < before.len() && before[c].name@ == bus.name@;
                    if c != p as int {
                        if c < p {
                            assert(lex_lt(before[c].name@, bus.name@));
                            lemma_lex_asym(bus.name@, bus.name@);
                        } else {
                            assert(lex_lt(before[p as int].name@, before[c].name@));
                            lemma_lex_asym(bus.name@, bus.name@);
                        }
                    }
                }
                assert(names_sorted(self.buses@)) by {
                    assert forall|i: int, j: int| 0 <= i < j < self.buses@.len() implies lex_lt(#[trigger] self.buses@[i].name@, #[trigger] self.buses@[j].name@) by {
                        assert(self.buses@[i].name@ == before[i].name@);
                        assert(self.buses@[j].name@ == before[j].name@);
                    }
                }
                assert forall|b1: int, j1: int, b2: int, j2: int|
                    0 <= b1 < self.buses@.len() && 0 <= b2 < self.buses@.len() && b1 != b2 && 0 <= j1 < self.buses@[b1].schedules@.len()
                        && 0 <= j2 < self.buses@[b2].schedules@.len() implies #[trigger] job_id_at(self.buses@, b1, j1) != #[trigger] job_id_at(self.buses@, b2, j2) by {
                    assert(job_id_at(self.buses@, b1, j1) == job_id_at(before, b1, j1));
                    assert(job_id_at(self.buses@, b2, j2) == job_id_at(before, b2, j2));
                }
            }
        } else {
            proof {
                if p < before.len() {
                    lemma_lex_total(before[p as int].name@, bus.name@);
                }
                assert(bus_at(before, bus.name@) is None) by {
                    if exists|c: int| 0 <= c < before.len() && before[c].name@ == bus.name@ {
                        let c = choose|c: int| 0 <= c < before.len() && before[c].name@ == bus.name@;
                        if c < p {
                            assert(lex_lt(before[c].name@, bus.name@));
                            lemma_lex_asym(bus.name@, bus.name@);
                        } else if c > p {
                            assert(lex_lt(before[p as int].name@, before[c].name@));
                            lemma_lex_asym(bus.name@, before[p as int].name@);
                        }
                    }
                }
            }
            self.buses.insert(p, bus);
            proof {
                let after = self.buses@;
                assert(after =~= before.insert(p as int, bus));
                assert(names_sorted(after)) by {
                    assert forall|i: int, j: int| 0 <= i < j < after.len() implies lex_lt(#[trigger] after[i].name@, #[trigger] after[j].name@) by {
                        if j < p {
                            assert(after[i] == before[i] && after[j] == before[j]);
                        } else if j == p {
                            assert(after[i] == before[i]);
                        } else if i < p {
                            assert(after[i] == before[i] && after[j] == before[j - 1]);
                            assert(lex_lt(before[i].name@, bus.name@));
                            assert(lex_lt(bus.name@, before[p as int].name@));
                            if j - 1 > p {
                                assert(lex_lt(before[p as int].name@, before[j - 1].name@));
                                lemma_lex_trans(bus.name@, before[p as int].name@, before[j - 1].name@);
                            }
                            lemma_lex_trans(before[i].name@, bus.name@, before[j - 1].name@);
                        } else if i == p {
                            assert(after[j] == before[j - 1]);
                            if j - 1 > p {
                                assert(lex_lt(before[p as int].name@, before[j - 1].name@));
                                lemma_lex_trans(bus.name@, before[p as int].name@, before[j - 1].name@);
                            }
                        } else {
                            assert(after[i] == before[i - 1] && after[j] == before[j - 1]);
                        }
                    }
                }
                assert forall|b: int| 0 <= b < after.len() implies jobs_sorted((#[trigger] after[b]).schedules@) by {
                    if b < p {
                        assert(after[b] == before[b]);
                    } else if b > p {
                        assert(after[b] == before[b - 1]);
                    }
                }
                assert forall|b: int| 0 <= b < after.len() implies (#[trigger] after[b]).latest.wf() by {
                    if b < p {
                        assert(after[b] == before[b]);
                    } else if b > p {
                        assert(after[b] == before[b - 1]);
                    }
                }
                assert forall|b1: int, j1: int, b2: int, j2: int|
                    0 <= b1 < after.len() && 0 <= b2 < after.len() && b1 != b2 && 0 <= j1 < after[b1].schedules@.len()
                        && 0 <= j2 < after[b2].schedules@.len() implies #[trigger] job_id_at(after, b1, j1) != #[trigger] job_id_at(after, b2, j2) by {
                    let o1 = if b1 < p { b1 } else { b1 - 1 };
                    let o2 = if b2 < p { b2 } else { b2 - 1 };
                    assert(b1 != p && b2 != p);
                    assert(job_id_at(after, b1, j1) == job_id_at(before, o1, j1));
                    assert(job_id_at(after, b2, j2) == job_id_at(before, o2, j2));
                }
            }
        }
    }
}


/// Two buses that differ at most in their schedules.
pub open spec fn same_but_schedules(a: EnvCanBus, b: EnvCanBus) -> bool {
    &&& a.name == b.name
    &&& a.vcan_iface == b.vcan_iface
    &&& a.fd_capable == b.fd_capable
    &&& a.bitrate == b.bitrate
    &&& a.bitrate_data == b.bitrate_data
    &&& a.dbc == b.dbc
    &&& a.latest == b.latest
}

/// The buses after bus `b` got the schedules `js`, the rest unchanged.
pub open spec fn with_schedules(old_bs: Seq<EnvCanBus>, new_bs: Seq<EnvCanBus>, b: int, js: Seq<CanScheduleJob>) -> bool {
    &&& new_bs.len() == old_bs.len()
    &&& forall|k: int| 0 <= k < old_bs.len() && k != b ==> #[trigger] new_bs[k] == old_bs[k]
    &&& same_but_schedules(new_bs[b], old_bs[b])
    &&& new_bs[b].schedules@ == js
}

impl EnvCanBuses {
    /// Puts `js` in as the schedules of bus `b`.
    fn set_schedules(&mut self, b: usize, js: Vec<CanScheduleJob>)
        requires
            b < old(self).buses@.len(),
        ensures
            with_schedules(old(self).buses@, final(self).buses@, b as int, js@),
    {
        let mut bus = self.buses.remove(b);
        bus.schedules = js;
        self.buses.insert(b, bus);
        proof {
            assert forall|k: int| 0 <= k < old(self).buses@.len() && k != b implies #[trigger] self.buses@[k] == old(self).buses@[k] by {}
        }
    }

    /// Finds the schedule `job_id`: its bus and its place there.
    pub fn locate(&self, job_id: &str) -> (r: Result<(usize, usize), String>)
        requires
            self.wf(),
        ensures
            r is Ok <==> has_job(self.buses@, job_id@),
            r matches Ok((b, j)) ==> b < self.buses@.len() && j < self.buses@[b as int].schedules@.len()
                && job_id_at(self.buses@, b as int, j as int) == job_id@,
            r matches Err(m) ==> m@ == schedule_missing_message(job_id@),
    {
        let mut b: usize = 0;
        while b < self.buses.len()
            invariant
                b <= self.buses@.len(),
                forall|bb: int, jj: int| 0 <= bb < b && 0 <= jj < self.buses@[bb].schedules@.len() ==> #[trigger] job_id_at(self.buses@, bb, jj) != job_id@,
            decreases self.buses@.len() - b,
        {
            let js = &self.buses[b].schedules;
            let mut j: usize = 0;
            while j < js.len()
                invariant
                    b < self.buses@.len(),
                    *js == self.buses@[b as int].schedules,
                    j <= js@.len(),
                    forall|jj: int| 0 <= jj < j ==> #[trigger] job_id_at(self.buses@, b as int, jj) != job_id@,
                decreases js@.len() - j,
            {
                if crate::sim::validation::same_text(js[j].job_id.as_str(), job_id) {
                    assert(job_id_at(self.buses@, b as int, j as int) == job_id@);
                    return Ok((b, j));
                }
                j = j + 1;
            }
            b = b + 1;
        }
        let mut m = String::new();
        push_str(&mut m, "CAN schedule '");
        push_str(&mut m, job_id);
        push_str(&mut m, "' not found");
        assert(m@ =~= schedule_missing_message(job_id@));
        Err(m)
    }

    /// Adds a schedule to the bus named `bus_name`, in job id order. A job id
    /// some bus already schedules is refused first, then a bus the env lacks.
    pub fn add_schedule(&mut self, bus_name: &str, job: CanScheduleJob) -> (r: Result<(), String>)
        requires
            old(self).wf(),
        ensures
            final(self).wf(),
            has_job(old(self).buses@, job.job_id@) ==> (r matches Err(m) && m@ == schedule_exists_message(job.job_id@)
                && final(self).buses@ == old(self).buses@),
            !has_job(old(self).buses@, job.job_id@) && bus_at(old(self).buses@, bus_name@) is None ==> (r matches Err(m)
                && m@ == bus_missing_message(bus_name@) && final(self).buses@ == old(self).buses@),
            !has_job(old(self).buses@, job.job_id@) && bus_at(old(self).buses@, bus_name@) is Some ==> (r is Ok
                && exists|p: int| 0 <= p <= old(self).buses@[bus_at(old(self).buses@, bus_name@)->0].schedules@.len()
                    && with_schedules(old(self).buses@, final(self).buses@, bus_at(old(self).buses@, bus_name@)->0,
                        old(self).buses@[bus_at(old(self).buses@, bus_name@)->0].schedules@.insert(p, job))),
    {
        if let Ok(_) = self.locate(job.job_id.as_str()) {
            let mut m = String::new();
            push_str(&mut m, "CAN schedule '");
            push_str(&mut m, job.job_id.as_str());
            push_str(&mut m, "' already exists");
            assert(m@ =~= schedule_exists_message(job.job_id@));
            return Err(m);
        }
        let b = match self.require(bus_name) {
            Ok(b) => b,
            Err(m) => {
                return Err(m);
            },
        };
        let ghost before = self.buses@;
        let ghost old_js = before[b as int].schedules@;
        let key = str_chars(job.job_id.as_str());
        let mut bus = self.buses.remove(b);
        assert(bus.schedules@ == old_js);
        assert(jobs_sorted(old_js));
        let mut p: usize = 0;
        while p < bus.schedules.len()
            invariant
                bus.schedules@ == old_js,
                jobs_sorted(old_js),
                p <= old_js.len(),
                key@ == job.job_id@,
                forall|k: int| 0 <= k < p ==> lex_lt(#[trigger] old_js[k].job_id@, job.job_id@),
            ensures
                bus.schedules@ == old_js,
                p <= old_js.len(),
                forall|k: int| 0 <= k < p ==> lex_lt(#[trigger] old_js[k].job_id@, job.job_id@),
                p == old_js.len() || !lex_lt(old_js[p as int].job_id@, job.job_id@),
            decreases old_js.len() - p,
        {
            let here = str_chars(bus.schedules[p].job_id.as_str());
            if !lex_less(here.as_slice(), key.as_slice()) {
                break;
            }
            p = p + 1;
        }
        let ghost bus_before = bus;
        bus.schedules.insert(p, job);
        let ghost new_js = bus.schedules@;
        self.buses.insert(b, bus);
        proof {
            let after = self.buses@;
            assert(new_js =~= old_js.insert(p as int, job));
            assert forall|k: int| 0 <= k < before.len() && k != b implies #[trigger] after[k] == before[k] by {}
            // the new job id differs from every one scheduled
            assert forall|bb: int, jj: int| 0 <= bb < before.len() && 0 <= jj < before[bb].schedules@.len()
                implies #[trigger] job_id_at(before, bb, jj) != job.job_id@ by {}
            if p < old_js.len() {
                assert(job_id_at(before, b as int, p as int) != job.job_id@);
                lemma_lex_total(old_js[p as int].job_id@, job.job_id@);
            }
            assert(jobs_sorted(new_js)) by {
                assert forall|i: int, j: int| 0 <= i < j < new_js.len() implies lex_lt(#[trigger] new_js[i].job_id@, #[trigger] new_js[j].job_id@) by {
                    if j < p {
                        assert(new_js[i] == old_js[i] && new_js[j] == old_js[j]);
                    } else if j == p {
                        assert(new_js[i] == old_js[i]);
                    } else if i < p {
                        assert(new_js[i] == old_js[i] && new_js[j] == old_js[j - 1]);
                        if j - 1 > p {
                            assert(lex_lt(old_js[p as int].job_id@, old_js[j - 1].job_id@));
                            lemma_lex_trans(job.job_id@, old_js[p as int].job_id@, old_js[j - 1].job_id@);
                        }
                        lemma_lex_trans(old_js[i].job_id@, job.job_id@, old_js[j - 1].job_id@);
                    } else if i == p {
                        assert(new_js[j] == old_js[j - 1]);
                        if j - 1 > p {
                            assert(lex_lt(old_js[p as int].job_id@, old_js[j - 1].job_id@));
                            lemma_lex_trans(job.job_id@, old_js[p as int].job_id@, old_js[j - 1].job_id@);
                        }
                    } else {
                        assert(new_js[i] == old_js[i - 1] && new_js[j] == old_js[j - 1]);
                    }
                }
            }
            assert(names_sorted(after)) by {
                assert forall|i: int, j: int| 0 <= i < j < after.len() implies lex_lt(#[trigger] after[i].name@, #[trigger] after[j].name@) by {
                    assert(after[i].name@ == before[i].name@);
                    assert(after[j].name@ == before[j].name@);
                }
            }
            assert forall|bb: int| 0 <= bb < after.len() implies jobs_sorted((#[trigger] after[bb]).schedules@) by {
                if bb != b {
                    assert(after[bb] == before[bb]);
                }
            }
            assert forall|bb: int| 0 <= bb < after.len() implies (#[trigger] after[bb]).latest.wf() by {
                if bb != b {
                    assert(after[bb] == before[bb]);
                }
            }
            assert forall|b1: int, j1: int, b2: int, j2: int|
                0 <= b1 < after.len() && 0 <= b2 < after.len() && b1 != b2 && 0 <= j1 < after[b1].schedules@.len()
                    && 0 <= j2 < after[b2].schedules@.len() implies #[trigger] job_id_at(after, b1, j1) != #[trigger] job_id_at(after, b2, j2) by {
                if b1 == b {
                    assert(job_id_at(after, b2, j2) == job_id_at(before, b2, j2));
                    if j1 < p {
                        assert(job_id_at(after, b1, j1) == job_id_at(before, b1, j1));
                    } else if j1 > p {
                        assert(job_id_at(after, b1, j1) == job_id_at(before, b1, j1 - 1));
                    }
                } else if b2 == b {
                    assert(job_id_at(after, b1, j1) == job_id_at(before, b1, j1));
                    if j2 < p {
                        assert(job_id_at(after, b2, j2) == job_id_at(before, b2, j2));
                    } else if j2 > p {
                        assert(job_id_at(after, b2, j2) == job_id_at(before, b2, j2 - 1));
                    }
                } else {
                    assert(job_id_at(after, b1, j1) == job_id_at(before, b1, j1));
                    assert(job_id_at(after, b2, j2) == job_id_at(before, b2, j2));
                }
            }
            assert(with_schedules(before, after, b as int, old_js.insert(p as int, job)));
            assert(bus_at(before, bus_name@) == Some(b as int));
            assert(exists|q: int| 0 <= q <= old_js.len() && with_schedules(before, after, b as int, old_js.insert(q, job)));
        }
        Ok(())
    }
}


/// The schedules listed for the first `n` buses, each with its bus's name:
/// those of every bus, or of the one named by the filter.
pub open spec fn listed(bs: Seq<EnvCanBus>, filter: Option<Seq<char>>, n: int) -> Seq<(Seq<char>, CanScheduleJob)>
    decreases n,
{
    if n <= 0 {
        Seq::empty()
    } else {
        let b = bs[n - 1];
        let mine = match filter {
            Some(f) => f == b.name@,
            None => true,
        };
        listed(bs, filter, n - 1) + if mine {
            b.schedules@.map_values(|j: CanScheduleJob| (b.name@, j))
        } else {
            Seq::empty()
        }
    }
}

/// A schedule as listed: the job's fields and its bus's name.
pub open spec fn row_of(row: CanScheduleData, bus: Seq<char>, job: CanScheduleJob) -> bool {
    &&& row.job_id@ == job.job_id@
    &&& row.bus@ == bus
    &&& row.arb_id == job.arb_id
    &&& row.data_hex@ == job.data_hex@
    &&& row.flags == job.flags
    &&& row.every_ticks == job.every_ticks
    &&& row.next_due_tick == job.next_due_tick
    &&& row.enabled == job.enabled
}

/// A text option as a text option of views.
pub open spec fn text_opt(o: Option<String>) -> Option<Seq<char>> {
    match o {
        Some(s) => Some(s@),
        None => None,
    }
}

/// A copy of a schedule.
fn copy_job(job: &CanScheduleJob) -> (r: CanScheduleJob)
    ensures
        r == *job,
{
    CanScheduleJob {
        job_id: job.job_id.clone(),
        arb_id: job.arb_id,
        flags: job.flags,
        data_hex: job.data_hex.clone(),
        frame: job.frame,
        every_ticks: job.every_ticks,
        next_due_tick: job.next_due_tick,
        enabled: job.enabled,
    }
}

impl EnvCanBuses {
    /// Puts `job` in place of schedule `j` of bus `b`, under the same job id.
    fn replace_at(&mut self, b: usize, j: usize, job: CanScheduleJob)
        requires
            old(self).wf(),
            b < old(self).buses@.len(),
            j < old(self).buses@[b as int].schedules@.len(),
            job.job_id@ == job_id_at(old(self).buses@, b as int, j as int),
        ensures
            final(self).wf(),
            with_schedules(old(self).buses@, final(self).buses@, b as int, old(self).buses@[b as int].schedules@.update(j as int, job)),
    {
        let ghost before = self.buses@;
        let mut bus = self.buses.remove(b);
        let _ = bus.schedules.remove(j);
        bus.schedules.insert(j, job);
        self.buses.insert(b, bus);
        proof {
            let after = self.buses@;
            let old_js = before[b as int].schedules@;
            assert(after[b as int].schedules@ =~= old_js.update(j as int, job));
            assert forall|k: int| 0 <= k < before.len() && k != b implies #[trigger] after[k] == before[k] by {}
            assert forall|x: int| 0 <= x < old_js.len() implies #[trigger] job_id_at(after, b as int, x) == job_id_at(before, b as int, x) by {}
            assert(names_sorted(after)) by {
                assert forall|x: int, y: int| 0 <= x < y < after.len() implies lex_lt(#[trigger] after[x].name@, #[trigger] after[y].name@) by {
                    assert(after[x].name@ == before[x].name@);
                    assert(after[y].name@ == before[y].name@);
                }
            }
            assert forall|bb: int| 0 <= bb < after.len() implies jobs_sorted((#[trigger] after[bb]).schedules@) by {
                if bb != b {
                    assert(after[bb] == before[bb]);
                } else {
                    assert forall|x: int, y: int| 0 <= x < y < after[bb].schedules@.len() implies lex_lt(#[trigger] after[bb].schedules@[x].job_id@, #[trigger] after[bb].schedules@[y].job_id@) by {
                        assert(job_id_at(after, b as int, x) == job_id_at(before, b as int, x));
                        assert(job_id_at(after, b as int, y) == job_id_at(before, b as int, y));
                    }
                }
            }
            assert forall|bb: int| 0 <= bb < after.len() implies (#[trigger] after[bb]).latest.wf() by {
                if bb != b {
                    assert(after[bb] == before[bb]);
                }
            }
            assert forall|b1: int, j1: int, b2: int, j2: int|
                0 <= b1 < after.len() && 0 <= b2 < after.len() && b1 != b2 && 0 <= j1 < after[b1].schedules@.len()
                    && 0 <= j2 < after[b2].schedules@.len() implies #[trigger] job_id_at(after, b1, j1) != #[trigger] job_id_at(after, b2, j2) by {
                assert(job_id_at(after, b1, j1) == job_id_at(before, b1, j1));
                assert(job_id_at(after, b2, j2) == job_id_at(before, b2, j2));
            }
        }
    }

    /// Drops schedule `j` of bus `b`.
    pub fn remove_at(&mut self, b: usize, j: usize)
        requires
            old(self).wf(),
            b < old(self).buses@.len(),
            j < old(self).buses@[b as int].schedules@.len(),
        ensures
            final(self).wf(),
            with_schedules(old(self).buses@, final(self).buses@, b as int, old(self).buses@[b as int].schedules@.remove(j as int)),
    {
        let ghost before = self.buses@;
        let mut bus = self.buses.remove(b);
        let _ = bus.schedules.remove(j);
        self.buses.insert(b, bus);
        proof {
            let after = self.buses@;
            let old_js = before[b as int].schedules@;
            assert(after[b as int].schedules@ =~= old_js.remove(j as int));
            assert forall|k: int| 0 <= k < before.len() && k != b implies #[trigger] after[k] == before[k] by {}
            assert forall|x: int| 0 <= x < old_js.len() - 1 implies #[trigger] job_id_at(after, b as int, x)
                == job_id_at(before, b as int, if x < j { x } else { x + 1 }) by {}
            assert(names_sorted(after)) by {
                assert forall|x: int, y: int| 0 <= x < y < after.len() implies lex_lt(#[trigger] after[x].name@, #[trigger] after[y].name@) by {
                    assert(after[x].name@ == before[x].name@);
                    assert(after[y].name@ == before[y].name@);
                }
            }
            assert forall|bb: int| 0 <= bb < after.len() implies jobs_sorted((#[trigger] after[bb]).schedules@) by {
                if bb != b {
                    assert(after[bb] == before[bb]);
                } else {
                    assert forall|x: int, y: int| 0 <= x < y < after[bb].schedules@.len() implies lex_lt(#[trigger] after[bb].schedules@[x].job_id@, #[trigger] after[bb].schedules@[y].job_id@) by {
                        assert(job_id_at(after, b as int, x) == job_id_at(before, b as int, if x < j { x } else { x + 1 }));
                        assert(job_id_at(after, b as int, y) == job_id_at(before, b as int, if y < j { y } else { y + 1 }));
                    }
                }
            }
            assert forall|bb: int| 0 <= bb < after.len() implies (#[trigger] after[bb]).latest.wf() by {
                if bb != b {
                    assert(after[bb] == before[bb]);
                }
            }
            assert forall|b1: int, j1: int, b2: int, j2: int|
                0 <= b1 < after.len() && 0 <= b2 < after.len() && b1 != b2 && 0 <= j1 < after[b1].schedules@.len()
                    && 0 <= j2 < after[b2].schedules@.len() implies #[trigger] job_id_at(after, b1, j1) != #[trigger] job_id_at(after, b2, j2) by {
                if b1 == b {
                    assert(job_id_at(after, b1, j1) == job_id_at(before, b1, if j1 < j { j1 } else { j1 + 1 }));
                    assert(job_id_at(after, b2, j2) == job_id_at(before, b2, j2));
                } else if b2 == b {
                    assert(job_id_at(after, b1, j1) == job_id_at(before, b1, j1));
                    assert(job_id_at(after, b2, j2) == job_id_at(before, b2, if j2 < j { j2 } else { j2 + 1 }));
                } else {
                    assert(job_id_at(after, b1, j1) == job_id_at(before, b1, j1));
                    assert(job_id_at(after, b2, j2) == job_id_at(before, b2, j2));
                }
            }
        }
    }

    /// Changes what schedule `j` of bus `b` sends and how often; it is due
    /// again at `current_tick` and keeps running or stopped as it was.
    pub fn update_at(&mut self, b: usize, j: usize, arb_id: u32, data_hex: String, frame: SimCanFrame, every_ticks: u64, current_tick: u64)
        requires
            old(self).wf(),
            b < old(self).buses@.len(),
            j < old(self).buses@[b as int].schedules@.len(),
        ensures
            final(self).wf(),
            with_schedules(old(self).buses@, final(self).buses@, b as int, old(self).buses@[b as int].schedules@.update(j as int,
                CanScheduleJob {
                    arb_id,
                    flags: frame.flags,
                    data_hex,
                    frame,
                    every_ticks,
                    next_due_tick: current_tick,
                    ..old(self).buses@[b as int].schedules@[j as int]
                })),
    {
        let mut job = copy_job(&self.buses[b].schedules[j]);
        crate::envd::update_schedule(&mut job, arb_id, data_hex, frame, every_ticks, current_tick);
        self.replace_at(b, j, job);
    }

    /// Stops schedule `j` of bus `b`.
    pub fn stop_at(&mut self, b: usize, j: usize)
        requires
            old(self).wf(),
            b < old(self).buses@.len(),
            j < old(self).buses@[b as int].schedules@.len(),
        ensures
            final(self).wf(),
            with_schedules(old(self).buses@, final(self).buses@, b as int, old(self).buses@[b as int].schedules@.update(j as int,
                CanScheduleJob { enabled: false, ..old(self).buses@[b as int].schedules@[j as int] })),
    {
        let mut job = copy_job(&self.buses[b].schedules[j]);
        job.enabled = false;
        self.replace_at(b, j, job);
    }

    /// Lets schedule `j` of bus `b` run again.
    pub fn start_at(&mut self, b: usize, j: usize)
        requires
            old(self).wf(),
            b < old(self).buses@.len(),
            j < old(self).buses@[b as int].schedules@.len(),
        ensures
            final(self).wf(),
            with_schedules(old(self).buses@, final(self).buses@, b as int, old(self).buses@[b as int].schedules@.update(j as int,
                CanScheduleJob { enabled: true, ..old(self).buses@[b as int].schedules@[j as int] })),
    {
        let mut job = copy_job(&self.buses[b].schedules[j]);
        crate::envd::start_schedule(&mut job);
        self.replace_at(b, j, job);
    }

    /// The schedules of every bus, or of the bus named by `bus`, bus by bus
    /// in name order and by job id within a bus.
    pub fn list_schedules(&self, bus: &Option<String>) -> (r: Vec<CanScheduleData>)
        ensures
            r@.len() == listed(self.buses@, text_opt(*bus), self.buses@.len() as int).len(),
            forall|i: int| 0 <= i < r@.len() ==> row_of(#[trigger] r@[i],
                listed(self.buses@, text_opt(*bus), self.buses@.len() as int)[i].0,
                listed(self.buses@, text_opt(*bus), self.buses@.len() as int)[i].1),
    {
        let ghost filter = text_opt(*bus);
        let mut rows: Vec<CanScheduleData> = Vec::new();
        let mut b: usize = 0;
        while b < self.buses.len()
            invariant
                b <= self.buses@.len(),
                filter == text_opt(*bus),
                rows@.len() == listed(self.buses@, filter, b as int).len(),
                forall|i: int| 0 <= i < rows@.len() ==> row_of(#[trigger] rows@[i],
                    listed(self.buses@, filter, b as int)[i].0, listed(self.buses@, filter, b as int)[i].1),
            decreases self.buses@.len() - b,
        {
            let this = &self.buses[b];
            let mine = match bus {
                Some(f) => crate::sim::validation::same_text(f.as_str(), this.name.as_str()),
                None => true,
            };
            let ghost base = rows@;
            let ghost prev = listed(self.buses@, filter, b as int);
            if mine {
                let mut j: usize = 0;
                while j < this.schedules.len()
                    invariant
                        b < self.buses@.len(),
                        *this == self.buses@[b as int],
                        j <= this.schedules@.len(),
                        base.len() == prev.len(),
                        forall|i: int| 0 <= i < base.len() ==> row_of(#[trigger] base[i], prev[i].0, prev[i].1),
                        rows@.len() == base.len() + j,
                        forall|i: int| 0 <= i < base.len() ==> rows@[i] == base[i],
                        forall|i: int| 0 <= i < j ==> row_of(#[trigger] rows@[base.len() + i], this.name@, this.schedules@[i]),
                    decreases this.schedules@.len() - j,
                {
                    let job = &this.schedules[j];
                    let row = CanScheduleData {
                        job_id: job.job_id.clone(),
                        bus: this.name.clone(),
                        arb_id: job.arb_id,
                        data_hex: job.data_hex.clone(),
                        flags: job.flags,
                        every_ticks: job.every_ticks,
                        next_due_tick: job.next_due_tick,
                        enabled: job.enabled,
                    };
                    rows.push(row);
                    proof {
                        assert(rows@[base.len() + j] == row);
                    }
                    j = j + 1;
                }
            }
            proof {
                let next = listed(self.buses@, filter, b + 1);
                let add = if mine { this.schedules@.map_values(|jb: CanScheduleJob| (this.name@, jb)) } else { Seq::empty() };
                assert(next == prev + add);
                assert forall|i: int| 0 <= i < rows@.len() implies row_of(#[trigger] rows@[i], next[i].0, next[i].1) by {
                    if i < base.len() {
                        assert(rows@[i] == base[i]);
                        assert(next[i] == prev[i]);
                    } else {
                        let x = i - base.len();
                        assert(next[i] == add[x]);
                        assert(row_of(rows@[base.len() + x], this.name@, this.schedules@[x]));
                    }
                }
            }
            b = b + 1;
        }
        rows
    }
}


/// Two buses that differ at most in their latest frames.
pub open spec fn same_but_latest(a: EnvCanBus, b: EnvCanBus) -> bool {
    &&& a.name == b.name
    &&& a.vcan_iface == b.vcan_iface
    &&& a.fd_capable == b.fd_capable
    &&& a.bitrate == b.bitrate
    &&& a.bitrate_data == b.bitrate_data
    &&& a.dbc == b.dbc
    &&& a.schedules@ == b.schedules@
}

/// A bus as listed: its place as id, held at `u32::MAX`, and its settings.
pub open spec fn bus_row(row: CanBusData, idx: int, bus: EnvCanBus) -> bool {
    &&& row.id == (if idx > u32::MAX { u32::MAX as int } else { idx })
    &&& row.name@ == bus.name@
    &&& row.bitrate == bus.bitrate
    &&& row.bitrate_data == bus.bitrate_data
    &&& row.fd_capable == bus.fd_capable
    &&& text_opt(row.attached_iface) == Some(bus.vcan_iface@)
}

impl EnvCanBuses {
    /// Whether schedule `j` of bus `b` fires at `tick`.
    pub fn due_at(&self, b: usize, j: usize, tick: u64) -> (r: bool)
        requires
            b < self.buses@.len(),
            j < self.buses@[b as int].schedules@.len(),
        ensures
            r == due(self.buses@[b as int].schedules@[j as int], tick),
    {
        let job = &self.buses[b].schedules[j];
        job.enabled && job.next_due_tick <= tick
    }

    /// Fires schedule `j` of bus `b` at `tick`: gives its frame, and the
    /// schedule is due again a period later.
    pub fn fire_at(&mut self, b: usize, j: usize, tick: u64) -> (frame: SimCanFrame)
        requires
            old(self).wf(),
            b < old(self).buses@.len(),
            j < old(self).buses@[b as int].schedules@.len(),
        ensures
            final(self).wf(),
            frame == old(self).buses@[b as int].schedules@[j as int].frame,
            with_schedules(old(self).buses@, final(self).buses@, b as int, old(self).buses@[b as int].schedules@.update(j as int,
                fired(old(self).buses@[b as int].schedules@[j as int], tick))),
    {
        let mut job = copy_job(&self.buses[b].schedules[j]);
        let frame = job.frame;
        let step: u64 = if job.every_ticks == 0 { 1 } else { job.every_ticks };
        job.next_due_tick = tick.saturating_add(step);
        self.replace_at(b, j, job);
        frame
    }

    /// Records a frame seen on bus `b`; it replaces the one under its key.
    pub fn record_frame(&mut self, b: usize, frame: SimCanFrame)
        requires
            old(self).wf(),
            b < old(self).buses@.len(),
        ensures
            final(self).wf(),
            final(self).buses@.len() == old(self).buses@.len(),
            forall|k: int| 0 <= k < old(self).buses@.len() && k != b ==> #[trigger] final(self).buses@[k] == old(self).buses@[k],
            same_but_latest(final(self).buses@[b as int], old(self).buses@[b as int]),
            final(self).buses@[b as int].latest@ == old(self).buses@[b as int].latest@.insert(recorded_key(frame), frame),
    {
        let ghost before = self.buses@;
        let mut bus = self.buses.remove(b);
        bus.latest.record(frame);
        self.buses.insert(b, bus);
        proof {
            let after = self.buses@;
            assert forall|k: int| 0 <= k < before.len() && k != b implies #[trigger] after[k] == before[k] by {}
            assert(names_sorted(after)) by {
                assert forall|x: int, y: int| 0 <= x < y < after.len() implies lex_lt(#[trigger] after[x].name@, #[trigger] after[y].name@) by {
                    assert(after[x].name@ == before[x].name@);
                    assert(after[y].name@ == before[y].name@);
                }
            }
            assert forall|bb: int| 0 <= bb < after.len() implies jobs_sorted((#[trigger] after[bb]).schedules@) by {
                assert(after[bb].schedules@ == before[bb].schedules@);
            }
            assert forall|bb: int| 0 <= bb < after.len() implies (#[trigger] after[bb]).latest.wf() by {
                if bb != b {
                    assert(after[bb] == before[bb]);
                }
            }
            assert forall|b1: int, j1: int, b2: int, j2: int|
                0 <= b1 < after.len() && 0 <= b2 < after.len() && b1 != b2 && 0 <= j1 < after[b1].schedules@.len()
                    && 0 <= j2 < after[b2].schedules@.len() implies #[trigger] job_id_at(after, b1, j1) != #[trigger] job_id_at(after, b2, j2) by {
                assert(job_id_at(after, b1, j1) == job_id_at(before, b1, j1));
                assert(job_id_at(after, b2, j2) == job_id_at(before, b2, j2));
            }
        }
    }

    /// Keeps `overlay` as the DBC of bus `b`.
    pub fn set_dbc(&mut self, b: usize, overlay: DbcBusOverlay)
        requires
            old(self).wf(),
            b < old(self).buses@.len(),
        ensures
            final(self).wf(),
            final(self).buses@.len() == old(self).buses@.len(),
            forall|k: int| 0 <= k < old(self).buses@.len() && k != b ==> #[trigger] final(self).buses@[k] == old(self).buses@[k],
            final(self).buses@[b as int].dbc == Some(overlay),
            final(self).buses@[b as int].name == old(self).buses@[b as int].name,
            final(self).buses@[b as int].schedules@ == old(self).buses@[b as int].schedules@,
            final(self).buses@[b as int].latest == old(self).buses@[b as int].latest,
    {
        let ghost before = self.buses@;
        let mut bus = self.buses.remove(b);
        bus.dbc = Some(overlay);
        self.buses.insert(b, bus);
        proof {
            let after = self.buses@;
            assert forall|k: int| 0 <= k < before.len() && k != b implies #[trigger] after[k] == before[k] by {}
            assert(names_sorted(after)) by {
                assert forall|x: int, y: int| 0 <= x < y < after.len() implies lex_lt(#[trigger] after[x].name@, #[trigger] after[y].name@) by {
                    assert(after[x].name@ == before[x].name@);
                    assert(after[y].name@ == before[y].name@);
                }
            }
            assert forall|bb: int| 0 <= bb < after.len() implies jobs_sorted((#[trigger] after[bb]).schedules@) by {
                assert(after[bb].schedules@ == before[bb].schedules@);
            }
            assert forall|bb: int| 0 <= bb < after.len() implies (#[trigger] after[bb]).latest.wf() by {
                assert(after[bb].latest == before[bb].latest);
            }
            assert forall|b1: int, j1: int, b2: int, j2: int|
                0 <= b1 < after.len() && 0 <= b2 < after.len() && b1 != b2 && 0 <= j1 < after[b1].schedules@.len()
                    && 0 <= j2 < after[b2].schedules@.len() implies #[trigger] job_id_at(after, b1, j1) != #[trigger] job_id_at(after, b2, j2) by {
                assert(job_id_at(after, b1, j1) == job_id_at(before, b1, j1));
                assert(job_id_at(after, b2, j2) == job_id_at(before, b2, j2));
            }
        }
    }

    /// The buses as listed to clients: in name order, each with its place
    /// as id and its interface as the one attached.
    pub fn list_buses(&self) -> (r: Vec<CanBusData>)
        ensures
            r@.len() == self.buses@.len(),
            forall|i: int| 0 <= i < r@.len() ==> bus_row(#[trigger] r@[i], i, self.buses@[i]),
    {
        let mut rows: Vec<CanBusData> = Vec::new();
        let mut i: usize = 0;
        while i < self.buses.len()
            invariant
                i <= self.buses@.len(),
                rows@.len() == i,
                forall|k: int| 0 <= k < i ==> bus_row(#[trigger] rows@[k], k, self.buses@[k]),
            decreases self.buses@.len() - i,
        {
            let bus = &self.buses[i];
            let id: u32 = if i > 0xFFFF_FFFFusize { 0xFFFF_FFFFu32 } else { i as u32 };
            rows.push(CanBusData {
                id,
                name: bus.name.clone(),
                bitrate: bus.bitrate,
                bitrate_data: bus.bitrate_data,
                fd_capable: bus.fd_capable,
                attached_iface: Some(bus.vcan_iface.clone()),
            });
            i = i + 1;
        }
        rows
    }

    /// Checks that a frame can go on the bus named `bus_name`.
    pub fn check_frame_on(&self, bus_name: &str, frame: &SimCanFrame) -> (r: Result<(), String>)
        requires
            self.wf(),
        ensures
            match bus_at(self.buses@, bus_name@) {
                None => r matches Err(m) && m@ == bus_missing_message(bus_name@),
                Some(i) => match frame_fault(self.buses@[i].name@, self.buses@[i].fd_capable, *frame) {
                    None => r is Ok,
                    Some(m) => r matches Err(e) && e@ == m,
                },
            },
    {
        let b = match self.require(bus_name) {
            Ok(b) => b,
            Err(m) => {
                return Err(m);
            },
        };
        crate::can::validate_frame(self.buses[b].name.as_str(), self.buses[b].fd_capable, frame)
    }

    /// Reads a frame to send on the bus named `bus_name`: the payload from
    /// its hex text, then the frame checked against the bus.
    pub fn parse_frame_on(&self, bus_name: &str, arb_id: u32, data_hex: &str, flags: u8) -> (r: Result<SimCanFrame, String>)
        requires
            self.wf(),
        ensures
            match payload_of_hex(data_hex@) {
                Err(m) => r matches Err(e) && e@ == m,
                Ok(p) => match bus_at(self.buses@, bus_name@) {
                    None => r matches Err(m) && m@ == bus_missing_message(bus_name@),
                    Some(i) => match frame_fault(self.buses@[i].name@, self.buses@[i].fd_capable,
                        SimCanFrame { arb_id, len: p.len() as u8, flags, data: arbitrary() }) {
                        None => r matches Ok(f) && f.arb_id == arb_id && f.flags == flags && f.len == p.len()
                            && f.data@ == crate::can::padded_data(p),
                        Some(m) => r matches Err(e) && e@ == m,
                    },
                },
            },
    {
        let payload = crate::can::parse_data_hex(data_hex)?;
        proof {
            crate::can::lemma_payload_at_most_64(data_hex@);
        }
        let frame = crate::can::frame_with_payload(arb_id, payload.as_slice(), flags);
        match self.check_frame_on(bus_name, &frame) {
            Ok(()) => Ok(frame),
            Err(m) => Err(m),
        }
    }
}


/// Arbitration ids do not descend.
pub open spec fn by_arb_id(s: Seq<SimCanFrame>) -> bool {
    forall|i: int, j: int| 0 <= i < j < s.len() ==> (#[trigger] s[i]).arb_id <= (#[trigger] s[j]).arb_id
}

/// Inserts a frame after those of no higher arbitration id.
fn insert_by_arb_id(out: &mut Vec<SimCanFrame>, f: SimCanFrame) -> (p: usize)
    requires
        by_arb_id(old(out)@),
    ensures
        p <= old(out)@.len(),
        final(out)@ == old(out)@.insert(p as int, f),
        by_arb_id(final(out)@),
{
    let ghost before = out@;
    let mut p: usize = 0;
    while p < out.len()
        invariant
            out@ == before,
            p <= before.len(),
            forall|i: int| 0 <= i < p ==> (#[trigger] before[i]).arb_id <= f.arb_id,
        ensures
            out@ == before,
            p <= before.len(),
            forall|i: int| 0 <= i < p ==> (#[trigger] before[i]).arb_id <= f.arb_id,
            p == before.len() || before[p as int].arb_id > f.arb_id,
        decreases before.len() - p,
    {
        if out[p].arb_id > f.arb_id {
            break;
        }
        p = p + 1;
    }
    out.insert(p, f);
    proof {
        let after = out@;
        assert(after =~= before.insert(p as int, f));
        assert forall|i: int, j: int| 0 <= i < j < after.len() implies (#[trigger] after[i]).arb_id <= (#[trigger] after[j]).arb_id by {
            if j < p {
                assert(after[i] == before[i] && after[j] == before[j]);
            } else if j == p {
                assert(after[i] == before[i]);
            } else if i < p {
                assert(after[i] == before[i] && after[j] == before[j - 1]);
                if j - 1 > p {
                    assert(before[p as int].arb_id <= before[j - 1].arb_id);
                }
            } else if i == p {
                assert(after[j] == before[j - 1]);
                if j - 1 > p {
                    assert(before[p as int].arb_id <= before[j - 1].arb_id);
                }
            } else {
                assert(after[i] == before[i - 1] && after[j] == before[j - 1]);
            }
        }
    }
    p
}

/// Every frame of `out` is one of `src` before `n`.
pub open spec fn drawn_from(out: Seq<SimCanFrame>, src: Seq<SimCanFrame>, n: int) -> bool {
    forall|i: int| 0 <= i < out.len() ==> exists|k: int| 0 <= k < n && #[trigger] out[i] == src[k]
}

/// Every frame of `src` before `n` is in `out`.
pub open spec fn covers(out: Seq<SimCanFrame>, src: Seq<SimCanFrame>, n: int) -> bool {
    forall|k: int| 0 <= k < n ==> exists|i: int| 0 <= i < out.len() && out[i] == #[trigger] src[k]
}

/// No key occurs twice in `s`.
pub open spec fn keys_apart(s: Seq<SimCanFrame>) -> bool {
    forall|i: int, j: int| 0 <= i < j < s.len() ==> recorded_key(#[trigger] s[i]) != recorded_key(#[trigger] s[j])
}

proof fn lemma_drawn_step(before: Seq<SimCanFrame>, src: Seq<SimCanFrame>, n: int, p: int)
    requires
        drawn_from(before, src, n),
        0 <= n < src.len(),
        0 <= p <= before.len(),
    ensures
        drawn_from(before.insert(p, src[n]), src, n + 1),
{
    let after = before.insert(p, src[n]);
    assert forall|i: int| 0 <= i < after.len() implies exists|k: int| 0 <= k < n + 1 && #[trigger] after[i] == src[k] by {
        if i < p {
            assert(after[i] == before[i]);
        } else if i == p {
            assert(after[i] == src[n]);
        } else {
            assert(after[i] == before[i - 1]);
        }
    }
}

proof fn lemma_covers_step(before: Seq<SimCanFrame>, src: Seq<SimCanFrame>, n: int, p: int)
    requires
        covers(before, src, n),
        0 <= n < src.len(),
        0 <= p <= before.len(),
    ensures
        covers(before.insert(p, src[n]), src, n + 1),
{
    let after = before.insert(p, src[n]);
    assert forall|k: int| 0 <= k < n + 1 implies exists|i: int| 0 <= i < after.len() && after[i] == #[trigger] src[k] by {
        if k == n {
            assert(after[p] == src[k]);
        } else {
            let i = choose|i: int| 0 <= i < before.len() && before[i] == src[k];
            if i < p {
                assert(after[i] == src[k]);
            } else {
                assert(after[i + 1] == src[k]);
            }
        }
    }
}

proof fn lemma_keys_step(before: Seq<SimCanFrame>, src: Seq<SimCanFrame>, n: int, p: int)
    requires
        drawn_from(before, src, n),
        keys_apart(before),
        keys_apart(src),
        0 <= n < src.len(),
        0 <= p <= before.len(),
    ensures
        keys_apart(before.insert(p, src[n])),
{
    let f = src[n];
    let after = before.insert(p, f);
    assert forall|i: int| 0 <= i < before.len() implies recorded_key(#[trigger] before[i]) != recorded_key(f) by {
        let k = choose|k: int| 0 <= k < n && before[i] == src[k];
        assert(recorded_key(src[k]) != recorded_key(src[n]));
    }
    assert forall|i: int, j: int| 0 <= i < j < after.len() implies recorded_key(#[trigger] after[i]) != recorded_key(#[trigger] after[j]) by {
        if j < p {
            assert(after[i] == before[i] && after[j] == before[j]);
        } else if j == p {
            assert(after[i] == before[i]);
        } else if i < p {
            assert(after[i] == before[i] && after[j] == before[j - 1]);
        } else if i == p {
            assert(after[j] == before[j - 1]);
        } else {
            assert(after[i] == before[i - 1] && after[j] == before[j - 1]);
        }
    }
}

impl EnvCanBuses {
    /// The latest frames seen on bus `b`, one per key, by ascending
    /// arbitration id.
    pub fn inspect(&self, b: usize) -> (r: Vec<SimCanFrame>)
        requires
            self.wf(),
            b < self.buses@.len(),
        ensures
            forall|i: int| 0 <= i < r@.len() ==> self.buses@[b as int].latest@.contains_key(recorded_key(#[trigger] r@[i]))
                && self.buses@[b as int].latest@[recorded_key(r@[i])] == r@[i],
            forall|k: u32| #[trigger] self.buses@[b as int].latest@.contains_key(k) ==> exists|i: int| 0 <= i < r@.len() && recorded_key(r@[i]) == k,
            forall|i: int, j: int| 0 <= i < j < r@.len() ==> recorded_key(#[trigger] r@[i]) != recorded_key(#[trigger] r@[j]),
            by_arb_id(r@),
    {
        assert(self.buses@[b as int].latest.wf());
        let src = self.buses[b].latest.frames();
        let mut out: Vec<SimCanFrame> = Vec::new();
        let mut n: usize = 0;
        while n < src.len()
            invariant
                n <= src@.len(),
                forall|i: int, j: int| 0 <= i < j < src@.len() ==> recorded_key(#[trigger] src@[i]) != recorded_key(#[trigger] src@[j]),
                out@.len() == n,
                drawn_from(out@, src@, n as int),
                covers(out@, src@, n as int),
                keys_apart(out@),
                keys_apart(src@),
                by_arb_id(out@),
            decreases src@.len() - n,
        {
            let ghost before = out@;
            let p = insert_by_arb_id(&mut out, src[n]);
            proof {
                lemma_drawn_step(before, src@, n as int, p as int);
                lemma_covers_step(before, src@, n as int, p as int);
                lemma_keys_step(before, src@, n as int, p as int);
            }
            n = n + 1;
        }
        proof {
            let m = self.buses@[b as int].latest@;
            assert forall|i: int| 0 <= i < out@.len() implies m.contains_key(recorded_key(#[trigger] out@[i])) && m[recorded_key(out@[i])] == out@[i] by {
                let k = choose|k: int| 0 <= k < src@.len() && out@[i] == src@[k];
                assert(m.contains_key(recorded_key(src@[k])));
            }
            assert forall|key: u32| #[trigger] m.contains_key(key) implies exists|i: int| 0 <= i < out@.len() && recorded_key(out@[i]) == key by {
                let k = choose|k: int| 0 <= k < src@.len() && recorded_key(src@[k]) == key;
                let i = choose|i: int| 0 <= i < out@.len() && out@[i] == src@[k];
                assert(recorded_key(out@[i]) == key);
            }
        }
        out
    }

    /// Forgets every bus's frames and makes every schedule due at once, as
    /// a reset of the env does.
    pub fn reset(&mut self)
        requires
            old(self).wf(),
        ensures
            final(self).wf(),
            final(self).buses@.len() == old(self).buses@.len(),
            forall|b: int| 0 <= b < old(self).buses@.len() ==> {
                let n = #[trigger] final(self).buses@[b];
                let o = old(self).buses@[b];
                &&& n.name == o.name
                &&& n.vcan_iface == o.vcan_iface
                &&& n.fd_capable == o.fd_capable
                &&& n.bitrate == o.bitrate
                &&& n.bitrate_data == o.bitrate_data
                &&& n.dbc == o.dbc
                &&& n.latest@ == Map::<u32, SimCanFrame>::empty()
                &&& n.schedules@.len() == o.schedules@.len()
                &&& forall|j: int| 0 <= j < o.schedules@.len() ==> #[trigger] n.schedules@[j] == (CanScheduleJob {
                    next_due_tick: 0,
                    ..o.schedules@[j]
                })
            },
    {
        let ghost start = self.buses@;
        let mut b: usize = 0;
        while b < self.buses.len()
            invariant
                self.wf(),
                b <= self.buses@.len(),
                self.buses@.len() == start.len(),
                forall|k: int| b <= k < start.len() ==> #[trigger] self.buses@[k] == start[k],
                forall|k: int| 0 <= k < b ==> {
                    let n = #[trigger] self.buses@[k];
                    let o = start[k];
                    &&& n.name == o.name
                    &&& n.vcan_iface == o.vcan_iface
                    &&& n.fd_capable == o.fd_capable
                    &&& n.bitrate == o.bitrate
                    &&& n.bitrate_data == o.bitrate_data
                    &&& n.dbc == o.dbc
                    &&& n.latest@ == Map::<u32, SimCanFrame>::empty()
                    &&& n.schedules@.len() == o.schedules@.len()
                    &&& forall|j: int| 0 <= j < o.schedules@.len() ==> #[trigger] n.schedules@[j] == (CanScheduleJob {
                        next_due_tick: 0,
                        ..o.schedules@[j]
                    })
                },
            decreases start.len() - b,
        {
            let ghost before = self.buses@;
            let mut bus = self.buses.remove(b);
            bus.latest.clear();
            crate::envd::reset_schedules(&mut bus.schedules);
            self.buses.insert(b, bus);
            proof {
                let after = self.buses@;
                assert forall|k: int| 0 <= k < before.len() && k != b implies #[trigger] after[k] == before[k] by {}
                assert forall|x: int| 0 <= x < after[b as int].schedules@.len() implies #[trigger] job_id_at(after, b as int, x) == job_id_at(before, b as int, x) by {
                    assert(after[b as int].schedules@[x] == (CanScheduleJob { next_due_tick: 0, ..before[b as int].schedules@[x] }));
                }
                assert(names_sorted(after)) by {
                    assert forall|x: int, y: int| 0 <= x < y < after.len() implies lex_lt(#[trigger] after[x].name@, #[trigger] after[y].name@) by {
                        assert(after[x].name@ == before[x].name@);
                        assert(after[y].name@ == before[y].name@);
                    }
                }
                assert forall|bb: int| 0 <= bb < after.len() implies jobs_sorted((#[trigger] after[bb]).schedules@) by {
                    if bb != b {
                        assert(after[bb] == before[bb]);
                    } else {
                        assert forall|x: int, y: int| 0 <= x < y < after[bb].schedules@.len() implies lex_lt(#[trigger] after[bb].schedules@[x].job_id@, #[trigger] after[bb].schedules@[y].job_id@) by {
                            assert(job_id_at(after, b as int, x) == job_id_at(before, b as int, x));
                            assert(job_id_at(after, b as int, y) == job_id_at(before, b as int, y));
                        }
                    }
                }
                assert forall|bb: int| 0 <= bb < after.len() implies (#[trigger] after[bb]).latest.wf() by {
                    if bb != b {
                        assert(after[bb] == before[bb]);
                    }
                }
                assert forall|b1: int, j1: int, b2: int, j2: int|
                    0 <= b1 < after.len() && 0 <= b2 < after.len() && b1 != b2 && 0 <= j1 < after[b1].schedules@.len()
                        && 0 <= j2 < after[b2].schedules@.len() implies #[trigger] job_id_at(after, b1, j1) != #[trigger] job_id_at(after, b2, j2) by {
                    assert(job_id_at(after, b1, j1) == job_id_at(before, b1, j1));
                    assert(job_id_at(after, b2, j2) == job_id_at(before, b2, j2));
                }
            }
            b = b + 1;
        }
    }
}


/// A schedule that was added is found: after `add_schedule` put `job` on
/// bus `b`, some bus schedules its job id.
pub proof fn lemma_added_schedule_found(before: Seq<EnvCanBus>, after: Seq<EnvCanBus>, b: int, p: int, job: CanScheduleJob)
    requires
        0 <= b < before.len(),
        0 <= p <= before[b].schedules@.len(),
        with_schedules(before, after, b, before[b].schedules@.insert(p, job)),
    ensures
        has_job(after, job.job_id@),
{
    assert(job_id_at(after, b, p) == job.job_id@);
}

/// A schedule that was removed is gone: with job ids apart and ascending,
/// after `remove_at` dropped schedule `j` of bus `b`, no bus schedules its
/// job id any more.
pub proof fn lemma_removed_schedule_gone(bs: EnvCanBuses, after: Seq<EnvCanBus>, b: int, j: int)
    requires
        bs.wf(),
        0 <= b < bs.buses@.len(),
        0 <= j < bs.buses@[b].schedules@.len(),
        with_schedules(bs.buses@, after, b, bs.buses@[b].schedules@.remove(j)),
    ensures
        !has_job(after, job_id_at(bs.buses@, b, j)),
{
    let before = bs.buses@;
    let id = job_id_at(before, b, j);
    assert(jobs_sorted(before[b].schedules@));
    if has_job(after, id) {
        let (b2, j2) = choose|b2: int, j2: int| 0 <= b2 < after.len() && 0 <= j2 < after[b2].schedules@.len() && #[trigger] job_id_at(after, b2, j2) == id;
        if b2 != b {
            assert(after[b2] == before[b2]);
            assert(job_id_at(before, b2, j2) == id);
        } else {
            let o = if j2 < j { j2 } else { j2 + 1 };
            assert(after[b].schedules@[j2] == before[b].schedules@[o]);
            assert(job_id_at(before, b, o) == id);
            if o < j {
                assert(lex_lt(before[b].schedules@[o].job_id@, before[b].schedules@[j].job_id@));
            } else {
                assert(lex_lt(before[b].schedules@[j].job_id@, before[b].schedules@[o].job_id@));
            }
            lemma_lex_asym(id, id);
        }
    }
}

} // verus!
