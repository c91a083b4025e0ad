//! Checks the instance daemon makes on the requests it serves.
use vstd::prelude::*;
use crate::text::{push_str, push_dec, dec};
use crate::sim::types::{SignalMeta, SignalType, SimCanBusDesc, signal_type_name};
use crate::sim::error::{SimError, sim_error_text};

verus! {

/// Whether a path holds a path separator, `/` or `\`.
pub open spec fn has_separator(path: Seq<char>) -> bool {
    path.contains('/') || path.contains('\\')
}

/// The path neither starts with `/` or `\` nor holds a `:`.
pub open spec fn rootless_driveless(path: Seq<char>) -> bool {
    !(path.len() > 0 && (path[0] == '/' || path[0] == '\\')) && !path.contains(':')
}

/// Whether a path is absolute, by `std::path::Path::is_absolute`. What counts
/// as absolute depends on the platform; its documentation asks on Unix that
/// the path start with the root `/`, and on Windows a prefix and a root, a
/// separator. A Windows prefix either opens with a separator or is a drive
/// with its `:`. So a path without any separator, or one that neither starts
/// with a separator nor holds a `:`, is never absolute; that is all that is
/// claimed: which other paths are absolute is left unsaid.
#[verifier::external_body]
pub(crate) fn path_is_absolute(path: &str) -> (r: bool)
    ensures
        !has_separator(path@) ==> !r,
        rootless_driveless(path@) ==> !r,
{
    std::path::Path::new(path).is_absolute()
}

/// The message refusing a path that is not absolute.
pub open spec fn not_absolute_message(path: Seq<char>, context: Seq<char>) -> Seq<char> {
    context + " path must be absolute: '"@ + path + "'"@
}

/// Accepts a path found absolute, refuses it otherwise.
pub fn absolute_path_check(path: &str, context: &str, absolute: bool) -> (r: Result<(), String>)
    ensures
        absolute ==> r is Ok,
        !absolute ==> (r matches Err(m) && m@ == not_absolute_message(path@, context@)),
{
    if absolute {
        Ok(())
    } else {
        let mut m = String::new();
        push_str(&mut m, context);
        push_str(&mut m, " path must be absolute: '");
        push_str(&mut m, path);
        push_str(&mut m, "'");
        assert(m@ =~= not_absolute_message(path@, context@));
        Err(m)
    }
}

/// Refuses a path that is not absolute on this platform; a path without any
/// separator, or one that neither starts with a separator nor holds a `:`,
/// is refused everywhere.
pub fn ensure_absolute_path(path: &str, context: &str) -> (r: Result<(), String>)
    ensures
        r matches Err(m) ==> m@ == not_absolute_message(path@, context@),
        !has_separator(path@) ==> r is Err,
        rootless_driveless(path@) ==> r is Err,
{
    let absolute = path_is_absolute(path);
    absolute_path_check(path, context, absolute)
}

/// Why advancing the project by one tick failed: the message, and whether
/// the failure came after the project's tick ran, so that the tick counts.
pub struct TickStepError {
    message: String,
    advance_tick: bool,
}

impl TickStepError {
    pub closed spec fn spec_message(&self) -> Seq<char> {
        self.message@
    }

    pub closed spec fn spec_advance_tick(&self) -> bool {
        self.advance_tick
    }

    /// A failure before the tick ran.
    pub fn pre_tick(message: String) -> (r: TickStepError)
        ensures
            r.spec_message() == message@,
            !r.spec_advance_tick(),
    {
        TickStepError { message, advance_tick: false }
    }

    /// A failure after the tick ran.
    pub fn post_tick(message: String) -> (r: TickStepError)
        ensures
            r.spec_message() == message@,
            r.spec_advance_tick(),
    {
        TickStepError { message, advance_tick: true }
    }

    /// Whether the failed step still advanced time by its tick.
    pub fn advance_tick(&self) -> (r: bool)
        ensures
            r == self.spec_advance_tick(),
    {
        self.advance_tick
    }

    pub fn into_message(self) -> (r: String)
        ensures
            r@ == self.spec_message(),
    {
        self.message
    }
}

/// The ticks that count after a run of ticks stopped: those that completed,
/// and the failed one too when it failed after its tick ran.
pub fn counted_ticks(processed: u64, failure: &Option<TickStepError>) -> (r: u64)
    ensures
        r == match failure {
            Some(e) => if e.spec_advance_tick() { if processed == u64::MAX { u64::MAX } else { (processed + 1) as u64 } } else { processed },
            None => processed,
        },
        processed <= r <= processed + 1,
{
    match failure {
        Some(e) => if e.advance_tick() { processed.saturating_add(1) } else { processed },
        None => processed,
    }
}


/// The message refusing instance-local time control inside an env.
pub open spec fn env_time_message(env: Seq<char>) -> Seq<char> {
    "instance-local time control is unavailable while attached to env '"@ + env
        + "'; use `agent-sim env time "@ + env + " ...` instead"@
}

/// The message refusing instance-local CAN control inside an env.
pub open spec fn env_can_message() -> Seq<char> {
    "CAN is env-owned; use `agent-sim env can <env> ...` instead"@
}

/// The message refusing a `can.` signal selector.
pub open spec fn can_projection_message() -> Seq<char> {
    "CAN signal projection is no longer supported; use `agent-sim env can <env> ...` instead"@
}

/// The message refusing to load a second library into an instance.
pub open spec fn bound_library_message(bound: Seq<char>) -> Seq<char> {
    "daemon already bound to '"@ + bound + "'; start a new instance for a different DLL"@
}

/// Refuses time control of an instance that belongs to an env.
pub fn reject_local_time_control(env: &Option<String>) -> (r: Result<(), String>)
    ensures
        r is Ok <==> env is None,
        r matches Err(m) ==> m@ == env_time_message(env->0@),
{
    match env {
        Some(name) => {
            let mut m = String::new();
            push_str(&mut m, "instance-local time control is unavailable while attached to env '");
            push_str(&mut m, name.as_str());
            push_str(&mut m, "'; use `agent-sim env time ");
            push_str(&mut m, name.as_str());
            push_str(&mut m, " ...` instead");
            assert(m@ =~= env_time_message(name@));
            Err(m)
        },
        None => Ok(()),
    }
}

/// Refuses CAN control of an instance that belongs to an env.
pub fn reject_local_can_control(env: &Option<String>) -> (r: Result<(), String>)
    ensures
        r is Ok <==> env is None,
        r matches Err(m) ==> m@ == env_can_message(),
{
    match env {
        Some(_) => {
            let mut m = String::new();
            push_str(&mut m, "CAN is env-owned; use `agent-sim env can <env> ...` instead");
            assert(m@ =~= env_can_message());
            Err(m)
        },
        None => Ok(()),
    }
}

/// Refuses a selector that asks for CAN signals, which instances no longer project.
pub fn reject_can_selector(selector: &str) -> (r: Result<(), String>)
    ensures
        r is Ok <==> !crate::text::has_prefix(selector@, "can."@),
        r matches Err(m) ==> m@ == can_projection_message(),
{
    let cs = crate::text::str_chars(selector);
    if crate::text::starts_with(cs.as_slice(), "can.") {
        let mut m = String::new();
        push_str(&mut m, "CAN signal projection is no longer supported; use `agent-sim env can <env> ...` instead");
        assert(m@ =~= can_projection_message());
        return Err(m);
    }
    Ok(())
}

/// Accepts a load request for the library the instance already runs, and
/// refuses any other.
pub fn check_bound_library(bound: &str, requested: &str) -> (r: Result<(), String>)
    ensures
        r is Ok <==> bound@ == requested@,
        r matches Err(m) ==> m@ == bound_library_message(bound@),
{
    if crate::sim::validation::same_text(bound, requested) {
        return Ok(());
    }
    let mut m = String::new();
    push_str(&mut m, "daemon already bound to '");
    push_str(&mut m, bound);
    push_str(&mut m, "'; start a new instance for a different DLL");
    assert(m@ =~= bound_library_message(bound@));
    Err(m)
}

/// The first signal with id `id`, if any.
pub open spec fn first_with_id(signals: Seq<SignalMeta>, id: u32) -> Option<int> {
    if exists|i: int| 0 <= i < signals.len() && signals[i].id == id {
        Some(choose|i: int| 0 <= i < signals.len() && signals[i].id == id
            && forall|j: int| 0 <= j < i ==> signals[j].id != id)
    } else {
        None
    }
}

/// Finds the first signal with id `id`.
pub fn signal_index_by_id(signals: &[SignalMeta], id: u32) -> (r: Option<usize>)
    ensures
        match r {
            Some(i) => i < signals@.len() && signals@[i as int].id == id
                && forall|j: int| 0 <= j < i ==> signals@[j].id != id,
            None => forall|j: int| 0 <= j < signals@.len() ==> signals@[j].id != id,
        },
{
    let mut i: usize = 0;
    while i < signals.len()
        invariant
            i <= signals@.len(),
            forall|j: int| 0 <= j < i ==> signals@[j].id != id,
        decreases signals@.len() - i,
    {
        if signals[i].id == id {
            return Some(i);
        }
        i = i + 1;
    }
    None
}

/// The message for a grouped read that gave back the wrong number of values.
pub open spec fn read_count_message(got: nat, asked: nat) -> Seq<char> {
    "grouped signal read returned "@ + dec(got) + " values for "@ + dec(asked) + " requested ids"@
}

/// The fault of one value of a grouped read: an id no signal has, or a value
/// of another type than its signal's.
pub open spec fn read_fault_at(signals: Seq<SignalMeta>, id: u32, ty: SignalType) -> Option<Seq<char>> {
    match first_with_id(signals, id) {
        None => Some("signal not found: '#"@ + dec(id as nat) + "'"@),
        Some(i) => if signals[i].signal_type != ty {
            Some(sim_error_text(SimError::TypeMismatch { name: signals[i].name, expected: signals[i].signal_type, actual: ty }))
        } else {
            None
        },
    }
}

/// The first fault of a grouped read at or after `k`.
pub open spec fn read_fault_from(signals: Seq<SignalMeta>, ids: Seq<u32>, types: Seq<SignalType>, k: int) -> Option<Seq<char>>
    decreases ids.len() - k,
{
    if k < 0 || k >= ids.len() || k >= types.len() {
        None
    } else {
        match read_fault_at(signals, ids[k], types[k]) {
            Some(m) => Some(m),
            None => read_fault_from(signals, ids, types, k + 1),
        }
    }
}

/// The index `signal_index_by_id` finds is the one `first_with_id` names.
proof fn lemma_first_index_unique(signals: Seq<SignalMeta>, id: u32, i: int)
    requires
        0 <= i < signals.len(),
        signals[i].id == id,
        forall|j: int| 0 <= j < i ==> signals[j].id != id,
    ensures
        first_with_id(signals, id) == Some(i),
{
    let c = choose|c: int| 0 <= c < signals.len() && signals[c].id == id
        && forall|j: int| 0 <= j < c ==> signals[j].id != id;
    assert(0 <= c < signals.len() && signals[c].id == id && forall|j: int| 0 <= j < c ==> signals[j].id != id);
    if c < i {
        assert(signals[c].id != id);
    } else if c > i {
        assert(signals[i].id != id);
    }
}

/// Checks one value of a grouped read against the signal with its id.
fn check_read_value(signals: &[SignalMeta], id: u32, ty: SignalType) -> (r: Result<(), String>)
    ensures
        match read_fault_at(signals@, id, ty) {
            Some(m) => r matches Err(e) && e@ == m,
            None => r is Ok,
        },
{
    match signal_index_by_id(signals, id) {
        None => {
            assert(first_with_id(signals@, id) is None);
            let mut m = String::new();
            push_str(&mut m, "signal not found: '#");
            push_dec(&mut m, id as u64);
            push_str(&mut m, "'");
            assert(m@ =~= "signal not found: '#"@ + dec(id as nat) + "'"@);
            Err(m)
        },
        Some(i) => {
            proof {
                lemma_first_index_unique(signals@, id, i as int);
            }
            let s = &signals[i];
            if s.signal_type != ty {
                let e = SimError::TypeMismatch { name: s.name.clone(), expected: s.signal_type, actual: ty };
                Err(e.message())
            } else {
                Ok(())
            }
        },
    }
}

/// Checks what a grouped read gave back: as many values as ids, each of the
/// type of the signal with its id.
pub fn check_grouped_read(signals: &[SignalMeta], ids: &[u32], types: &[SignalType]) -> (r: Result<(), String>)
    ensures
        types@.len() != ids@.len() ==> (r matches Err(m) && m@ == read_count_message(types@.len(), ids@.len())),
        types@.len() == ids@.len() ==> match read_fault_from(signals@, ids@, types@, 0) {
            Some(m) => r matches Err(e) && e@ == m,
            None => r is Ok,
        },
{
    if types.len() != ids.len() {
        let mut m = String::new();
        push_str(&mut m, "grouped signal read returned ");
        push_dec(&mut m, types.len() as u64);
        push_str(&mut m, " values for ");
        push_dec(&mut m, ids.len() as u64);
        push_str(&mut m, " requested ids");
        assert(m@ =~= read_count_message(types@.len(), ids@.len()));
        return Err(m);
    }
    let mut k: usize = 0;
    while k < ids.len()
        invariant
            k <= ids@.len(),
            types@.len() == ids@.len(),
            read_fault_from(signals@, ids@, types@, 0) == read_fault_from(signals@, ids@, types@, k as int),
        decreases ids@.len() - k,
    {
        let step = check_read_value(signals, ids[k], types[k]);
        if let Err(m) = step {
            return Err(m);
        }
        k = k + 1;
    }
    Ok(())
}


/// The message for a bus the loaded project does not declare.
pub open spec fn undeclared_bus_message(name: Seq<char>) -> Seq<char> {
    "CAN bus '"@ + name + "' not declared by loaded project"@
}

/// The message for attaching a bus twice.
pub open spec fn attached_twice_bus_message(name: Seq<char>) -> Seq<char> {
    "CAN bus '"@ + name + "' is already attached"@
}

/// The message for using a bus that is not attached.
pub open spec fn not_attached_bus_message(name: Seq<char>) -> Seq<char> {
    "CAN bus '"@ + name + "' is not attached"@
}

/// Finds the first CAN bus the project declares under `name`.
pub fn find_can_bus_desc(buses: &[SimCanBusDesc], name: &str) -> (r: Result<usize, String>)
    ensures
        match r {
            Ok(i) => i < buses@.len() && buses@[i as int].name@ == name@
                && forall|j: int| 0 <= j < i ==> buses@[j].name@ != name@,
            Err(m) => m@ == undeclared_bus_message(name@) && forall|j: int| 0 <= j < buses@.len() ==> buses@[j].name@ != name@,
        },
{
    let mut i: usize = 0;
    while i < buses.len()
        invariant
            i <= buses@.len(),
            forall|j: int| 0 <= j < i ==> buses@[j].name@ != name@,
        decreases buses@.len() - i,
    {
        if crate::sim::validation::same_text(buses[i].name.as_str(), name) {
            return Ok(i);
        }
        i = i + 1;
    }
    let mut m = String::new();
    push_str(&mut m, "CAN bus '");
    push_str(&mut m, name);
    push_str(&mut m, "' not declared by loaded project");
    assert(m@ =~= undeclared_bus_message(name@));
    Err(m)
}

/// Refuses to attach a bus that is attached already.
pub fn ensure_bus_detached(attached: bool, name: &str) -> (r: Result<(), String>)
    ensures
        r is Ok <==> !attached,
        r matches Err(m) ==> m@ == attached_twice_bus_message(name@),
{
    if attached {
        let mut m = String::new();
        push_str(&mut m, "CAN bus '");
        push_str(&mut m, name);
        push_str(&mut m, "' is already attached");
        assert(m@ =~= attached_twice_bus_message(name@));
        return Err(m);
    }
    Ok(())
}

/// Refuses to use a bus that is not attached.
pub fn ensure_bus_attached(attached: bool, name: &str) -> (r: Result<(), String>)
    ensures
        r is Ok <==> attached,
        r matches Err(m) ==> m@ == not_attached_bus_message(name@),
{
    if !attached {
        let mut m = String::new();
        push_str(&mut m, "CAN bus '");
        push_str(&mut m, name);
        push_str(&mut m, "' is not attached");
        assert(m@ =~= not_attached_bus_message(name@));
        return Err(m);
    }
    Ok(())
}


/// Why starting or reaching an instance daemon failed.
#[derive(Clone, Debug, PartialEq, Eq)]
pub enum DaemonError {
    StartupTimeout,
    StartupFailed(String),
    AlreadyRunning(String),
    NotRunning(String),
    Request(String),
    Io(String),
}

/// The text a `DaemonError` reads as.
pub open spec fn daemon_error_text(e: DaemonError) -> Seq<char> {
    match e {
        DaemonError::StartupTimeout => "daemon startup timeout"@,
        DaemonError::StartupFailed(m) => "daemon startup failed: "@ + m@,
        DaemonError::AlreadyRunning(s) => "session '"@ + s@ + "' already has a running daemon"@,
        DaemonError::NotRunning(s) => "session '"@ + s@ + "' has no running daemon; run `agent-sim load <libpath>` first"@,
        DaemonError::Request(m) => "daemon request failed: "@ + m@,
        DaemonError::Io(m) => "daemon io error: "@ + m@,
    }
}

impl DaemonError {
    /// The text the error reads as.
    pub fn message(&self) -> (r: String)
        ensures
            r@ == daemon_error_text(*self),
    {
        let mut r = String::new();
        match self {
            DaemonError::StartupTimeout => push_str(&mut r, "daemon startup timeout"),
            DaemonError::StartupFailed(m) => {
                push_str(&mut r, "daemon startup failed: ");
                push_str(&mut r, m.as_str());
            },
            DaemonError::AlreadyRunning(s) => {
                push_str(&mut r, "session '");
                push_str(&mut r, s.as_str());
                push_str(&mut r, "' already has a running daemon");
            },
            DaemonError::NotRunning(s) => {
                push_str(&mut r, "session '");
                push_str(&mut r, s.as_str());
                push_str(&mut r, "' has no running daemon; run `agent-sim load <libpath>` first");
            },
            DaemonError::Request(m) => {
                push_str(&mut r, "daemon request failed: ");
                push_str(&mut r, m.as_str());
            },
            DaemonError::Io(m) => {
                push_str(&mut r, "daemon io error: ");
                push_str(&mut r, m.as_str());
            },
        }
        assert(r@ =~= daemon_error_text(*self));
        r
    }
}

} // verus!
