//! Buffer sizing and counts for the calls that read a project's exports.
use vstd::prelude::*;
use crate::sim::error::ProjectError;
use crate::text::{dec, push_dec, push_str};

verus! {

/// The largest buffer, in entries, offered to a project.
pub const MAX_FFI_BUFFER_CAPACITY: u32 = 65_536;

/// The next buffer size to try: double, at least 2, at most the maximum;
/// an error once the maximum was already reached.
pub fn next_capacity(capacity: u32, context: &str) -> (r: Result<u32, String>)
    ensures
        capacity >= MAX_FFI_BUFFER_CAPACITY ==> (r matches Err(m)
            && m@ == context@ + " exceeded max FFI buffer capacity 65536"@),
        capacity < MAX_FFI_BUFFER_CAPACITY ==> r == Ok::<u32, String>(
            if 2 * capacity < 2 { 2 } else if 2 * capacity > MAX_FFI_BUFFER_CAPACITY { MAX_FFI_BUFFER_CAPACITY } else { (2 * capacity) as u32 },
        ),
{
    if capacity >= MAX_FFI_BUFFER_CAPACITY {
        let mut m = String::new();
        push_str(&mut m, context);
        push_str(&mut m, " exceeded max FFI buffer capacity 65536");
        assert(m@ =~= context@ + " exceeded max FFI buffer capacity 65536"@);
        return Err(m);
    }
    let doubled: u32 = capacity * 2;
    let clamped = if doubled < 2 { 2 } else if doubled > MAX_FFI_BUFFER_CAPACITY { MAX_FFI_BUFFER_CAPACITY } else { doubled };
    Ok(clamped)
}

/// Accepts an entry count a project reported for a buffer of `capacity` entries.
pub fn validate_written(written: u32, capacity: u32, context: &str) -> (r: Result<usize, String>)
    ensures
        written > capacity ==> (r matches Err(m) && m@ == context@ + " reported "@ + dec(written as nat)
            + " entries for capacity "@ + dec(capacity as nat)),
        written <= capacity ==> r == Ok::<usize, String>(written as usize),
{
    if written > capacity {
        let mut m = String::new();
        push_str(&mut m, context);
        push_str(&mut m, " reported ");
        push_dec(&mut m, written as u64);
        push_str(&mut m, " entries for capacity ");
        push_dec(&mut m, capacity as u64);
        assert(m@ =~= context@ + " reported "@ + dec(written as nat) + " entries for capacity "@ + dec(capacity as nat));
        return Err(m);
    }
    Ok(written as usize)
}

/// Accepts the tick duration a project reports, which must not be zero.
pub fn validate_tick_duration_us(tick_duration_us: u32, source: &str) -> (r: Result<u32, ProjectError>)
    ensures
        tick_duration_us == 0 ==> (r matches Err(ProjectError::LibraryLoad(m)) && m@ == source@
            + " returned invalid zero tick duration"@),
        tick_duration_us != 0 ==> r == Ok::<u32, ProjectError>(tick_duration_us),
{
    if tick_duration_us == 0 {
        let mut m = String::new();
        push_str(&mut m, source);
        push_str(&mut m, " returned invalid zero tick duration");
        assert(m@ =~= source@ + " returned invalid zero tick duration"@);
        return Err(ProjectError::LibraryLoad(m));
    }
    Ok(tick_duration_us)
}

/// The C ABI version this runtime speaks.
pub const SUPPORTED_API_VERSION_MAJOR: u32 = 2;
pub const SUPPORTED_API_VERSION_MINOR: u32 = 0;

/// The refusal of a project that reports another ABI version.
pub open spec fn abi_mismatch_message(major: u32, minor: u32) -> Seq<char> {
    "ABI version mismatch: project reports "@ + dec(major as nat) + "."@ + dec(minor as nat)
        + ", runtime requires "@ + dec(SUPPORTED_API_VERSION_MAJOR as nat) + "."@ + dec(SUPPORTED_API_VERSION_MINOR as nat)
}

/// Accepts exactly the supported ABI version; any other is refused.
pub fn check_api_version(major: u32, minor: u32) -> (r: Result<(), ProjectError>)
    ensures
        r is Ok <==> (major == SUPPORTED_API_VERSION_MAJOR && minor == SUPPORTED_API_VERSION_MINOR),
        r matches Err(e) ==> e matches ProjectError::LibraryLoad(m) && m@ == abi_mismatch_message(major, minor),
{
    if major == SUPPORTED_API_VERSION_MAJOR && minor == SUPPORTED_API_VERSION_MINOR {
        return Ok(());
    }
    let mut m = String::new();
    push_str(&mut m, "ABI version mismatch: project reports ");
    push_dec(&mut m, major as u64);
    push_str(&mut m, ".");
    push_dec(&mut m, minor as u64);
    push_str(&mut m, ", runtime requires ");
    push_dec(&mut m, SUPPORTED_API_VERSION_MAJOR as u64);
    push_str(&mut m, ".");
    push_dec(&mut m, SUPPORTED_API_VERSION_MINOR as u64);
    assert(m@ =~= abi_mismatch_message(major, minor));
    Err(ProjectError::LibraryLoad(m))
}

} // verus!
