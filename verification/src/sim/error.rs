//! Errors reported by a loaded project and its simulation.
use vstd::prelude::*;
use crate::sim::types::{SignalType, SimStatusRaw, signal_type_name};
use crate::text::{push_str, push_dec, dec};

verus! {

/// Why a project could not be loaded or described itself wrongly.
#[derive(Clone, Debug, PartialEq, Eq)]
pub enum ProjectError {
    LibraryLoad(String),
    FfiContract(String),
    MissingSymbol(String),
    InvalidSignalMetadata(String),
    InvalidCanExports(String),
    InvalidSharedExports(String),
    InvalidCanMetadata(String),
    InvalidSharedMetadata(String),
    Flash(String),
}

/// Why a simulation call failed.
#[derive(Clone, Debug, PartialEq, Eq)]
pub enum SimError {
    NotInitialized,
    InvalidArg(String),
    FfiContract(String),
    InvalidSignal(String),
    TypeMismatch { name: String, expected: SignalType, actual: SignalType },
    BufferTooSmall,
    Internal,
    UnknownStatus(u32),
}

/// The error a failing status code stands for; a success code or an unknown
/// one gives `UnknownStatus`.
pub open spec fn status_error(value: u32) -> SimErrorKind {
    match SimStatusRaw::from_code(value) {
        None => SimErrorKind::UnknownStatus(value),
        Some(SimStatusRaw::Success) => SimErrorKind::UnknownStatus(0),
        Some(SimStatusRaw::NotInitialized) => SimErrorKind::NotInitialized,
        Some(SimStatusRaw::InvalidArg) => SimErrorKind::InvalidArg,
        Some(SimStatusRaw::InvalidSignal) => SimErrorKind::InvalidSignal,
        Some(SimStatusRaw::TypeMismatch) => SimErrorKind::Internal,
        Some(SimStatusRaw::BufferTooSmall) => SimErrorKind::BufferTooSmall,
        Some(SimStatusRaw::Internal) => SimErrorKind::Internal,
    }
}

/// The variant of a `SimError`, with its number where it has one.
pub enum SimErrorKind {
    NotInitialized,
    InvalidArg,
    InvalidSignal,
    BufferTooSmall,
    Internal,
    UnknownStatus(u32),
}

/// The kind of a `SimError` value.
pub open spec fn sim_error_kind(e: SimError) -> Option<SimErrorKind> {
    match e {
        SimError::NotInitialized => Some(SimErrorKind::NotInitialized),
        SimError::InvalidArg(m) => if m@ == "invalid ffi argument"@ { Some(SimErrorKind::InvalidArg) } else { None },
        SimError::InvalidSignal(m) => if m@ == "<unknown>"@ { Some(SimErrorKind::InvalidSignal) } else { None },
        SimError::BufferTooSmall => Some(SimErrorKind::BufferTooSmall),
        SimError::Internal => Some(SimErrorKind::Internal),
        SimError::UnknownStatus(v) => Some(SimErrorKind::UnknownStatus(v)),
        _ => None,
    }
}

impl SimError {
    /// The error a status code reports.
    pub fn from_status(value: u32) -> (r: SimError)
        ensures
            sim_error_kind(r) == Some(status_error(value)),
    {
        match SimStatusRaw::try_from_code(value) {
            None => SimError::UnknownStatus(value),
            Some(SimStatusRaw::Success) => SimError::UnknownStatus(0),
            Some(SimStatusRaw::NotInitialized) => SimError::NotInitialized,
            Some(SimStatusRaw::InvalidArg) => {
                let mut m = String::new();
                crate::text::push_str(&mut m, "invalid ffi argument");
                assert(m@ =~= "invalid ffi argument"@);
                SimError::InvalidArg(m)
            },
            Some(SimStatusRaw::InvalidSignal) => {
                let mut m = String::new();
                crate::text::push_str(&mut m, "<unknown>");
                assert(m@ =~= "<unknown>"@);
                SimError::InvalidSignal(m)
            },
            Some(SimStatusRaw::TypeMismatch) => SimError::Internal,
            Some(SimStatusRaw::BufferTooSmall) => SimError::BufferTooSmall,
            Some(SimStatusRaw::Internal) => SimError::Internal,
        }
    }
}


/// The text a `ProjectError` reads as.
pub open spec fn project_error_text(e: ProjectError) -> Seq<char> {
    match e {
        ProjectError::LibraryLoad(m) => "library load failed: "@ + m@,
        ProjectError::FfiContract(m) => "FFI contract violation: "@ + m@,
        ProjectError::MissingSymbol(m) => "missing symbol: "@ + m@,
        ProjectError::InvalidSignalMetadata(m) => "invalid signal metadata from project: "@ + m@,
        ProjectError::InvalidCanExports(m) => "invalid CAN exports: "@ + m@,
        ProjectError::InvalidSharedExports(m) => "invalid shared-state exports: "@ + m@,
        ProjectError::InvalidCanMetadata(m) => "invalid CAN metadata from project: "@ + m@,
        ProjectError::InvalidSharedMetadata(m) => "invalid shared-state metadata from project: "@ + m@,
        ProjectError::Flash(m) => "flash support error: "@ + m@,
    }
}

/// `prefix` followed by `m`, as a new string.
fn prefixed(prefix: &str, m: &str) -> (r: String)
    ensures
        r@ == prefix@ + m@,
{
    let mut r = String::new();
    push_str(&mut r, prefix);
    push_str(&mut r, m);
    assert(r@ =~= prefix@ + m@);
    r
}

impl ProjectError {
    /// The text the error reads as.
    pub fn message(&self) -> (r: String)
        ensures
            r@ == project_error_text(*self),
    {
        match self {
            ProjectError::LibraryLoad(m) => prefixed("library load failed: ", m.as_str()),
            ProjectError::FfiContract(m) => prefixed("FFI contract violation: ", m.as_str()),
            ProjectError::MissingSymbol(m) => prefixed("missing symbol: ", m.as_str()),
            ProjectError::InvalidSignalMetadata(m) => prefixed("invalid signal metadata from project: ", m.as_str()),
            ProjectError::InvalidCanExports(m) => prefixed("invalid CAN exports: ", m.as_str()),
            ProjectError::InvalidSharedExports(m) => prefixed("invalid shared-state exports: ", m.as_str()),
            ProjectError::InvalidCanMetadata(m) => prefixed("invalid CAN metadata from project: ", m.as_str()),
            ProjectError::InvalidSharedMetadata(m) => prefixed("invalid shared-state metadata from project: ", m.as_str()),
            ProjectError::Flash(m) => prefixed("flash support error: ", m.as_str()),
        }
    }
}

/// The text a `SimError` reads as.
pub open spec fn sim_error_text(e: SimError) -> Seq<char> {
    match e {
        SimError::NotInitialized => "simulation state not initialized"@,
        SimError::InvalidArg(m) => "invalid argument: "@ + m@,
        SimError::FfiContract(m) => "FFI contract violation: "@ + m@,
        SimError::InvalidSignal(m) => "signal not found: '"@ + m@ + "'"@,
        SimError::TypeMismatch { name, expected, actual } => "type mismatch: signal '"@ + name@ + "' expects "@
            + signal_type_name(expected) + ", got "@ + signal_type_name(actual),
        SimError::BufferTooSmall => "buffer too small"@,
        SimError::Internal => "internal simulation error"@,
        SimError::UnknownStatus(v) => "unknown simulation error status code: "@ + dec(v as nat),
    }
}

impl SimError {
    /// The text the error reads as.
    pub fn message(&self) -> (r: String)
        ensures
            r@ == sim_error_text(*self),
    {
        let mut r = String::new();
        match self {
            SimError::NotInitialized => push_str(&mut r, "simulation state not initialized"),
            SimError::InvalidArg(m) => {
                push_str(&mut r, "invalid argument: ");
                push_str(&mut r, m.as_str());
            },
            SimError::FfiContract(m) => {
                push_str(&mut r, "FFI contract violation: ");
                push_str(&mut r, m.as_str());
            },
            SimError::InvalidSignal(m) => {
                push_str(&mut r, "signal not found: '");
                push_str(&mut r, m.as_str());
                push_str(&mut r, "'");
            },
            SimError::TypeMismatch { name, expected, actual } => {
                push_str(&mut r, "type mismatch: signal '");
                push_str(&mut r, name.as_str());
                push_str(&mut r, "' expects ");
                push_str(&mut r, expected.name());
                push_str(&mut r, ", got ");
                push_str(&mut r, actual.name());
            },
            SimError::BufferTooSmall => push_str(&mut r, "buffer too small"),
            SimError::Internal => push_str(&mut r, "internal simulation error"),
            SimError::UnknownStatus(v) => {
                push_str(&mut r, "unknown simulation error status code: ");
                push_dec(&mut r, *v as u64);
            },
        }
        assert(r@ =~= sim_error_text(*self));
        r
    }
}

} // verus!
