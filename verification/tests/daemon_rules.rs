use agent_sim::cli::CliError;
use agent_sim::can::frame_with_payload;
use agent_sim::config::ConfigError;
use agent_sim::daemon::DaemonError;
use agent_sim::envd::EnvDaemonError;
use agent_sim::daemon::{
    check_bound_library, check_grouped_read, ensure_bus_attached, ensure_bus_detached, find_can_bus_desc,
    reject_can_selector, reject_local_can_control, reject_local_time_control, signal_index_by_id,
};
use agent_sim::sim::types::SimCanBusDesc;
use agent_sim::envd::{ensure_env_name, validate_worker_signal_values};
use agent_sim::load::FlashParseError;
use agent_sim::load::resolve::LoadResolveError;
use agent_sim::sim::error::{ProjectError, SimError};
use agent_sim::sim::time::TimeError;
use agent_sim::sim::types::{SignalMeta, SignalType};
use agent_sim::trace::{ensure_trace_path_absolute, trace_path_check, trace_period_ticks, TraceBook};

fn signal(id: u32, name: &str, signal_type: SignalType) -> SignalMeta {
    SignalMeta { id, name: name.to_string(), signal_type, units: None }
}

#[test]
fn a_new_trace_book_reports_nothing() {
    let book = TraceBook::new();
    let status = book.status();
    assert!(!status.active);
    assert_eq!(status.path, None);
    assert_eq!(status.row_count, 0);
    assert_eq!(status.signal_count, 0);
    assert_eq!(status.period_us, None);
    assert!(book.ensure_idle().is_ok());
}

#[test]
fn a_second_trace_is_refused_while_one_runs() {
    let mut book = TraceBook::new();
    book.record_start("/tmp/trace.csv".to_string(), 3, 2500, 3, 10);
    assert_eq!(book.ensure_idle().unwrap_err(), "trace is already active; stop or clear it first");
    let status = book.status();
    assert!(status.active);
    assert_eq!(status.path.as_deref(), Some("/tmp/trace.csv"));
    assert_eq!(status.row_count, 1);
    assert_eq!(status.signal_count, 3);
    assert_eq!(status.period_us, Some(2500));
}

#[test]
fn trace_rows_come_once_a_period() {
    let mut book = TraceBook::new();
    book.record_start("/tmp/trace.csv".to_string(), 1, 3000, 3, 10);
    assert!(!book.is_due(12));
    assert!(book.is_due(13));
    book.record_row(13);
    assert!(!book.is_due(13));
    assert!(!book.is_due(15));
    assert!(book.is_due(16));
    assert_eq!(book.status().row_count, 2);
}

#[test]
fn stopping_a_trace_keeps_its_figures() {
    let mut book = TraceBook::new();
    book.record_start("/tmp/trace.csv".to_string(), 2, 1000, 1, 0);
    book.record_row(1);
    book.stop();
    let status = book.status();
    assert!(!status.active);
    assert_eq!(status.path.as_deref(), Some("/tmp/trace.csv"));
    assert_eq!(status.row_count, 2);
    assert_eq!(status.signal_count, 2);
    assert_eq!(status.period_us, Some(1000));
    assert!(!book.is_due(5));
    assert!(book.ensure_idle().is_ok());
}

#[test]
fn clearing_a_trace_forgets_it() {
    let mut book = TraceBook::new();
    book.record_start("/tmp/trace.csv".to_string(), 2, 1000, 1, 0);
    let target = book.take_clear_target();
    assert_eq!(target.as_deref(), Some("/tmp/trace.csv"));
    assert!(!book.status().active);
    book.forget();
    let status = book.status();
    assert_eq!(status.path, None);
    assert_eq!(status.row_count, 0);
    assert_eq!(status.period_us, None);
}

#[test]
fn clearing_a_stopped_trace_targets_its_last_file() {
    let mut book = TraceBook::new();
    book.record_start("/tmp/last.csv".to_string(), 1, 1000, 1, 0);
    book.stop();
    assert_eq!(book.take_clear_target().as_deref(), Some("/tmp/last.csv"));
    assert_eq!(TraceBook::new().take_clear_target(), None);
}

#[test]
fn trace_periods_round_up_to_whole_ticks() {
    assert_eq!(trace_period_ticks(2500, 1000), Ok(3));
    assert_eq!(trace_period_ticks(3000, 1000), Ok(3));
    assert_eq!(trace_period_ticks(1, 1000), Ok(1));
    assert_eq!(trace_period_ticks(0, 1000).unwrap_err(), "trace period must be greater than zero");
}

#[test]
fn trace_paths_must_be_absolute() {
    assert!(trace_path_check("/tmp/a.csv", true).is_ok());
    assert_eq!(
        trace_path_check("a.csv", false).unwrap_err(),
        "trace output path must be absolute, got 'a.csv'"
    );
}

#[test]
fn env_members_refuse_local_time_and_can_control() {
    let env = Some("bench".to_string());
    assert_eq!(
        reject_local_time_control(&env).unwrap_err(),
        "instance-local time control is unavailable while attached to env 'bench'; use `agent-sim env time bench ...` instead"
    );
    assert_eq!(
        reject_local_can_control(&env).unwrap_err(),
        "CAN is env-owned; use `agent-sim env can <env> ...` instead"
    );
    assert!(reject_local_time_control(&None).is_ok());
    assert!(reject_local_can_control(&None).is_ok());
}

#[test]
fn can_selectors_are_no_longer_projected() {
    assert_eq!(
        reject_can_selector("can.bus0.speed").unwrap_err(),
        "CAN signal projection is no longer supported; use `agent-sim env can <env> ...` instead"
    );
    assert!(reject_can_selector("vehicle.speed").is_ok());
    assert!(reject_can_selector("can").is_ok());
}

#[test]
fn an_instance_stays_bound_to_its_library() {
    assert!(check_bound_library("/lib/a.so", "/lib/a.so").is_ok());
    assert_eq!(
        check_bound_library("/lib/a.so", "/lib/b.so").unwrap_err(),
        "daemon already bound to '/lib/a.so'; start a new instance for a different DLL"
    );
}

#[test]
fn grouped_reads_are_checked_against_the_signals() {
    let signals = vec![signal(1, "speed", SignalType::F32), signal(2, "on", SignalType::Bool)];
    assert_eq!(signal_index_by_id(&signals, 2), Some(1));
    assert_eq!(signal_index_by_id(&signals, 9), None);
    assert!(check_grouped_read(&signals, &[2, 1], &[SignalType::Bool, SignalType::F32]).is_ok());
    assert_eq!(
        check_grouped_read(&signals, &[2, 1], &[SignalType::Bool]).unwrap_err(),
        "grouped signal read returned 1 values for 2 requested ids"
    );
    assert_eq!(
        check_grouped_read(&signals, &[7], &[SignalType::Bool]).unwrap_err(),
        "signal not found: '#7'"
    );
    assert_eq!(
        check_grouped_read(&signals, &[1, 2], &[SignalType::U32, SignalType::Bool]).unwrap_err(),
        "type mismatch: signal 'speed' expects f32, got u32"
    );
}

#[test]
fn env_requests_must_name_this_env() {
    assert!(ensure_env_name("bench", "bench").is_ok());
    assert_eq!(
        ensure_env_name("bench", "rig").unwrap_err(),
        "env daemon 'bench' cannot service requests for env 'rig'"
    );
}

#[test]
fn worker_reads_must_answer_the_ids_asked() {
    assert!(validate_worker_signal_values("ecu", &[3, 4], &[3, 4]).is_ok());
    assert_eq!(
        validate_worker_signal_values("ecu", &[3, 4], &[3]).unwrap_err(),
        "instance 'ecu' returned 1 values for 2 requested ids"
    );
    assert_eq!(
        validate_worker_signal_values("ecu", &[3, 4], &[3, 5]).unwrap_err(),
        "instance 'ecu' returned mismatched signal id at index 1: expected 4, got 5"
    );
}

#[test]
fn errors_read_as_their_messages() {
    assert_eq!(SimError::InvalidSignal("x".to_string()).message(), "signal not found: 'x'");
    assert_eq!(SimError::UnknownStatus(42).message(), "unknown simulation error status code: 42");
    assert_eq!(SimError::NotInitialized.message(), "simulation state not initialized");
    assert_eq!(
        ProjectError::InvalidSharedMetadata("bad".to_string()).message(),
        "invalid shared-state metadata from project: bad"
    );
    assert_eq!(ProjectError::Flash("gone".to_string()).message(), "flash support error: gone");
    assert_eq!(TimeError::AlreadyPaused.message(), "time engine is already paused");
    assert_eq!(TimeError::Sim(SimError::BufferTooSmall).message(), "buffer too small");
    assert_eq!(CliError::MissingCommand.message(), "missing command; run --help for usage");
    assert_eq!(CliError::CommandFailed("x".to_string()).message(), "command failed: x");
    assert_eq!(
        FlashParseError::AddressOverflow { base_addr: 0xFFFF_FF00, len: 512 }.message(),
        "flash input exceeds 32-bit address space at 0xFFFFFF00 (+512 bytes)"
    );
    assert_eq!(
        FlashParseError::InvalidIntelHex { line: 3, message: "bad".to_string() }.message(),
        "invalid Intel HEX line 3: bad"
    );
    assert_eq!(
        LoadResolveError::Flash(FlashParseError::MissingBinaryBase).message(),
        "raw binary flash input requires an explicit base address"
    );
    assert_eq!(LoadResolveError::Message("plain".to_string()).message(), "plain");
}

#[test]
fn instance_buses_are_found_and_attached_once() {
    let buses = vec![
        SimCanBusDesc { id: 0, name: "can0".to_string(), bitrate: 500_000, bitrate_data: 0, fd_capable: false },
        SimCanBusDesc { id: 1, name: "can1".to_string(), bitrate: 500_000, bitrate_data: 2_000_000, fd_capable: true },
    ];
    assert_eq!(find_can_bus_desc(&buses, "can1"), Ok(1));
    assert_eq!(
        find_can_bus_desc(&buses, "can9").unwrap_err(),
        "CAN bus 'can9' not declared by loaded project"
    );
    assert!(ensure_bus_detached(false, "can0").is_ok());
    assert_eq!(ensure_bus_detached(true, "can0").unwrap_err(), "CAN bus 'can0' is already attached");
    assert!(ensure_bus_attached(true, "can0").is_ok());
    assert_eq!(ensure_bus_attached(false, "can0").unwrap_err(), "CAN bus 'can0' is not attached");
}

#[test]
fn frames_carry_their_payload_zero_filled() {
    let frame = frame_with_payload(0x7FF, &[1, 2, 3], 0);
    assert_eq!(frame.arb_id, 0x7FF);
    assert_eq!(frame.len, 3);
    assert_eq!(&frame.data[..4], &[1, 2, 3, 0]);
    assert!(frame.data[3..].iter().all(|b| *b == 0));
}

#[test]
fn daemon_and_config_errors_read_as_their_messages() {
    assert_eq!(DaemonError::StartupTimeout.message(), "daemon startup timeout");
    assert_eq!(
        DaemonError::NotRunning("ecu".to_string()).message(),
        "session 'ecu' has no running daemon; run `agent-sim load <libpath>` first"
    );
    assert_eq!(DaemonError::AlreadyRunning("ecu".to_string()).message(), "session 'ecu' already has a running daemon");
    assert_eq!(
        EnvDaemonError::NotRunning("bench".to_string()).message(),
        "env 'bench' has no running daemon; run `agent-sim env start <name>` first"
    );
    assert_eq!(EnvDaemonError::StartupFailed("boom".to_string()).message(), "env daemon startup failed: boom");
    assert_eq!(ConfigError::MissingRecipe("smoke".to_string()).message(), "missing recipe: smoke");
    assert_eq!(ConfigError::Parse("bad".to_string()).message(), "config parse failed: bad");
}

#[test]
fn trace_paths_without_separator_are_refused() {
    assert_eq!(
        ensure_trace_path_absolute("trace.csv").unwrap_err(),
        "trace output path must be absolute, got 'trace.csv'"
    );
    assert!(ensure_trace_path_absolute("").is_err());
}
