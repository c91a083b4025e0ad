use agent_sim::protocol::TimeStateData;
use agent_sim::sim::error::{ProjectError, SimError};
use agent_sim::sim::instance_manager::{InstanceError, InstanceManager};
use agent_sim::sim::project_loader::{check_api_version, next_capacity, validate_tick_duration_us, validate_written};
use agent_sim::sim::time::{TimeClock, TimeError};
use agent_sim::sim::types::{SignalMeta, SignalType, SimCanBusDesc, SimSharedDesc, SimStatusRaw};
use agent_sim::sim::validation::{validate_can_metadata, validate_shared_metadata, validate_signal_metadata};

fn signal(id: u32, name: &str) -> SignalMeta {
    SignalMeta {
        id,
        name: name.to_string(),
        signal_type: SignalType::F32,
        units: None,
    }
}

fn bus(id: u32, name: &str) -> SimCanBusDesc {
    SimCanBusDesc {
        id,
        name: name.to_string(),
        bitrate: 500_000,
        bitrate_data: 0,
        fd_capable: false,
    }
}

fn channel(id: u32, name: &str, slot_count: u32) -> SimSharedDesc {
    SimSharedDesc {
        id,
        name: name.to_string(),
        slot_count,
    }
}

#[test]
fn validate_tick_duration_rejects_zero() {
    let err = validate_tick_duration_us(0, "sim_get_tick_duration_us").expect_err("zero tick duration must fail");
    assert!(matches!(err, ProjectError::LibraryLoad(message) if message.contains("invalid zero tick duration")));
}

#[test]
fn validate_tick_duration_accepts_positive_value() {
    assert_eq!(
        validate_tick_duration_us(20, "sim_get_tick_duration_us").expect("positive tick duration must pass"),
        20
    );
}

#[test]
fn signal_validation_rejects_duplicate_id() {
    let err = validate_signal_metadata(&[signal(1, "a"), signal(1, "b")]).expect_err("duplicate ids must fail");
    assert!(
        matches!(err, ProjectError::InvalidSignalMetadata(message) if message.contains("duplicate signal id 1"))
    );
}

#[test]
fn signal_validation_rejects_duplicate_name() {
    let err = validate_signal_metadata(&[signal(1, "a"), signal(2, "a")]).expect_err("duplicate names must fail");
    assert!(
        matches!(err, ProjectError::InvalidSignalMetadata(message) if message.contains("duplicate signal name 'a'"))
    );
}

#[test]
fn signal_validation_rejects_reserved_namespace() {
    let err = validate_signal_metadata(&[signal(1, "can.speed")]).expect_err("reserved namespace must fail");
    assert!(matches!(err, ProjectError::InvalidSignalMetadata(message) if message.contains("reserved namespace")));
}

#[test]
fn signal_validation_accepts_distinct_signals() {
    assert!(validate_signal_metadata(&[signal(1, "a"), signal(2, "b")]).is_ok());
    assert!(validate_signal_metadata(&[signal(1, " ")]).is_err());
}

#[test]
fn can_validation_rejects_duplicate_name() {
    let err = validate_can_metadata(&[bus(1, "internal"), bus(2, "internal")]).expect_err("dup");
    assert!(
        matches!(err, ProjectError::InvalidCanMetadata(message) if message.contains("duplicate CAN bus name 'internal'"))
    );
}

#[test]
fn can_validation_rejects_duplicate_id() {
    let err = validate_can_metadata(&[bus(7, "internal"), bus(7, "external")]).expect_err("dup");
    assert!(matches!(err, ProjectError::InvalidCanMetadata(message) if message.contains("duplicate CAN bus id 7")));
}

#[test]
fn shared_validation_rejects_zero_slots() {
    let err =
        validate_shared_metadata(&[channel(1, "sensor_feed", 0)]).expect_err("zero-slot shared channel must fail");
    assert!(matches!(err, ProjectError::InvalidSharedMetadata(message) if message.contains("at least one slot")));
}

#[test]
fn shared_validation_rejects_duplicate_id() {
    let err = validate_shared_metadata(&[channel(1, "sensor_feed", 2), channel(1, "other_feed", 2)])
        .expect_err("duplicate ids must fail");
    assert!(
        matches!(err, ProjectError::InvalidSharedMetadata(message) if message.contains("duplicate shared channel id 1"))
    );
}

#[test]
fn shared_validation_rejects_duplicate_name() {
    let err = validate_shared_metadata(&[channel(1, "sensor_feed", 2), channel(2, "sensor_feed", 2)])
        .expect_err("duplicate names must fail");
    assert!(
        matches!(err, ProjectError::InvalidSharedMetadata(message) if message.contains("duplicate shared channel name 'sensor_feed'"))
    );
}

#[test]
fn ffi_buffer_capacity_doubles_up_to_the_limit() {
    assert_eq!(next_capacity(0, "signals"), Ok(2));
    assert_eq!(next_capacity(64, "signals"), Ok(128));
    assert_eq!(next_capacity(40_000, "signals"), Ok(65_536));
    assert_eq!(
        next_capacity(65_536, "signals"),
        Err("signals exceeded max FFI buffer capacity 65536".to_string())
    );
    assert_eq!(validate_written(3, 4, "signals"), Ok(3));
    assert_eq!(
        validate_written(5, 4, "signals"),
        Err("signals reported 5 entries for capacity 4".to_string())
    );
}

#[test]
fn status_codes_map_to_errors() {
    assert_eq!(SimStatusRaw::try_from_code(255), Some(SimStatusRaw::Internal));
    assert_eq!(SimStatusRaw::try_from_code(6), None);
    assert_eq!(SimError::from_status(1), SimError::NotInitialized);
    assert_eq!(SimError::from_status(5), SimError::BufferTooSmall);
    assert_eq!(SimError::from_status(42), SimError::UnknownStatus(42));
    assert_eq!(SimError::from_status(0), SimError::UnknownStatus(0));
}

#[test]
fn signal_type_names_round_trip() {
    for t in [SignalType::Bool, SignalType::U32, SignalType::I32, SignalType::F32, SignalType::F64] {
        assert_eq!(SignalType::parse(t.name()), Some(t));
    }
    assert_eq!(SignalType::parse("u64"), None);
}

#[test]
fn instance_manager_keeps_an_active_live_instance() {
    let mut manager: InstanceManager<u64> = InstanceManager::new();
    assert!(manager.is_empty());
    assert_eq!(manager.resolve_target(None), Err(InstanceError::NoActiveInstance));
    let a = manager.create(10);
    let b = manager.create(20);
    let c = manager.create(30);
    assert_eq!((a, b, c), (0, 1, 2));
    assert_eq!(manager.active_index(), Some(0));
    assert_eq!(manager.select(2), Ok(()));
    assert_eq!(manager.select(9), Err(InstanceError::IndexOutOfRange(9)));
    assert_eq!(manager.free(2), Ok(30));
    assert_eq!(manager.active_index(), Some(0));
    assert_eq!(manager.list(), vec![0, 1]);
    assert_eq!(manager.get_ctx(1), Ok(20));
    assert_eq!(manager.free(2), Err(InstanceError::IndexOutOfRange(2)));
    assert_eq!(manager.create(40), 3);
    assert_eq!(manager.iter_ctxs(), vec![10, 20, 40]);
    assert_eq!(manager.resolve_target(Some(3)), Ok(3));
    assert_eq!(manager.clear(), vec![10, 20, 40]);
    assert_eq!(manager.active_index(), None);
    assert_eq!(manager.len(), 0);
}

#[test]
fn time_clock_steps_whole_ticks_while_paused() {
    let mut clock = TimeClock::new();
    assert_eq!(clock.state, TimeStateData::Paused);
    let step = clock.step_ticks(20, 1_000).expect("paused clock steps");
    assert_eq!((step.requested_us, step.advanced_ticks, step.advanced_us), (1_000, 50, 1_000));
    let partial = clock.step_ticks(30, 100).expect("paused clock steps");
    assert_eq!((partial.advanced_ticks, partial.advanced_us), (3, 90));
    clock.advance_ticks(step.advanced_ticks);
    assert_eq!(clock.elapsed_time_us(20), 1_000);
    assert_eq!(clock.pause(), Err(TimeError::AlreadyPaused));
    assert_eq!(clock.start(), Ok(()));
    assert_eq!(clock.start(), Err(TimeError::AlreadyRunning));
    assert!(matches!(clock.step_ticks(20, 100), Err(TimeError::StepWhileRunning)));
    clock.advance_ticks(u64::MAX);
    assert_eq!(clock.elapsed_ticks, u64::MAX);
}

#[test]
fn only_the_supported_abi_version_is_accepted() {
    assert!(check_api_version(2, 0).is_ok());
    assert!(matches!(
        check_api_version(1, 9),
        Err(ProjectError::LibraryLoad(ref m)) if m == "ABI version mismatch: project reports 1.9, runtime requires 2.0"
    ));
    assert!(check_api_version(2, 1).is_err());
}
