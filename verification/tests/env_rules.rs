use agent_sim::envd::{fire_due_schedules, reset_schedules, LatestFrames};
use agent_sim::daemon::{counted_ticks, TickStepError};
use agent_sim::envd::spec::{can_bus_members, shared_channel_members};
use agent_sim::envd::{
    ensure_unique_schedule_job_id, start_schedule, ticks_for_period, update_schedule, validate_env_tick_duration_us,
    CanScheduleJob,
};
use agent_sim::shared::{check_publish, encode_writer, publish_steps, snapshot_is_stable, SharedSnapshotError};
use agent_sim::sim::types::{SimCanFrame, CAN_FLAG_EXTENDED};

fn frame(arb_id: u32, flags: u8, data: &[u8]) -> SimCanFrame {
    let mut payload = [0_u8; 64];
    payload[..data.len()].copy_from_slice(data);
    SimCanFrame {
        arb_id,
        len: data.len() as u8,
        flags,
        data: payload,
    }
}

fn schedule(enabled: bool) -> CanScheduleJob {
    let first_frame = frame(0x123, 0, &[0xAA, 0xBB]);
    CanScheduleJob {
        job_id: "job-1".to_string(),
        arb_id: first_frame.arb_id,
        flags: first_frame.flags,
        data_hex: "AABB".to_string(),
        frame: first_frame,
        every_ticks: 10,
        next_due_tick: 5,
        enabled,
    }
}

#[test]
fn schedule_update_preserves_disabled_state() {
    let mut schedule = schedule(false);
    let updated_frame = frame(0x456, CAN_FLAG_EXTENDED, &[0x01, 0x02, 0x03]);

    update_schedule(&mut schedule, updated_frame.arb_id, "010203".to_string(), updated_frame, 42, 17);

    assert_eq!(schedule.arb_id, 0x456);
    assert_eq!(schedule.flags, CAN_FLAG_EXTENDED);
    assert_eq!(schedule.data_hex, "010203");
    assert_eq!(schedule.every_ticks, 42);
    assert_eq!(schedule.next_due_tick, 17);
    assert!(!schedule.enabled);
    assert_eq!(schedule.frame.len, 3);
    assert_eq!(schedule.frame.payload(), &[0x01, 0x02, 0x03]);
}

#[test]
fn schedule_update_preserves_enabled_state() {
    let mut schedule = schedule(true);
    let updated_frame = frame(0x456, CAN_FLAG_EXTENDED, &[0x01, 0x02, 0x03]);

    update_schedule(&mut schedule, updated_frame.arb_id, "010203".to_string(), updated_frame, 42, 23);

    assert!(schedule.enabled);
    assert_eq!(schedule.next_due_tick, 23);
    assert_eq!(schedule.frame.payload(), &[0x01, 0x02, 0x03]);
}

#[test]
fn start_schedule_reenables_stopped_schedule() {
    let mut schedule = schedule(false);
    start_schedule(&mut schedule);

    assert!(schedule.enabled);
}

#[test]
fn schedule_job_ids_must_be_unique_across_buses() {
    let bus_a = vec!["job-1".to_string()];
    let bus_b: Vec<String> = Vec::new();

    let err = ensure_unique_schedule_job_id(&[bus_a, bus_b], "job-1").unwrap_err();

    assert_eq!(err, "CAN schedule 'job-1' already exists");
}

#[test]
fn schedule_job_id_check_allows_new_ids() {
    let bus_a = vec!["job-1".to_string()];
    let bus_b: Vec<String> = Vec::new();

    let result = ensure_unique_schedule_job_id(&[bus_a, bus_b], "job-2");

    assert!(result.is_ok());
}

#[test]
fn schedule_period_ticks_round_up() {
    assert_eq!(ticks_for_period(20, 30), Ok(2));
    assert_eq!(ticks_for_period(20, 40), Ok(2));
    assert_eq!(ticks_for_period(20, 41), Ok(3));
    assert_eq!(ticks_for_period(0, 7), Ok(7));
    assert_eq!(ticks_for_period(20, 0), Err("schedule period must be greater than zero".to_string()));
}

#[test]
fn validate_env_tick_duration_rejects_zero() {
    let err = validate_env_tick_duration_us("demo", 0).expect_err("zero tick must fail");
    assert!(err.contains("invalid zero tick duration"));
}

#[test]
fn validate_env_tick_duration_accepts_positive_value() {
    assert_eq!(validate_env_tick_duration_us("demo", 50).expect("positive tick must pass"), 50);
}

#[test]
fn env_bus_members_default_to_the_bus_name() {
    let members = vec!["ecu-a".to_string(), "ecu-b:body".to_string()];
    let parsed = can_bus_members(&members, "chassis").expect("members should parse");
    let pairs: Vec<(String, String)> =
        parsed.into_iter().map(|m| (m.instance_name, m.bus_name)).collect();
    assert_eq!(
        pairs,
        vec![
            ("ecu-a".to_string(), "chassis".to_string()),
            ("ecu-b".to_string(), "body".to_string()),
        ]
    );
    assert!(can_bus_members(&["ecu-a:".to_string()], "chassis").is_err());
    let shared = shared_channel_members(&["ecu-a".to_string()], "feed").expect("member should parse");
    assert_eq!(shared[0].channel_name, "feed");
}

#[test]
fn publication_marks_the_region_busy_then_stable() {
    assert_eq!(publish_steps(4), (5, 6));
    assert_eq!(publish_steps(u64::MAX - 1), (u64::MAX, 0));
    assert!(snapshot_is_stable(6, 6));
    assert!(!snapshot_is_stable(5, 5));
    assert!(!snapshot_is_stable(4, 6));
}

#[test]
fn publication_checks_slot_ids_against_capacity() {
    assert!(check_publish(&[0, 1], 2).is_ok());
    assert_eq!(
        check_publish(&[0, 1, 2], 2).unwrap_err(),
        "attempted to publish 3 slots into region with capacity 2"
    );
    assert_eq!(check_publish(&[0, 5], 2).unwrap_err(), "shared slot id 5 exceeds channel capacity 2");
    assert_eq!(
        SharedSnapshotError::Busy { attempts: 8 }.message(),
        "shared snapshot remained unstable after 8 read attempts"
    );
}

#[test]
fn writer_names_are_stored_zero_padded_and_cut() {
    let field = encode_writer("ecu");
    assert_eq!(&field[..4], &[b'e', b'c', b'u', 0]);
    let long = encode_writer(&"w".repeat(100));
    assert!(long[..63].iter().all(|b| *b == b'w'));
    assert_eq!(long[63], 0);
}

#[test]
fn failed_ticks_count_only_when_they_ran() {
    assert_eq!(counted_ticks(4, &None), 4);
    assert_eq!(counted_ticks(4, &Some(TickStepError::pre_tick("rx failed".to_string()))), 4);
    let after = TickStepError::post_tick("tx failed".to_string());
    assert!(after.advance_tick());
    assert_eq!(counted_ticks(4, &Some(after)), 5);
    assert_eq!(counted_ticks(u64::MAX, &Some(TickStepError::post_tick(String::new()))), u64::MAX);
    assert_eq!(TickStepError::pre_tick("boom".to_string()).into_message(), "boom");
}

#[test]
fn due_schedules_fire_once_and_move_a_period_on() {
    let mut running = schedule(true);
    running.job_id = "a".to_string();
    running.next_due_tick = 3;
    let mut stopped = schedule(false);
    stopped.job_id = "b".to_string();
    stopped.next_due_tick = 0;
    let mut later = schedule(true);
    later.job_id = "c".to_string();
    later.next_due_tick = 9;
    let mut zero_period = schedule(true);
    zero_period.job_id = "d".to_string();
    zero_period.every_ticks = 0;
    zero_period.next_due_tick = 5;
    let mut jobs = vec![running, stopped, later, zero_period];

    let frames = fire_due_schedules(&mut jobs, 5);

    assert_eq!(frames.len(), 2);
    assert_eq!(frames[0].arb_id, 0x123);
    assert_eq!(jobs[0].next_due_tick, 15);
    assert_eq!(jobs[1].next_due_tick, 0);
    assert_eq!(jobs[2].next_due_tick, 9);
    assert_eq!(jobs[3].next_due_tick, 6);
    assert!(fire_due_schedules(&mut jobs, 5).is_empty());

    reset_schedules(&mut jobs);
    assert!(jobs.iter().all(|j| j.next_due_tick == 0));
    assert_eq!(jobs[2].job_id, "c");
}

#[test]
fn latest_frames_keep_one_frame_per_key() {
    let mut latest = LatestFrames::new();
    latest.record(frame(0x10, 0, &[1]));
    latest.record(frame(0x10, CAN_FLAG_EXTENDED, &[2]));
    latest.record(frame(0x10, 0, &[3]));
    let frames = latest.frames();
    assert_eq!(frames.len(), 2);
    assert_eq!(frames[0].payload(), &[3]);
    assert_eq!(frames[1].payload(), &[2]);
    latest.clear();
    assert!(latest.frames().is_empty());
}
