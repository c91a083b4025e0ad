use agent_sim::envd::buses::{EnvCanBus, EnvCanBuses};
use agent_sim::envd::reads::group_by_instance;
use agent_sim::envd::plan::{merge_tick_duration, plan_env_can_bus, require_tick_duration};
use agent_sim::envd::spec::EnvCanBusMemberSpec;
use agent_sim::envd::{CanScheduleJob, LatestFrames};
use agent_sim::protocol::CanBusData;
use agent_sim::sim::types::{SimCanFrame, CAN_FLAG_EXTENDED, CAN_FLAG_FD};

fn frame(arb_id: u32, flags: u8, data: &[u8]) -> SimCanFrame {
    let mut payload = [0_u8; 64];
    payload[..data.len()].copy_from_slice(data);
    SimCanFrame { arb_id, len: data.len() as u8, flags, data: payload }
}

fn bus(name: &str, fd_capable: bool) -> EnvCanBus {
    EnvCanBus {
        name: name.to_string(),
        vcan_iface: format!("vcan-{name}"),
        fd_capable,
        bitrate: 500_000,
        bitrate_data: if fd_capable { 2_000_000 } else { 0 },
        dbc: None,
        schedules: Vec::new(),
        latest: LatestFrames::new(),
    }
}

fn job(id: &str, arb_id: u32) -> CanScheduleJob {
    let f = frame(arb_id, 0, &[0x01]);
    CanScheduleJob {
        job_id: id.to_string(),
        arb_id,
        flags: 0,
        data_hex: "01".to_string(),
        frame: f,
        every_ticks: 2,
        next_due_tick: 0,
        enabled: true,
    }
}

fn two_buses() -> EnvCanBuses {
    let mut buses = EnvCanBuses::new();
    buses.insert_bus(bus("powertrain", false));
    buses.insert_bus(bus("body", true));
    buses
}

fn member(instance: &str, bus: &str) -> EnvCanBusMemberSpec {
    EnvCanBusMemberSpec { instance_name: instance.to_string(), bus_name: bus.to_string() }
}

fn registry(instance: &str, buses: &[(&str, u32, u32, bool)]) -> (String, Vec<CanBusData>) {
    (
        instance.to_string(),
        buses
            .iter()
            .enumerate()
            .map(|(i, (name, bitrate, bitrate_data, fd))| CanBusData {
                id: i as u32,
                name: name.to_string(),
                bitrate: *bitrate,
                bitrate_data: *bitrate_data,
                fd_capable: *fd,
                attached_iface: None,
            })
            .collect(),
    )
}

#[test]
fn buses_are_listed_by_name() {
    let buses = two_buses();
    let rows = buses.list_buses();
    assert_eq!(rows.len(), 2);
    assert_eq!(rows[0].name, "body");
    assert_eq!(rows[0].id, 0);
    assert!(rows[0].fd_capable);
    assert_eq!(rows[1].name, "powertrain");
    assert_eq!(rows[1].id, 1);
    assert_eq!(rows[1].attached_iface.as_deref(), Some("vcan-powertrain"));
}

#[test]
fn a_bus_of_the_same_name_replaces_the_old_one() {
    let mut buses = two_buses();
    buses.insert_bus(bus("body", false));
    let rows = buses.list_buses();
    assert_eq!(rows.len(), 2);
    assert!(!rows[0].fd_capable);
}

#[test]
fn unknown_buses_are_reported() {
    let buses = two_buses();
    assert_eq!(buses.require("chassis").unwrap_err(), "env CAN bus 'chassis' not found");
    assert_eq!(buses.require("powertrain"), Ok(1));
}

#[test]
fn schedules_are_added_once_and_listed_by_job_id() {
    let mut buses = two_buses();
    buses.add_schedule("body", job("b-job", 0x10)).unwrap();
    buses.add_schedule("body", job("a-job", 0x11)).unwrap();
    buses.add_schedule("powertrain", job("c-job", 0x12)).unwrap();
    assert_eq!(
        buses.add_schedule("powertrain", job("a-job", 0x13)).unwrap_err(),
        "CAN schedule 'a-job' already exists"
    );
    assert_eq!(buses.add_schedule("chassis", job("d-job", 0x14)).unwrap_err(), "env CAN bus 'chassis' not found");
    let all = buses.list_schedules(&None);
    let ids: Vec<(&str, &str)> = all.iter().map(|row| (row.bus.as_str(), row.job_id.as_str())).collect();
    assert_eq!(ids, vec![("body", "a-job"), ("body", "b-job"), ("powertrain", "c-job")]);
    let body_only = buses.list_schedules(&Some("powertrain".to_string()));
    assert_eq!(body_only.len(), 1);
    assert_eq!(body_only[0].arb_id, 0x12);
}

#[test]
fn schedules_are_located_stopped_started_and_removed() {
    let mut buses = two_buses();
    buses.add_schedule("powertrain", job("job-1", 0x10)).unwrap();
    assert_eq!(buses.locate("missing").unwrap_err(), "CAN schedule 'missing' not found");
    let (b, j) = buses.locate("job-1").unwrap();
    assert_eq!((b, j), (1, 0));
    buses.stop_at(b, j);
    assert!(!buses.list_schedules(&None)[0].enabled);
    assert!(!buses.due_at(b, j, 100));
    buses.start_at(b, j);
    assert!(buses.list_schedules(&None)[0].enabled);
    buses.remove_at(b, j);
    assert!(buses.locate("job-1").is_err());
    assert!(buses.list_schedules(&None).is_empty());
}

#[test]
fn updated_schedules_are_due_again_now() {
    let mut buses = two_buses();
    buses.add_schedule("powertrain", job("job-1", 0x10)).unwrap();
    let (b, j) = buses.locate("job-1").unwrap();
    buses.stop_at(b, j);
    let new_frame = frame(0x20, CAN_FLAG_EXTENDED, &[0xAA, 0xBB]);
    buses.update_at(b, j, 0x20, "AABB".to_string(), new_frame, 7, 40);
    let row = &buses.list_schedules(&None)[0];
    assert_eq!(row.arb_id, 0x20);
    assert_eq!(row.flags, CAN_FLAG_EXTENDED);
    assert_eq!(row.data_hex, "AABB");
    assert_eq!(row.every_ticks, 7);
    assert_eq!(row.next_due_tick, 40);
    assert!(!row.enabled);
}

#[test]
fn fired_schedules_are_due_a_period_later() {
    let mut buses = two_buses();
    buses.add_schedule("powertrain", job("job-1", 0x10)).unwrap();
    let (b, j) = buses.locate("job-1").unwrap();
    assert!(buses.due_at(b, j, 0));
    let sent = buses.fire_at(b, j, 0);
    assert_eq!(sent.arb_id, 0x10);
    assert!(!buses.due_at(b, j, 1));
    assert!(buses.due_at(b, j, 2));
    assert_eq!(buses.list_schedules(&None)[0].next_due_tick, 2);
}

#[test]
fn inspected_frames_come_by_arbitration_id_one_per_key() {
    let mut buses = two_buses();
    buses.record_frame(0, frame(0x300, 0, &[1]));
    buses.record_frame(0, frame(0x100, 0, &[2]));
    buses.record_frame(0, frame(0x200, 0, &[3]));
    buses.record_frame(0, frame(0x100, 0, &[4]));
    let frames = buses.inspect(0);
    let ids: Vec<u32> = frames.iter().map(|f| f.arb_id).collect();
    assert_eq!(ids, vec![0x100, 0x200, 0x300]);
    assert_eq!(frames[0].data[0], 4);
    assert!(buses.inspect(1).is_empty());
}

#[test]
fn a_reset_forgets_frames_and_makes_schedules_due() {
    let mut buses = two_buses();
    buses.add_schedule("body", job("job-1", 0x10)).unwrap();
    let (b, j) = buses.locate("job-1").unwrap();
    let _ = buses.fire_at(b, j, 10);
    buses.record_frame(b, frame(0x10, 0, &[1]));
    buses.reset();
    assert!(buses.inspect(b).is_empty());
    assert_eq!(buses.list_schedules(&None)[0].next_due_tick, 0);
}

#[test]
fn frames_are_read_and_checked_against_their_bus() {
    let buses = two_buses();
    let f = buses.parse_frame_on("powertrain", 0x123, "AA BB", 0).unwrap();
    assert_eq!(f.len, 2);
    assert_eq!(&f.data[..3], &[0xAA, 0xBB, 0x00]);
    assert_eq!(
        buses.parse_frame_on("powertrain", 0x123, "AA", CAN_FLAG_FD).unwrap_err(),
        "CAN bus 'powertrain' is classic-only and cannot carry FD frames"
    );
    assert!(buses.parse_frame_on("body", 0x123, "AA", CAN_FLAG_FD).is_ok());
    assert_eq!(buses.parse_frame_on("chassis", 0x1, "AA", 0).unwrap_err(), "env CAN bus 'chassis' not found");
    assert_eq!(
        buses.parse_frame_on("body", 0x1, "A", 0).unwrap_err(),
        "invalid CAN payload hex 'A': expected an even number of hex characters"
    );
}

#[test]
fn env_tick_durations_must_agree() {
    assert_eq!(merge_tick_duration("bench", None, "a", 1000), Ok(Some(1000)));
    assert_eq!(merge_tick_duration("bench", Some(1000), "b", 1000), Ok(Some(1000)));
    assert_eq!(
        merge_tick_duration("bench", Some(1000), "b", 500).unwrap_err(),
        "env 'bench' requires matching tick durations, but instance 'b' reports 500us and another member reports 1000us"
    );
    assert_eq!(require_tick_duration("bench", Some(250)), Ok(250));
    assert_eq!(
        require_tick_duration("bench", None).unwrap_err(),
        "env 'bench' must define at least one instance with a valid tick duration"
    );
}

#[test]
fn env_buses_take_the_highest_settings_of_their_members() {
    let registries = vec![
        registry("ecu", &[("can0", 500_000, 0, false), ("can1", 250_000, 0, false)]),
        registry("gw", &[("can0", 1_000_000, 2_000_000, true)]),
    ];
    let mut attached = Vec::new();
    let settings =
        plan_env_can_bus(&registries, "main", &[member("ecu", "can0"), member("gw", "can0")], &mut attached).unwrap();
    assert!(settings.fd_capable);
    assert_eq!(settings.bitrate, 1_000_000);
    assert_eq!(settings.bitrate_data, 2_000_000);
    assert_eq!(attached.len(), 2);
    assert_eq!(
        plan_env_can_bus(&registries, "second", &[member("ecu", "can0")], &mut attached).unwrap_err(),
        "instance 'ecu:can0' is attached to multiple env CAN buses"
    );
    assert_eq!(
        plan_env_can_bus(&registries, "third", &[member("ecu", "can9")], &mut attached).unwrap_err(),
        "env CAN bus 'third' references missing bus 'ecu:can9'"
    );
    assert_eq!(
        plan_env_can_bus(&registries, "fourth", &[member("body", "can0")], &mut attached).unwrap_err(),
        "missing CAN bus registry for instance 'body'"
    );
}

#[test]
fn env_reads_are_split_per_instance_in_name_order() {
    let reqs: Vec<(String, u32)> = vec![
        ("b".to_string(), 1),
        ("a".to_string(), 2),
        ("b".to_string(), 3),
        ("c".to_string(), 4),
        ("a".to_string(), 5),
    ];
    let groups = group_by_instance(&reqs);
    assert_eq!(
        groups,
        vec![
            ("a".to_string(), vec![(1, 2), (4, 5)]),
            ("b".to_string(), vec![(0, 1), (2, 3)]),
            ("c".to_string(), vec![(3, 4)]),
        ]
    );
    assert!(group_by_instance(&[]).is_empty());
}
