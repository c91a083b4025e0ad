use agent_sim::can::dbc::{extract_raw, ByteOrder, ValueType};
use agent_sim::can::overlay::{is_plain, DbcBusOverlay, DbcMessageText, DbcMultiplex, DbcNumber, DbcSignalText};
use agent_sim::sim::types::SimCanFrame;
use agent_sim::sim::validation::validate_dense_shared_snapshot;
use agent_sim::sim::error::SimError;

const DBC: &str = "VERSION \"\"\n\nBU_: ECU\n\nBO_ 291 Engine: 8 ECU\n SG_ rpm : 0|16@1+ (0.25,0) [0|16383.75] \"rpm\" Vector__XXX\n SG_ temp : 16|8@1- (1,-40) [-40|215] \"\" Vector__XXX\n\nBO_ 2147484160 Body: 2 ECU\n SG_ rpm : 7|8@0+ (1,0) [0|255] \"\" Vector__XXX\n";

fn signal(name: &str, plain: bool, size: u64) -> DbcSignalText {
    DbcSignalText {
        name: name.to_string(),
        multiplex: if plain { DbcMultiplex::Plain } else { DbcMultiplex::MultiplexedSignal(1) },
        start_bit: 0,
        size,
        byte_order: ByteOrder::LittleEndian,
        value_type: ValueType::Unsigned,
        factor_bits: 1.0_f64.to_bits(),
        offset_bits: 0.0_f64.to_bits(),
        min: DbcNumber::Uint(0),
        max: DbcNumber::Uint(255),
        unit: String::new(),
    }
}

fn message(name: &str, size: u64, signals: Vec<DbcSignalText>) -> DbcMessageText {
    DbcMessageText {
        id: 0x100,
        extended: false,
        name: name.to_string(),
        size,
        signals,
    }
}

#[test]
fn dbc_text_builds_an_overlay_keyed_by_signal_name() {
    let overlay = DbcBusOverlay::from_text(DBC, "bus.dbc").expect("the DBC text should load");
    let rpm = overlay.signal("rpm").expect("rpm is defined");
    assert_eq!(rpm.layout.arb_id, 0x200);
    assert!(rpm.layout.extended);
    assert_eq!(rpm.layout.frame_key, 0x8000_0200);
    assert_eq!(rpm.layout.message_size, 2);
    let temp = overlay.signal("temp").expect("temp is defined");
    assert_eq!(temp.layout.arb_id, 291);
    assert!(!temp.layout.extended);
    assert!(matches!(temp.layout.value_type, ValueType::Signed));
    assert_eq!(f64::from_bits(temp.offset_bits), -40.0);
    assert_eq!(temp.unit, None);
    assert!(overlay.signal("missing").is_none());
    assert_eq!(overlay.signal_names(), vec!["rpm".to_string(), "temp".to_string()]);

    let mut frame = SimCanFrame {
        arb_id: 291,
        len: 8,
        flags: 0,
        data: [0; 64],
    };
    frame.data[2] = 0x10;
    assert_eq!(extract_raw(&frame, &temp.layout).expect("temp fits the payload"), 0x10);
}

#[test]
fn dbc_parse_failures_name_the_path() {
    let err = DbcBusOverlay::from_text("BO_ nonsense", "bad.dbc").err().expect("garbage should not parse");
    assert!(err.starts_with("failed to parse DBC 'bad.dbc': "), "unexpected error: {err}");
}

#[test]
fn dbc_messages_are_checked_in_file_order() {
    let ok = DbcBusOverlay::from_messages(&[message("A", 8, vec![signal("x", true, 8)])]);
    assert!(ok.is_ok());
    let too_big = DbcBusOverlay::from_messages(&[message("A", 65, vec![])]);
    assert_eq!(too_big.err(), Some("DBC message 'A' size 65 exceeds CAN FD max payload (64)".to_string()));
    let muxed = DbcBusOverlay::from_messages(&[
        message("A", 8, vec![signal("x", true, 0), signal("y", false, 8)]),
        message("B", 300, vec![]),
    ]);
    assert_eq!(muxed.err(), Some("DBC signal 'A.x' has invalid size 0".to_string()));
}

#[test]
fn later_definitions_of_a_name_win() {
    let mut second = signal("x", true, 4);
    second.start_bit = 8;
    let overlay = DbcBusOverlay::from_messages(&[
        message("A", 8, vec![signal("x", true, 8)]),
        message("B", 8, vec![second]),
    ])
    .expect("both messages are valid");
    assert_eq!(overlay.signal("x").expect("x is defined").layout.start_bit, 8);
}

#[test]
fn shared_snapshots_must_be_dense() {
    assert!(validate_dense_shared_snapshot(&[0, 1, 2], 3, "sim_shared_write").is_ok());
    assert_eq!(
        validate_dense_shared_snapshot(&[0, 1], 3, "sim_shared_write"),
        Err(SimError::FfiContract("sim_shared_write returned 2 slots, expected 3".to_string()))
    );
    assert_eq!(
        validate_dense_shared_snapshot(&[0, 2, 1], 3, "sim_shared_read"),
        Err(SimError::FfiContract(
            "sim_shared_read returned slot id 2 at dense index 1; expected slot id 1".to_string()
        ))
    );
}

#[test]
fn only_plain_signals_count_as_plain() {
    assert!(is_plain(DbcMultiplex::Plain));
    assert!(!is_plain(DbcMultiplex::Multiplexor));
    assert!(!is_plain(DbcMultiplex::MultiplexedSignal(3)));
    assert!(!is_plain(DbcMultiplex::MultiplexorAndMultiplexedSignal(3)));
}
