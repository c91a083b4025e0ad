use agent_sim::can::fd::{fd_dlc_to_len, fd_len_to_dlc};
use agent_sim::can::fd::fd_bitrate_profile;
use agent_sim::can::dbc::{
    check_dbc_message, check_dbc_signal, encode_raw, extract_raw, frame_key, insert_raw, signed_from_raw, ByteOrder,
    DbcSignalLayout, ValueType,
};
use agent_sim::can::{frame_data, parse_data_hex, validate_frame};
use agent_sim::protocol::CanFrameWireData;
use agent_sim::sim::types::{SimCanFrame, CAN_FLAG_BRS, CAN_FLAG_EXTENDED, CAN_FLAG_FD, CAN_FLAG_RTR};

fn frame(arb_id: u32, flags: u8, data: &[u8]) -> SimCanFrame {
    let mut payload = [0_u8; 64];
    payload[..data.len()].copy_from_slice(data);
    SimCanFrame {
        arb_id,
        len: data.len() as u8,
        flags,
        data: payload,
    }
}

fn layout(start_bit: u64, size: u64, byte_order: ByteOrder, value_type: ValueType) -> DbcSignalLayout {
    DbcSignalLayout {
        name: "speed".to_string(),
        frame_key: 0x123,
        arb_id: 0x123,
        extended: false,
        message_size: 8,
        start_bit,
        size,
        byte_order,
        value_type,
    }
}

#[test]
fn payload_hex_accepts_separators_and_rejects_odd_lengths() {
    assert_eq!(parse_data_hex("DE AD_be ef").expect("spaced hex should parse"), vec![0xDE, 0xAD, 0xBE, 0xEF]);
    assert_eq!(parse_data_hex("").expect("empty payload should parse"), Vec::<u8>::new());
    assert_eq!(
        parse_data_hex("ABC").unwrap_err(),
        "invalid CAN payload hex 'ABC': expected an even number of hex characters"
    );
    assert_eq!(parse_data_hex("zz").unwrap_err(), "invalid CAN payload hex 'zz': bad byte 'zz'");
    assert_eq!(
        parse_data_hex(&"00".repeat(65)).unwrap_err(),
        format!("invalid CAN payload hex '{}': payload exceeds 64 bytes", "00".repeat(65))
    );
}

#[test]
fn payload_hex_round_trips_through_frame_reports() {
    let f = frame(0x7FF, 0, &[0x01, 0xAB, 0xFF]);
    let report = frame_data(&f);
    assert_eq!(report.data_hex, "01ABFF");
    assert_eq!(parse_data_hex(&report.data_hex).expect("report hex should parse"), vec![0x01, 0xAB, 0xFF]);
}

#[test]
fn frame_validation_checks_ids_lengths_and_fd_flags() {
    assert!(validate_frame("internal", false, &frame(0x7FF, 0, &[1, 2])).is_ok());
    assert_eq!(
        validate_frame("internal", false, &frame(0x800, 0, &[])).unwrap_err(),
        "CAN frame for bus 'internal' has invalid standard arbitration id 0x800"
    );
    assert!(validate_frame("internal", false, &frame(0x1FFF_FFFF, CAN_FLAG_EXTENDED, &[])).is_ok());
    assert_eq!(
        validate_frame("internal", false, &frame(0x2000_0000, CAN_FLAG_EXTENDED, &[])).unwrap_err(),
        "CAN frame for bus 'internal' has invalid extended arbitration id 0x20000000"
    );
    assert_eq!(
        validate_frame("internal", false, &frame(1, 0x20, &[])).unwrap_err(),
        "CAN frame for bus 'internal' has reserved flag bits set"
    );
    assert_eq!(
        validate_frame("internal", false, &frame(1, CAN_FLAG_FD, &[])).unwrap_err(),
        "CAN bus 'internal' is classic-only and cannot carry FD frames"
    );
    assert_eq!(
        validate_frame("internal", true, &frame(1, CAN_FLAG_BRS, &[0; 9])).unwrap_err(),
        "CAN FD frame for bus 'internal' has invalid length 9; valid lengths are 0-8,12,16,20,24,32,48,64"
    );
    assert!(validate_frame("internal", true, &frame(1, CAN_FLAG_FD, &[0; 12])).is_ok());
    assert_eq!(
        validate_frame("internal", true, &frame(1, CAN_FLAG_FD | CAN_FLAG_RTR, &[])).unwrap_err(),
        "CAN FD frame for bus 'internal' cannot set RTR flag"
    );
    assert_eq!(
        validate_frame("internal", true, &frame(1, 0, &[0; 9])).unwrap_err(),
        "classic CAN frame for bus 'internal' has invalid length 9"
    );
    let mut long = frame(1, CAN_FLAG_FD, &[]);
    long.len = 65;
    assert_eq!(
        validate_frame("internal", true, &long).unwrap_err(),
        "CAN frame for bus 'internal' has invalid payload length 65"
    );
}

#[test]
fn wire_frames_round_trip_and_reject_bad_lengths() {
    let f = frame(0x123, CAN_FLAG_EXTENDED, &[9, 8, 7]);
    let wire = CanFrameWireData::from_frame(&f);
    assert_eq!(wire.data, vec![9, 8, 7]);
    let back = SimCanFrame::try_from_wire(wire).expect("wire frame should convert");
    assert_eq!((back.arb_id, back.len, back.flags), (0x123, 3, CAN_FLAG_EXTENDED));
    assert_eq!(back.data, f.data);
    let mismatched = CanFrameWireData {
        arb_id: 1,
        len: 2,
        flags: 0,
        data: vec![1],
    };
    assert_eq!(
        SimCanFrame::try_from_wire(mismatched).unwrap_err(),
        "CAN frame length 2 does not match payload size 1"
    );
    let oversized = CanFrameWireData {
        arb_id: 1,
        len: 65,
        flags: 0,
        data: vec![0; 65],
    };
    assert_eq!(
        SimCanFrame::try_from_wire(oversized).unwrap_err(),
        "CAN frame payload exceeds 64 bytes (65 bytes provided)"
    );
}

#[test]
fn little_endian_signal_insert_then_extract_round_trips() {
    let signal = layout(4, 12, ByteOrder::LittleEndian, ValueType::Unsigned);
    let mut f = frame(0x123, 0, &[0; 8]);
    insert_raw(&mut f, &signal, 0xABC).expect("signal fits the payload");
    assert_eq!(&f.data[..2], &[0xC0, 0xAB]);
    assert_eq!(extract_raw(&f, &signal).expect("signal fits the payload"), 0xABC);
}

#[test]
fn big_endian_signal_insert_then_extract_round_trips() {
    let signal = layout(7, 16, ByteOrder::BigEndian, ValueType::Unsigned);
    let mut f = frame(0x123, 0, &[0; 8]);
    insert_raw(&mut f, &signal, 0x1234).expect("signal fits the payload");
    assert_eq!(&f.data[..2], &[0x12, 0x34]);
    assert_eq!(extract_raw(&f, &signal).expect("signal fits the payload"), 0x1234);
}

#[test]
fn signals_past_the_payload_are_refused() {
    let signal = layout(510, 8, ByteOrder::LittleEndian, ValueType::Unsigned);
    let f = frame(0x123, 0, &[0; 8]);
    assert!(extract_raw(&f, &signal).is_err());
    let wide = layout(0, 65, ByteOrder::LittleEndian, ValueType::Unsigned);
    assert_eq!(extract_raw(&f, &wide).unwrap_err(), "signal 'speed' size 65 exceeds 64 bits");
}

#[test]
fn signed_raw_values_use_twos_complement() {
    assert_eq!(signed_from_raw(0xFF, 8), -1);
    assert_eq!(signed_from_raw(0x7F, 8), 127);
    assert_eq!(signed_from_raw(0x80, 8), -128);
    assert_eq!(signed_from_raw(5, 0), 0);
}

#[test]
fn encoding_checks_range_and_sets_length_and_flags() {
    let signal = layout(0, 8, ByteOrder::LittleEndian, ValueType::Signed);
    let mut f = frame(0x123, 0, &[]);
    encode_raw(&mut f, &signal, -2).expect("-2 fits in 8 signed bits");
    assert_eq!(f.data[0], 0xFE);
    assert_eq!(f.len, 8);
    assert_eq!(f.flags & CAN_FLAG_FD, 0);
    assert!(encode_raw(&mut f, &signal, 128).is_err());
    let unsigned = layout(0, 4, ByteOrder::LittleEndian, ValueType::Unsigned);
    assert!(encode_raw(&mut f, &unsigned, 16).is_err());
    assert!(encode_raw(&mut f, &unsigned, -1).is_err());
}

#[test]
fn frame_keys_mark_extended_ids() {
    assert_ne!(frame_key(0x123, true), frame_key(0x123, false));
    assert_eq!(frame_key(0x123, false), 0x123);
}

#[test]
fn dbc_messages_and_signals_are_checked() {
    assert_eq!(check_dbc_message("Engine", 8), Ok(8));
    assert_eq!(
        check_dbc_message("Engine", 65).unwrap_err(),
        "DBC message 'Engine' size 65 exceeds CAN FD max payload (64)"
    );
    assert_eq!(
        check_dbc_message("Engine", 300).unwrap_err(),
        "DBC message 'Engine' has invalid size 300; max supported is 255 bytes"
    );
    assert!(check_dbc_signal("Engine", "rpm", true, 16).is_ok());
    assert_eq!(
        check_dbc_signal("Engine", "rpm", false, 16).unwrap_err(),
        "DBC signal 'Engine.rpm' uses multiplexing, which is unsupported in this version"
    );
    assert_eq!(
        check_dbc_signal("Engine", "rpm", true, 0).unwrap_err(),
        "DBC signal 'Engine.rpm' has invalid size 0"
    );
}

#[test]
fn fd_lengths_and_codes_correspond() {
    for dlc in 0..=15_u8 {
        let len = fd_dlc_to_len(dlc).expect("codes up to 15 have lengths");
        assert_eq!(fd_len_to_dlc(len), Ok(dlc));
    }
    assert_eq!(fd_dlc_to_len(9), Ok(12));
    assert_eq!(fd_dlc_to_len(15), Ok(64));
    assert_eq!(fd_dlc_to_len(16), Err("invalid PEAK CAN FD DLC 16".to_string()));
    assert_eq!(fd_len_to_dlc(10), Err("invalid PEAK CAN FD payload length 10".to_string()));
}

#[test]
fn fd_profiles_cover_the_supported_bitrate_pairs() {
    assert_eq!(
        fd_bitrate_profile(500_000, 2_000_000),
        Ok("f_clock=80000000,nom_brp=10,nom_tseg1=13,nom_tseg2=2,nom_sjw=1,data_brp=4,data_tseg1=7,data_tseg2=2,data_sjw=1")
    );
    assert_eq!(
        fd_bitrate_profile(125_000, 2_000_000),
        Err("unsupported PEAK CAN FD bitrate pair nominal=125000 data=2000000; add a supported profile".to_string())
    );
}
