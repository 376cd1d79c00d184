use w10_bridge::float32::Float32;
use w10_bridge::frame::{
    crc16, encode_for_link, encode_frame, encode_motor_ctrl, parse_body, FrameError, FrameScanner,
    MAX_BODY,
};
use w10_bridge::message::{apply, Battery, Msg, Triggers};
use w10_bridge::receive::McuReader;
use w10_bridge::sensors::{SensorMap, SensorValue};

fn f(v: f32) -> Float32 {
    Float32 { bits: v.to_bits() }
}

fn back(v: Float32) -> f32 {
    f32::from_bits(v.bits)
}

fn ratio_of(m: &SensorMap, name: &str) -> (i32, u32) {
    match m.get(name) {
        Some(SensorValue::Ratio { num, den }) => (num, den),
        other => panic!("{name}: {other:?}"),
    }
}

fn packet(typ: u8, payload: &[u8]) -> Vec<u8> {
    encode_frame(typ, payload, 600).unwrap()
}

#[test]
fn checksum_is_modbus() {
    assert_eq!(crc16(b"123456789", 9), 0x4b37);
    assert_eq!(crc16(b"123456789", 0), 0xffff);
}

#[test]
fn heartbeat_packet() {
    assert_eq!(
        encode_for_link(0x02, &[0x21]),
        Some(vec![0x3c, 0x01, 0x02, 0x21, 0x78, 0xe1, 0x3e])
    );
}

#[test]
fn delimiters_are_escaped() {
    assert_eq!(
        packet(0x55, &[0x3c, 0x3e, 0x3f]),
        vec![0x3c, 0x03, 0x55, 0x3f, 0x3c, 0x3f, 0x3e, 0x3f, 0x3f, 0xb0, 0xe1, 0x3e]
    );
}

#[test]
fn motor_packets() {
    assert_eq!(
        encode_motor_ctrl(1, f(0.0), f(0.0)),
        vec![0x3c, 0x09, 0x00, 0x01, 0, 0, 0, 0, 0, 0, 0, 0, 0xe8, 0x25, 0x3e]
    );
    assert_eq!(
        encode_motor_ctrl(1, f(100.0), f(0.5)),
        vec![
            0x3c, 0x09, 0x00, 0x01, 0x00, 0x00, 0xc8, 0x42, 0x00, 0x00, 0x00, 0x3f, 0x3f, 0xbf,
            0x0d, 0x3e
        ]
    );
}

#[test]
fn packet_must_fit_the_room() {
    assert_eq!(encode_frame(0x02, &[0x21], 6), None);
    assert!(encode_frame(0x02, &[0x21], 7).is_some());
    assert_eq!(encode_frame(0x02, &[0u8; 256], 4096), None);
    assert!(encode_frame(0x02, &[0u8; 255], 4096).is_some());
    assert_eq!(encode_for_link(0x02, &[0u8; 80]), None);
}

#[test]
fn sent_packet_is_received() {
    let payload: Vec<u8> = (0..=254).collect();
    let sent = packet(0x31, &payload);
    let mut sc = FrameScanner::new();
    let bodies = sc.collect(&sent);
    assert_eq!(bodies.len(), 1);
    let (typ, p) = parse_body(&bodies[0]).unwrap();
    assert_eq!(typ, 0x31);
    assert_eq!(p, &payload[..]);
}

#[test]
fn packets_may_come_in_pieces() {
    let mut stream = b"noise".to_vec();
    stream.extend(packet(0x02, &[0x21]));
    stream.extend(packet(0x55, &[0x3c, 0x3e, 0x3f]));
    let mut whole = FrameScanner::new();
    let all = whole.collect(&stream);
    assert_eq!(all.len(), 2);
    for cut in 0..stream.len() {
        let mut sc = FrameScanner::new();
        let mut got = sc.collect(&stream[..cut]);
        got.extend(sc.collect(&stream[cut..]));
        assert_eq!(got, all);
    }
}

#[test]
fn start_mark_restarts_a_packet() {
    let mut stream = vec![0x3c, 0x09, 0x00, 0x01];
    stream.extend(packet(0x02, &[0x21]));
    let mut sc = FrameScanner::new();
    assert_eq!(sc.collect(&stream), vec![vec![0x01, 0x02, 0x21, 0x78, 0xe1]]);
}

#[test]
fn endless_packet_is_given_up() {
    let mut stream = vec![0x3c];
    stream.extend(vec![0u8; MAX_BODY + 1]);
    stream.push(0x3e);
    stream.extend(packet(0x02, &[0x21]));
    let mut sc = FrameScanner::new();
    assert_eq!(sc.collect(&stream).len(), 1);
}

#[test]
fn damaged_bodies_are_told_apart() {
    assert_eq!(parse_body(&[]), Err(FrameError::TooShort));
    assert_eq!(parse_body(&[1, 2, 0x21, 0x78]), Err(FrameError::TooShort));
    assert_eq!(parse_body(&[1, 2, 0x21, 0x78, 0xe1, 0]), Err(FrameError::TooLong));
    assert_eq!(
        parse_body(&[1, 2, 0x21, 0x78, 0xe0]),
        Err(FrameError::Crc { expected: 0x78e1, found: 0x78e0 })
    );
    assert_eq!(parse_body(&[1, 2, 0x21, 0x78, 0xe1]), Ok((2, &[0x21u8][..])));
}

#[test]
fn limits_clamp_like_floats() {
    let limit = 150.0f32.to_bits();
    for v in [0.0f32, -0.0, 1.0, -1.0, 149.9, 150.0, 150.1, -150.1, 1e30, f32::INFINITY, -1e30] {
        assert_eq!(back(f(v).limited(limit)), v.clamp(-150.0, 150.0), "{v}");
    }
    assert_eq!(f(f32::NAN).limited(limit), f(0.0));
    assert_eq!(f(-f32::NAN).limited(limit), f(0.0));
    assert_eq!(f(f32::NEG_INFINITY).limited(limit), f(-150.0));
}

#[test]
fn float_tests_match_floats() {
    for v in [0.0f32, -0.0, 1.5, -3.25, f32::MAX, f32::MIN, f32::INFINITY, f32::NAN, 1e-40] {
        assert_eq!(f(v).is_finite(), v.is_finite(), "{v}");
        assert_eq!(f(v).is_zero(), v == 0.0, "{v}");
    }
    let mut out = vec![9];
    f(150.0).push_le(&mut out);
    assert_eq!(out, [vec![9u8], 150.0f32.to_le_bytes().to_vec()].concat());
}

#[test]
fn triggers_at_rest_on_the_dock() {
    let m = Msg::decode(0x00, &[0, 0, 7, 0, 1, 0, 0]);
    let Msg::Triggers(t) = m else { panic!("{m:?}") };
    assert!(t.dock_sta());
    assert!(!t.left_bumper() && !t.right_bumper());
    assert!(!t.left_wheel_floating() && !t.right_wheel_floating());
    assert!(t.bit(16) && t.bit(17) && t.bit(18) && !t.bit(19));
}

#[test]
fn trigger_flags() {
    let t = Triggers { b0: 0x90, b1: 0, b2: 0, b3: 0, b4: 0, b5: 0, b6: 0 };
    assert!(t.left_bumper() && t.right_wheel_floating());
    assert!(!t.right_bumper() && !t.left_wheel_floating() && !t.dock_sta());
}

#[test]
fn short_payloads_are_not_decoded() {
    for (typ, len) in [(0x00u8, 7usize), (0x01, 30), (0x02, 18), (0x03, 11), (0x2b, 12)] {
        let p = vec![0u8; len];
        assert!(!matches!(Msg::decode(typ, &p), Msg::Other { .. }));
        assert!(matches!(Msg::decode(typ, &p[1..]), Msg::Other { .. }));
    }
    assert!(matches!(Msg::decode(0x05, &[0; 6]), Msg::Other { typ: 0x05 }));
}

#[test]
fn pose_is_decoded() {
    let mut p = vec![0u8; 30];
    p[4..8].copy_from_slice(&(-12345i32).to_le_bytes());
    p[8..12].copy_from_slice(&678i32.to_le_bytes());
    p[12..14].copy_from_slice(&(-9000i16).to_le_bytes());
    p[20..22].copy_from_slice(&65i16.to_le_bytes());
    p[22..24].copy_from_slice(&(-66i16).to_le_bytes());
    let mut d = SensorMap::new();
    assert!(apply(&mut d, &Msg::decode(0x01, &p)));
    assert!(matches!(d.get("left_vel"), Some(SensorValue::I16(65))));
    assert!(matches!(d.get("right_vel"), Some(SensorValue::I16(-66))));
    assert_eq!(ratio_of(&d, "yaw_deg"), (-9000, 100));
    assert_eq!(ratio_of(&d, "pose_x_mm"), (-12345, 10));
    assert_eq!(ratio_of(&d, "pose_y_mm"), (678, 10));
    assert_eq!(d.len(), 5);
}

#[test]
fn inertial_values_are_decoded() {
    let mut p = vec![0u8; 18];
    p[4..6].copy_from_slice(&(-150i16).to_le_bytes());
    p[14..16].copy_from_slice(&16384i16.to_le_bytes());
    p[16] = 0xff;
    p[17] = 2;
    let mut d = SensorMap::new();
    assert!(apply(&mut d, &Msg::decode(0x02, &p)));
    assert_eq!(ratio_of(&d, "gyro_x"), (-150, 100));
    assert_eq!(ratio_of(&d, "accel_z"), (16384, 16384));
    assert!(matches!(d.get("wheel_dist_left"), Some(SensorValue::I8(-1))));
    assert!(matches!(d.get("wheel_dist_right"), Some(SensorValue::I8(2))));
}

#[test]
fn battery_is_decoded() {
    let b = Battery {
        voltage_mv: 16330,
        current_ma: 0,
        temperature_ddeg: 250,
        charge_voltage_mv: 19860,
        soc: 100,
    };
    let mut d = SensorMap::new();
    assert!(apply(&mut d, &Msg::Battery(b)));
    assert_eq!(ratio_of(&d, "battery_voltage"), (16330, 1000));
    assert!(matches!(d.get("battery_level"), Some(SensorValue::U8(100))));
    assert!(matches!(d.get("is_charging"), Some(SensorValue::Bool(true))));
    let off = Battery { charge_voltage_mv: 1000, soc: -3, ..b };
    assert!(apply(&mut d, &Msg::Battery(off)));
    assert!(matches!(d.get("is_charging"), Some(SensorValue::Bool(false))));
    assert!(matches!(d.get("battery_level"), Some(SensorValue::U8(0))));
    assert_eq!(Battery { soc: 150, ..b }.level(), 100);
    assert_eq!(Battery { soc: 300, ..b }.level(), 100);
    assert_eq!(Battery { soc: 86, ..b }.level(), 86);
}

#[test]
fn other_messages_touch_nothing() {
    let mut d = SensorMap::new();
    assert!(!apply(&mut d, &Msg::decode(0x03, &[0; 11])));
    assert!(!apply(&mut d, &Msg::Other { typ: 0x24 }));
    assert_eq!(d.len(), 0);
}

#[test]
fn tilt_flags() {
    let Msg::Status100ms(s) = Msg::decode(0x03, &[0xb0, 0xff, 0x92, 0xff, 0, 0, 0, 0, 0, 0, 1])
    else {
        panic!()
    };
    assert_eq!((s.pitch_ddeg, s.roll_ddeg), (-80, -110));
    assert!(s.dust_container_missing());
}

#[test]
fn sensor_map_keeps_one_value_per_name() {
    let mut d = SensorMap::new();
    d.set("a", SensorValue::U8(1));
    d.set("b", SensorValue::Bool(true));
    d.set("a", SensorValue::U16(2));
    assert_eq!(d.len(), 2);
    assert!(matches!(d.get("a"), Some(SensorValue::U16(2))));
    assert!(d.get("c").is_none());
    assert!(matches!(d.entry(0), ("a", SensorValue::U16(2))));
    assert!(matches!(d.entry(1), ("b", SensorValue::Bool(true))));
}

#[test]
fn ping_is_answered() {
    let mut r = McuReader::new();
    let got = r.feed(&packet(0x0f, &[1, 2, 3, 4, 5, 6, 7, 8]));
    assert_eq!(got.pongs, vec![packet(0x0f, &[1, 2, 3, 4])]);
    assert!(!got.dirty);
    assert_eq!(got.hazard, None);
    assert!(r.feed(&packet(0x0f, &[1, 2, 3])).pongs.is_empty());
}

#[test]
fn hazard_follows_the_latest_triggers() {
    let mut r = McuReader::new();
    let mut bytes = packet(0x00, &[0x10, 0, 7, 0, 1, 0, 0]);
    assert_eq!(r.feed(&bytes).hazard, Some(true));
    bytes.extend(packet(0x00, &[0, 0, 7, 0, 1, 0, 0]));
    assert_eq!(r.feed(&bytes).hazard, Some(false));
    assert_eq!(r.feed(&packet(0x00, &[0, 0x20])).hazard, Some(true));
    assert_eq!(r.feed(&packet(0x02, &[0; 18])).hazard, None);
}

#[test]
fn telemetry_updates_the_sensors() {
    let mut r = McuReader::new();
    let got = r.feed(&packet(0x00, &[0, 0, 7, 0, 1, 0, 0]));
    assert!(got.dirty);
    assert!(matches!(r.sensors().get("is_dock_connected"), Some(SensorValue::Bool(true))));
    assert_eq!(r.sensors().len(), 5);
}

#[test]
fn damaged_frame_changes_nothing() {
    let mut r = McuReader::new();
    let mut bytes = packet(0x00, &[0, 0, 7, 0, 1, 0, 0]);
    bytes[3] ^= 1;
    let got = r.feed(&bytes);
    assert!(!got.dirty && got.hazard.is_none() && got.pongs.is_empty());
    assert_eq!(r.sensors().len(), 0);
}

#[test]
fn mirror_only_updates_sensors() {
    let mut r = McuReader::new();
    let bytes = packet(0x00, &[0, 0, 7, 0, 1, 0, 0]);
    assert!(!r.mirror(&bytes[..5]));
    assert!(r.mirror(&bytes[5..]));
    assert_eq!(r.sensors().len(), 5);
}

#[test]
fn packet_sizes_lie_between_their_bounds() {
    assert_eq!(packet(0x55, &[0x3c; 10]).len(), 26);
    assert_eq!(packet(0x02, &[0x21]).len(), 7);
    assert!(encode_for_link(0x3c, &[0x3c; 27]).is_some());
}
