use w10_bridge::command::{apply_command, speed_of, CmdState, Command, ComponentAction};
use w10_bridge::device::{
    create_device, device_kind, Config, Device, DeviceConfig, DeviceKind, Error, HardwareConfig,
};
use w10_bridge::driver::{DreameW10Driver, Outcome, Start, LDS_BAUD, MCU_BAUD};
use w10_bridge::float32::Float32;
use w10_bridge::frame::{encode_frame, encode_motor_ctrl};
use w10_bridge::link::{link_step, LinkAction, LinkEvent};
use w10_bridge::sensors::{SensorMap, SensorValue};
use w10_bridge::transmit::{
    current_motion, stop_frame, Transmitter, MAX_LINEAR, MAX_ROT, WATCHDOG_NS,
};

fn f(v: f32) -> Float32 {
    Float32 { bits: v.to_bits() }
}

fn to_mm_s(v: Float32) -> Float32 {
    f(f32::from_bits(v.bits) * 1000.0)
}

fn configure(values: &[(&str, SensorValue)]) -> ComponentAction {
    let mut config = SensorMap::new();
    for (name, value) in values {
        config.set(name, *value);
    }
    ComponentAction::Configure { config }
}

fn drive(linear: f32, angular: f32) -> ComponentAction {
    configure(&[
        ("linear", SensorValue::F32(f(linear))),
        ("angular", SensorValue::F32(f(angular))),
    ])
}

fn device_config(device_type: &str, hardware: Option<(&str, &str)>) -> DeviceConfig {
    DeviceConfig {
        device_type: device_type.to_string(),
        name: "robot".to_string(),
        hardware: hardware.map(|(a, b)| HardwareConfig {
            gd32_port: a.to_string(),
            lidar_port: b.to_string(),
        }),
    }
}

fn driver(mcu: &str) -> DreameW10Driver {
    match DreameW10Driver::new(device_config("dreame_w10", Some((mcu, "/dev/ttyS3")))) {
        Ok(d) => d,
        Err(e) => panic!("{e:?}"),
    }
}

fn levels(c: &CmdState) -> Vec<u8> {
    (0..6).map(|i| c.level(i)).collect()
}

#[test]
fn state_starts_at_rest() {
    let c = CmdState::new(42);
    assert_eq!((c.linear_mm_s(), c.rot_rad_s()), (f(0.0), f(0.0)));
    assert_eq!(c.last_cmd_ns(), 42);
    assert_eq!(levels(&c), vec![0, 1, 0, 0, 0, 0]);
    assert!(!c.lidar_on());
}

#[test]
fn speeds_of_actions() {
    assert_eq!(speed_of(&ComponentAction::Enable), Some(100));
    assert_eq!(speed_of(&ComponentAction::Disable), Some(0));
    assert_eq!(speed_of(&ComponentAction::Reset), None);
    assert_eq!(speed_of(&configure(&[("speed", SensorValue::U8(55))])), Some(55));
    assert_eq!(speed_of(&configure(&[("speed", SensorValue::U32(300))])), Some(44));
    assert_eq!(speed_of(&configure(&[("speed", SensorValue::U16(5))])), None);
    assert_eq!(speed_of(&configure(&[])), None);
}

#[test]
fn drive_command_sets_speed_and_time() {
    let mut c = CmdState::new(0);
    assert!(apply_command(&mut c, "drive", &drive(0.1, -0.5), 77, to_mm_s));
    assert_eq!(c.linear_mm_s(), f(0.1f32 * 1000.0));
    assert_eq!(c.rot_rad_s(), f(-0.5));
    assert_eq!(c.last_cmd_ns(), 77);
    assert_eq!(levels(&c), vec![0, 1, 0, 0, 0, 0]);
}

#[test]
fn drive_command_needs_both_floats() {
    let mut c = CmdState::new(0);
    let half = configure(&[("linear", SensorValue::F32(f(1.0)))]);
    assert!(apply_command(&mut c, "drive", &half, 5, to_mm_s));
    let wrong = configure(&[
        ("linear", SensorValue::F32(f(1.0))),
        ("angular", SensorValue::U8(1)),
    ]);
    assert!(apply_command(&mut c, "drive", &wrong, 5, to_mm_s));
    assert!(apply_command(&mut c, "drive", &ComponentAction::Enable, 5, to_mm_s));
    assert_eq!((c.linear_mm_s(), c.last_cmd_ns()), (f(0.0), 0));
}

#[test]
fn disable_and_reset_stop_the_drive() {
    for stop in [ComponentAction::Disable, ComponentAction::Reset] {
        let mut c = CmdState::new(0);
        apply_command(&mut c, "drive", &drive(0.1, 0.2), 1, to_mm_s);
        apply_command(&mut c, "drive", &stop, 9, to_mm_s);
        assert_eq!((c.linear_mm_s(), c.rot_rad_s(), c.last_cmd_ns()), (f(0.0), f(0.0), 9));
    }
}

#[test]
fn components_have_their_level_bytes() {
    let mut c = CmdState::new(0);
    for (i, id) in ["side_brush", "main_brush", "vacuum", "water_pump"].iter().enumerate() {
        let level = 10 + i as u8;
        assert!(apply_command(
            &mut c,
            id,
            &configure(&[("speed", SensorValue::U8(level))]),
            3,
            to_mm_s
        ));
    }
    assert_eq!(levels(&c), vec![10, 11, 12, 13, 0, 0]);
    assert_eq!(c.last_cmd_ns(), 0);
    apply_command(&mut c, "vacuum", &ComponentAction::Disable, 3, to_mm_s);
    apply_command(&mut c, "side_brush", &ComponentAction::Enable, 3, to_mm_s);
    apply_command(&mut c, "water_pump", &ComponentAction::Reset, 3, to_mm_s);
    assert_eq!(levels(&c), vec![100, 11, 0, 13, 0, 0]);
}

#[test]
fn lidar_is_switched() {
    let mut c = CmdState::new(0);
    apply_command(&mut c, "lidar", &ComponentAction::Enable, 1, to_mm_s);
    assert!(c.lidar_on());
    apply_command(&mut c, "lidar", &ComponentAction::Reset, 1, to_mm_s);
    assert!(c.lidar_on());
    apply_command(&mut c, "lidar", &ComponentAction::Disable, 1, to_mm_s);
    assert!(!c.lidar_on());
}

#[test]
fn unknown_component_is_ignored() {
    let mut c = CmdState::new(0);
    assert!(!apply_command(&mut c, "laser_cannon", &ComponentAction::Enable, 1, to_mm_s));
    assert_eq!(levels(&c), vec![0, 1, 0, 0, 0, 0]);
    assert!(!c.lidar_on());
}

#[test]
fn limits_are_the_floats_they_stand_for() {
    assert_eq!(MAX_LINEAR, 150.0f32.to_bits());
    assert_eq!(MAX_ROT, 1.5f32.to_bits());
    assert_eq!(WATCHDOG_NS, 500_000_000);
}

#[test]
fn motion_is_limited() {
    let mut c = CmdState::new(0);
    apply_command(&mut c, "drive", &drive(3.0, -9.0), 0, to_mm_s);
    let m = current_motion(&c, false, 0);
    assert_eq!((m.linear_mm_s, m.rot_rad_s), (f(150.0), f(-1.5)));
}

#[test]
fn old_command_stops() {
    let mut c = CmdState::new(0);
    apply_command(&mut c, "drive", &drive(0.1, 0.5), 1000, to_mm_s);
    let m = current_motion(&c, false, 1000 + WATCHDOG_NS - 1);
    assert_eq!((m.linear_mm_s, m.rot_rad_s), (f(100.0), f(0.5)));
    let m = current_motion(&c, false, 1000 + WATCHDOG_NS);
    assert_eq!((m.linear_mm_s, m.rot_rad_s), (f(0.0), f(0.0)));
}

#[test]
fn hazard_stops_translation_and_allows_turning() {
    let mut c = CmdState::new(0);
    apply_command(&mut c, "drive", &drive(-0.1, 0.5), 0, to_mm_s);
    let m = current_motion(&c, true, 0);
    assert_eq!((m.linear_mm_s, m.rot_rad_s), (f(0.0), f(0.5)));
}

#[test]
fn every_tick_drives() {
    let mut c = CmdState::new(0);
    apply_command(&mut c, "drive", &drive(0.1, 0.5), 0, to_mm_s);
    let mut t = Transmitter::new();
    for _ in 0..400 {
        let frames = t.step(&c, false, 0);
        assert_eq!(frames[0], encode_motor_ctrl(1, f(100.0), f(0.5)));
        assert!(frames.iter().all(|b| b.len() <= 64));
    }
}

#[test]
fn frames_come_at_their_ticks() {
    let mut c = CmdState::new(0);
    apply_command(&mut c, "vacuum", &ComponentAction::Enable, 0, to_mm_s);
    apply_command(&mut c, "lidar", &ComponentAction::Enable, 0, to_mm_s);
    let mut t = Transmitter::new();
    let pk = |typ: u8, p: &[u8]| encode_frame(typ, p, 64).unwrap();
    for tick in 0..401u64 {
        let mut want = Vec::new();
        if tick % 25 == 5 {
            want.push(pk(0x02, &[0x21]));
        }
        if tick % 25 == 12 {
            want.push(pk(0x01, &[0, 1, 100, 0, 3, 0]));
        }
        if tick % 50 == 20 {
            want.push(pk(0x14, &[4, 1]));
        }
        if tick % 50 == 30 {
            want.push(pk(0x26, &[0x14, 0, 0, 0, 0, 0, 0, 4]));
        }
        if tick % 200 == 40 {
            want.push(pk(0x1d, &[5, 1]));
        }
        assert_eq!(&t.step(&c, false, 0)[1..], &want[..], "{tick}");
    }
}

#[test]
fn idle_frames_keep_the_lidar_off() {
    let c = CmdState::new(0);
    let mut t = Transmitter::new();
    let all: Vec<Vec<Vec<u8>>> = (0..241).map(|_| t.step(&c, false, 0)).collect();
    assert_eq!(all[12][1], vec![0x3c, 0x06, 0x01, 0, 1, 0, 0, 0, 0, 0x21, 0xed, 0x3e]);
    assert_eq!(all[20][1], vec![0x3c, 0x02, 0x14, 0x04, 0x00, 0x58, 0x43, 0x3e]);
    assert_eq!(
        all[30][2],
        vec![0x3c, 0x08, 0x26, 0x64, 0, 0, 0, 0, 0, 0, 0x04, 0x94, 0x45, 0x3e]
    );
    assert_eq!(all[40].len(), 1);
    assert_eq!(all[240].len(), 1);
}

#[test]
fn stop_frame_stands_still() {
    assert_eq!(stop_frame(), encode_motor_ctrl(1, f(0.0), f(0.0)));
}

#[test]
fn device_path_selects_direct_mode() {
    let d = driver("/dev/ttyS4");
    let e = d.endpoints(None, None).unwrap();
    assert_eq!((e.mcu_addr.as_str(), e.lds_addr.as_str(), e.direct), ("/dev/ttyS4", "/dev/ttyS3", true));
    let e = d.endpoints(Some("10.0.0.1:7701".to_string()), Some("x".to_string())).unwrap();
    assert_eq!((e.mcu_addr.as_str(), e.lds_addr.as_str(), e.direct), ("10.0.0.1:7701", "x", false));
    let e = driver("127.0.0.1:7701").endpoints(Some("/dev/ttyS4".to_string()), None).unwrap();
    assert!(e.direct);
    assert!(!driver("/de").endpoints(None, None).unwrap().direct);
    assert_eq!((MCU_BAUD, LDS_BAUD), (115200, 230400));
}

#[test]
fn missing_hardware_is_an_error() {
    let d = match DreameW10Driver::new(device_config("dreame_w10", None)) {
        Ok(d) => d,
        Err(e) => panic!("{e:?}"),
    };
    match d.endpoints(None, None) {
        Err(Error::Config(s)) => {
            assert_eq!(s, "dreame_w10 requires a [device.hardware] section")
        }
        other => panic!("{other:?}"),
    }
}

#[test]
fn relay_mode_is_read_only() {
    let mut d = driver("127.0.0.1:7701");
    let cmd = Command::ComponentControl { id: "drive".to_string(), action: drive(0.1, 0.0) };
    assert_eq!(d.send_command(cmd, 1, to_mm_s), Outcome::ReadOnly);
    assert!(d.cmd().is_none());
    assert!(!d.is_shut_down());
}

#[test]
fn direct_mode_takes_commands() {
    let mut d = driver("/dev/ttyS4");
    assert_eq!(d.start_direct(true, true, 5), Start::WithLidar);
    assert_eq!(d.cmd().unwrap().last_cmd_ns(), 5);
    let cmd = Command::ComponentControl { id: "drive".to_string(), action: drive(0.1, 0.25) };
    assert_eq!(d.send_command(cmd, 9, to_mm_s), Outcome::Taken);
    let c = d.cmd().unwrap();
    assert_eq!((c.linear_mm_s(), c.rot_rad_s(), c.last_cmd_ns()), (f(100.0), f(0.25), 9));
    let cmd = Command::ComponentControl { id: "mop".to_string(), action: ComponentAction::Enable };
    assert_eq!(d.send_command(cmd, 9, to_mm_s), Outcome::UnknownComponent);
}

#[test]
fn shutdown_is_noted_in_both_modes() {
    let mut d = driver("/dev/ttyS4");
    d.start_direct(true, false, 0);
    assert_eq!(d.send_command(Command::Shutdown, 0, to_mm_s), Outcome::ShuttingDown);
    assert!(d.is_shut_down());
    let mut d = driver("127.0.0.1:7701");
    d.set_hazard(true);
    assert!(d.hazard() && !d.is_shut_down());
    d.request_shutdown();
    assert!(d.is_shut_down() && d.hazard());
}

#[test]
fn factory_knows_its_devices() {
    let make = |t: &str| create_device(&Config { device: device_config(t, None) });
    assert!(matches!(make("dreame_w10"), Ok(Device::DreameW10(_))));
    match make("crl200s") {
        Ok(Device::Crl200s(c)) => assert_eq!(c.name, "robot"),
        _ => panic!("crl200s"),
    }
    match make("roomba") {
        Err(Error::UnknownDevice(s)) => assert_eq!(s, "roomba"),
        _ => panic!("roomba"),
    }
    match make("mock") {
        Err(Error::Config(s)) => {
            assert_eq!(s, "Mock device not available: rebuild with --features mock")
        }
        _ => panic!("mock"),
    }
    assert!(matches!(device_kind("mock", true), Ok(DeviceKind::Mock)));
}

#[test]
fn levels_are_latched() {
    let mut c = CmdState::new(0);
    apply_command(&mut c, "vacuum", &configure(&[("speed", SensorValue::U8(60))]), 0, to_mm_s);
    for id in ["drive", "lidar", "side_brush", "vacuum", "mop"] {
        apply_command(&mut c, id, &ComponentAction::Reset, 0, to_mm_s);
    }
    apply_command(&mut c, "main_brush", &ComponentAction::Disable, 0, to_mm_s);
    assert_eq!(levels(&c), vec![0, 0, 60, 0, 0, 0]);
}

#[test]
fn port_failures_at_start() {
    let mut d = driver("/dev/ttyS4");
    assert_eq!(d.start_direct(false, true, 1), Start::Refused);
    assert!(d.cmd().is_none());
    let cmd = Command::ComponentControl { id: "drive".to_string(), action: drive(0.1, 0.0) };
    assert_eq!(d.send_command(cmd, 1, to_mm_s), Outcome::ReadOnly);
    assert_eq!(d.start_direct(true, false, 1), Start::WithoutLidar);
    assert!(d.cmd().is_some());
}

#[test]
fn link_reconnects_until_shutdown() {
    let step = |e| link_step(false, e);
    assert_eq!(step(LinkEvent::Connected), LinkAction::Read);
    assert_eq!(step(LinkEvent::Bytes), LinkAction::Read);
    assert_eq!(step(LinkEvent::TimedOut), LinkAction::Read);
    assert_eq!(step(LinkEvent::Refused), LinkAction::WaitAndConnect);
    assert_eq!(step(LinkEvent::Closed), LinkAction::Connect);
    assert_eq!(step(LinkEvent::Failed), LinkAction::Connect);
    for e in [LinkEvent::Connected, LinkEvent::Refused, LinkEvent::TimedOut, LinkEvent::Failed] {
        assert_eq!(link_step(true, e), LinkAction::End);
    }
}

#[test]
fn speed_that_is_no_number_is_not_sent() {
    let mut c = CmdState::new(0);
    apply_command(&mut c, "drive", &drive(f32::NAN, f32::NAN), 0, to_mm_s);
    let m = current_motion(&c, false, 0);
    assert_eq!((m.linear_mm_s, m.rot_rad_s), (f(0.0), f(0.0)));
}

#[test]
fn frames_of_200_ticks() {
    for lidar in [true, false] {
        let mut c = CmdState::new(0);
        if lidar {
            apply_command(&mut c, "lidar", &ComponentAction::Enable, 0, to_mm_s);
        }
        let mut t = Transmitter::new();
        for _ in 0..37 {
            t.step(&c, false, 0);
        }
        let all: Vec<Vec<u8>> = (0..200).flat_map(|_| t.step(&c, false, 0)).collect();
        let count = |typ: u8| all.iter().filter(|b| b[2] == typ).count();
        assert_eq!((count(0x00), count(0x02), count(0x01)), (200, 8, 8));
        assert_eq!((count(0x14), count(0x26)), (4, 4));
        assert_eq!(count(0x1d), if lidar { 1 } else { 0 });
    }
}
