use w10_bridge::control::{
    parse_line, request_drive, words_of, Control, ControlLine, DriveFilter, HazardWatch,
    WATCHDOG_WRITES,
};
use w10_bridge::float32::Float32;
use w10_bridge::frame::{encode_frame, encode_motor_ctrl};
use w10_bridge::relay::{
    channel, serve_step, RelayClient, ServeAction, ServeEvent, CONTROL_PORT,
};
use w10_bridge::ring::{Ring, RING_SIZE};
use w10_bridge::shm::{
    claim_mapping, monotonic_ns, settle_mapping, Shm, CH_LDS_RX, CH_LDS_TX, CH_MCU_RX, CH_MCU_TX,
    MAGIC, MAP_BUSY, MAP_FAILED, MAP_READY, MAP_UNINIT, SHM_PATH, VERSION,
};
use w10_bridge::tap::{
    classify, ends_with, fd_slot, open_channel, read_channel, write_channel, Tap, K_LDS, K_MCU,
    K_NONE,
};

fn f(v: f32) -> Float32 {
    Float32 { bits: v.to_bits() }
}

fn held(shm: &Shm, ch: usize) -> Vec<u8> {
    let mut out = vec![0u8; 4096];
    let mut tail = 0u64;
    let (n, _) = shm.ring[ch].read(&mut tail, &mut out);
    out[..n].to_vec()
}

fn tap() -> Tap {
    let mut shm = Shm::zeroed();
    shm.init(1);
    Tap::new(Some(shm))
}

fn motor(linear: f32, rot: f32) -> Vec<u8> {
    encode_motor_ctrl(1, f(linear), f(rot))
}

fn triggers(b0: u8, b1: u8) -> Vec<u8> {
    encode_frame(0x00, &[b0, b1, 7, 0, 1, 0, 0], 64).unwrap()
}

#[test]
fn region_is_ready_once_initialised() {
    let mut shm = Shm::zeroed();
    assert!(shm.view().is_none());
    shm.init(99);
    let s = shm.view().unwrap();
    assert_eq!((s.magic, s.version, s.started_ns), (MAGIC, VERSION, 99));
    assert_eq!(MAGIC, 0x5041_5441);
    assert_eq!(SHM_PATH, "/tmp/avatap.shm");
}

#[test]
fn other_version_is_not_viewed() {
    let mut shm = Shm::zeroed();
    shm.init(0);
    shm.version = 2;
    assert!(shm.view().is_none());
    shm.version = VERSION;
    shm.magic = 0;
    assert!(shm.view().is_none());
}

#[test]
fn init_keeps_the_rings() {
    let mut shm = Shm::zeroed();
    shm.publish(CH_LDS_RX, b"abc");
    shm.init(5);
    assert_eq!(held(&shm, CH_LDS_RX), b"abc");
}

#[test]
fn publish_goes_to_one_channel() {
    let mut shm = Shm::zeroed();
    shm.publish(CH_MCU_TX, b"xy");
    shm.publish(CH_MCU_TX, b"");
    shm.note_open(CH_MCU_RX);
    assert_eq!(held(&shm, CH_MCU_TX), b"xy");
    assert!(held(&shm, CH_MCU_RX).is_empty());
    assert_eq!(shm.ring[CH_MCU_RX].opens(), 1);
    assert_eq!(shm.ring[CH_MCU_TX].opens(), 0);
}

#[test]
fn mapping_is_claimed_once() {
    assert_eq!(claim_mapping(MAP_UNINIT), Some(MAP_BUSY));
    assert_eq!(claim_mapping(MAP_BUSY), None);
    assert_eq!(claim_mapping(settle_mapping(true)), None);
    assert_eq!(claim_mapping(settle_mapping(false)), None);
    assert_eq!((settle_mapping(true), settle_mapping(false)), (MAP_READY, MAP_FAILED));
}

#[test]
fn clock_in_nanoseconds() {
    assert_eq!(monotonic_ns(true, 3, 7), 3_000_000_007);
    assert_eq!(monotonic_ns(false, 3, 7), 0);
}

#[test]
fn suffixes() {
    assert!(ends_with(b"/dev/ttyS4", b"ttyS4"));
    assert!(ends_with(b"ttyS4", b"ttyS4"));
    assert!(!ends_with(b"tyS4", b"ttyS4"));
    assert!(!ends_with(b"/dev/ttyS4x", b"ttyS4"));
    assert!(ends_with(b"abc", b""));
}

#[test]
fn ports_are_classified() {
    assert_eq!(classify(b"/dev/ttyS4"), K_MCU);
    assert_eq!(classify(b"/dev/ttyS3\0junk"), K_LDS);
    assert_eq!(classify(b"/dev/ttyS1"), K_NONE);
    assert_eq!(classify(b""), K_NONE);
    let mut long = vec![b'a'; 507];
    long.extend(b"ttyS4");
    assert_eq!(classify(&long), K_MCU);
    long.insert(0, b'a');
    assert_eq!(classify(&long), K_NONE);
}

#[test]
fn descriptors_have_slots() {
    assert_eq!(fd_slot(-1), None);
    assert_eq!(fd_slot(0), Some(0));
    assert_eq!(fd_slot(4095), Some(4095));
    assert_eq!(fd_slot(4096), None);
}

#[test]
fn traffic_has_channels() {
    assert_eq!(read_channel(K_MCU, 3), Some(CH_MCU_RX));
    assert_eq!(read_channel(K_LDS, 3), Some(CH_LDS_RX));
    assert_eq!(read_channel(K_MCU, 0), None);
    assert_eq!(read_channel(K_MCU, -1), None);
    assert_eq!(read_channel(K_NONE, 3), None);
    assert_eq!(write_channel(K_MCU, 1), Some(CH_MCU_TX));
    assert_eq!(write_channel(K_LDS, 1), Some(CH_LDS_TX));
    assert_eq!(write_channel(K_LDS, 0), None);
    assert_eq!(open_channel(K_LDS), Some(CH_LDS_RX));
    assert_eq!(open_channel(K_NONE), None);
}

#[test]
fn tap_mirrors_from_open_to_close() {
    let mut t = tap();
    t.on_read(25, 3, b"abc");
    t.on_open(25, b"/dev/ttyS4\0");
    assert_eq!(t.kind(25), K_MCU);
    t.on_read(25, 3, b"telemetry");
    t.on_read(25, 0, b"");
    t.on_read(25, -1, b"");
    assert!(t.on_write(25, b"cmd").is_none());
    t.on_close(25);
    t.on_read(25, 3, b"xyz");
    assert!(t.on_write(25, b"late").is_none());
    let shm = t.region().unwrap();
    assert_eq!(held(shm, CH_MCU_RX), b"tel");
    assert_eq!(held(shm, CH_MCU_TX), b"cmd");
    assert!(held(shm, CH_LDS_RX).is_empty());
    assert_eq!(shm.ring[CH_MCU_RX].opens(), 1);
}

#[test]
fn tap_keeps_the_devices_apart() {
    let mut t = tap();
    t.on_open(25, b"/dev/ttyS4");
    t.on_open(30, b"/dev/ttyS3");
    t.on_open(7, b"/etc/passwd");
    t.on_open(-1, b"/dev/ttyS4");
    t.on_open(5000, b"/dev/ttyS3");
    t.on_read(30, 2, b"55");
    t.on_write(30, b"aa");
    t.on_read(7, 2, b"no");
    t.on_close(25);
    assert_eq!((t.kind(25), t.kind(30), t.kind(7)), (K_NONE, K_LDS, K_NONE));
    let shm = t.region().unwrap();
    assert_eq!(held(shm, CH_LDS_RX), b"55");
    assert_eq!(held(shm, CH_LDS_TX), b"aa");
    assert!(held(shm, CH_MCU_RX).is_empty());
    assert_eq!((shm.ring[CH_MCU_RX].opens(), shm.ring[CH_LDS_RX].opens()), (1, 1));
}

#[test]
fn tap_without_a_region_passes_everything() {
    let mut t = Tap::new(None);
    t.on_open(25, b"/dev/ttyS4");
    assert_eq!(t.kind(25), K_MCU);
    t.on_read(25, 2, b"ab");
    assert!(t.on_write(25, &motor(10.0, 0.0)).is_none());
    assert!(t.region().is_none());
}

#[test]
fn tap_replaces_motor_commands() {
    let mut shm = Shm::zeroed();
    shm.control.set(true, f(30.0), f(0.0));
    let mut t = Tap::new(Some(shm));
    t.on_open(25, b"/dev/ttyS4");
    t.on_open(30, b"/dev/ttyS3");
    let daemon = motor(99.0, 1.0);
    assert_eq!(t.on_write(25, &daemon), Some(motor(30.0, 0.0)));
    assert_eq!(t.on_write(30, &daemon), None);
    let shm = t.region().unwrap();
    assert_eq!(held(shm, CH_MCU_TX), daemon);
    assert_eq!(shm.control.overrides, 1);
}

#[test]
fn filter_is_off_by_default() {
    let mut flt = DriveFilter::new();
    let mut c = Control::idle();
    assert_eq!(flt.filter(false, &mut c, &motor(50.0, 0.0)), None);
    assert_eq!(c, Control::idle());
}

#[test]
fn filter_replaces_only_motor_commands() {
    let mut flt = DriveFilter::new();
    let mut c = Control::idle();
    c.set(true, f(500.0), f(-4.0));
    assert_eq!(flt.filter(false, &mut c, &motor(0.0, 0.0)), Some(motor(150.0, -1.5)));
    let led = encode_frame(0x02, &[0x21], 64).unwrap();
    assert_eq!(flt.filter(false, &mut c, &led), None);
    assert_eq!(flt.filter(false, &mut c, b"<"), None);
    assert_eq!((c.overrides, c.hazard_clamps), (1, 0));
}

#[test]
fn unrenewed_request_expires() {
    let mut flt = DriveFilter::new();
    let mut c = Control::idle();
    c.set(true, f(30.0), f(0.0));
    let daemon = motor(0.0, 0.0);
    for _ in 0..=WATCHDOG_WRITES {
        assert!(flt.filter(false, &mut c, &daemon).is_some());
    }
    for _ in 0..100 {
        assert!(flt.filter(false, &mut c, &daemon).is_none());
    }
    c.set(true, f(30.0), f(0.0));
    assert!(flt.filter(false, &mut c, &daemon).is_some());
    assert_eq!(c.overrides, 27);
}

#[test]
fn hazard_takes_forward_motion_away() {
    let mut flt = DriveFilter::new();
    let mut haz = HazardWatch::new();
    let mut c = Control::idle();
    assert!(!haz.hazard());
    c.set(true, f(40.0), f(0.5));
    haz.observe(&triggers(0x40, 0));
    assert!(haz.hazard());
    assert_eq!(flt.filter(haz.hazard(), &mut c, &motor(0.0, 0.0)), Some(motor(0.0, 0.5)));
    assert_eq!(c.hazard_clamps, 1);
    c.set(true, f(-40.0), f(0.5));
    assert_eq!(flt.filter(haz.hazard(), &mut c, &motor(0.0, 0.0)), Some(motor(-40.0, 0.5)));
    let clear = triggers(0, 0);
    haz.observe(&clear[..4]);
    assert!(haz.hazard());
    haz.observe(&clear[4..]);
    assert!(!haz.hazard());
    c.set(true, f(40.0), f(0.5));
    assert_eq!(flt.filter(haz.hazard(), &mut c, &motor(0.0, 0.0)), Some(motor(40.0, 0.5)));
    haz.observe(&triggers(0, 0x20));
    assert_eq!(flt.filter(haz.hazard(), &mut c, &motor(0.0, 0.0)), Some(motor(0.0, 0.5)));
    assert_eq!((c.overrides, c.hazard_clamps), (4, 2));
    let mut bad = triggers(0, 0);
    bad[4] ^= 1;
    haz.observe(&bad);
    assert!(haz.hazard());
}

#[test]
fn replacement_of_no_number_stands_still() {
    let mut flt = DriveFilter::new();
    let mut c = Control::idle();
    c.set(true, f(f32::NAN), f(f32::NAN));
    assert_eq!(flt.filter(false, &mut c, &motor(9.0, 0.0)), Some(motor(0.0, 0.0)));
}

#[test]
fn tap_stops_forward_motion_at_a_hazard() {
    let mut shm = Shm::zeroed();
    shm.init(7);
    shm.control.set(true, f(30.0), f(0.0));
    let mut t = Tap::new(Some(shm));
    t.on_open(25, b"/dev/ttyS4");
    let frame = triggers(0x10, 0);
    t.on_read(25, frame.len() as isize, &frame);
    assert_eq!(t.on_write(25, &motor(5.0, 0.0)), Some(motor(0.0, 0.0)));
    t.on_close(25);
    let shm = t.region().unwrap();
    assert_eq!((shm.magic, shm.version, shm.started_ns), (MAGIC, VERSION, 7));
    assert_eq!(shm.control.hazard_clamps, 1);
}

#[test]
fn release_gives_the_motors_back() {
    let mut flt = DriveFilter::new();
    let mut c = Control::idle();
    c.set(true, f(40.0), f(0.5));
    assert!(flt.filter(false, &mut c, &motor(0.0, 0.0)).is_some());
    c.release();
    assert!(!c.enabled && c.linear == f(0.0) && c.seq == 2);
    assert!(flt.filter(false, &mut c, &motor(0.0, 0.0)).is_none());
}

#[test]
fn control_lines() {
    assert!(matches!(parse_line("  \t "), ControlLine::Blank));
    assert!(matches!(parse_line(" stop "), ControlLine::Release));
    assert!(matches!(parse_line("disable"), ControlLine::Release));
    match parse_line(" 30  -0.5 extra") {
        ControlLine::Drive { linear, rot } => {
            assert_eq!((linear.as_str(), rot.as_deref()), ("30", Some("-0.5")))
        }
        other => panic!("{other:?}"),
    }
    match parse_line("stop now") {
        ControlLine::Drive { linear, rot } => {
            assert_eq!((linear.as_str(), rot.as_deref()), ("stop", Some("now")))
        }
        other => panic!("{other:?}"),
    }
    match parse_line("30") {
        ControlLine::Drive { linear, rot } => assert_eq!((linear.as_str(), rot), ("30", None)),
        other => panic!("{other:?}"),
    }
}

#[test]
fn words_split_like_std() {
    for s in ["", " ", "a", " a b ", "a\u{a0}b\u{3000}c", "x\r\n\u{85}y", "\u{200b}z", "\u{1680}q\u{2028}"] {
        let want: Vec<&str> = s.split_whitespace().collect();
        assert_eq!(words_of(s), want);
    }
}

#[test]
fn drive_requests_need_two_finite_numbers() {
    let mut c = Control::idle();
    assert!(!request_drive(&mut c, Some(f(1.0)), None));
    assert!(!request_drive(&mut c, None, Some(f(1.0))));
    assert!(!request_drive(&mut c, Some(f(f32::NAN)), Some(f(0.0))));
    assert!(!request_drive(&mut c, Some(f(0.0)), Some(f(f32::INFINITY))));
    assert_eq!(c, Control::idle());
    assert!(request_drive(&mut c, Some(f(30.0)), Some(f(-0.5))));
    assert!(c.enabled && c.linear == f(30.0) && c.rot == f(-0.5) && c.seq == 1);
}

#[test]
fn channels_are_served() {
    let want = [
        (7701, CH_MCU_RX, "mcu-rx"),
        (7702, CH_LDS_RX, "lds-rx"),
        (7703, CH_MCU_TX, "mcu-tx"),
        (7704, CH_LDS_TX, "lds-tx"),
    ];
    for (i, (port, ring, name)) in want.iter().enumerate() {
        let c = channel(i);
        assert_eq!((c.port, c.ring, c.name), (*port, *ring, *name));
    }
    assert_eq!(CONTROL_PORT, 7705);
}

#[test]
fn client_starts_live_and_counts_losses() {
    let mut r = Ring::new();
    r.write(b"before");
    let mut c = RelayClient::new(r.head());
    let mut out = vec![0u8; 8];
    assert_eq!(c.poll(&r, &mut out), (0, 0));
    r.write(b"0123456789");
    assert_eq!(c.poll(&r, &mut out), (8, 0));
    assert_eq!(out, b"01234567");
    assert_eq!(c.tail(), 14);
    r.write(&vec![1u8; RING_SIZE]);
    assert_eq!(c.poll(&r, &mut out), (8, 2));
    assert_eq!(out, vec![1u8; 8]);
    r.write(&vec![2u8; RING_SIZE]);
    assert_eq!(c.poll(&r, &mut out), (8, RING_SIZE as u64 - 8));
    assert_eq!(c.total_lost(), RING_SIZE as u64 - 6);
}

#[test]
fn client_plans_its_reads() {
    let mut c = RelayClient::new(10);
    let p = c.advance(20, 4);
    assert_eq!((p.lost, p.off, p.first, p.rest, p.tail), (0, 10, 4, 0, 14));
    let p = c.advance(14 + RING_SIZE as u64 + 3, 100);
    assert_eq!((p.lost, p.from), (3, 17));
    assert_eq!((c.tail(), c.total_lost()), (117, 3));
}

#[test]
fn frame_reaches_a_client_through_tap_and_relay() {
    let mut t = tap();
    t.on_open(25, b"/dev/ttyS4");
    let mut c = RelayClient::new(t.region().unwrap().ring[CH_MCU_RX].head());
    let frame = triggers(0x10, 0);
    t.on_read(25, 5, &frame);
    t.on_read(25, frame.len() as isize - 5, &frame[5..]);
    let mut out = vec![0u8; 64];
    let (n, lost) = c.poll(&t.region().unwrap().ring[CH_MCU_RX], &mut out);
    assert_eq!((n, lost), (frame.len(), 0));
    let bodies = w10_bridge::frame::FrameScanner::new().collect(&out[..n]);
    let got = w10_bridge::frame::parse_body(&bodies[0]);
    assert_eq!(got, Ok((0x00, &[0x10u8, 0, 7, 0, 1, 0, 0][..])));
}

#[test]
fn long_stay_accounts_for_every_byte() {
    let mut r = Ring::new();
    r.write(b"old");
    let start = r.head();
    let mut c = RelayClient::new(start);
    let mut stream: Vec<u8> = Vec::new();
    let mut got: Vec<u8> = Vec::new();
    let mut out = vec![0u8; 70_000];
    for i in 0..20usize {
        let chunk: Vec<u8> = (0..50_000).map(|k| (i * 31 + k) as u8).collect();
        r.write(&chunk);
        stream.extend(chunk);
        if i % 7 == 6 {
            let (n, lost) = c.poll(&r, &mut out);
            let from = (c.tail() - start) as usize - n;
            assert_eq!(out[..n], stream[from..from + n]);
            got.extend(&out[..n]);
            assert_eq!(got.len() as u64 + c.total_lost(), c.tail() - start);
            assert!(lost > 0);
        }
    }
}

#[test]
fn client_resumes_at_a_new_ring() {
    let mut c = RelayClient::new(500);
    c.resume(3);
    assert_eq!((c.tail(), c.total_lost()), (3, 0));
}

#[test]
fn serving_ends_on_a_failed_send() {
    assert_eq!(serve_step(ServeEvent::Nothing), ServeAction::Wait);
    assert_eq!(serve_step(ServeEvent::Sent), ServeAction::Poll);
    assert_eq!(serve_step(ServeEvent::SendFailed), ServeAction::End);
}

#[test]
fn frames_behind_a_motor_command_pass() {
    let mut flt = DriveFilter::new();
    let mut c = Control::idle();
    c.set(true, f(30.0), f(0.5));
    let led = encode_frame(0x02, &[0x21], 64).unwrap();
    // This command holds an escaped closing byte and ends in an escaped one.
    let daemon = encode_frame(0x00, &[1, 0x3e, 0x3f, 0x3c, 0, 0, 0, 0, 0x3e], 64).unwrap();
    let both = [daemon.clone(), led.clone(), motor(7.0, 0.0), vec![0x3c, 0x01]].concat();
    let want = [motor(30.0, 0.5), led.clone(), motor(7.0, 0.0), vec![0x3c, 0x01]].concat();
    assert_eq!(flt.filter(false, &mut c, &both), Some(want));
    assert_eq!(flt.filter(false, &mut c, &[led, daemon].concat()), None);
    assert_eq!(c.overrides, 1);
}

#[test]
fn write_that_ends_inside_the_command_passes() {
    let mut flt = DriveFilter::new();
    let mut c = Control::idle();
    c.set(true, f(30.0), f(0.5));
    let daemon = motor(5.0, 0.0);
    for cut in 0..daemon.len() {
        assert_eq!(flt.filter(false, &mut c, &daemon[..cut]), None);
    }
    let broken = [&daemon[..6], &daemon[..]].concat();
    assert_eq!(flt.filter(false, &mut c, &broken), None);
    assert_eq!(c.overrides, 0);
    assert_eq!(flt.filter(false, &mut c, &daemon), Some(motor(30.0, 0.5)));
}

#[test]
fn recycled_descriptor_is_not_mirrored() {
    let mut t = tap();
    t.on_open(25, b"/dev/ttyS4");
    t.on_close(25);
    t.on_open(25, b"/etc/hosts");
    t.on_read(25, 4, b"text");
    assert!(t.on_write(25, &motor(1.0, 0.0)).is_none());
    assert_eq!(t.kind(25), K_NONE);
    let shm = t.region().unwrap();
    assert!((0..4).all(|ch| shm.ring[ch].head() == 0));
    assert_eq!(shm.ring[CH_MCU_RX].opens(), 1);
}
