use w10_bridge::decode::{
    log_line, report_due, trigger_line, FrameLog, Latest, LdsSummary, McuSummary, LDS_REPORT_NS,
    MCU_REPORT_NS, WATCH_REPORT_NS,
};
use w10_bridge::frame::encode_frame;
use w10_bridge::hexdump::HexDump;
use w10_bridge::message::{Msg, Triggers};
use w10_bridge::options::{has, host_named, label, read_options, Mode};
use w10_bridge::text::{
    chars_of, push_bool, push_dec, push_dec_signed, push_hex2, push_number, push_pad_right,
    read_number, same_text,
};
use w10_bridge::volatility::Watch;

fn args(s: &str) -> Vec<String> {
    s.split_whitespace().map(|a| a.to_string()).collect()
}

fn packet(typ: u8, payload: &[u8]) -> Vec<u8> {
    encode_frame(typ, payload, 600).unwrap()
}

fn lds_packet(fsa: u16, lsa: u16, speed: u16, samples: [u16; 8]) -> Vec<u8> {
    let mut p = vec![0x55, 0xaa, 0x03, 0x08];
    p.extend(speed.to_le_bytes());
    p.extend(fsa.to_le_bytes());
    for d in samples {
        p.extend(d.to_le_bytes());
        p.push(20);
    }
    p.extend(lsa.to_le_bytes());
    p.extend([0u8; 6]);
    p
}

#[test]
fn numbers_are_written_like_std() {
    for n in [0u64, 7, 10, 99, 255, 4096, 1_000_000_007, u64::MAX] {
        let mut s = String::from(">");
        push_dec(&mut s, n);
        assert_eq!(s, format!(">{n}"));
        let mut s = String::new();
        push_number(&mut s, n, 16, 8, '0');
        assert_eq!(s, format!("{n:08x}"));
        let mut s = String::new();
        push_number(&mut s, n, 10, 6, ' ');
        assert_eq!(s, format!("{n:6}"));
    }
    for n in [0i64, 5, -1, -32768, 32767] {
        let mut s = String::new();
        push_dec_signed(&mut s, n);
        assert_eq!(s, format!("{n}"));
    }
    for b in 0..=255u8 {
        let mut s = String::new();
        push_hex2(&mut s, b);
        assert_eq!(s, format!("{b:02x}"));
    }
}

#[test]
fn flags_and_padding_are_written() {
    let mut s = String::new();
    push_bool(&mut s, true);
    push_pad_right(&mut s, 4, 6);
    push_bool(&mut s, false);
    push_pad_right(&mut s, 9, 6);
    assert_eq!(s, "true  false");
}

#[test]
fn texts_are_compared_and_taken_apart() {
    assert!(same_text("drive", "drive"));
    assert!(!same_text("drive", "Drive"));
    assert!(!same_text("drive", "drive "));
    assert_eq!(chars_of("a\u{e9}\u{1f600}"), vec!['a', '\u{e9}', '\u{1f600}']);
}

#[test]
fn numbers_are_read_like_std() {
    for s in ["", "0", "+7", "-1", "+", "++1", "65535", "65536", "007", "12a", " 1", "99999999999999"] {
        assert_eq!(read_number(&chars_of(s), 10, 65535), s.parse::<u16>().ok().map(|n| n as u32), "{s}");
    }
    for s in ["", "0", "ff", "FF", "fF", "100", "+a", "g", "0x1"] {
        assert_eq!(
            read_number(&chars_of(s), 16, 255),
            u8::from_str_radix(s, 16).ok().map(|n| n as u32),
            "{s}"
        );
    }
}

#[test]
fn default_is_the_telemetry() {
    let o = read_options(&args(""));
    assert_eq!((o.host, o.port, o.mode), (None, 7701, Mode::Mcu));
    assert_eq!(label(&args("")), "decode");
    let o = read_options(&args("robot --mcu"));
    assert_eq!((o.host.as_deref(), o.port, o.mode), (Some("robot"), 7701, Mode::Mcu));
}

#[test]
fn flags_choose_channel_and_mode() {
    let pick = |s: &str| {
        let o = read_options(&args(s));
        (o.port, o.mode)
    };
    assert_eq!(pick("h --mcu-tx"), (7703, Mode::Mcu));
    assert_eq!(pick("h --lds"), (7702, Mode::Lds));
    assert_eq!(pick("h --lds-tx"), (7704, Mode::Lds));
    assert_eq!(pick("h --lds --raw"), (7702, Mode::Hexdump));
    assert_eq!(pick("h --raw --watch"), (7701, Mode::Watch));
    assert_eq!(pick("h --mcu-tx --lds"), (7703, Mode::Lds));
    assert_eq!(pick("h --log"), (7701, Mode::Log { typ: 1 }));
    assert_eq!(pick("h --log 0x2b"), (7701, Mode::Log { typ: 0x2b }));
    assert_eq!(pick("h --watch --log 0x0x3"), (7701, Mode::Log { typ: 3 }));
    assert_eq!(pick("h --log 1ff"), (7701, Mode::Log { typ: 1 }));
    assert_eq!(pick("h --port 9000"), (9000, Mode::Mcu));
    assert_eq!(pick("h --lds --port 70000"), (7702, Mode::Lds));
    assert_eq!(pick("h --lds --port"), (7702, Mode::Lds));
}

#[test]
fn labels_announce_the_mode() {
    assert_eq!(label(&args("h --watch --raw")), "watch");
    assert_eq!(label(&args("h --raw --lds")), "hexdump");
    assert_eq!(label(&args("h --lds-tx")), "lds decode");
    assert_eq!(label(&args("h --log 3")), "decode");
}

#[test]
fn first_plain_argument_is_the_host() {
    assert_eq!(host_named(&args("--lds 10.0.0.2 x")), Some("10.0.0.2".to_string()));
    assert_eq!(host_named(&args("--port 9000")), None);
    assert_eq!(host_named(&args("--port 7702 robot")), Some("robot".to_string()));
    assert_eq!(host_named(&args("--log 0x2b robot")), Some("robot".to_string()));
    assert_eq!(host_named(&args("--log robot")), Some("robot".to_string()));
    assert_eq!(host_named(&args("--log --port 7702 robot")), Some("robot".to_string()));
    assert_eq!(host_named(&args("7702 --port 7703")), Some("7702".to_string()));
    assert_eq!(host_named(&args("--raw --lds")), None);
    assert_eq!(host_named(&args("-v")), Some("-v".to_string()));
    assert!(has(&args("a --raw"), "--raw"));
    assert!(!has(&args("a --raws"), "--raw"));
}

#[test]
fn bytes_are_dumped() {
    let mut d = HexDump::new();
    let bytes: Vec<u8> = (0x30..0x42).collect();
    let lines = d.feed(&bytes);
    assert_eq!(
        lines,
        vec![
            "00000000  30 31 32 33 34 35 36 37 38 39 3a 3b 3c 3d 3e 3f  |0123456789:;<=>?|",
            "00000010  40 41                                            |@A|",
        ]
    );
    let lines = d.feed(&[0x00, 0x1f, 0x7e, 0x7f, 0xff]);
    assert_eq!(
        lines,
        vec!["00000012  00 1f 7e 7f ff                                   |..~..|"]
    );
    assert!(d.feed(&[]).is_empty());
}

#[test]
fn dump_matches_the_formatter() {
    let bytes: Vec<u8> = (0..=255).collect();
    let mut d = HexDump::new();
    let mut want = Vec::new();
    for (i, chunk) in bytes.chunks(16).enumerate() {
        let hex: String = chunk.iter().map(|b| format!("{b:02x} ")).collect();
        let asc: String = chunk
            .iter()
            .map(|b| if (0x20..0x7f).contains(b) { *b as char } else { '.' })
            .collect();
        want.push(format!("{:08x}  {hex:<48} |{asc}|", 16 * i));
    }
    assert_eq!(d.feed(&bytes), want);
}

#[test]
fn frames_are_logged() {
    let mut l = FrameLog::new(0x0f);
    let mut bytes = packet(0x0f, &[1, 2, 0xab]);
    bytes.extend(packet(0x02, &[9]));
    bytes.extend(packet(0x0f, &[]));
    let mut bad = packet(0x0f, &[7]);
    bad[3] ^= 1;
    bytes.extend(bad);
    let (a, b) = bytes.split_at(4);
    assert!(l.feed(a).is_empty());
    let got = l.feed(b);
    assert_eq!(got, vec![vec![1, 2, 0xab], vec![]]);
    assert_eq!(log_line(12, &got[0]), "    12  01 02 ab");
    assert_eq!(log_line(1234567, &got[1]), "1234567  ");
    assert_eq!(log_line(0, &[5]), "     0  05");
}

#[test]
fn lidar_stretch_is_summarised() {
    let mut s = LdsSummary::new();
    assert_eq!(
        s.line(""),
        "---- lds: no frames (turret idle? start navigation / manual control)"
    );
    let mut d = [1000u16; 8];
    d[0] = 200;
    d[1] = 0x8000;
    d[7] = 3001;
    s.feed(&lds_packet(41000, 41400, 2970, d));
    s.feed(&lds_packet(50000, 50080, 2980, [0x8000; 8]));
    assert_eq!(s.sector(), Some((41000, 41350)));
    assert_eq!(
        s.line("225..227"),
        "---- lds: 2 pkt  speed=2980  sector=225..227deg  pts valid=7 invalid=9  dist 200..3001mm mean=1171mm"
    );
    s.reset();
    assert_eq!(s.sector(), None);
    s.feed(&lds_packet(1, 2, 5, [0x8000; 8]));
    assert_eq!(
        s.line("x"),
        "---- lds: 1 pkt  speed=5  sector=xdeg  pts valid=0 invalid=8  dist 65535..0mm mean=0mm"
    );
}

#[test]
fn lidar_packet_may_span_a_reset() {
    let mut s = LdsSummary::new();
    let p = lds_packet(100, 180, 7, [50; 8]);
    s.feed(&p[..20]);
    s.reset();
    s.feed(&p[20..]);
    assert_eq!(s.sector(), Some((100, 170)));
}

#[test]
fn frames_are_counted_by_type() {
    let mut s = McuSummary::new();
    assert_eq!(s.frames_line(), "---- frames:  crc_err:0");
    let mut bytes = packet(0x2b, &[0; 12]);
    bytes.extend(packet(0x01, &[0; 30]));
    bytes.extend(packet(0x01, &[0; 30]));
    let mut bad = packet(0x02, &[0; 18]);
    bad[5] = 1;
    bytes.extend(&bad);
    bytes.extend([0x3c, 0x01, 0x3e]);
    s.feed(&bytes);
    assert_eq!(s.frames_line(), "---- frames: 0x01:2 0x2b:1  crc_err:1");
    let l = s.latest();
    assert!(l.s20.is_some() && l.batt.is_some());
    assert!(l.s10.is_none() && l.s100.is_none() && l.trig.is_none());
}

#[test]
fn latest_message_wins() {
    let mut l = Latest::none();
    l.update(&Msg::decode(0x03, &[1, 0, 0, 0, 0, 0, 0, 0, 0, 0, 0]));
    l.update(&Msg::decode(0x03, &[2, 0, 0, 0, 0, 0, 0, 0, 0, 0, 0]));
    l.update(&Msg::decode(0x02, &[0; 18]));
    l.update(&Msg::decode(0x24, &[0]));
    assert_eq!(l.s100.unwrap().pitch_ddeg, 2);
    assert!(l.s10.is_some() && l.trig.is_none());
}

#[test]
fn flags_are_printed() {
    let t = Triggers { b0: 0x50, b1: 0, b2: 7, b3: 0, b4: 1, b5: 0, b6: 0xfe };
    assert_eq!(
        trigger_line(&t, "1,0,0,1", "vel L0 R0 imu0 charge0 lidar1"),
        "  trig : dock=true bumpL=true bumpR=false floatL=true floatR=false irDock=[1,0,0,1]  err[vel L0 R0 imu0 charge0 lidar1]"
    );
}

#[test]
fn changing_bytes_are_shown() {
    let mut w = Watch::new();
    assert!(w.lines().is_empty());
    w.feed(&packet(0x02, &[1, 0x10, 5]));
    w.feed(&packet(0x02, &[1, 0x30, 5, 0xff]));
    w.feed(&packet(0x00, &[3]));
    w.feed(&packet(0x77, &[3]));
    assert_eq!(
        w.lines(),
        vec![
            "0x02 len=4 n=2",
            "  off : 00 01 02 03 ",
            "  last: 01 30 05 ff ",
            "  span:    20       ",
            "  i16 : [0..1]i16=12289 ",
            "0x00 len=1 n=1",
            "  off : 00 ",
            "  last: 03 ",
            "  span:    ",
            "0x77 len=1 n=1",
            "  off : 00 ",
            "  last: 03 ",
            "  span:    ",
        ]
    );
    assert_eq!(w.offsets(0x77).count(), 1);
    assert_eq!(w.offsets(0x78).count(), 0);
}

#[test]
fn shorter_frame_keeps_the_tail() {
    let mut w = Watch::new();
    w.feed(&packet(0x01, &[1, 2, 0, 0x80]));
    w.feed(&packet(0x01, &[1]));
    w.feed(&packet(0x01, &[1, 2, 1, 0x80]));
    assert_eq!(
        w.lines(),
        vec![
            "0x01 len=4 n=3",
            "  off : 00 01 02 03 ",
            "  last: 01 02 01 80 ",
            "  span:       01    ",
            "  i16 : [2..3]i16=-32767 ",
        ]
    );
}

#[test]
fn whole_lines_may_be_dumped_in_pieces() {
    let bytes: Vec<u8> = (0..100).collect();
    let mut whole = HexDump::new();
    let want = whole.feed(&bytes);
    let mut d = HexDump::new();
    let mut got = d.feed(&bytes[..32]);
    got.extend(d.feed(&bytes[32..]));
    assert_eq!(got, want);
    assert_eq!(got.len(), 7);
}

#[test]
fn every_type_seen_is_shown() {
    let mut w = Watch::new();
    w.feed(&packet(0x2b, &[0; 12]));
    w.feed(&packet(0xff, &[1]));
    w.feed(&packet(0x00, &[0, 0, 7, 0, 1, 0, 0]));
    w.feed(&packet(0x04, &[2]));
    w.feed(&packet(0x03, &[0; 11]));
    let lines = w.lines();
    let heads: Vec<&str> =
        lines.iter().map(|l| l.as_str()).filter(|l| l.starts_with("0x")).collect();
    assert_eq!(
        heads,
        vec![
            "0x03 len=11 n=1",
            "0x00 len=7 n=1",
            "0x04 len=1 n=1",
            "0x2b len=12 n=1",
            "0xff len=1 n=1"
        ]
    );
}

#[test]
fn reports_come_at_their_periods() {
    assert_eq!((LDS_REPORT_NS, WATCH_REPORT_NS, MCU_REPORT_NS), (500_000_000, 1_000_000_000, 400_000_000));
    assert!(!report_due(MCU_REPORT_NS - 1, MCU_REPORT_NS));
    assert!(report_due(MCU_REPORT_NS, MCU_REPORT_NS));
}
