use w10_bridge::lds::{LdsFrame, LdsScanner, LDS_PACKET};
use w10_bridge::sweep::{LidarPoint, LidarReader, Sweep, MAX_SWEEP_NS};

fn packet(speed: u16, fsa: u16, lsa: u16, samples: [(u16, u8); 8]) -> Vec<u8> {
    let mut p = vec![0x55, 0xaa, 0x03, 0x08];
    p.extend(speed.to_le_bytes());
    p.extend(fsa.to_le_bytes());
    for (d, q) in samples {
        p.extend(d.to_le_bytes());
        p.push(q);
    }
    p.extend(lsa.to_le_bytes());
    p.extend([0u8; 6]);
    assert_eq!(p.len(), LDS_PACKET);
    p
}

fn full(fsa: u16) -> Vec<u8> {
    packet(3000, fsa, fsa.wrapping_add(438), [(1000, 40); 8])
}

fn scan_all(bytes: &[u8]) -> Vec<LdsFrame> {
    LdsScanner::new().collect(bytes)
}

#[test]
fn packet_is_decoded() {
    let mut samples = [(500u16, 10u8); 8];
    samples[3] = (0x8000, 7);
    samples[5] = (0x7fff, 0);
    let fs = scan_all(&packet(2960, 43000, 43438, samples));
    assert_eq!(fs.len(), 1);
    let f = &fs[0];
    assert_eq!((f.speed, f.fsa, f.lsa), (2960, 43000, 43438));
    assert!(f.samples[0].valid && f.samples[0].dist_mm == 500 && f.samples[0].quality == 10);
    assert!(!f.samples[3].valid && f.samples[3].dist_mm == 0);
    assert!(f.samples[5].valid && f.samples[5].dist_mm == 0x7fff);
}

#[test]
fn angles_are_spread_evenly() {
    let fs = scan_all(&packet(0, 100, 500, [(1, 1); 8]));
    let angles: Vec<u16> = (0..8).map(|k| fs[0].sample_angle(k)).collect();
    assert_eq!(angles, vec![100, 150, 200, 250, 300, 350, 400, 450]);
}

#[test]
fn angles_wrap_past_the_full_circle() {
    let fs = scan_all(&packet(0, 0, 0, [(1, 1); 8]));
    assert_eq!(fs[0].sample_angle(7), 0);
    let fs = scan_all(&packet(0, 65500, 64, [(1, 1); 8]));
    assert_eq!(fs[0].sample_angle(0), 65500);
    assert_eq!(fs[0].sample_angle(4), 14);
}

#[test]
fn scanner_resyncs_on_the_opening_bytes() {
    let mut bytes = vec![0x55, 0xaa, 0x55, 0xaa, 0x03, 0x55, 1, 2];
    bytes.extend(full(41000));
    bytes.extend(full(41500));
    let fs = scan_all(&bytes);
    assert_eq!(fs.iter().map(|f| f.fsa).collect::<Vec<u16>>(), vec![41000, 41500]);
}

#[test]
fn scanner_takes_pieces_of_any_size() {
    let mut bytes = vec![9u8; 3];
    bytes.extend(full(41000));
    bytes.extend(full(41500));
    for cut in 0..bytes.len() {
        let mut sc = LdsScanner::new();
        let mut got = sc.collect(&bytes[..cut]);
        got.extend(sc.collect(&bytes[cut..]));
        assert_eq!(got.len(), 2);
        assert_eq!(got[1].fsa, 41500);
    }
}

#[test]
fn drop_of_the_angle_publishes_the_sweep() {
    let mut r = LidarReader::new(0);
    assert!(r.feed(&full(41000), 0).is_empty());
    assert!(r.feed(&full(50000), 0).is_empty());
    let scans = r.feed(&packet(2999, 41000, 41438, [(7, 1); 8]), 0);
    assert_eq!(scans.len(), 1);
    assert_eq!(scans[0].points.len(), 16);
    assert_eq!(scans[0].speed, 2999);
    assert_eq!(scans[0].points[0], LidarPoint { angle: 41000, dist_mm: 1000, quality: 40 });
    assert_eq!(scans[0].points[8].angle, 50000);
}

#[test]
fn small_drop_does_not_end_a_sweep() {
    let mut r = LidarReader::new(0);
    r.feed(&full(45000), 0);
    r.feed(&full(45000), 0);
    assert!(r.feed(&full(41000), 0).is_empty());
    assert_eq!(r.feed(&full(36999), 0).len(), 1);
}

#[test]
fn thin_sweep_is_dropped() {
    let mut r = LidarReader::new(0);
    r.feed(&full(50000), 0);
    assert!(r.feed(&full(41000), 0).is_empty());
    r.feed(&full(50000), 0);
    let scans = r.feed(&full(41000), 0);
    assert_eq!(scans.len(), 1);
    assert_eq!(scans[0].points.len(), 16);
}

#[test]
fn overdue_sweep_is_published() {
    let mut s = Sweep::new(10);
    let fs = scan_all(&[full(41000), full(41500)].concat());
    assert!(s.push(&fs[0], 20).is_none());
    assert!(s.push(&fs[1], 10 + MAX_SWEEP_NS).is_none());
    let done = s.push(&fs[1], 11 + MAX_SWEEP_NS).unwrap();
    assert_eq!(done.points.len(), 24);
}

#[test]
fn points_need_an_echo_and_have_a_quality() {
    let mut samples = [(0x8000u16, 9u8); 8];
    samples[2] = (250, 0);
    let mut s = Sweep::new(0);
    let f = &scan_all(&packet(1, 1000, 1080, samples))[0];
    for _ in 0..15 {
        assert!(s.push(f, 0).is_none());
    }
    let done = s.push(f, 2 * MAX_SWEEP_NS).unwrap();
    assert_eq!(done.points.len(), 16);
    assert!(done.points.iter().all(|p| *p == LidarPoint { angle: 1020, dist_mm: 250, quality: 1 }));
}

#[test]
fn reconnect_starts_the_sweep_over() {
    let mut r = LidarReader::new(0);
    r.feed(&full(50000), 0);
    r.feed(&full(51000), 0);
    let next = full(41000);
    r.feed(&next[..10], 0);
    r.reconnect(5);
    assert!(r.feed(&next[10..], 5).is_empty());
    r.feed(&full(50000), 5);
    assert_eq!(r.feed(&full(41000), 5)[0].points.len(), 16);
}

#[test]
fn no_echo_is_in_two_sweeps() {
    let mut r = LidarReader::new(0);
    let mut sent: Vec<u16> = Vec::new();
    let mut got: Vec<u16> = Vec::new();
    let mut dist: u16 = 1;
    for pass in 0..5u64 {
        for step in 0..4u16 {
            let mut samples = [(0x8000u16, 1u8); 8];
            for (k, s) in samples.iter_mut().enumerate() {
                if k != 3 {
                    s.0 = dist;
                    sent.push(dist);
                    dist += 1;
                }
            }
            let fsa = 41000 + 5000 * step;
            for scan in r.feed(&packet(1, fsa, fsa + 400, samples), pass) {
                assert!(scan.points.len() >= 16);
                got.extend(scan.points.iter().map(|p| p.dist_mm));
            }
        }
    }
    assert_eq!(got, sent[..got.len()]);
    assert_eq!(got.len(), 4 * 28);
}
