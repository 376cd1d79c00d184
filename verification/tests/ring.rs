use w10_bridge::ring::{plan_read, plan_write, Ring, RING_MASK, RING_SIZE};

fn counting(from: usize, n: usize) -> Vec<u8> {
    (from..from + n).map(|i| (i % 251) as u8).collect()
}

#[test]
fn new_ring_is_empty() {
    let r = Ring::new();
    assert_eq!(r.head(), 0);
    assert_eq!(r.opens(), 0);
    let mut tail = 0u64;
    let mut out = [7u8; 4];
    assert_eq!(r.read(&mut tail, &mut out), (0, 0));
    assert_eq!(out, [7, 7, 7, 7]);
    assert_eq!(tail, 0);
}

#[test]
fn ring_is_a_power_of_two() {
    assert_eq!(RING_SIZE, 1 << 18);
    assert_eq!(RING_MASK, RING_SIZE as u64 - 1);
}

#[test]
fn what_is_written_is_read() {
    let mut r = Ring::new();
    r.write(b"hello");
    r.write(b"");
    r.write(b" world");
    assert_eq!(r.head(), 11);
    let mut tail = 0u64;
    let mut out = [0u8; 16];
    assert_eq!(r.read(&mut tail, &mut out), (11, 0));
    assert_eq!(&out[..11], b"hello world");
    assert_eq!(tail, 11);
    assert_eq!(r.read(&mut tail, &mut out), (0, 0));
}

#[test]
fn reads_continue_where_they_stopped() {
    let mut r = Ring::new();
    r.write(b"abcdef");
    let mut tail = 0u64;
    let mut out = [0u8; 4];
    assert_eq!(r.read(&mut tail, &mut out), (4, 0));
    assert_eq!(&out, b"abcd");
    assert_eq!(r.read(&mut tail, &mut out), (2, 0));
    assert_eq!(&out, b"efcd");
    assert_eq!(tail, 6);
}

#[test]
fn readers_are_independent() {
    let mut r = Ring::new();
    r.write(b"abc");
    let (mut t1, mut t2) = (0u64, 2u64);
    let mut out = [0u8; 3];
    assert_eq!(r.read(&mut t1, &mut out), (3, 0));
    assert_eq!(r.read(&mut t2, &mut out), (1, 0));
    assert_eq!(out[0], b'c');
}

#[test]
fn writes_wrap_around() {
    let mut r = Ring::new();
    r.write(&counting(0, RING_SIZE - 3));
    let mut tail = r.head();
    r.write(b"0123456789");
    let mut out = [0u8; 16];
    assert_eq!(r.read(&mut tail, &mut out), (10, 0));
    assert_eq!(&out[..10], b"0123456789");
    assert_eq!(tail, RING_SIZE as u64 + 7);
}

#[test]
fn lapped_reader_resyncs_and_counts() {
    let mut r = Ring::new();
    let all = counting(0, RING_SIZE + 100);
    r.write(&all[..RING_SIZE]);
    r.write(&all[RING_SIZE..]);
    let mut tail = 0u64;
    let mut out = vec![0u8; RING_SIZE];
    assert_eq!(r.read(&mut tail, &mut out), (RING_SIZE, 100));
    assert_eq!(out, all[100..]);
    assert_eq!(tail, r.head());
}

#[test]
fn lag_of_exactly_one_ring_loses_nothing() {
    let mut r = Ring::new();
    let all = counting(5, RING_SIZE);
    r.write(&all);
    let mut tail = 0u64;
    let mut out = vec![0u8; RING_SIZE];
    assert_eq!(r.read(&mut tail, &mut out), (RING_SIZE, 0));
    assert_eq!(out, all);
}

#[test]
fn oversized_write_keeps_the_freshest() {
    let mut r = Ring::new();
    let all = counting(0, RING_SIZE + 5);
    r.write(&all);
    assert_eq!(r.head(), RING_SIZE as u64);
    let mut tail = 0u64;
    let mut out = vec![0u8; RING_SIZE];
    assert_eq!(r.read(&mut tail, &mut out), (RING_SIZE, 0));
    assert_eq!(out, all[5..]);
}

#[test]
fn opens_are_counted() {
    let mut r = Ring::new();
    r.note_open();
    r.note_open();
    assert_eq!(r.opens(), 2);
    assert_eq!(r.head(), 0);
}

#[test]
fn write_plan_splits_at_the_end() {
    let p = plan_write(RING_SIZE as u64 - 2, 5);
    assert_eq!((p.start, p.off, p.first, p.rest), (0, RING_SIZE - 2, 2, 3));
    assert_eq!(p.head, RING_SIZE as u64 + 3);
    let p = plan_write(3, RING_SIZE + 7);
    assert_eq!((p.start, p.off, p.first, p.rest), (7, 3, RING_SIZE - 3, 3));
    assert_eq!(p.head, RING_SIZE as u64 + 3);
}

#[test]
fn read_plan_splits_at_the_end() {
    let head = 2 * RING_SIZE as u64 + 1;
    let p = plan_read(head, head - 3, 100);
    assert_eq!((p.lost, p.off, p.first, p.rest), (0, RING_SIZE - 2, 2, 1));
    assert_eq!((p.from, p.tail), (head - 3, head));
    let p = plan_read(head, 0, 10);
    assert_eq!((p.lost, p.from, p.off), (RING_SIZE as u64 + 1, RING_SIZE as u64 + 1, 1));
    assert_eq!((p.first, p.rest, p.tail), (10, 0, RING_SIZE as u64 + 11));
}

#[test]
fn cut_of_the_writes_does_not_matter() {
    let all = counting(3, 1000);
    let mut a = Ring::new();
    a.write(&all);
    let mut b = Ring::new();
    b.write(&all[..300]);
    b.write(&all[300..]);
    assert_eq!(a.head(), b.head());
    let (mut ta, mut tb) = (0u64, 0u64);
    let (mut oa, mut ob) = ([0u8; 1000], [0u8; 1000]);
    assert_eq!(a.read(&mut ta, &mut oa), b.read(&mut tb, &mut ob));
    assert_eq!(oa, ob);
}
