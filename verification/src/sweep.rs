//! Gathering range samples into arc sweeps.
//!
//! The scanner covers a fixed arc over and over: the packets' first angle climbs, then
//! drops back to where the arc begins. That drop ends a sweep.
use vstd::prelude::*;
use crate::lds::{LdsFrame, LdsSample, LdsScanner, LdsView, LDS_SAMPLES};
use crate::lds::{frames_of, lds_scan, packet_view, packet_views};

verus! {

/// Points a sweep needs to be worth publishing.
pub const MIN_POINTS: usize = 16;

/// A drop of the first angle by more than this (about 22 degrees) begins a new sweep.
pub const SWEEP_RESET: u16 = 4000;

/// A sweep that lasts longer than this is published as it is, in nanoseconds.
pub const MAX_SWEEP_NS: u64 = 1_000_000_000;

/// One range point. A full circle is 65536.
#[derive(Clone, Copy, Debug, PartialEq, Eq, Structural)]
pub struct LidarPoint {
    pub angle: u16,
    pub dist_mm: u16,
    /// At least one.
    pub quality: u8,
}

/// A finished sweep and the turret speed when it was finished.
#[derive(Debug)]
pub struct Scan {
    pub points: Vec<LidarPoint>,
    pub speed: u16,
}

impl View for Scan {
    type V = (Seq<LidarPoint>, u16);

    open spec fn view(&self) -> (Seq<LidarPoint>, u16) {
        (self.points@, self.speed)
    }
}

/// The sweep in progress.
pub struct SweepView {
    pub points: Seq<LidarPoint>,
    /// First angle of the packet before.
    pub last_fsa: Option<u16>,
    /// When the sweep began.
    pub started_ns: u64,
}

/// The point that sample `k` gives.
pub open spec fn point_of(f: LdsView, k: int) -> LidarPoint {
    let s = f.samples[k];
    LidarPoint {
        angle: f.angle(k),
        dist_mm: s.dist_mm,
        quality: if s.quality < 1 {
            1
        } else {
            s.quality
        },
    }
}

/// The points of the first `n` samples of a packet: those with an echo, in order.
pub open spec fn points_of(f: LdsView, n: nat) -> Seq<LidarPoint>
    decreases n,
{
    if n == 0 {
        Seq::empty()
    } else {
        let before = points_of(f, (n - 1) as nat);
        if f.samples[n - 1].valid {
            before.push(point_of(f, n - 1))
        } else {
            before
        }
    }
}

/// The packet's first angle fell back to the beginning of the arc.
pub open spec fn wraps(last_fsa: Option<u16>, fsa: u16) -> bool {
    last_fsa matches Some(prev) && fsa < prev && prev - fsa > SWEEP_RESET
}

/// Time since `then`; a clock that went back counts as none.
pub open spec fn elapsed(now_ns: u64, then: u64) -> nat {
    if now_ns < then {
        0
    } else {
        (now_ns - then) as nat
    }
}

/// One packet: the sweep afterwards and the points and speed to publish, if any.
pub open spec fn sweep_step(s: SweepView, f: LdsView, now_ns: u64) -> (
    SweepView,
    Option<(Seq<LidarPoint>, u16)>,
) {
    let wrap = wraps(s.last_fsa, f.fsa);
    let started = if wrap {
        now_ns
    } else {
        s.started_ns
    };
    let points = (if wrap {
        Seq::empty()
    } else {
        s.points
    }) + points_of(f, LDS_SAMPLES as nat);
    let overdue = elapsed(now_ns, started) > MAX_SWEEP_NS && points.len() >= MIN_POINTS;
    (
        SweepView {
            points: if overdue {
                Seq::empty()
            } else {
                points
            },
            last_fsa: Some(f.fsa),
            started_ns: if overdue {
                now_ns
            } else {
                started
            },
        },
        if wrap && s.points.len() >= MIN_POINTS {
            Some((s.points, f.speed))
        } else if overdue {
            Some((points, f.speed))
        } else {
            None
        },
    )
}

/// Several packets at one time.
pub open spec fn sweep_all(s: SweepView, packets: Seq<Seq<u8>>, now_ns: u64) -> (
    SweepView,
    Seq<(Seq<LidarPoint>, u16)>,
)
    decreases packets.len(),
{
    if packets.len() == 0 {
        (s, Seq::empty())
    } else {
        let (mid, scans) = sweep_all(s, packets.drop_last(), now_ns);
        let (end, scan) = sweep_step(mid, packet_view(packets.last()), now_ns);
        (
            end,
            match scan {
                Some(done) => scans.push(done),
                None => scans,
            },
        )
    }
}

/// Collects the points of one sweep.
pub struct Sweep {
    points: Vec<LidarPoint>,
    last_fsa: Option<u16>,
    started_ns: u64,
}

impl View for Sweep {
    type V = SweepView;

    closed spec fn view(&self) -> SweepView {
        SweepView {
            points: self.points@,
            last_fsa: self.last_fsa,
            started_ns: self.started_ns,
        }
    }
}

impl Sweep {
    /// A sweep that begins now.
    pub fn new(now_ns: u64) -> (s: Sweep)
        ensures
            s@ == (SweepView { points: Seq::empty(), last_fsa: None, started_ns: now_ns }),
    {
        Sweep { points: Vec::new(), last_fsa: None, started_ns: now_ns }
    }

    /// Appends the points of a packet's samples.
    fn gather(&mut self, f: &LdsFrame)
        ensures
            final(self)@ == (SweepView {
                points: old(self)@.points + points_of(f@, LDS_SAMPLES as nat),
                ..old(self)@
            }),
    {
        let ghost before = self.points@;
        let mut k: usize = 0;
        while k < LDS_SAMPLES
            invariant
                k <= LDS_SAMPLES,
                self.points@ == before + points_of(f@, k as nat),
                self.last_fsa == old(self).last_fsa,
                self.started_ns == old(self).started_ns,
            decreases LDS_SAMPLES - k,
        {
            let s: LdsSample = f.samples[k];
            if s.valid {
                let quality: u8 = if s.quality < 1 {
                    1
                } else {
                    s.quality
                };
                self.points.push(
                    LidarPoint { angle: f.sample_angle(k), dist_mm: s.dist_mm, quality },
                );
            }
            k = k + 1;
            assert(self.points@ =~= before + points_of(f@, k as nat));
        }
    }

    /// Takes one packet; gives the sweep that it finishes.
    pub fn push(&mut self, f: &LdsFrame, now_ns: u64) -> (r: Option<Scan>)
        ensures
            final(self)@ == sweep_step(old(self)@, f@, now_ns).0,
            match (r, sweep_step(old(self)@, f@, now_ns).1) {
                (Some(a), Some(b)) => a@ == b,
                (None, None) => true,
                _ => false,
            },
    {
        let mut done: Option<Scan> = None;
        let wrap: bool = match self.last_fsa {
            Some(prev) => f.fsa < prev && prev - f.fsa > SWEEP_RESET,
            None => false,
        };
        if wrap {
            let mut points: Vec<LidarPoint> = Vec::new();
            std::mem::swap(&mut points, &mut self.points);
            if points.len() >= MIN_POINTS {
                done = Some(Scan { points, speed: f.speed });
            }
            self.started_ns = now_ns;
        }
        self.gather(f);
        self.last_fsa = Some(f.fsa);
        let late: bool = now_ns > self.started_ns && now_ns - self.started_ns > MAX_SWEEP_NS;
        if late && self.points.len() >= MIN_POINTS {
            let mut points: Vec<LidarPoint> = Vec::new();
            std::mem::swap(&mut points, &mut self.points);
            done = Some(Scan { points, speed: f.speed });
            self.started_ns = now_ns;
        }
        done
    }
}

/// Turns the scanner's byte stream into sweeps.
pub struct LidarReader {
    scanner: LdsScanner,
    sweep: Sweep,
}

/// Where a lidar reader stands: the bytes of an unfinished packet and the sweep so far.
pub struct LidarView {
    pub bytes: Seq<u8>,
    pub sweep: SweepView,
}

impl View for LidarReader {
    type V = LidarView;

    closed spec fn view(&self) -> LidarView {
        LidarView { bytes: self.scanner@, sweep: self.sweep@ }
    }
}

/// What published sweeps hold.
pub open spec fn scans_view(scans: Seq<Scan>) -> Seq<(Seq<LidarPoint>, u16)> {
    scans.map_values(|s: Scan| s@)
}

impl LidarReader {
    pub closed spec fn wf(&self) -> bool {
        self.scanner.wf()
    }

    pub fn new(now_ns: u64) -> (r: LidarReader)
        ensures
            r.wf(),
            r@.bytes == Seq::<u8>::empty(),
            r@.sweep == (SweepView { points: Seq::empty(), last_fsa: None, started_ns: now_ns }),
    {
        LidarReader { scanner: LdsScanner::new(), sweep: Sweep::new(now_ns) }
    }

    /// A new connection: the sweep starts over, an unfinished packet is kept.
    pub fn reconnect(&mut self, now_ns: u64)
        requires
            old(self).wf(),
        ensures
            final(self).wf(),
            final(self)@.bytes == old(self)@.bytes,
            final(self)@.sweep == (SweepView {
                points: Seq::empty(),
                last_fsa: None,
                started_ns: now_ns,
            }),
    {
        self.sweep = Sweep::new(now_ns);
    }

    /// Takes bytes that arrived at `now_ns`; gives the sweeps they finish, in order.
    pub fn feed(&mut self, bytes: &[u8], now_ns: u64) -> (scans: Vec<Scan>)
        requires
            old(self).wf(),
        ensures
            final(self).wf(),
            ({
                let (packets, rest) = lds_scan(old(self)@.bytes + bytes@);
                let (end, done) = sweep_all(old(self)@.sweep, packets, now_ns);
                &&& final(self)@.bytes == rest
                &&& final(self)@.sweep == end
                &&& scans_view(scans@) == done
            }),
    {
        let ghost start = self@.sweep;
        let ghost packets = lds_scan(self@.bytes + bytes@).0;
        let frames: Vec<LdsFrame> = self.scanner.collect(bytes);
        let ghost rest = self.scanner@;
        let mut scans: Vec<Scan> = Vec::new();
        let mut i: usize = 0;
        assert(packets.take(0) =~= Seq::<Seq<u8>>::empty());
        assert(scans_view(scans@) =~= Seq::<(Seq<LidarPoint>, u16)>::empty());
        while i < frames.len()
            invariant
                i <= frames@.len(),
                frames_of(frames@) == packet_views(packets),
                frames_of(frames@).len() == frames@.len(),
                packet_views(packets).len() == packets.len(),
                self.scanner.wf(),
                self.scanner@ == rest,
                sweep_all(start, packets.take(i as int), now_ns) == (
                    self.sweep@,
                    scans_view(scans@),
                ),
            decreases frames.len() - i,
        {
            assert(packets.take(i + 1).drop_last() =~= packets.take(i as int));
            assert(frames_of(frames@)[i as int] == packet_views(packets)[i as int]);
            assert(frames@[i as int]@ == packet_view(packets[i as int]));
            let ghost before = scans@;
            if let Some(s) = self.sweep.push(&frames[i], now_ns) {
                scans.push(s);
                assert(scans_view(scans@) =~= scans_view(before).push(s@));
            }
            i = i + 1;
        }
        assert(packets.take(packets.len() as int) =~= packets);
        scans
    }
}

// ---------------------------------------------------------------------------
// Laws
// ---------------------------------------------------------------------------
/// Only sweeps with enough points are published.
pub proof fn law_published_sweeps_are_full(s: SweepView, f: LdsView, now_ns: u64)
    ensures
        sweep_step(s, f, now_ns).1 matches Some(done) ==> done.0.len() >= MIN_POINTS && done.1
            == f.speed,
{
}

/// Every echo is published once or still held, in the order of arrival; what is dropped
/// is a sweep of too few points that a new one replaced.
pub proof fn law_points_are_published_or_held(s: SweepView, f: LdsView, now_ns: u64)
    ensures
        ({
            let (end, done) = sweep_step(s, f, now_ns);
            let new = points_of(f, LDS_SAMPLES as nat);
            match done {
                Some(scan) => scan.0 + end.points == s.points + new,
                None => end.points == s.points + new || (wraps(s.last_fsa, f.fsa)
                    && s.points.len() < MIN_POINTS && end.points == new),
            }
        }),
{
    let (end, done) = sweep_step(s, f, now_ns);
    let new = points_of(f, LDS_SAMPLES as nat);
    if let Some(scan) = done {
        assert(scan.0 + end.points =~= s.points + new);
    } else {
        assert(Seq::<LidarPoint>::empty() + new =~= new);
    }
}

/// No sweep grows on past its time: after a packet that comes later than that, fewer
/// points are held than a publication needs.
pub proof fn law_overdue_sweep_is_flushed(s: SweepView, f: LdsView, now_ns: u64)
    ensures
        elapsed(now_ns, s.started_ns) > MAX_SWEEP_NS && !wraps(s.last_fsa, f.fsa) ==> sweep_step(
            s,
            f,
            now_ns,
        ).0.points.len() < MIN_POINTS,
{
}

/// `p` is the point of sample `k`, which is one of the first `n` and has an echo.
pub open spec fn is_echo(f: LdsView, n: nat, k: int, p: LidarPoint) -> bool {
    0 <= k < n && f.samples[k].valid && point_of(f, k) == p
}

/// `p` is the point of one of the first `n` samples, one with an echo.
pub open spec fn from_echo(f: LdsView, n: nat, p: LidarPoint) -> bool {
    exists|k: int| #[trigger] is_echo(f, n, k, p)
}

/// How many of the first `n` samples have an echo.
pub open spec fn echoes(f: LdsView, n: nat) -> nat
    decreases n,
{
    if n == 0 {
        0
    } else {
        echoes(f, (n - 1) as nat) + (if f.samples[n - 1].valid {
            1nat
        } else {
            0nat
        })
    }
}

/// A packet adds one point for each sample with an echo and none for the others; each
/// point has a quality of at least one.
#[verifier::spinoff_prover]
pub proof fn law_points_come_from_echoes(f: LdsView, n: nat)
    requires
        n <= LDS_SAMPLES,
    ensures
        points_of(f, n).len() == echoes(f, n),
        points_of(f, n).len() <= n,
        forall|i: int| 0 <= i < points_of(f, n).len() ==> points_of(f, n)[i].quality >= 1,
        forall|i: int|
            0 <= i < points_of(f, n).len() ==> from_echo(f, n, #[trigger] points_of(f, n)[i]),
    decreases n,
{
    if n > 0 {
        let m = (n - 1) as nat;
        law_points_come_from_echoes(f, m);
        let before = points_of(f, m);
        let now = points_of(f, n);
        assert forall|i: int| 0 <= i < now.len() implies from_echo(f, n, #[trigger] now[i]) by {
            if i < before.len() {
                assert(now[i] == before[i]);
                assert(from_echo(f, m, before[i]));
                let k = choose|k: int| #[trigger] is_echo(f, m, k, before[i]);
                assert(is_echo(f, n, k, now[i]));
            } else {
                assert(is_echo(f, n, n - 1, now[i]));
            }
        }
    }
}

/// Packets with the times at which they came: the sweep afterwards, and what was
/// published.
pub open spec fn sweep_run(s: SweepView, fs: Seq<(LdsView, u64)>) -> (
    SweepView,
    Seq<(Seq<LidarPoint>, u16)>,
)
    decreases fs.len(),
{
    if fs.len() == 0 {
        (s, Seq::empty())
    } else {
        let (mid, scans) = sweep_run(s, fs.drop_last());
        let (f, now_ns) = fs.last();
        let (end, scan) = sweep_step(mid, f, now_ns);
        (
            end,
            match scan {
                Some(done) => scans.push(done),
                None => scans,
            },
        )
    }
}

/// The points of all packets, in the order of arrival.
pub open spec fn all_points(fs: Seq<(LdsView, u64)>) -> Seq<LidarPoint>
    decreases fs.len(),
{
    if fs.len() == 0 {
        Seq::empty()
    } else {
        all_points(fs.drop_last()) + points_of(fs.last().0, LDS_SAMPLES as nat)
    }
}

/// Which of all points each published sweep holds: from the first number up to the
/// second.
pub open spec fn sweep_spans(s: SweepView, fs: Seq<(LdsView, u64)>) -> Seq<(int, int)>
    decreases fs.len(),
{
    if fs.len() == 0 {
        Seq::empty()
    } else {
        let front = fs.drop_last();
        let mid = sweep_run(s, front).0;
        let (f, now_ns) = fs.last();
        let from = all_points(front).len() - mid.points.len();
        match sweep_step(mid, f, now_ns).1 {
            Some(done) => sweep_spans(s, front).push((from, from + done.0.len())),
            None => sweep_spans(s, front),
        }
    }
}

/// The packets of one read, which came at one time.
pub open spec fn at_time(packets: Seq<Seq<u8>>, now_ns: u64) -> Seq<(LdsView, u64)> {
    packets.map_values(|p: Seq<u8>| (packet_view(p), now_ns))
}

/// Feeding a reader is a run over the packets of its bytes.
pub proof fn law_feed_is_a_run(s: SweepView, packets: Seq<Seq<u8>>, now_ns: u64)
    ensures
        sweep_all(s, packets, now_ns) == sweep_run(s, at_time(packets, now_ns)),
    decreases packets.len(),
{
    if packets.len() > 0 {
        law_feed_is_a_run(s, packets.drop_last(), now_ns);
        assert(at_time(packets, now_ns).drop_last() =~= at_time(packets.drop_last(), now_ns));
    }
}

/// How a connection's packets are cut into reads does not matter.
pub proof fn law_runs_compose(s: SweepView, a: Seq<(LdsView, u64)>, b: Seq<(LdsView, u64)>)
    ensures
        sweep_run(s, a + b) == ({
            let (mid, first) = sweep_run(s, a);
            let (end, second) = sweep_run(mid, b);
            (end, first + second)
        }),
    decreases b.len(),
{
    let (mid, first) = sweep_run(s, a);
    if b.len() == 0 {
        assert(a + b =~= a);
        assert(first + Seq::<(Seq<LidarPoint>, u16)>::empty() =~= first);
    } else {
        law_runs_compose(s, a, b.drop_last());
        assert((a + b).drop_last() =~= a + b.drop_last());
        let (later, second) = sweep_run(mid, b.drop_last());
        if let Some(done) = sweep_step(later, b.last().0, b.last().1).1 {
            assert((first + second).push(done) =~= first + second.push(done));
        }
    }
}

/// Over all packets of a connection: each published sweep is a run of the echoes' points
/// in the order of arrival, of enough points; no two sweeps share a point, and they come
/// in order; what is held is what came last.
#[verifier::spinoff_prover]
pub proof fn law_sweeps_partition_the_stream(s: SweepView, fs: Seq<(LdsView, u64)>)
    requires
        s.points.len() == 0,
    ensures
        ({
            let (end, scans) = sweep_run(s, fs);
            let spans = sweep_spans(s, fs);
            let all = all_points(fs);
            let done = all.len() - end.points.len();
            &&& spans.len() == scans.len()
            &&& forall|i: int|
                0 <= i < scans.len() ==> {
                    let (from, to) = #[trigger] spans[i];
                    &&& 0 <= from <= to <= done
                    &&& scans[i].0 == all.subrange(from, to)
                    &&& scans[i].0.len() >= MIN_POINTS
                }
            &&& forall|i: int, j: int|
                0 <= i < j < scans.len() ==> (#[trigger] spans[i]).1 <= (#[trigger] spans[j]).0
            &&& 0 <= done
            &&& end.points == all.skip(done)
        }),
    decreases fs.len(),
{
    if fs.len() == 0 {
        assert(s.points =~= all_points(fs).skip(0));
    } else {
        let front = fs.drop_last();
        law_sweeps_partition_the_stream(s, front);
        let (mid, before) = sweep_run(s, front);
        let (f, now_ns) = fs.last();
        let (end, scan) = sweep_step(mid, f, now_ns);
        let (_, scans) = sweep_run(s, fs);
        let old_spans = sweep_spans(s, front);
        let spans = sweep_spans(s, fs);
        let old_all = all_points(front);
        let new = points_of(f, LDS_SAMPLES as nat);
        let all = all_points(fs);
        let from = old_all.len() - mid.points.len();
        let done = all.len() - end.points.len();
        law_points_are_published_or_held(mid, f, now_ns);
        assert(all == old_all + new);
        assert(from <= done);
        assert(end.points =~= all.skip(done)) by {
            if end.points.len() == mid.points.len() + new.len() {
                assert(end.points =~= mid.points + new);
            }
        }
        assert forall|i: int| 0 <= i < scans.len() implies {
            let (a, b) = #[trigger] spans[i];
            &&& 0 <= a <= b <= done
            &&& scans[i].0 == all.subrange(a, b)
            &&& scans[i].0.len() >= MIN_POINTS
        } by {
            if i < before.len() {
                let (a, b) = old_spans[i];
                assert(spans[i] == old_spans[i]);
                assert(scans[i] == before[i]);
                assert(all.subrange(a, b) =~= old_all.subrange(a, b));
            } else {
                let out = scan.unwrap();
                assert(scans[i] == out);
                assert(spans[i] == (from, from + out.0.len()));
                assert(out.0 =~= all.subrange(from, from + out.0.len()));
            }
        }
        assert forall|i: int, j: int| 0 <= i < j < scans.len() implies (#[trigger] spans[i]).1 <= (
        #[trigger] spans[j]).0 by {
            assert(spans[i] == old_spans[i]);
            if j < before.len() {
                assert(spans[j] == old_spans[j]);
            }
        }
    }
}

/// The point of a sample with an echo: its place on the circle, its distance, and a
/// quality of at least one.
pub open spec fn echo_point(f: LdsView, k: int) -> LidarPoint {
    LidarPoint {
        angle: f.angle(k),
        dist_mm: f.samples[k].dist_mm,
        quality: if f.samples[k].quality == 0 {
            1
        } else {
            f.samples[k].quality
        },
    }
}

/// The numbers of the first `n` samples.
pub open spec fn sample_numbers(n: nat) -> Seq<int> {
    Seq::new(n, |k: int| k)
}

/// A packet's points are the points of its samples with an echo, in their order.
pub proof fn law_points_are_the_echoes_in_order(f: LdsView, n: nat)
    ensures
        points_of(f, n) == sample_numbers(n).filter(|k: int| f.samples[k].valid).map_values(
            |k: int| echo_point(f, k),
        ),
    decreases n,
{
    reveal(Seq::filter);
    let valid = |k: int| f.samples[k].valid;
    let point = |k: int| echo_point(f, k);
    let ks = sample_numbers(n);
    if n > 0 {
        let m = (n - 1) as nat;
        law_points_are_the_echoes_in_order(f, m);
        assert(ks.drop_last() =~= sample_numbers(m));
        let before = sample_numbers(m).filter(valid);
        if f.samples[n - 1].valid {
            assert(ks.filter(valid) == before.push(n - 1));
            assert(before.push(n - 1).map_values(point) =~= before.map_values(point).push(
                echo_point(f, n - 1),
            ));
        }
    } else {
        assert(ks.filter(valid).map_values(point) =~= Seq::<LidarPoint>::empty());
    }
}

/// A packet whose first angle lies more than 4000 below that of the packet before, by
/// however much, ends the sweep: what was held is published if it is 16 points or more,
/// and dropped if not; what is held afterwards is that packet's points alone, from now.
pub proof fn law_drop_of_the_angle_ends_the_sweep(
    s: SweepView,
    prev: u16,
    f: LdsView,
    now_ns: u64,
)
    requires
        s.last_fsa == Some(prev),
        prev > f.fsa + 4000,
    ensures
        ({
            let (end, scan) = sweep_step(s, f, now_ns);
            &&& s.points.len() >= 16 ==> scan == Some((s.points, f.speed))
            &&& s.points.len() < 16 ==> scan is None
            &&& end.points == points_of(f, 8)
            &&& end.started_ns == now_ns
            &&& end.last_fsa == Some(f.fsa)
        }),
{
    assert(Seq::<LidarPoint>::empty() + points_of(f, 8) =~= points_of(f, 8));
}

/// A packet whose first angle does not fall back that far goes on with the sweep: its
/// points come behind those held. They are all published together only when more than a
/// second has passed since the sweep began and there are 16 or more; then nothing is held.
pub proof fn law_rising_angle_goes_on(s: SweepView, f: LdsView, now_ns: u64)
    requires
        s.last_fsa matches Some(prev) ==> prev <= f.fsa + 4000,
    ensures
        ({
            let (end, scan) = sweep_step(s, f, now_ns);
            let all = s.points + points_of(f, 8);
            let flush = now_ns > s.started_ns + 1_000_000_000 && all.len() >= 16;
            &&& flush ==> scan == Some((all, f.speed)) && end.points.len() == 0 && end.started_ns
                == now_ns
            &&& !flush ==> scan is None && end.points == all && end.started_ns == s.started_ns
            &&& end.last_fsa == Some(f.fsa)
        }),
{
}

} // verus!
