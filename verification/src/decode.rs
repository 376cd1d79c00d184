//! Summaries of the live streams.
use vstd::arithmetic::div_mod::lemma_fundamental_div_mod;
use vstd::prelude::*;
use crate::frame::{parse_body, FrameError, FrameScanner, ScanView};
use crate::frame::{bodies_of, body_of, law_parse_inverts_body, parsed, scan};
use crate::lds::{LdsFrame, LdsScanner, LdsView, LDS_SAMPLES};
use crate::lds::{frames_of, lds_scan, packet_views};
use crate::message::{Battery, Msg, Status100ms, Status10ms, Status20ms, Triggers};
use crate::message::{decoded, law_flags_by_value};
use crate::text::{push_bool, push_dec, push_hex2, push_number};
use crate::text::{bool_text, dec, hex2, law_hex_is_read_back, pad_left};

verus! {

/// How often the lidar's stream is reported on, in nanoseconds.
pub const LDS_REPORT_NS: u64 = 500_000_000;

/// How often the changing bytes are shown.
pub const WATCH_REPORT_NS: u64 = 1_000_000_000;

/// How often the motor controller's stream is reported on.
pub const MCU_REPORT_NS: u64 = 400_000_000;

/// True when a report is due, `since_ns` after the one before.
pub fn report_due(since_ns: u64, every_ns: u64) -> (r: bool)
    ensures
        r == (since_ns >= every_ns),
{
    since_ns >= every_ns
}

// ---------------------------------------------------------------------------
// The lidar's packets
// ---------------------------------------------------------------------------
/// What a stretch of the lidar's stream held.
pub struct LdsTally {
    /// Packets.
    pub frames: nat,
    /// Samples with an echo.
    pub valid: nat,
    /// Samples without one.
    pub invalid: nat,
    /// The speed that the latest packet reports.
    pub speed: u16,
    /// The smallest distance of an echo.
    pub dmin: u16,
    /// The largest.
    pub dmax: u16,
    /// The sum of all.
    pub dsum: nat,
    /// The smallest and the largest angle of an echo.
    pub sector: Option<(u16, u16)>,
}

pub open spec fn min16(a: u16, b: u16) -> u16 {
    if a <= b {
        a
    } else {
        b
    }
}

pub open spec fn max16(a: u16, b: u16) -> u16 {
    if a >= b {
        a
    } else {
        b
    }
}

impl LdsTally {
    /// Nothing yet; the speed is what it was.
    pub open spec fn none(speed: u16) -> LdsTally {
        LdsTally {
            frames: 0,
            valid: 0,
            invalid: 0,
            speed,
            dmin: 65535,
            dmax: 0,
            dsum: 0,
            sector: None,
        }
    }

    /// With sample `k` of a packet.
    pub open spec fn with_sample(self, f: LdsView, k: int) -> LdsTally {
        let s = f.samples[k];
        if s.valid {
            LdsTally {
                valid: self.valid + 1,
                dmin: min16(self.dmin, s.dist_mm),
                dmax: max16(self.dmax, s.dist_mm),
                dsum: self.dsum + s.dist_mm as nat,
                sector: match self.sector {
                    Some((lo, hi)) => Some((min16(lo, f.angle(k)), max16(hi, f.angle(k)))),
                    None => Some((f.angle(k), f.angle(k))),
                },
                ..self
            }
        } else {
            LdsTally { invalid: self.invalid + 1, ..self }
        }
    }

    /// With the first `n` samples of a packet.
    pub open spec fn with_samples(self, f: LdsView, n: nat) -> LdsTally
        decreases n,
    {
        if n == 0 {
            self
        } else {
            self.with_samples(f, (n - 1) as nat).with_sample(f, n - 1)
        }
    }

    /// With a packet.
    pub open spec fn with_frame(self, f: LdsView) -> LdsTally {
        LdsTally { frames: self.frames + 1, speed: f.speed, ..self }.with_samples(
            f,
            LDS_SAMPLES as nat,
        )
    }

    /// With several packets.
    pub open spec fn with_frames(self, fs: Seq<LdsView>) -> LdsTally
        decreases fs.len(),
    {
        if fs.len() == 0 {
            self
        } else {
            self.with_frames(fs.drop_last()).with_frame(fs.last())
        }
    }

    /// The mean distance, rounded down.
    pub open spec fn mean(self) -> nat {
        if self.valid > 0 {
            self.dsum / self.valid
        } else {
            0
        }
    }

    /// Every sample of every packet is counted, and the distances lie between their
    /// bounds.
    pub open spec fn wf(self) -> bool {
        &&& self.valid + self.invalid == LDS_SAMPLES * self.frames
        &&& self.dmin * self.valid <= self.dsum <= self.dmax * self.valid
        &&& self.sector is Some <==> self.valid > 0
        &&& self.valid > 0 ==> self.dmin <= self.dmax
        &&& self.sector matches Some((lo, hi)) ==> lo <= hi
    }
}

/// The line that reports a tally. `sector` is its sector in degrees.
pub open spec fn lds_line(t: LdsTally, sector: Seq<char>) -> Seq<char> {
    if t.frames == 0 {
        "---- lds: no frames (turret idle? start navigation / manual control)"@
    } else {
        "---- lds: "@ + dec(t.frames) + " pkt  speed="@ + dec(t.speed as nat) + "  sector="@
            + sector + "deg  pts valid="@ + dec(t.valid) + " invalid="@ + dec(t.invalid)
            + "  dist "@ + dec(t.dmin as nat) + ".."@ + dec(t.dmax as nat) + "mm mean="@ + dec(
            t.mean(),
        ) + "mm"@
    }
}

/// How many packets a stretch may hold for the sum of its distances to fit.
pub const MAX_FRAMES: u64 = 0x1000_0000_0000;

/// Where a lidar summary stands: the bytes of an unfinished packet and the tally.
pub struct LdsSummaryView {
    pub bytes: Seq<u8>,
    pub tally: LdsTally,
}

/// Summarises the lidar's stream.
pub struct LdsSummary {
    scanner: LdsScanner,
    frames: u64,
    valid: u64,
    invalid: u64,
    speed: u16,
    dmin: u16,
    dmax: u16,
    dsum: u64,
    sector: Option<(u16, u16)>,
}

impl View for LdsSummary {
    type V = LdsSummaryView;

    closed spec fn view(&self) -> LdsSummaryView {
        LdsSummaryView { bytes: self.scanner@, tally: self.tally() }
    }
}

proof fn lemma_with_sample(t: LdsTally, f: LdsView, k: int)
    requires
        t.dmin * t.valid <= t.dsum <= t.dmax * t.valid,
        t.sector is Some <==> t.valid > 0,
        t.valid > 0 ==> t.dmin <= t.dmax,
        t.sector matches Some((lo, hi)) ==> lo <= hi,
    ensures
        ({
            let u = t.with_sample(f, k);
            &&& u.dmin * u.valid <= u.dsum <= u.dmax * u.valid
            &&& u.sector is Some <==> u.valid > 0
            &&& u.valid > 0 ==> u.dmin <= u.dmax
            &&& u.sector matches Some((lo, hi)) ==> lo <= hi
            &&& u.valid + u.invalid == t.valid + t.invalid + 1
            &&& u.frames == t.frames
            &&& u.speed == t.speed
        }),
{
    let s = f.samples[k];
    if s.valid {
        let u = t.with_sample(f, k);
        let d = s.dist_mm as int;
        let (a, b, n) = (t.dmin as int, t.dmax as int, t.valid as int);
        let (a2, b2) = (u.dmin as int, u.dmax as int);
        let sum = t.dsum as int;
        assert(a2 * (n + 1) <= sum + d && sum + d <= b2 * (n + 1)) by (nonlinear_arith)
            requires
                a2 <= a,
                a2 <= d,
                b2 >= b,
                b2 >= d,
                n >= 0,
                a * n <= sum <= b * n,
        ;
    }
}

impl LdsSummary {
    closed spec fn tally(&self) -> LdsTally {
        LdsTally {
            frames: self.frames as nat,
            valid: self.valid as nat,
            invalid: self.invalid as nat,
            speed: self.speed,
            dmin: self.dmin,
            dmax: self.dmax,
            dsum: self.dsum as nat,
            sector: self.sector,
        }
    }

    pub closed spec fn wf(&self) -> bool {
        self.scanner.wf() && self.tally().wf()
    }

    pub fn new() -> (s: LdsSummary)
        ensures
            s.wf(),
            s@ == (LdsSummaryView { bytes: Seq::empty(), tally: LdsTally::none(0) }),
            s@.tally.wf(),
    {
        LdsSummary {
            scanner: LdsScanner::new(),
            frames: 0,
            valid: 0,
            invalid: 0,
            speed: 0,
            dmin: 65535,
            dmax: 0,
            dsum: 0,
            sector: None,
        }
    }

    fn count_sample(&mut self, f: &LdsFrame, k: usize)
        requires
            k < LDS_SAMPLES,
            old(self).valid < u64::MAX,
            old(self).invalid < u64::MAX,
            old(self).dsum + 65535 <= u64::MAX,
        ensures
            final(self).scanner == old(self).scanner,
            final(self).tally() == old(self).tally().with_sample(f@, k as int),
    {
        let valid: bool = f.samples[k].valid;
        let dist: u16 = f.samples[k].dist_mm;
        if valid {
            self.valid = self.valid + 1;
            if dist < self.dmin {
                self.dmin = dist;
            }
            if dist > self.dmax {
                self.dmax = dist;
            }
            self.dsum = self.dsum + dist as u64;
            let a: u16 = f.sample_angle(k);
            self.sector = match self.sector {
                Some((lo, hi)) => Some(
                    (
                        if a < lo {
                            a
                        } else {
                            lo
                        },
                        if a > hi {
                            a
                        } else {
                            hi
                        },
                    ),
                ),
                None => Some((a, a)),
            };
        } else {
            self.invalid = self.invalid + 1;
        }
    }

    fn count_frame(&mut self, f: &LdsFrame)
        requires
            old(self).tally().wf(),
            old(self).frames < MAX_FRAMES,
        ensures
            final(self).scanner == old(self).scanner,
            final(self).tally() == old(self).tally().with_frame(f@),
            final(self).tally().wf(),
    {
        self.frames = self.frames + 1;
        self.speed = f.speed;
        let ghost start = self.tally();
        let mut k: usize = 0;
        while k < LDS_SAMPLES
            invariant
                k <= LDS_SAMPLES,
                self.scanner == old(self).scanner,
                start.frames <= MAX_FRAMES,
                start.valid + start.invalid + 8 == 8 * start.frames,
                self.tally() == start.with_samples(f@, k as nat),
                self.tally().frames == start.frames,
                self.tally().valid + self.tally().invalid == start.valid + start.invalid + k,
                self.tally().dmin * self.tally().valid <= self.tally().dsum <= self.tally().dmax
                    * self.tally().valid,
                self.tally().sector is Some <==> self.tally().valid > 0,
                self.tally().valid > 0 ==> self.tally().dmin <= self.tally().dmax,
                self.tally().sector matches Some((lo, hi)) ==> lo <= hi,
            decreases LDS_SAMPLES - k,
        {
            let ghost t = self.tally();
            proof {
                let (b, n) = (t.dmax as int, t.valid as int);
                assert(b * n <= 65535 * n) by (nonlinear_arith)
                    requires
                        b <= 65535,
                        n >= 0,
                ;
                lemma_with_sample(t, f@, k as int);
            }
            self.count_sample(f, k);
            k = k + 1;
        }
    }

    /// Takes bytes of the stream.
    pub fn feed(&mut self, bytes: &[u8])
        requires
            old(self).wf(),
            old(self)@.tally.frames + bytes@.len() <= MAX_FRAMES,
        ensures
            final(self).wf(),
            final(self)@.bytes == lds_scan(old(self)@.bytes + bytes@).1,
            final(self)@.tally == old(self)@.tally.with_frames(
                packet_views(lds_scan(old(self)@.bytes + bytes@).0),
            ),
            final(self)@.tally.frames <= old(self)@.tally.frames + bytes@.len(),
            final(self)@.tally.wf(),
    {
        let ghost start = self.tally();
        let v: Vec<LdsFrame> = self.scanner.collect(bytes);
        let ghost all = frames_of(v@);
        let mut i: usize = 0;
        assert(all.take(0) =~= Seq::<LdsView>::empty());
        assert(self.tally() == start);
        let ghost scanner = self.scanner;
        while i < v.len()
            invariant
                i <= v@.len(),
                v@.len() <= bytes@.len(),
                all == frames_of(v@),
                start.frames + bytes@.len() <= MAX_FRAMES,
                self.scanner == scanner,
                self.tally().wf(),
                self.tally() == start.with_frames(all.take(i as int)),
                self.frames == start.frames + i,
            decreases v.len() - i,
        {
            assert(all.take(i + 1).drop_last() =~= all.take(i as int));
            assert(all.take(i + 1).last() == v@[i as int]@);
            proof {
                lemma_with_samples_frames(
                    LdsTally {
                        frames: self.tally().frames + 1,
                        speed: v@[i as int]@.speed,
                        ..self.tally()
                    },
                    v@[i as int]@,
                    LDS_SAMPLES as nat,
                );
            }
            self.count_frame(&v[i]);
            i = i + 1;
        }
        assert(all.take(all.len() as int) =~= all);
    }

    /// Packets in this stretch.
    pub fn frames(&self) -> (n: u64)
        ensures
            n as nat == self@.tally.frames,
    {
        self.frames
    }

    /// The sector that the echoes came from, as smallest and largest angle; a full circle
    /// is 65536.
    pub fn sector(&self) -> (r: Option<(u16, u16)>)
        ensures
            r == self@.tally.sector,
    {
        self.sector
    }

    /// The report, given its sector in degrees.
    pub fn line(&self, sector: &str) -> (s: String)
        ensures
            s@ == lds_line(self@.tally, sector@),
    {
        let mut s: String = String::new();
        if self.frames == 0 {
            s.append("---- lds: no frames (turret idle? start navigation / manual control)");
            assert(s@ =~= lds_line(self@.tally, sector@));
            return s;
        }
        let mean: u64 = if self.valid > 0 {
            self.dsum / self.valid
        } else {
            0
        };
        s.append("---- lds: ");
        push_dec(&mut s, self.frames);
        s.append(" pkt  speed=");
        push_dec(&mut s, self.speed as u64);
        s.append("  sector=");
        s.append(sector);
        s.append("deg  pts valid=");
        push_dec(&mut s, self.valid);
        s.append(" invalid=");
        push_dec(&mut s, self.invalid);
        s.append("  dist ");
        push_dec(&mut s, self.dmin as u64);
        s.append("..");
        push_dec(&mut s, self.dmax as u64);
        s.append("mm mean=");
        push_dec(&mut s, mean);
        s.append("mm");
        assert(s@ =~= lds_line(self@.tally, sector@));
        s
    }

    /// Begins the next stretch.
    pub fn reset(&mut self)
        requires
            old(self).wf(),
        ensures
            final(self).wf(),
            final(self)@ == (LdsSummaryView {
                bytes: old(self)@.bytes,
                tally: LdsTally::none(old(self)@.tally.speed),
            }),
            final(self)@.tally.wf(),
    {
        self.frames = 0;
        self.valid = 0;
        self.invalid = 0;
        self.dmin = 65535;
        self.dmax = 0;
        self.dsum = 0;
        self.sector = None;
    }
}

proof fn lemma_with_samples_frames(t: LdsTally, f: LdsView, n: nat)
    ensures
        t.with_samples(f, n).frames == t.frames,
    decreases n,
{
    if n > 0 {
        lemma_with_samples_frames(t, f, (n - 1) as nat);
    }
}

// ---------------------------------------------------------------------------
// Every frame of one type
// ---------------------------------------------------------------------------
/// The payloads of the frames of one type.
pub open spec fn payloads(typ: u8, bodies: Seq<Seq<u8>>) -> Seq<Seq<u8>>
    decreases bodies.len(),
{
    if bodies.len() == 0 {
        Seq::empty()
    } else {
        let before = payloads(typ, bodies.drop_last());
        match parsed(bodies.last()) {
            Ok((t, p)) => if t == typ {
                before.push(p)
            } else {
                before
            },
            Err(_) => before,
        }
    }
}

/// The bytes in hexadecimal with a space between each two.
pub open spec fn hex_joined(p: Seq<u8>) -> Seq<char>
    decreases p.len(),
{
    if p.len() == 0 {
        Seq::empty()
    } else if p.len() == 1 {
        hex2(p[0])
    } else {
        hex_joined(p.drop_last()) + " "@ + hex2(p.last())
    }
}

/// The line for a frame that came after `ms` milliseconds.
pub open spec fn log_line_text(ms: nat, p: Seq<u8>) -> Seq<char> {
    pad_left(dec(ms), 6, ' ') + "  "@ + hex_joined(p)
}

/// The line for a frame that came after `ms` milliseconds.
pub fn log_line(ms: u64, p: &[u8]) -> (s: String)
    ensures
        s@ == log_line_text(ms as nat, p@),
{
    let mut s: String = String::new();
    push_number(&mut s, ms, 10, 6, ' ');
    s.append("  ");
    let ghost head = s@;
    let mut i: usize = 0;
    assert(p@.take(0) =~= Seq::<u8>::empty());
    assert(head + hex_joined(p@.take(0)) =~= head);
    while i < p.len()
        invariant
            i <= p@.len(),
            s@ == head + hex_joined(p@.take(i as int)),
        decreases p.len() - i,
    {
        assert(p@.take(i + 1).drop_last() =~= p@.take(i as int));
        let ghost before = s@;
        if i > 0 {
            s.append(" ");
        }
        push_hex2(&mut s, p[i]);
        assert(s@ =~= head + hex_joined(p@.take(i + 1)));
        i = i + 1;
    }
    assert(p@.take(p@.len() as int) =~= p@);
    assert(s@ =~= log_line_text(ms as nat, p@));
    s
}

/// Picks the frames of one type out of a stream.
pub struct FrameLog {
    scanner: FrameScanner,
    typ: u8,
}

/// Where a frame log stands, and the type that it picks.
pub struct FrameLogView {
    pub scan: ScanView,
    pub typ: u8,
}

impl View for FrameLog {
    type V = FrameLogView;

    closed spec fn view(&self) -> FrameLogView {
        FrameLogView { scan: self.scanner@, typ: self.typ }
    }
}

impl FrameLog {
    pub fn new(typ: u8) -> (l: FrameLog)
        ensures
            l@ == (FrameLogView { scan: ScanView::Outside, typ }),
    {
        FrameLog { scanner: FrameScanner::new(), typ }
    }

    /// Takes bytes of the stream; gives the payloads of the frames to print, in order.
    pub fn feed(&mut self, bytes: &[u8]) -> (v: Vec<Vec<u8>>)
        ensures
            final(self)@.scan == scan(old(self)@.scan, bytes@).0,
            final(self)@.typ == old(self)@.typ,
            bodies_of(v@) == payloads(old(self)@.typ, scan(old(self)@.scan, bytes@).1),
    {
        let typ: u8 = self.typ;
        let mut v: Vec<Vec<u8>> = Vec::new();
        let bodies: Vec<Vec<u8>> = self.scanner.collect(bytes);
        let ghost all = bodies_of(bodies@);
        let mut i: usize = 0;
        assert(all.take(0) =~= Seq::<Seq<u8>>::empty());
        assert(bodies_of(v@) =~= Seq::<Seq<u8>>::empty());
        while i < bodies.len()
            invariant
                i <= bodies@.len(),
                all == bodies_of(bodies@),
                bodies_of(v@) == payloads(typ, all.take(i as int)),
            decreases bodies.len() - i,
        {
            let body: &[u8] = bodies[i].as_slice();
            assert(all.take(i + 1).drop_last() =~= all.take(i as int));
            assert(all.take(i + 1).last() == body@);
            if let Ok((t, p)) = parse_body(body) {
                if t == typ {
                    let ghost before = v@;
                    let mut copy: Vec<u8> = Vec::new();
                    copy.extend_from_slice(p);
                    assert(copy@ =~= p@);
                    v.push(copy);
                    assert(bodies_of(v@) =~= bodies_of(before).push(p@));
                }
            }
            i = i + 1;
        }
        assert(all.take(all.len() as int) =~= all);
        v
    }
}

// ---------------------------------------------------------------------------
// The motor controller's frames
// ---------------------------------------------------------------------------
/// The latest message of each kind.
#[derive(Clone, Copy, Debug, PartialEq, Eq, Structural)]
pub struct Latest {
    pub s20: Option<Status20ms>,
    pub s10: Option<Status10ms>,
    pub s100: Option<Status100ms>,
    pub batt: Option<Battery>,
    pub trig: Option<Triggers>,
}

impl Latest {
    /// No message yet.
    pub open spec fn spec_none() -> Latest {
        Latest { s20: None, s10: None, s100: None, batt: None, trig: None }
    }

    /// With one message more.
    pub open spec fn updated(self, m: Msg) -> Latest {
        match m {
            Msg::Status20ms(s) => Latest { s20: Some(s), ..self },
            Msg::Status10ms(s) => Latest { s10: Some(s), ..self },
            Msg::Status100ms(s) => Latest { s100: Some(s), ..self },
            Msg::Battery(b) => Latest { batt: Some(b), ..self },
            Msg::Triggers(t) => Latest { trig: Some(t), ..self },
            _ => self,
        }
    }

    pub fn none() -> (l: Latest)
        ensures
            l == Latest::spec_none(),
    {
        Latest { s20: None, s10: None, s100: None, batt: None, trig: None }
    }

    /// Takes one message.
    pub fn update(&mut self, m: &Msg)
        ensures
            *final(self) == old(self).updated(*m),
    {
        match m {
            Msg::Status20ms(s) => {
                self.s20 = Some(*s);
            },
            Msg::Status10ms(s) => {
                self.s10 = Some(*s);
            },
            Msg::Status100ms(s) => {
                self.s100 = Some(*s);
            },
            Msg::Battery(b) => {
                self.batt = Some(*b);
            },
            Msg::Triggers(t) => {
                self.trig = Some(*t);
            },
            _ => {},
        }
    }
}

/// Where a frame summary stands.
pub struct McuSummaryView {
    pub scan: ScanView,
    /// How many frames of each type came.
    pub counts: Seq<u64>,
    /// How many frames were damaged.
    pub crc_errors: u64,
    pub latest: Latest,
}

impl McuSummaryView {
    /// With one frame body more.
    pub open spec fn with_body(self, body: Seq<u8>) -> McuSummaryView {
        match parsed(body) {
            Ok((typ, p)) => McuSummaryView {
                counts: self.counts.update(typ as int, (self.counts[typ as int] + 1) as u64),
                latest: self.latest.updated(decoded(typ, p)),
                ..self
            },
            Err(FrameError::Crc { expected, found }) => McuSummaryView {
                crc_errors: (self.crc_errors + 1) as u64,
                ..self
            },
            Err(_) => self,
        }
    }

    /// With several frame bodies more.
    pub open spec fn with_bodies(self, bodies: Seq<Seq<u8>>) -> McuSummaryView
        decreases bodies.len(),
    {
        if bodies.len() == 0 {
            self
        } else {
            self.with_bodies(bodies.drop_last()).with_body(bodies.last())
        }
    }

    /// There is a count for each type, and no count is above `n`.
    pub open spec fn counts_up_to(self, n: nat) -> bool {
        self.counts.len() == 256 && self.crc_errors <= n && forall|t: int|
            0 <= t < 256 ==> #[trigger] self.counts[t] <= n
    }
}

/// The counts of the first `n` types that came.
pub open spec fn histogram(counts: Seq<u64>, n: nat) -> Seq<char>
    decreases n,
{
    if n == 0 {
        Seq::empty()
    } else {
        let before = histogram(counts, (n - 1) as nat);
        if counts[n - 1] > 0 {
            before + "0x"@ + hex2((n - 1) as u8) + ":"@ + dec(counts[n - 1] as nat) + " "@
        } else {
            before
        }
    }
}

/// The line that reports the counts.
pub open spec fn frames_line_text(counts: Seq<u64>, crc_errors: u64) -> Seq<char> {
    "---- frames: "@ + histogram(counts, 256) + " crc_err:"@ + dec(crc_errors as nat)
}

/// The line that reports the flags. `ir_dock` and `faults` are the texts of the dock's
/// infrared readings and of the faults.
pub open spec fn trigger_line_text(t: Triggers, ir_dock: Seq<char>, faults: Seq<char>) -> Seq<
    char,
> {
    "  trig : dock="@ + bool_text(t.spec_bit(32)) + " bumpL="@ + bool_text(t.spec_bit(4))
        + " bumpR="@ + bool_text(t.spec_bit(5)) + " floatL="@ + bool_text(t.spec_bit(6))
        + " floatR="@ + bool_text(t.spec_bit(7)) + " irDock=["@ + ir_dock + "]  err["@ + faults
        + "]"@
}

/// The line that reports the flags, given the texts of the dock's infrared readings and of
/// the faults, whose places among the flags are not settled.
pub fn trigger_line(t: &Triggers, ir_dock: &str, faults: &str) -> (s: String)
    ensures
        s@ == trigger_line_text(*t, ir_dock@, faults@),
{
    let mut s: String = String::new();
    s.append("  trig : dock=");
    push_bool(&mut s, t.dock_sta());
    s.append(" bumpL=");
    push_bool(&mut s, t.left_bumper());
    s.append(" bumpR=");
    push_bool(&mut s, t.right_bumper());
    s.append(" floatL=");
    push_bool(&mut s, t.left_wheel_floating());
    s.append(" floatR=");
    push_bool(&mut s, t.right_wheel_floating());
    s.append(" irDock=[");
    s.append(ir_dock);
    s.append("]  err[");
    s.append(faults);
    s.append("]");
    assert(s@ =~= trigger_line_text(*t, ir_dock@, faults@));
    s
}

/// Summarises the motor controller's stream.
pub struct McuSummary {
    scanner: FrameScanner,
    counts: Vec<u64>,
    crc_errors: u64,
    latest: Latest,
}

impl View for McuSummary {
    type V = McuSummaryView;

    closed spec fn view(&self) -> McuSummaryView {
        McuSummaryView {
            scan: self.scanner@,
            counts: self.counts@,
            crc_errors: self.crc_errors,
            latest: self.latest,
        }
    }
}

impl McuSummary {
    pub fn new() -> (s: McuSummary)
        ensures
            s@ == (McuSummaryView {
                scan: ScanView::Outside,
                counts: Seq::new(256, |t: int| 0u64),
                crc_errors: 0,
                latest: Latest::spec_none(),
            }),
            s@.counts_up_to(0),
    {
        let s: McuSummary = McuSummary {
            scanner: FrameScanner::new(),
            counts: vec![0u64; 256],
            crc_errors: 0,
            latest: Latest::none(),
        };
        assert(s@.counts =~= Seq::new(256, |t: int| 0u64));
        s
    }

    /// The latest message of each kind.
    pub fn latest(&self) -> (l: Latest)
        ensures
            l == self@.latest,
    {
        self.latest
    }

    /// Takes bytes of the stream.
    pub fn feed(&mut self, bytes: &[u8])
        requires
            exists|n: nat| #[trigger] old(self)@.counts_up_to(n) && n + bytes@.len() <= u64::MAX,
        ensures
            final(self)@ == (McuSummaryView {
                scan: scan(old(self)@.scan, bytes@).0,
                ..old(self)@.with_bodies(scan(old(self)@.scan, bytes@).1)
            }),
            forall|n: nat| #[trigger]
                old(self)@.counts_up_to(n) ==> final(self)@.counts_up_to(n + bytes@.len()),
    {
        let ghost start = self@;
        let ghost n = choose|n: nat| #[trigger]
            start.counts_up_to(n) && n + bytes@.len() <= u64::MAX;
        let bodies: Vec<Vec<u8>> = self.scanner.collect(bytes);
        let ghost end = self.scanner@;
        let ghost all = bodies_of(bodies@);
        let mut i: usize = 0;
        assert(all.take(0) =~= Seq::<Seq<u8>>::empty());
        while i < bodies.len()
            invariant
                i <= bodies@.len(),
                bodies@.len() <= bytes@.len(),
                all == bodies_of(bodies@),
                self.scanner@ == end,
                n + bytes@.len() <= u64::MAX,
                start.counts_up_to(n),
                self@ == (McuSummaryView {
                    scan: end,
                    ..start.with_bodies(all.take(i as int))
                }),
                self@.counts_up_to(n + i as nat),
                forall|m: nat| #[trigger]
                    start.counts_up_to(m) ==> self@.counts_up_to(m + i as nat),
            decreases bodies.len() - i,
        {
            let ghost before = self@;
            let body: &[u8] = bodies[i].as_slice();
            assert(all.take(i + 1).drop_last() =~= all.take(i as int));
            assert(all.take(i + 1).last() == body@);
            match parse_body(body) {
                Ok((typ, p)) => {
                    assert(before.counts[typ as int] <= n + i as nat);
                    let c: u64 = self.counts[typ as usize] + 1;
                    self.counts.set(typ as usize, c);
                    let m: Msg = Msg::decode(typ, p);
                    self.latest.update(&m);
                },
                Err(FrameError::Crc { expected, found }) => {
                    self.crc_errors = self.crc_errors + 1;
                },
                Err(_) => {},
            }
            assert(self@ == before.with_body(body@));
            assert forall|m: nat| #[trigger] start.counts_up_to(m) implies self@.counts_up_to(
                m + (i + 1) as nat,
            ) by {
                assert(before.counts_up_to(m + i as nat));
                assert forall|t: int| 0 <= t < 256 implies #[trigger] self@.counts[t] <= m + (i
                    + 1) by {
                    assert(before.counts[t] <= m + i as nat);
                }
            }
            i = i + 1;
        }
        assert(all.take(all.len() as int) =~= all);
        assert forall|m: nat| #[trigger] start.counts_up_to(m) implies self@.counts_up_to(
            m + bytes@.len(),
        ) by {
            assert(self@.counts_up_to(m + i as nat));
        }
    }

    /// The line that reports the counts.
    pub fn frames_line(&self) -> (s: String)
        requires
            self@.counts.len() == 256,
        ensures
            s@ == frames_line_text(self@.counts, self@.crc_errors),
    {
        let mut s: String = String::new();
        s.append("---- frames: ");
        let ghost head = s@;
        let mut t: usize = 0;
        assert(head + histogram(self@.counts, 0) =~= head);
        while t < 256
            invariant
                t <= 256,
                self@.counts.len() == 256,
                s@ == head + histogram(self@.counts, t as nat),
            decreases 256 - t,
        {
            let c: u64 = self.counts[t];
            if c > 0 {
                s.append("0x");
                push_hex2(&mut s, t as u8);
                s.append(":");
                push_dec(&mut s, c);
                s.append(" ");
            }
            t = t + 1;
            assert(s@ =~= head + histogram(self@.counts, t as nat));
        }
        s.append(" crc_err:");
        push_dec(&mut s, self.crc_errors);
        assert(s@ =~= frames_line_text(self@.counts, self@.crc_errors));
        s
    }
}

// ---------------------------------------------------------------------------
// Laws
// ---------------------------------------------------------------------------
/// A tally accounts for every sample of every packet, and the mean distance lies between
/// the smallest and the largest.
pub proof fn law_tally_adds_up(t: LdsTally)
    requires
        t.wf(),
    ensures
        t.valid + t.invalid == 8 * t.frames,
        t.valid > 0 ==> t.dmin <= t.mean() <= t.dmax,
{
    if t.valid > 0 {
        let (a, b, n, sum) = (t.dmin as int, t.dmax as int, t.valid as int, t.dsum as int);
        assert(a <= sum / n && sum / n <= b) by (nonlinear_arith)
            requires
                n > 0,
                a * n <= sum <= b * n,
        ;
    }
}

/// A tally stays sound with every packet.
pub proof fn law_tally_stays_sound(t: LdsTally, fs: Seq<LdsView>)
    requires
        t.wf(),
    ensures
        t.with_frames(fs).wf(),
        t.with_frames(fs).frames == t.frames + fs.len(),
    decreases fs.len(),
{
    if fs.len() > 0 {
        law_tally_stays_sound(t, fs.drop_last());
        let before = t.with_frames(fs.drop_last());
        let f = fs.last();
        lemma_with_samples_wf(
            LdsTally { frames: before.frames + 1, speed: f.speed, ..before },
            f,
            LDS_SAMPLES as nat,
        );
    }
}

proof fn lemma_with_samples_wf(t: LdsTally, f: LdsView, n: nat)
    requires
        t.dmin * t.valid <= t.dsum <= t.dmax * t.valid,
        t.sector is Some <==> t.valid > 0,
        t.valid > 0 ==> t.dmin <= t.dmax,
        t.sector matches Some((lo, hi)) ==> lo <= hi,
    ensures
        ({
            let u = t.with_samples(f, n);
            &&& u.dmin * u.valid <= u.dsum <= u.dmax * u.valid
            &&& u.sector is Some <==> u.valid > 0
            &&& u.valid > 0 ==> u.dmin <= u.dmax
            &&& u.sector matches Some((lo, hi)) ==> lo <= hi
            &&& u.valid + u.invalid == t.valid + t.invalid + n
            &&& u.frames == t.frames
        }),
    decreases n,
{
    if n > 0 {
        lemma_with_samples_wf(t, f, (n - 1) as nat);
        lemma_with_sample(t.with_samples(f, (n - 1) as nat), f, n - 1);
    }
}

/// The sum of the counts of the first `n` types.
pub open spec fn counted_frames(counts: Seq<u64>, n: nat) -> nat
    decreases n,
{
    if n == 0 {
        0
    } else {
        counted_frames(counts, (n - 1) as nat) + counts[n - 1] as nat
    }
}

proof fn lemma_counted_update(counts: Seq<u64>, t: int, n: nat)
    requires
        0 <= t < counts.len(),
        n <= counts.len(),
        counts[t] < u64::MAX,
    ensures
        counted_frames(counts.update(t, (counts[t] + 1) as u64), n) == counted_frames(counts, n) + (
        if t < n {
            1nat
        } else {
            0nat
        }),
    decreases n,
{
    if n > 0 {
        lemma_counted_update(counts, t, (n - 1) as nat);
    }
}

/// Every sound frame is counted once, under its own type, and every damaged one as
/// damaged: a frame changes one count, by one, or none.
pub proof fn law_each_frame_counts_once(v: McuSummaryView, body: Seq<u8>)
    requires
        v.counts_up_to((u64::MAX - 1) as nat),
    ensures
        counted_frames(v.with_body(body).counts, 256) == counted_frames(v.counts, 256) + (
        if parsed(body) is Ok {
            1nat
        } else {
            0nat
        }),
        v.with_body(body).crc_errors == v.crc_errors + (if parsed(body) matches Err(e) && e is Crc {
            1int
        } else {
            0int
        }),
{
    if let Ok((typ, p)) = parsed(body) {
        assert(v.counts[typ as int] <= u64::MAX - 1);
        lemma_counted_update(v.counts, typ as int, 256);
    }
}

// ---------------------------------------------------------------------------
// What a stretch of the lidar's stream held
// ---------------------------------------------------------------------------
/// Sample `k` of packet `i` has an echo.
pub open spec fn has_echo(fs: Seq<LdsView>, i: int, k: int) -> bool {
    0 <= i < fs.len() && 0 <= k < 8 && fs[i].samples[k].valid
}

/// `has_echo`, of the first `m` samples.
spec fn echo_before(fs: Seq<LdsView>, m: int, i: int, k: int) -> bool {
    has_echo(fs, i, k) && 8 * i + k < m
}

/// The tally's bounds are those of the first `m` samples.
spec fn bounds(t: LdsTally, fs: Seq<LdsView>, m: int) -> bool {
    &&& t.sector is None ==> t.dmin == 65535 && t.dmax == 0 && forall|i: int, k: int|
        !(#[trigger] echo_before(fs, m, i, k))
    &&& t.sector matches Some((lo, hi)) ==> {
        &&& forall|i: int, k: int|
            #[trigger] echo_before(fs, m, i, k) ==> lo <= fs[i].angle(k) <= hi && t.dmin
                <= fs[i].samples[k].dist_mm <= t.dmax
        &&& exists|i: int, k: int| #[trigger]
            echo_before(fs, m, i, k) && fs[i].angle(k) == lo
        &&& exists|i: int, k: int| #[trigger]
            echo_before(fs, m, i, k) && fs[i].angle(k) == hi
        &&& exists|i: int, k: int| #[trigger]
            echo_before(fs, m, i, k) && fs[i].samples[k].dist_mm == t.dmin
        &&& exists|i: int, k: int| #[trigger]
            echo_before(fs, m, i, k) && fs[i].samples[k].dist_mm == t.dmax
    }
}

#[verifier::spinoff_prover]
proof fn lemma_bounds_step(t: LdsTally, fs: Seq<LdsView>, i: int, k: int)
    requires
        0 <= i < fs.len(),
        0 <= k < 8,
        bounds(t, fs, 8 * i + k),
    ensures
        bounds(t.with_sample(fs[i], k), fs, 8 * i + k + 1),
{
    let m = 8 * i + k;
    let u = t.with_sample(fs[i], k);
    assert forall|a: int, b: int| #[trigger] echo_before(fs, m + 1, a, b) implies echo_before(
        fs,
        m,
        a,
        b,
    ) || a == i && b == k && fs[i].samples[k].valid by {}
    assert forall|a: int, b: int| #[trigger] echo_before(fs, m, a, b) implies echo_before(
        fs,
        m + 1,
        a,
        b,
    ) by {}
    if fs[i].samples[k].valid {
        assert(echo_before(fs, m + 1, i, k));
        if let Some((lo, hi)) = t.sector {
            let (a, b) = choose|a: int, b: int| #[trigger]
                echo_before(fs, m, a, b) && fs[a].angle(b) == lo;
            assert(echo_before(fs, m + 1, a, b));
            let (a, b) = choose|a: int, b: int| #[trigger]
                echo_before(fs, m, a, b) && fs[a].angle(b) == hi;
            assert(echo_before(fs, m + 1, a, b));
            let (a, b) = choose|a: int, b: int| #[trigger]
                echo_before(fs, m, a, b) && fs[a].samples[b].dist_mm == t.dmin;
            assert(echo_before(fs, m + 1, a, b));
            let (a, b) = choose|a: int, b: int| #[trigger]
                echo_before(fs, m, a, b) && fs[a].samples[b].dist_mm == t.dmax;
            assert(echo_before(fs, m + 1, a, b));
        }
    }
}

proof fn lemma_bounds_samples(t: LdsTally, fs: Seq<LdsView>, i: int, n: nat)
    requires
        0 <= i < fs.len(),
        n <= 8,
        bounds(t, fs, 8 * i),
    ensures
        bounds(t.with_samples(fs[i], n), fs, 8 * i + n),
        t.with_samples(fs[i], n).speed == t.speed,
        t.with_samples(fs[i], n).frames == t.frames,
    decreases n,
{
    if n > 0 {
        lemma_bounds_samples(t, fs, i, (n - 1) as nat);
        lemma_bounds_step(t.with_samples(fs[i], (n - 1) as nat), fs, i, n - 1);
    }
}

proof fn lemma_bounds_frames(speed: u16, fs: Seq<LdsView>, n: nat)
    requires
        n <= fs.len(),
    ensures
        ({
            let t = LdsTally::none(speed).with_frames(fs.take(n as int));
            &&& bounds(t, fs, 8 * n as int)
            &&& t.frames == n
            &&& t.speed == (if n == 0 {
                speed
            } else {
                fs[n - 1].speed
            })
        }),
    decreases n,
{
    if n > 0 {
        let m = (n - 1) as nat;
        lemma_bounds_frames(speed, fs, m);
        assert(fs.take(n as int).drop_last() =~= fs.take(m as int));
        let before = LdsTally::none(speed).with_frames(fs.take(m as int));
        let opened = LdsTally { frames: before.frames + 1, speed: fs[n - 1].speed, ..before };
        assert(bounds(opened, fs, 8 * m as int));
        lemma_bounds_samples(opened, fs, n - 1, 8);
    } else {
        assert(fs.take(0) =~= Seq::<LdsView>::empty());
    }
}

/// After any packets, the sector's ends are themselves angles of echoes of the stretch, and
/// every echo's angle lies between them; the smallest and the largest distance likewise
/// are distances of echoes, with every other between them. Without an echo there is no
/// sector. All packets count, and the speed is the last one's.
pub proof fn law_bounds_are_those_of_the_echoes(speed: u16, fs: Seq<LdsView>)
    ensures
        ({
            let t = LdsTally::none(speed).with_frames(fs);
            &&& t.frames == fs.len()
            &&& fs.len() > 0 ==> t.speed == fs.last().speed
            &&& fs.len() == 0 ==> t.speed == speed
            &&& t.sector is None <==> forall|i: int, k: int| !(#[trigger] has_echo(fs, i, k))
            &&& t.sector is None ==> t.dmin == 65535 && t.dmax == 0
            &&& t.sector matches Some((lo, hi)) ==> {
                &&& forall|i: int, k: int| #[trigger]
                    has_echo(fs, i, k) ==> lo <= fs[i].angle(k) <= hi
                &&& exists|i: int, k: int| #[trigger] has_echo(fs, i, k) && fs[i].angle(k) == lo
                &&& exists|i: int, k: int| #[trigger] has_echo(fs, i, k) && fs[i].angle(k) == hi
                &&& forall|i: int, k: int| #[trigger]
                    has_echo(fs, i, k) ==> t.dmin <= fs[i].samples[k].dist_mm <= t.dmax
                &&& exists|i: int, k: int| #[trigger]
                    has_echo(fs, i, k) && fs[i].samples[k].dist_mm == t.dmin
                &&& exists|i: int, k: int| #[trigger]
                    has_echo(fs, i, k) && fs[i].samples[k].dist_mm == t.dmax
            }
        }),
{
    let t = LdsTally::none(speed).with_frames(fs);
    let m = 8 * fs.len() as int;
    assert(fs.take(fs.len() as int) =~= fs);
    lemma_bounds_frames(speed, fs, fs.len());
    assert forall|i: int, k: int| #[trigger] has_echo(fs, i, k) implies echo_before(
        fs,
        m,
        i,
        k,
    ) by {}
    assert forall|i: int, k: int| #[trigger] echo_before(fs, m, i, k) implies has_echo(
        fs,
        i,
        k,
    ) by {}
    if let Some((lo, hi)) = t.sector {
        let (a, b) = choose|a: int, b: int| #[trigger]
            echo_before(fs, m, a, b) && fs[a].angle(b) == lo;
        assert(has_echo(fs, a, b));
    }
}

/// One for a sample with an echo, else zero.
pub open spec fn echo_count(f: LdsView, k: int) -> nat {
    if f.samples[k].valid {
        1
    } else {
        0
    }
}

/// The distance of a sample with an echo, else zero.
pub open spec fn echo_distance(f: LdsView, k: int) -> nat {
    if f.samples[k].valid {
        f.samples[k].dist_mm as nat
    } else {
        0
    }
}

/// One packet more adds its echoes to those counted, its other samples to the rest, and
/// the distances of its echoes to the sum.
#[verifier::spinoff_prover]
pub proof fn law_packet_adds_its_samples(t: LdsTally, fs: Seq<LdsView>, f: LdsView)
    ensures
        ({
            let before = t.with_frames(fs);
            let after = t.with_frames(fs.push(f));
            let echoes = echo_count(f, 0) + echo_count(f, 1) + echo_count(f, 2) + echo_count(f, 3)
                + echo_count(f, 4) + echo_count(f, 5) + echo_count(f, 6) + echo_count(f, 7);
            &&& after.frames == before.frames + 1
            &&& after.valid == before.valid + echoes
            &&& after.invalid == before.invalid + 8 - echoes
            &&& after.dsum == before.dsum + echo_distance(f, 0) + echo_distance(f, 1)
                + echo_distance(f, 2) + echo_distance(f, 3) + echo_distance(f, 4) + echo_distance(
                f,
                5,
            ) + echo_distance(f, 6) + echo_distance(f, 7)
        }),
{
    assert(fs.push(f).drop_last() =~= fs);
    let b = t.with_frames(fs);
    let s0 = LdsTally { frames: b.frames + 1, speed: f.speed, ..b };
    lemma_sample_adds(s0, f, 1);
    lemma_sample_adds(s0, f, 2);
    lemma_sample_adds(s0, f, 3);
    lemma_sample_adds(s0, f, 4);
    lemma_sample_adds(s0, f, 5);
    lemma_sample_adds(s0, f, 6);
    lemma_sample_adds(s0, f, 7);
    lemma_sample_adds(s0, f, 8);
    assert(s0.with_samples(f, 0) == s0);
}

proof fn lemma_sample_adds(t: LdsTally, f: LdsView, n: nat)
    requires
        n > 0,
    ensures
        ({
            let (a, b) = (t.with_samples(f, (n - 1) as nat), t.with_samples(f, n));
            &&& b.frames == a.frames
            &&& b.valid == a.valid + echo_count(f, n - 1)
            &&& b.invalid == a.invalid + 1 - echo_count(f, n - 1)
            &&& b.dsum == a.dsum + echo_distance(f, n - 1)
        }),
{
}

/// The mean distance is the sum of the distances over their number, rounded down: as many
/// echoes of the mean stay within the sum, and as many of one more do not.
pub proof fn law_mean_is_rounded_down(t: LdsTally)
    requires
        t.valid > 0,
    ensures
        t.mean() * t.valid <= t.dsum < (t.mean() + 1) * t.valid,
{
    let (m, n, sum) = (t.mean() as int, t.valid as int, t.dsum as int);
    lemma_fundamental_div_mod(sum, n);
    assert(n * m == m * n) by (nonlinear_arith);
    assert((m + 1) * n == m * n + n) by (nonlinear_arith);
}

// ---------------------------------------------------------------------------
// What a stretch of the motor controller's stream held
// ---------------------------------------------------------------------------
/// The frames of a type are picked out one by one: a packet of that type gives its
/// payload, one of another type nothing, and later ones come behind earlier ones.
pub proof fn law_picked_frames(typ: u8, bodies: Seq<Seq<u8>>, t: u8, p: Seq<u8>)
    requires
        p.len() <= 255,
    ensures
        t == typ ==> payloads(typ, bodies.push(body_of(t, p))) == payloads(typ, bodies).push(p),
        t != typ ==> payloads(typ, bodies.push(body_of(t, p))) == payloads(typ, bodies),
{
    law_parse_inverts_body(t, p);
    assert(bodies.push(body_of(t, p)).drop_last() =~= bodies);
}

/// Damaged frames are not picked.
pub proof fn law_damaged_frames_are_not_picked(typ: u8, bodies: Seq<Seq<u8>>, body: Seq<u8>)
    requires
        parsed(body) is Err,
    ensures
        payloads(typ, bodies.push(body)) == payloads(typ, bodies),
{
    assert(bodies.push(body).drop_last() =~= bodies);
}

/// The count of each type grows by as many frames of that type as came.
pub proof fn law_counts_are_of_the_type(v: McuSummaryView, bodies: Seq<Seq<u8>>, t: u8)
    requires
        v.counts.len() == 256,
        forall|k: int| 0 <= k < 256 ==> #[trigger] v.counts[k] + bodies.len() <= u64::MAX,
    ensures
        v.with_bodies(bodies).counts.len() == 256,
        v.with_bodies(bodies).counts[t as int] == v.counts[t as int] + payloads(t, bodies).len(),
        payloads(t, bodies).len() <= bodies.len(),
    decreases bodies.len(),
{
    if bodies.len() > 0 {
        law_counts_are_of_the_type(v, bodies.drop_last(), t);
        assert(v.counts[t as int] + bodies.len() <= u64::MAX);
    }
}

/// The latest message of a kind is the one that came last; the others stay as they were.
pub proof fn law_latest_of_each_kind(
    l: Latest,
    s20: Status20ms,
    s10: Status10ms,
    s100: Status100ms,
    b: Battery,
    t: Triggers,
)
    ensures
        l.updated(Msg::Status20ms(s20)) == (Latest { s20: Some(s20), ..l }),
        l.updated(Msg::Status10ms(s10)) == (Latest { s10: Some(s10), ..l }),
        l.updated(Msg::Status100ms(s100)) == (Latest { s100: Some(s100), ..l }),
        l.updated(Msg::Battery(b)) == (Latest { batt: Some(b), ..l }),
        l.updated(Msg::Triggers(t)) == (Latest { trig: Some(t), ..l }),
{
}

/// A packet's message is what is latest behind it, and the damaged count stays.
pub proof fn law_packet_is_summarised(v: McuSummaryView, bodies: Seq<Seq<u8>>, typ: u8, p: Seq<u8>)
    requires
        p.len() <= 255,
    ensures
        ({
            let before = v.with_bodies(bodies);
            let after = v.with_bodies(bodies.push(body_of(typ, p)));
            &&& after.latest == before.latest.updated(decoded(typ, p))
            &&& after.crc_errors == before.crc_errors
        }),
{
    law_parse_inverts_body(typ, p);
    assert(bodies.push(body_of(typ, p)).drop_last() =~= bodies);
}

/// Bytes in hexadecimal: byte `i` stands at the characters `3 * i` and `3 * i + 1`, and
/// between each two stands one space.
pub proof fn law_hex_by_place(p: Seq<u8>, i: int)
    requires
        0 <= i < p.len(),
    ensures
        hex_joined(p).len() == 3 * p.len() - 1,
        hex_joined(p)[3 * i] == hex2(p[i])[0],
        hex_joined(p)[3 * i + 1] == hex2(p[i])[1],
        i + 1 < p.len() ==> hex_joined(p)[3 * i + 2] == ' ',
    decreases p.len(),
{
    reveal_strlit(" ");
    law_hex_is_read_back(p.last());
    if p.len() > 1 {
        let front = p.drop_last();
        if i < front.len() {
            law_hex_by_place(front, i);
        } else {
            law_hex_by_place(front, 0);
        }
    }
}

proof fn lemma_no_counts(counts: Seq<u64>, n: nat)
    requires
        forall|k: int| 0 <= k < n ==> #[trigger] counts[k] == 0,
    ensures
        histogram(counts, n) == Seq::<char>::empty(),
    decreases n,
{
    if n > 0 {
        lemma_no_counts(counts, (n - 1) as nat);
    }
}

/// With frames of one type alone, the histogram is that type and its count.
pub proof fn law_histogram_of_one_type(counts: Seq<u64>, t: u8, n: nat)
    requires
        t < n <= 256,
        counts[t as int] > 0,
        forall|k: int| 0 <= k < n && k != t ==> #[trigger] counts[k] == 0,
    ensures
        histogram(counts, n) == "0x"@ + hex2(t) + ":"@ + dec(counts[t as int] as nat) + " "@,
    decreases n,
{
    if n == t + 1 {
        lemma_no_counts(counts, t as nat);
        let none = Seq::<char>::empty();
        assert(none + "0x"@ =~= "0x"@);
    } else {
        law_histogram_of_one_type(counts, t, (n - 1) as nat);
    }
}

/// The line of flags says of each what the frame's bytes say of it.
pub proof fn law_flags_are_shown(t: Triggers, ir_dock: Seq<char>, faults: Seq<char>)
    ensures
        trigger_line_text(t, ir_dock, faults) == "  trig : dock="@ + bool_text(t.b4 % 2 == 1)
            + " bumpL="@ + bool_text(t.b0 / 16 % 2 == 1) + " bumpR="@ + bool_text(
            t.b0 / 32 % 2 == 1,
        ) + " floatL="@ + bool_text(t.b0 / 64 % 2 == 1) + " floatR="@ + bool_text(
            t.b0 / 128 % 2 == 1,
        ) + " irDock=["@ + ir_dock + "]  err["@ + faults + "]"@,
{
    law_flags_by_value(t);
}

/// A report without packets says so and nothing else; one with packets gives their
/// number, the speed, the sector, the samples with and without an echo, and the smallest,
/// the largest and the mean distance.
pub proof fn law_report_of_the_lidar(t: LdsTally, sector: Seq<char>)
    ensures
        t.frames == 0 ==> lds_line(t, sector)
            == "---- lds: no frames (turret idle? start navigation / manual control)"@,
        t.frames > 0 ==> lds_line(t, sector) == "---- lds: "@ + dec(t.frames) + " pkt  speed="@
            + dec(t.speed as nat) + "  sector="@ + sector + "deg  pts valid="@ + dec(t.valid)
            + " invalid="@ + dec(t.invalid) + "  dist "@ + dec(t.dmin as nat) + ".."@ + dec(
            t.dmax as nat,
        ) + "mm mean="@ + dec(t.mean()) + "mm"@,
        t.valid == 0 ==> t.mean() == 0,
{
}

/// The line of a logged frame: the milliseconds in six places or more, two spaces, then
/// the bytes.
pub proof fn law_log_line_by_columns(ms: nat, p: Seq<u8>)
    ensures
        ({
            let line = log_line_text(ms, p);
            let n = line.len() - hex_joined(p).len();
            &&& n >= 8
            &&& line.skip(n) == hex_joined(p)
            &&& line[n - 1] == ' ' && line[n - 2] == ' '
            &&& dec(ms).len() <= 6 ==> n == 8
            &&& line.subrange(n - 2 - dec(ms).len(), n - 2) == dec(ms)
        }),
{
    reveal_strlit("  ");
    let line = log_line_text(ms, p);
    let n = line.len() - hex_joined(p).len();
    assert(line.skip(n) =~= hex_joined(p));
    assert(line.subrange(n - 2 - dec(ms).len(), n - 2) =~= dec(ms));
}

/// A stretch begins with nothing counted, and keeps only the speed.
pub proof fn law_new_stretch_is_empty(speed: u16)
    ensures
        ({
            let t = LdsTally::none(speed);
            &&& t.frames == 0 && t.valid == 0 && t.invalid == 0 && t.dsum == 0
            &&& t.dmin == 65535 && t.dmax == 0
            &&& t.sector is None
            &&& t.speed == speed
        }),
{
}

/// The histogram goes through the types in order: one that came adds its number and its
/// count, one that did not adds nothing.
pub proof fn law_histogram_type_by_type(counts: Seq<u64>, t: u8)
    ensures
        counts[t as int] > 0 ==> histogram(counts, (t + 1) as nat) == histogram(counts, t as nat)
            + "0x"@ + hex2(t) + ":"@ + dec(counts[t as int] as nat) + " "@,
        counts[t as int] == 0 ==> histogram(counts, (t + 1) as nat) == histogram(counts, t as nat),
{
}

/// A frame with a wrong checksum counts as damaged and as nothing else; one of a wrong
/// length does not count.
pub proof fn law_damaged_packet_is_counted(v: McuSummaryView, bodies: Seq<Seq<u8>>, body: Seq<u8>)
    requires
        parsed(body) is Err,
        v.with_bodies(bodies).crc_errors < u64::MAX,
    ensures
        ({
            let before = v.with_bodies(bodies);
            let after = v.with_bodies(bodies.push(body));
            &&& after.counts == before.counts && after.latest == before.latest
            &&& parsed(body)->Err_0 is Crc ==> after.crc_errors == before.crc_errors + 1
            &&& !(parsed(body)->Err_0 is Crc) ==> after.crc_errors == before.crc_errors
        }),
{
    assert(bodies.push(body).drop_last() =~= bodies);
}

/// How a stretch's packets are cut into reads does not matter to its tally.
pub proof fn law_stretch_in_pieces(t: LdsTally, a: Seq<LdsView>, b: Seq<LdsView>)
    ensures
        t.with_frames(a + b) == t.with_frames(a).with_frames(b),
    decreases b.len(),
{
    if b.len() == 0 {
        assert(a + b =~= a);
    } else {
        law_stretch_in_pieces(t, a, b.drop_last());
        assert((a + b).drop_last() =~= a + b.drop_last());
    }
}

} // verus!
