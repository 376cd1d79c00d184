//! Packets of the laser range scanner.
//!
//! The stream is a run of 40-byte packets, each opened by the same four bytes and
//! carrying eight range samples spread evenly between two angles. There is no escaping
//! and no end mark, so a reader looks for the opening bytes and counts.
use vstd::prelude::*;
use crate::message::{le16, lemma_le_lens};

verus! {

/// Bytes of one packet.
pub const LDS_PACKET: usize = 40;

/// Samples of one packet.
pub const LDS_SAMPLES: usize = 8;

/// The bytes that open a packet.
pub const LDS_HEADER: [u8; 4] = [0x55, 0xaa, 0x03, 0x08];

/// Marks a sample without an echo.
pub const NO_ECHO: u16 = 0x8000;

/// One range sample.
#[derive(Clone, Copy, Debug, PartialEq, Eq, Structural)]
pub struct LdsSample {
    /// Distance in millimetres; zero when there was no echo.
    pub dist_mm: u16,
    pub quality: u8,
    pub valid: bool,
}

/// What one packet says.
pub struct LdsView {
    /// Turret speed in the scanner's own units.
    pub speed: u16,
    /// Angle of the first sample; a full circle is 65536.
    pub fsa: u16,
    /// Angle at the end of the packet.
    pub lsa: u16,
    pub samples: Seq<LdsSample>,
}

impl LdsView {
    /// The part of the circle from the first angle to the last.
    pub open spec fn arc(self) -> nat {
        if self.fsa <= self.lsa {
            (self.lsa - self.fsa) as nat
        } else {
            (self.lsa + 65536 - self.fsa) as nat
        }
    }

    /// The angle of sample `k`.
    pub open spec fn angle(self, k: int) -> u16 {
        ((self.fsa + self.arc() * k / 8) % 65536) as u16
    }
}

/// A decoded packet.
#[derive(Debug)]
pub struct LdsFrame {
    pub speed: u16,
    pub fsa: u16,
    pub lsa: u16,
    pub samples: [LdsSample; 8],
}

impl View for LdsFrame {
    type V = LdsView;

    open spec fn view(&self) -> LdsView {
        LdsView { speed: self.speed, fsa: self.fsa, lsa: self.lsa, samples: self.samples@ }
    }
}

pub open spec fn word_at(p: Seq<u8>, i: int) -> u16 {
    (p[i] + 256 * p[i + 1]) as u16
}

/// Sample `k` of a packet.
pub open spec fn sample_at(p: Seq<u8>, k: int) -> LdsSample {
    let d = word_at(p, 8 + 3 * k);
    LdsSample {
        dist_mm: if d < NO_ECHO {
            d
        } else {
            0
        },
        quality: p[10 + 3 * k],
        valid: d < NO_ECHO,
    }
}

/// What the packet `p` says.
pub open spec fn packet_view(p: Seq<u8>) -> LdsView {
    LdsView {
        speed: word_at(p, 4),
        fsa: word_at(p, 6),
        lsa: word_at(p, 32),
        samples: Seq::new(8, |k: int| sample_at(p, k)),
    }
}

fn get_word(p: &Vec<u8>, i: usize) -> (v: u16)
    requires
        i < 64,
        i + 2 <= p@.len(),
    ensures
        v == word_at(p@, i as int),
{
    p[i] as u16 + 256 * p[i + 1] as u16
}

fn get_sample(p: &Vec<u8>, k: usize) -> (s: LdsSample)
    requires
        p@.len() == LDS_PACKET,
        k < LDS_SAMPLES,
    ensures
        s == sample_at(p@, k as int),
{
    let d: u16 = get_word(p, 8 + 3 * k);
    let quality: u8 = p[10 + 3 * k];
    if d < NO_ECHO {
        LdsSample { dist_mm: d, quality, valid: true }
    } else {
        LdsSample { dist_mm: 0, quality, valid: false }
    }
}

fn decode_packet(p: &Vec<u8>) -> (f: LdsFrame)
    requires
        p@.len() == LDS_PACKET,
    ensures
        f@ == packet_view(p@),
{
    let f: LdsFrame = LdsFrame {
        speed: get_word(p, 4),
        fsa: get_word(p, 6),
        lsa: get_word(p, 32),
        samples: [
            get_sample(p, 0),
            get_sample(p, 1),
            get_sample(p, 2),
            get_sample(p, 3),
            get_sample(p, 4),
            get_sample(p, 5),
            get_sample(p, 6),
            get_sample(p, 7),
        ],
    };
    assert(f@.samples =~= packet_view(p@).samples);
    f
}

impl LdsFrame {
    /// The angle of sample `k`; a full circle is 65536.
    pub fn sample_angle(&self, k: usize) -> (a: u16)
        requires
            k < LDS_SAMPLES,
        ensures
            a == self@.angle(k as int),
    {
        let arc: u32 = if self.fsa <= self.lsa {
            (self.lsa - self.fsa) as u32
        } else {
            self.lsa as u32 + 65536 - self.fsa as u32
        };
        assert(arc * k <= 65535 * 7) by (nonlinear_arith)
            requires
                arc <= 65535,
                k <= 7,
        ;
        ((self.fsa as u32 + arc * k as u32 / 8) % 65536) as u16
    }
}

// ---------------------------------------------------------------------------
// Scanning a byte stream
// ---------------------------------------------------------------------------
/// `s` may be the beginning of a packet: it agrees with the opening bytes so far.
pub open spec fn may_open(s: Seq<u8>) -> bool {
    forall|i: int| 0 <= i < 4 && i < s.len() ==> #[trigger] s[i] == LDS_HEADER@[i]
}

/// The packets in `s`, from the left, and the bytes at its end that may still become one.
pub open spec fn lds_scan(s: Seq<u8>) -> (Seq<Seq<u8>>, Seq<u8>)
    decreases s.len(),
{
    if s.len() == 0 {
        (Seq::empty(), s)
    } else if !may_open(s) {
        lds_scan(s.skip(1))
    } else if s.len() >= LDS_PACKET {
        let (packets, rest) = lds_scan(s.skip(LDS_PACKET as int));
        (seq![s.take(LDS_PACKET as int)] + packets, rest)
    } else {
        (Seq::empty(), s)
    }
}

/// What packets say.
pub open spec fn packet_views(packets: Seq<Seq<u8>>) -> Seq<LdsView> {
    packets.map_values(|p: Seq<u8>| packet_view(p))
}

/// What decoded packets say.
pub open spec fn frames_of(v: Seq<LdsFrame>) -> Seq<LdsView> {
    v.map_values(|f: LdsFrame| f@)
}

/// Finds packets in the stream, one byte at a time.
pub struct LdsScanner {
    buf: Vec<u8>,
}

impl View for LdsScanner {
    type V = Seq<u8>;

    /// The bytes that may still become a packet.
    closed spec fn view(&self) -> Seq<u8> {
        self.buf@
    }
}

impl LdsScanner {
    /// What is held may be the beginning of a packet and is not yet one.
    pub open spec fn wf(&self) -> bool {
        may_open(self@) && self@.len() < LDS_PACKET
    }

    pub fn new() -> (s: LdsScanner)
        ensures
            s.wf(),
            s@ == Seq::<u8>::empty(),
    {
        LdsScanner { buf: Vec::new() }
    }

    /// Takes the next byte; gives the packet that it completes.
    pub fn push(&mut self, b: u8) -> (r: Option<LdsFrame>)
        requires
            old(self).wf(),
        ensures
            final(self).wf(),
            final(self)@ == lds_scan(old(self)@.push(b)).1,
            match r {
                Some(f) => lds_scan(old(self)@.push(b)).0.len() == 1 && f@ == packet_view(
                    lds_scan(old(self)@.push(b)).0[0],
                ),
                None => lds_scan(old(self)@.push(b)).0.len() == 0,
            },
    {
        let ghost before = self.buf@;
        let n: usize = self.buf.len();
        if n < 4 && b != LDS_HEADER[n] {
            proof {
                lemma_scan_after_mismatch(before, b);
            }
            self.buf = Vec::new();
            if b == LDS_HEADER[0] {
                self.buf.push(b);
            }
            assert(self.buf@ =~= (if b == LDS_HEADER@[0] {
                seq![b]
            } else {
                Seq::<u8>::empty()
            }));
            return None;
        }
        self.buf.push(b);
        assert(may_open(before.push(b)));
        if n + 1 < LDS_PACKET {
            return None;
        }
        let f: LdsFrame = decode_packet(&self.buf);
        self.buf = Vec::new();
        proof {
            let s = before.push(b);
            assert(s.skip(LDS_PACKET as int) =~= Seq::<u8>::empty());
            assert(s.take(LDS_PACKET as int) =~= s);
            assert(lds_scan(s.skip(LDS_PACKET as int)) == (
                Seq::<Seq<u8>>::empty(),
                Seq::<u8>::empty(),
            ));
            assert(lds_scan(s).0 =~= seq![s]);
        }
        Some(f)
    }

    /// Takes bytes; gives the packets that they complete, in order.
    pub fn collect(&mut self, bytes: &[u8]) -> (v: Vec<LdsFrame>)
        requires
            old(self).wf(),
        ensures
            final(self).wf(),
            final(self)@ == lds_scan(old(self)@ + bytes@).1,
            frames_of(v@) == packet_views(lds_scan(old(self)@ + bytes@).0),
            v@.len() <= bytes@.len(),
    {
        let ghost held = self@;
        let mut v: Vec<LdsFrame> = Vec::new();
        let mut i: usize = 0;
        proof {
            assert(held + bytes@.take(0) =~= held);
            assert(frames_of(v@) =~= packet_views(Seq::empty()));
        }
        while i < bytes.len()
            invariant
                i <= bytes@.len(),
                v@.len() <= i,
                self.wf(),
                self@ == lds_scan(held + bytes@.take(i as int)).1,
                frames_of(v@) == packet_views(lds_scan(held + bytes@.take(i as int)).0),
            decreases bytes.len() - i,
        {
            let ghost so_far = held + bytes@.take(i as int);
            let ghost packets = lds_scan(so_far).0;
            let ghost kept = self@;
            let ghost before = v@;
            let b: u8 = bytes[i];
            let found: Option<LdsFrame> = self.push(b);
            proof {
                law_lds_scan_in_pieces(so_far, seq![b]);
                assert(kept + seq![b] =~= kept.push(b));
                assert(so_far + seq![b] =~= held + bytes@.take(i + 1));
                let more = lds_scan(kept.push(b)).0;
                if more.len() == 0 {
                    assert(packets + more =~= packets);
                } else {
                    assert(packets + more =~= packets.push(more[0]));
                    assert(packet_views(packets.push(more[0])) =~= packet_views(packets).push(
                        packet_view(more[0]),
                    ));
                }
            }
            if let Some(f) = found {
                v.push(f);
                assert(frames_of(v@) =~= frames_of(before).push(f@));
            }
            i = i + 1;
        }
        assert(bytes@.take(bytes@.len() as int) =~= bytes@);
        v
    }
}

/// A byte that breaks the opening can at most begin a new one.
proof fn lemma_scan_after_mismatch(s: Seq<u8>, b: u8)
    requires
        s.len() < 4,
        may_open(s),
        b != LDS_HEADER@[s.len() as int],
    ensures
        lds_scan(s.push(b)) == (
            Seq::<Seq<u8>>::empty(),
            if b == LDS_HEADER@[0] {
                seq![b]
            } else {
                Seq::<u8>::empty()
            },
        ),
{
    let all = s.push(b);
    assert(all[s.len() as int] == b);
    assert(!may_open(all));
    if s.len() == 0 {
        lemma_scan_nothing();
        assert(all.skip(1) =~= Seq::<u8>::empty());
    } else {
        lemma_scan_opening_tail(all, 1);
    }
}

proof fn lemma_scan_nothing()
    ensures
        lds_scan(Seq::<u8>::empty()) == (Seq::<Seq<u8>>::empty(), Seq::<u8>::empty()),
{
}

/// Behind the first byte of a broken opening there is nothing but, perhaps, the last
/// byte that could open a packet.
proof fn lemma_scan_opening_tail(all: Seq<u8>, from: int)
    requires
        all.len() <= 4,
        1 <= from < all.len(),
        forall|i: int| 0 <= i < all.len() - 1 ==> all[i] == LDS_HEADER@[i],
    ensures
        lds_scan(all.skip(from)) == (
            Seq::<Seq<u8>>::empty(),
            if all.last() == LDS_HEADER@[0] {
                seq![all.last()]
            } else {
                Seq::<u8>::empty()
            },
        ),
    decreases all.len() - from,
{
    let s = all.skip(from);
    if from == all.len() - 1 {
        assert(s =~= seq![all.last()]);
        if all.last() == LDS_HEADER@[0] {
            assert(may_open(s));
        } else {
            assert(s[0] != LDS_HEADER@[0]);
            assert(!may_open(s));
            lemma_scan_nothing();
            assert(s.skip(1) =~= Seq::<u8>::empty());
        }
    } else {
        assert(s[0] == LDS_HEADER@[from]);
        assert(!may_open(s));
        assert(s.skip(1) =~= all.skip(from + 1));
        lemma_scan_opening_tail(all, from + 1);
    }
}

// ---------------------------------------------------------------------------
// Laws
// ---------------------------------------------------------------------------
/// A stream may be fed in pieces of any size: the packets of the pieces are those of
/// the whole.
pub proof fn law_lds_scan_in_pieces(a: Seq<u8>, b: Seq<u8>)
    ensures
        lds_scan(a + b) == ({
            let (first, kept) = lds_scan(a);
            let (second, rest) = lds_scan(kept + b);
            (first + second, rest)
        }),
    decreases a.len(),
{
    let (first, kept) = lds_scan(a);
    let (second, rest) = lds_scan(kept + b);
    if a.len() == 0 {
        assert(a + b =~= kept + b);
        assert(first + second =~= second);
    } else if !may_open(a) {
        let i = choose|i: int|
            0 <= i < 4 && i < a.len() && #[trigger] a[i] != LDS_HEADER@[i];
        assert((a + b)[i] == a[i]);
        assert(!may_open(a + b));
        assert((a + b).skip(1) =~= a.skip(1) + b);
        law_lds_scan_in_pieces(a.skip(1), b);
    } else if a.len() >= LDS_PACKET {
        assert forall|i: int| 0 <= i < 4 && i < (a + b).len() implies #[trigger] (a + b)[i]
            == LDS_HEADER@[i] by {
            assert((a + b)[i] == a[i]);
        }
        assert((a + b).skip(LDS_PACKET as int) =~= a.skip(LDS_PACKET as int) + b);
        assert((a + b).take(LDS_PACKET as int) =~= a.take(LDS_PACKET as int));
        law_lds_scan_in_pieces(a.skip(LDS_PACKET as int), b);
        let inner = lds_scan(a.skip(LDS_PACKET as int)).0;
        let head = seq![a.take(LDS_PACKET as int)];
        assert(head + (inner + second) =~= (head + inner) + second);
    } else {
        assert(first + second =~= second);
    }
}

/// Noise in front of a packet does not hide it, as long as the noise holds no byte that
/// could open one.
pub proof fn law_packet_found_after_noise(noise: Seq<u8>, p: Seq<u8>)
    requires
        forall|i: int| 0 <= i < noise.len() ==> #[trigger] noise[i] != LDS_HEADER@[0],
        p.len() == LDS_PACKET,
        may_open(p),
    ensures
        lds_scan(noise + p) == (seq![p], Seq::<u8>::empty()),
    decreases noise.len(),
{
    let s = noise + p;
    if noise.len() == 0 {
        assert(s =~= p);
        lemma_scan_nothing();
        assert(p.skip(LDS_PACKET as int) =~= Seq::<u8>::empty());
        assert(p.take(LDS_PACKET as int) =~= p);
        assert(lds_scan(s).0 =~= seq![p]);
    } else {
        assert(s[0] == noise[0]);
        assert(!may_open(s));
        assert(s.skip(1) =~= noise.skip(1) + p);
        law_packet_found_after_noise(noise.skip(1), p);
    }
}

/// A run of whole packets is read packet by packet.
pub proof fn law_packets_in_a_row(a: Seq<u8>, p: Seq<u8>)
    requires
        p.len() == LDS_PACKET,
        may_open(p),
        lds_scan(a).1.len() == 0,
    ensures
        lds_scan(a + p) == (lds_scan(a).0.push(p), Seq::<u8>::empty()),
{
    law_lds_scan_in_pieces(a, p);
    law_packet_found_after_noise(Seq::empty(), p);
    assert(lds_scan(a).1 + p =~= Seq::<u8>::empty() + p);
    assert(lds_scan(a).0 + seq![p] =~= lds_scan(a).0.push(p));
}

/// The samples start at the packet's first angle and never reach its last: each lies
/// within the packet's arc.
pub proof fn law_angles_lie_in_the_arc(f: LdsView, k: int)
    requires
        0 <= k < 8,
    ensures
        f.angle(0) == f.fsa,
        f.arc() * k / 8 <= f.arc(),
        k > 0 && f.arc() > 0 ==> f.arc() * k / 8 < f.arc(),
{
    let a = f.arc() as int;
    assert(a * 0 / 8 == 0);
    assert(a * k / 8 <= a && (k > 0 && a > 0 ==> a * k / 8 < a)) by (nonlinear_arith)
        requires
            0 <= k < 8,
            0 <= a,
    ;
}

/// The bytes of the first `n` samples of a packet: two for the distance, low byte first,
/// and one for the quality.
pub open spec fn sample_bytes(raw: Seq<(u16, u8)>, n: nat) -> Seq<u8>
    decreases n,
{
    if n == 0 {
        Seq::empty()
    } else {
        sample_bytes(raw, (n - 1) as nat) + le16(raw[n - 1].0 as int) + seq![raw[n - 1].1]
    }
}

proof fn lemma_sample_bytes(raw: Seq<(u16, u8)>, n: nat, k: int)
    requires
        0 <= k < n,
    ensures
        sample_bytes(raw, n).len() == 3 * n,
        sample_bytes(raw, n)[3 * k] == le16(raw[k].0 as int)[0],
        sample_bytes(raw, n)[3 * k + 1] == le16(raw[k].0 as int)[1],
        sample_bytes(raw, n)[3 * k + 2] == raw[k].1,
    decreases n,
{
    lemma_le_lens();
    let before = sample_bytes(raw, (n - 1) as nat);
    let word = le16(raw[n - 1].0 as int);
    assert(sample_bytes(raw, n) == before + word + seq![raw[n - 1].1]);
    if n == 1 {
        assert(before.len() == 0);
    } else if k < n - 1 {
        lemma_sample_bytes(raw, (n - 1) as nat, k);
    } else {
        lemma_sample_bytes(raw, (n - 1) as nat, 0);
    }
}

/// A packet as the scanner sends it: the opening bytes, speed, first angle, eight samples,
/// last angle, and six bytes that are not read.
pub open spec fn packet_bytes(
    speed: u16,
    fsa: u16,
    raw: Seq<(u16, u8)>,
    lsa: u16,
    trailer: Seq<u8>,
) -> Seq<u8> {
    seq![0x55u8, 0xaa, 0x03, 0x08] + le16(speed as int) + le16(fsa as int) + sample_bytes(raw, 8)
        + le16(lsa as int) + trailer
}

/// Scanning a packet finds it, and decoding gives back what was laid out in it. A distance
/// with its top bit set is no echo.
#[verifier::spinoff_prover]
pub proof fn law_packet_layout(
    speed: u16,
    fsa: u16,
    raw: Seq<(u16, u8)>,
    lsa: u16,
    trailer: Seq<u8>,
)
    requires
        raw.len() == 8,
        trailer.len() == 6,
    ensures
        ({
            let p = packet_bytes(speed, fsa, raw, lsa, trailer);
            let v = packet_view(p);
            &&& lds_scan(p) == (seq![p], Seq::<u8>::empty())
            &&& v.speed == speed
            &&& v.fsa == fsa
            &&& v.lsa == lsa
            &&& v.samples.len() == 8
            &&& forall|k: int|
                0 <= k < 8 ==> {
                    let s = #[trigger] v.samples[k];
                    &&& s.quality == raw[k].1
                    &&& s.valid <==> raw[k].0 < 32768
                    &&& s.valid ==> s.dist_mm == raw[k].0
                    &&& !s.valid ==> s.dist_mm == 0
                }
        }),
{
    let p = packet_bytes(speed, fsa, raw, lsa, trailer);
    let v = packet_view(p);
    lemma_le_lens();
    lemma_sample_bytes(raw, 8, 0);
    let body = sample_bytes(raw, 8);
    assert(p.len() == 40);
    assert(p[0] == 0x55 && p[1] == 0xaa && p[2] == 0x03 && p[3] == 0x08);
    assert(LDS_HEADER@[0] == 0x55 && LDS_HEADER@[1] == 0xaa && LDS_HEADER@[2] == 0x03
        && LDS_HEADER@[3] == 0x08);
    law_packet_found_after_noise(Seq::empty(), p);
    assert(Seq::<u8>::empty() + p =~= p);
    lemma_word_of_le16(p, 4, speed);
    lemma_word_of_le16(p, 6, fsa);
    lemma_word_of_le16(p, 32, lsa);
    assert forall|k: int| 0 <= k < 8 implies {
        let s = #[trigger] v.samples[k];
        &&& s.quality == raw[k].1
        &&& s.valid <==> raw[k].0 < 32768
        &&& s.valid ==> s.dist_mm == raw[k].0
        &&& !s.valid ==> s.dist_mm == 0
    } by {
        lemma_sample_bytes(raw, 8, k);
        assert(p[8 + 3 * k] == body[3 * k]);
        assert(p[9 + 3 * k] == body[3 * k + 1]);
        assert(p[10 + 3 * k] == body[3 * k + 2]);
        lemma_word_of_le16(p, 8 + 3 * k, raw[k].0);
    }
}

proof fn lemma_word_of_le16(p: Seq<u8>, i: int, v: u16)
    requires
        0 <= i,
        i + 2 <= p.len(),
        p[i] == le16(v as int)[0],
        p[i + 1] == le16(v as int)[1],
    ensures
        word_at(p, i) == v,
{
    reveal(le16);
}

/// The eight samples lie evenly between the two angles: sample `k` is `k` eighths of the
/// way round from the first to the last, counted on the circle of 65536.
pub proof fn law_angles_are_even(f: LdsView, k: int)
    requires
        0 <= k < 8,
    ensures
        (f.angle(k) - f.fsa) % 65536 == ((f.lsa - f.fsa) % 65536) * k / 8,
{
    let arc = (f.lsa - f.fsa) % 65536;
    assert(arc == f.arc());
    let step = arc * k / 8;
    assert(0 <= step < 65536) by (nonlinear_arith)
        requires
            0 <= arc < 65536,
            0 <= k < 8,
            step == arc * k / 8,
    ;
    let sum = f.fsa + step;
    assert(f.angle(k) == sum % 65536);
    if sum < 65536 {
        assert((f.angle(k) - f.fsa) % 65536 == step);
    } else {
        assert(f.angle(k) - f.fsa == step - 65536);
        assert((step - 65536) % 65536 == step);
    }
}

/// An opening that breaks off does not hide the packet behind it: one, two or three of
/// the opening bytes, or noise and then those, and then a packet, give that packet.
pub proof fn law_packet_found_after_broken_opening(noise: Seq<u8>, n: int, p: Seq<u8>)
    requires
        forall|i: int| 0 <= i < noise.len() ==> #[trigger] noise[i] != 0x55,
        0 <= n <= 3,
        p.len() == 40,
        p[0] == 0x55 && p[1] == 0xaa && p[2] == 0x03 && p[3] == 0x08,
    ensures
        lds_scan(noise + seq![0x55u8, 0xaa, 0x03].take(n) + p) == (seq![p], Seq::<u8>::empty()),
    decreases noise.len(),
{
    let open = seq![0x55u8, 0xaa, 0x03];
    let broken = open.take(n);
    let s = noise + broken + p;
    assert(LDS_HEADER@[0] == 0x55 && LDS_HEADER@[1] == 0xaa && LDS_HEADER@[2] == 0x03
        && LDS_HEADER@[3] == 0x08);
    if noise.len() > 0 {
        assert(s[0] == noise[0]);
        assert(!may_open(s));
        assert(s.skip(1) =~= noise.skip(1) + broken + p);
        law_packet_found_after_broken_opening(noise.skip(1), n, p);
    } else if n > 0 {
        let tail = broken.skip(1);
        assert(s[n] == 0x55 && LDS_HEADER@[n] != 0x55);
        assert(!may_open(s));
        assert(s.skip(1) =~= tail + p);
        assert forall|i: int| 0 <= i < tail.len() implies #[trigger] tail[i] != LDS_HEADER@[0] by {
            assert(tail[i] == open[i + 1]);
        }
        law_packet_found_after_noise(tail, p);
    } else {
        assert(s =~= Seq::<u8>::empty() + p);
        law_packet_found_after_noise(Seq::empty(), p);
    }
}

/// Of a packet that has not come whole nothing is read yet, and all of it is kept.
pub proof fn law_unfinished_packet_is_kept(p: Seq<u8>)
    requires
        p.len() < 40,
        p.len() > 0 ==> p[0] == 0x55,
        p.len() > 1 ==> p[1] == 0xaa,
        p.len() > 2 ==> p[2] == 0x03,
        p.len() > 3 ==> p[3] == 0x08,
    ensures
        lds_scan(p) == (Seq::<Seq<u8>>::empty(), p),
{
    assert(LDS_HEADER@[0] == 0x55 && LDS_HEADER@[1] == 0xaa && LDS_HEADER@[2] == 0x03
        && LDS_HEADER@[3] == 0x08);
    if p.len() == 0 {
        assert(p =~= Seq::<u8>::empty());
    }
}

} // verus!
