//! Framing of the MCU link.
//!
//! A packet is `<` .. `>`; inside it `?` takes the next byte as it is, so that a `<`,
//! `>` or `?` of the body is sent with a `?` in front. The body is
//! `len type payload crc-high crc-low`, with a CRC-16/Modbus over everything before it.
use vstd::prelude::*;
use vstd::slice::slice_subrange;
use crate::float32::Float32;
use crate::message::le32;

verus! {

/// Opens a packet.
pub const START: u8 = 0x3c;

/// Closes a packet.
pub const END: u8 = 0x3e;

/// Takes the next byte literally.
pub const ESCAPE: u8 = 0x3f;

/// Longest body: length, type, 255 payload bytes and the checksum.
pub const MAX_BODY: usize = 259;

/// Room the driver has for one encoded packet.
pub const FRAME_ROOM: usize = 64;

/// Type of the motor command.
pub const TYPE_MOTOR_CTRL: u8 = 0x00;

// ---------------------------------------------------------------------------
// Checksum
// ---------------------------------------------------------------------------
/// One shift of the reflected CRC register with polynomial 0xA001.
pub open spec fn crc_shift(c: u16) -> u16 {
    if c & 1 == 1 {
        (c >> 1) ^ 0xa001
    } else {
        c >> 1
    }
}

pub open spec fn crc_shifts(c: u16, n: nat) -> u16
    decreases n,
{
    if n == 0 {
        c
    } else {
        crc_shift(crc_shifts(c, (n - 1) as nat))
    }
}

/// CRC-16/Modbus of `s`.
pub open spec fn crc16_of(s: Seq<u8>) -> u16
    decreases s.len(),
{
    if s.len() == 0 {
        0xffff
    } else {
        crc_shifts(crc16_of(s.drop_last()) ^ (s.last() as u16), 8)
    }
}

/// CRC-16/Modbus of the first `n` bytes of `data`.
pub fn crc16(data: &[u8], n: usize) -> (c: u16)
    requires
        n <= data@.len(),
    ensures
        c == crc16_of(data@.take(n as int)),
{
    let mut c: u16 = 0xffff;
    let mut i: usize = 0;
    while i < n
        invariant
            i <= n <= data@.len(),
            c == crc16_of(data@.take(i as int)),
        decreases n - i,
    {
        c = c ^ (data[i] as u16);
        let ghost mixed = c;
        let mut k: u8 = 0;
        while k < 8
            invariant
                k <= 8,
                c == crc_shifts(mixed, k as nat),
            decreases 8 - k,
        {
            c = if c & 1 == 1 {
                (c >> 1) ^ 0xa001
            } else {
                c >> 1
            };
            k = k + 1;
        }
        i = i + 1;
        assert(data@.take(i as int).drop_last() =~= data@.take(i - 1));
    }
    c
}

// ---------------------------------------------------------------------------
// Packets
// ---------------------------------------------------------------------------
/// The part of a body that its checksum covers.
pub open spec fn covered(typ: u8, payload: Seq<u8>) -> Seq<u8> {
    seq![payload.len() as u8, typ] + payload
}

/// The body of a packet.
pub open spec fn body_of(typ: u8, payload: Seq<u8>) -> Seq<u8> {
    let c = crc16_of(covered(typ, payload));
    covered(typ, payload) + seq![(c / 256) as u8, (c % 256) as u8]
}

pub open spec fn special(b: u8) -> bool {
    b == START || b == END || b == ESCAPE
}

/// A body as it is sent.
pub open spec fn escaped(s: Seq<u8>) -> Seq<u8>
    decreases s.len(),
{
    if s.len() == 0 {
        Seq::empty()
    } else if special(s.last()) {
        escaped(s.drop_last()) + seq![ESCAPE, s.last()]
    } else {
        escaped(s.drop_last()) + seq![s.last()]
    }
}

/// A packet as it is sent.
pub open spec fn packet(typ: u8, payload: Seq<u8>) -> Seq<u8> {
    seq![START] + escaped(body_of(typ, payload)) + seq![END]
}

/// The payload of a motor command: flag, forward speed, turn rate.
pub open spec fn motor_payload(flag: u8, linear: Float32, rot: Float32) -> Seq<u8> {
    seq![flag] + linear.spec_le_bytes() + rot.spec_le_bytes()
}

fn push_escaped(out: &mut Vec<u8>, b: u8)
    ensures
        final(out)@ == old(out)@ + (if special(b) {
            seq![ESCAPE, b]
        } else {
            seq![b]
        }),
{
    let ghost before = out@;
    if b == START || b == END || b == ESCAPE {
        out.push(ESCAPE);
    }
    out.push(b);
    assert(out@ =~= before + (if special(b) {
        seq![ESCAPE, b]
    } else {
        seq![b]
    }));
}

/// Encodes a packet, if its payload is at most 255 bytes long and the packet fits in
/// `room` bytes.
pub fn encode_frame(typ: u8, payload: &[u8], room: usize) -> (r: Option<Vec<u8>>)
    ensures
        r is Some <==> payload@.len() <= 255 && packet(typ, payload@).len() <= room,
        r matches Some(v) ==> v@ == packet(typ, payload@),
{
    if payload.len() > 255 {
        return None;
    }
    let mut body: Vec<u8> = Vec::new();
    body.push(payload.len() as u8);
    body.push(typ);
    body.extend_from_slice(payload);
    assert(body@ =~= covered(typ, payload@));
    let n: usize = body.len();
    let c: u16 = crc16(body.as_slice(), n);
    assert(body@.take(n as int) =~= body@);
    body.push((c / 256) as u8);
    body.push((c % 256) as u8);
    assert(body@ =~= body_of(typ, payload@));
    let mut out: Vec<u8> = Vec::new();
    out.push(START);
    let mut i: usize = 0;
    while i < body.len()
        invariant
            i <= body@.len(),
            out@ == seq![START] + escaped(body@.take(i as int)),
        decreases body.len() - i,
    {
        push_escaped(&mut out, body[i]);
        i = i + 1;
        assert(body@.take(i as int).drop_last() =~= body@.take(i - 1));
        assert(out@ =~= seq![START] + escaped(body@.take(i as int)));
    }
    assert(body@.take(body@.len() as int) =~= body@);
    out.push(END);
    assert(out@ =~= packet(typ, payload@));
    if out.len() <= room {
        Some(out)
    } else {
        None
    }
}

/// Encodes a packet for the driver's write buffer, if it fits.
pub fn encode_for_link(typ: u8, payload: &[u8]) -> (r: Option<Vec<u8>>)
    ensures
        r is Some <==> payload@.len() <= 255 && packet(typ, payload@).len() <= FRAME_ROOM,
        r matches Some(v) ==> v@.len() <= 64,
        payload@.len() <= 255 && packet(typ, payload@).len() <= 64 ==> r is Some,
        r matches Some(v) ==> v@ == packet(typ, payload@),
{
    encode_frame(typ, payload, FRAME_ROOM)
}

/// Encodes a motor command. It always fits the write buffer.
pub fn encode_motor_ctrl(flag: u8, linear: Float32, rot: Float32) -> (v: Vec<u8>)
    ensures
        v@ == packet(TYPE_MOTOR_CTRL, motor_payload(flag, linear, rot)),
        v@.len() <= FRAME_ROOM,
{
    let mut p: Vec<u8> = Vec::new();
    p.push(flag);
    linear.push_le(&mut p);
    rot.push_le(&mut p);
    assert(p@ =~= motor_payload(flag, linear, rot));
    proof {
        law_short_payload_fits(TYPE_MOTOR_CTRL, p@);
    }
    match encode_for_link(TYPE_MOTOR_CTRL, p.as_slice()) {
        Some(v) => v,
        None => p,
    }
}

// ---------------------------------------------------------------------------
// Bodies
// ---------------------------------------------------------------------------
/// Why a body is not a packet's body.
#[derive(Clone, Copy, Debug, PartialEq, Eq, Structural)]
pub enum FrameError {
    /// Shorter than its length byte and the checksum call for.
    TooShort,
    /// Longer than its length byte and the checksum call for.
    TooLong,
    /// The checksum does not match.
    Crc { expected: u16, found: u16 },
}

/// The checksum that a body of at least two bytes ends in.
pub open spec fn found_crc(body: Seq<u8>) -> u16 {
    (body[body.len() - 2] as u16 * 256 + body[body.len() - 1] as u16) as u16
}

/// What a body says.
pub open spec fn parsed(body: Seq<u8>) -> Result<(u8, Seq<u8>), FrameError> {
    if body.len() < 4 || body.len() < body[0] + 4 {
        Err(FrameError::TooShort)
    } else if body.len() > body[0] + 4 {
        Err(FrameError::TooLong)
    } else {
        let expected = crc16_of(body.take(body.len() - 2));
        let found = found_crc(body);
        if expected == found {
            Ok((body[1], body.subrange(2, body.len() - 2)))
        } else {
            Err(FrameError::Crc { expected, found })
        }
    }
}

/// Checks a body's length and checksum; gives its type and payload.
pub fn parse_body(body: &[u8]) -> (r: Result<(u8, &[u8]), FrameError>)
    ensures
        match (r, parsed(body@)) {
            (Ok(a), Ok(b)) => a.0 == b.0 && a.1@ == b.1,
            (Err(a), Err(b)) => a == b,
            _ => false,
        },
{
    let n: usize = body.len();
    if n < 4 {
        return Err(FrameError::TooShort);
    }
    let need: usize = body[0] as usize + 4;
    if n < need {
        return Err(FrameError::TooShort);
    }
    if n > need {
        return Err(FrameError::TooLong);
    }
    let expected: u16 = crc16(body, n - 2);
    let found: u16 = body[n - 2] as u16 * 256 + body[n - 1] as u16;
    if expected != found {
        return Err(FrameError::Crc { expected, found });
    }
    Ok((body[1], slice_subrange(body, 2, n - 2)))
}

// ---------------------------------------------------------------------------
// Scanning a byte stream
// ---------------------------------------------------------------------------
/// Where a scan stands.
pub enum ScanView {
    /// Outside a packet.
    Outside,
    /// Inside a packet with this much of its body.
    Inside(Seq<u8>),
    /// As `Inside`, with the next byte to be taken literally.
    Escaped(Seq<u8>),
}

/// A body with one more byte; one that outgrows every packet is given up.
pub open spec fn grown(body: Seq<u8>, b: u8) -> ScanView {
    if body.len() < MAX_BODY {
        ScanView::Inside(body.push(b))
    } else {
        ScanView::Outside
    }
}

/// One byte of the stream: the next state, and the body if it closed a packet.
pub open spec fn scan_byte(s: ScanView, b: u8) -> (ScanView, Option<Seq<u8>>) {
    match s {
        ScanView::Outside => (
            if b == START {
                ScanView::Inside(Seq::empty())
            } else {
                ScanView::Outside
            },
            None,
        ),
        ScanView::Escaped(body) => (grown(body, b), None),
        ScanView::Inside(body) => if b == START {
            (ScanView::Inside(Seq::empty()), None)
        } else if b == END {
            (ScanView::Outside, Some(body))
        } else if b == ESCAPE {
            (ScanView::Escaped(body), None)
        } else {
            (grown(body, b), None)
        },
    }
}

/// The bodies that `bytes` close, and the state afterwards.
pub open spec fn scan(s: ScanView, bytes: Seq<u8>) -> (ScanView, Seq<Seq<u8>>)
    decreases bytes.len(),
{
    if bytes.len() == 0 {
        (s, Seq::empty())
    } else {
        let (mid, bodies) = scan(s, bytes.drop_last());
        let (end, closed) = scan_byte(mid, bytes.last());
        (
            end,
            match closed {
                Some(body) => bodies.push(body),
                None => bodies,
            },
        )
    }
}

/// Finds packets in the stream, one byte at a time.
pub struct FrameScanner {
    inside: bool,
    literal: bool,
    body: Vec<u8>,
}

impl View for FrameScanner {
    type V = ScanView;

    closed spec fn view(&self) -> ScanView {
        if !self.inside {
            ScanView::Outside
        } else if self.literal {
            ScanView::Escaped(self.body@)
        } else {
            ScanView::Inside(self.body@)
        }
    }
}

impl FrameScanner {
    pub fn new() -> (s: FrameScanner)
        ensures
            s@ == ScanView::Outside,
    {
        FrameScanner { inside: false, literal: false, body: Vec::new() }
    }

    fn grow(&mut self, b: u8)
        requires
            old(self).inside,
        ensures
            final(self)@ == grown(old(self).body@, b),
    {
        self.literal = false;
        if self.body.len() < MAX_BODY {
            self.body.push(b);
        } else {
            self.inside = false;
        }
    }

    /// What was gathered of the latest packet.
    pub closed spec fn gathered(&self) -> Seq<u8> {
        self.body@
    }

    /// What was gathered of the latest packet: its body, once the packet is closed.
    pub fn body(&self) -> (b: &[u8])
        ensures
            b@ == self.gathered(),
    {
        self.body.as_slice()
    }

    /// Takes the next byte; true when it closes a packet, whose body is then gathered.
    pub fn step(&mut self, b: u8) -> (closed: bool)
        ensures
            final(self)@ == scan_byte(old(self)@, b).0,
            closed == scan_byte(old(self)@, b).1 is Some,
            closed ==> scan_byte(old(self)@, b).1 == Some(final(self).gathered()),
    {
        if !self.inside {
            if b == START {
                self.inside = true;
                self.literal = false;
                self.body.clear();
            }
            false
        } else if self.literal {
            self.grow(b);
            false
        } else if b == START {
            self.body.clear();
            false
        } else if b == END {
            self.inside = false;
            true
        } else if b == ESCAPE {
            self.literal = true;
            false
        } else {
            self.grow(b);
            false
        }
    }

    /// Takes the next byte; gives the body when it closes a packet.
    pub fn push(&mut self, b: u8) -> (r: Option<Vec<u8>>)
        ensures
            final(self)@ == scan_byte(old(self)@, b).0,
            match (r, scan_byte(old(self)@, b).1) {
                (Some(v), Some(body)) => v@ == body,
                (None, None) => true,
                _ => false,
            },
    {
        if self.step(b) {
            let mut body: Vec<u8> = Vec::new();
            body.extend_from_slice(self.body.as_slice());
            assert(body@ =~= self.gathered());
            Some(body)
        } else {
            None
        }
    }

    /// Takes bytes; gives the bodies of the packets that they close, in order.
    pub fn collect(&mut self, bytes: &[u8]) -> (v: Vec<Vec<u8>>)
        ensures
            final(self)@ == scan(old(self)@, bytes@).0,
            bodies_of(v@) == scan(old(self)@, bytes@).1,
            v@.len() <= bytes@.len(),
    {
        let ghost start = self@;
        let mut v: Vec<Vec<u8>> = Vec::new();
        let mut i: usize = 0;
        assert(bytes@.take(0) =~= Seq::<u8>::empty());
        assert(bodies_of(v@) =~= Seq::<Seq<u8>>::empty());
        while i < bytes.len()
            invariant
                i <= bytes@.len(),
                v@.len() <= i,
                self@ == scan(start, bytes@.take(i as int)).0,
                bodies_of(v@) == scan(start, bytes@.take(i as int)).1,
            decreases bytes.len() - i,
        {
            assert(bytes@.take(i + 1).drop_last() =~= bytes@.take(i as int));
            if let Some(body) = self.push(bytes[i]) {
                let ghost before = v@;
                v.push(body);
                assert(bodies_of(v@) =~= bodies_of(before).push(body@));
            }
            i = i + 1;
        }
        assert(bytes@.take(bytes@.len() as int) =~= bytes@);
        v
    }
}

/// What bodies hold.
pub open spec fn bodies_of(v: Seq<Vec<u8>>) -> Seq<Seq<u8>> {
    v.map_values(|b: Vec<u8>| b@)
}

// ---------------------------------------------------------------------------
// Laws
// ---------------------------------------------------------------------------
/// A stream may be fed in pieces of any size.
pub proof fn law_scan_in_pieces(s: ScanView, a: Seq<u8>, b: Seq<u8>)
    ensures
        scan(s, a + b) == ({
            let (mid, first) = scan(s, a);
            let (end, second) = scan(mid, b);
            (end, first + second)
        }),
    decreases b.len(),
{
    let (mid, first) = scan(s, a);
    if b.len() == 0 {
        assert(a + b =~= a);
        assert(first + Seq::<Seq<u8>>::empty() =~= first);
    } else {
        law_scan_in_pieces(s, a, b.drop_last());
        assert((a + b).drop_last() =~= a + b.drop_last());
        let second = scan(mid, b.drop_last()).1;
        match scan_byte(scan(mid, b.drop_last()).0, b.last()).1 {
            Some(body) => {
                assert((first + second).push(body) =~= first + second.push(body));
            },
            None => {},
        }
    }
}

/// What the escaping adds, a scan takes away again.
proof fn lemma_scan_escaped(have: Seq<u8>, s: Seq<u8>)
    requires
        have.len() + s.len() <= MAX_BODY,
    ensures
        scan(ScanView::Inside(have), escaped(s)) == (
            ScanView::Inside(have + s),
            Seq::<Seq<u8>>::empty(),
        ),
    decreases s.len(),
{
    let from = ScanView::Inside(have);
    let none = Seq::<Seq<u8>>::empty();
    if s.len() == 0 {
        assert(have + s =~= have);
    } else {
        let (front, b) = (s.drop_last(), s.last());
        lemma_scan_escaped(have, front);
        let so_far = ScanView::Inside(have + front);
        assert((have + front).push(b) =~= have + s);
        if special(b) {
            let tail = seq![ESCAPE, b];
            law_scan_in_pieces(from, escaped(front), tail);
            assert(tail.drop_last() =~= seq![ESCAPE]);
            assert(tail.drop_last().drop_last() =~= Seq::<u8>::empty());
            assert(scan(so_far, tail.drop_last().drop_last()) == (so_far, none));
            assert(scan(so_far, tail.drop_last()) == (ScanView::Escaped(have + front), none));
            assert(scan(so_far, tail) == (ScanView::Inside(have + s), none));
        } else {
            let tail = seq![b];
            law_scan_in_pieces(from, escaped(front), tail);
            assert(tail.drop_last() =~= Seq::<u8>::empty());
            assert(scan(so_far, tail.drop_last()) == (so_far, none));
            assert(scan(so_far, tail) == (ScanView::Inside(have + s), none));
        }
        assert(none + none =~= none);
    }
}

/// A packet that is sent is received: from any state in which the next byte is not
/// taken literally, scanning it gives exactly its body and ends outside a packet.
pub proof fn law_packet_is_found(s: ScanView, typ: u8, payload: Seq<u8>)
    requires
        payload.len() <= 255,
        !(s is Escaped),
    ensures
        scan(s, packet(typ, payload)) == (ScanView::Outside, seq![body_of(typ, payload)]),
{
    let body = body_of(typ, payload);
    let open = seq![START];
    let close = seq![END];
    let none = Seq::<Seq<u8>>::empty();
    assert(open.drop_last() =~= Seq::<u8>::empty());
    assert(scan(s, open.drop_last()) == (s, none));
    assert(scan(s, open) == (ScanView::Inside(Seq::<u8>::empty()), none));
    lemma_scan_escaped(Seq::empty(), body);
    assert(Seq::<u8>::empty() + body =~= body);
    law_scan_in_pieces(s, open, escaped(body));
    assert(none + none =~= none);
    assert(scan(s, open + escaped(body)) == (ScanView::Inside(body), none));
    assert(close.drop_last() =~= Seq::<u8>::empty());
    assert(scan(ScanView::Inside(body), close.drop_last()) == (ScanView::Inside(body), none));
    assert(scan(ScanView::Inside(body), close) == (ScanView::Outside, none.push(body)));
    law_scan_in_pieces(s, open + escaped(body), close);
    assert(none + none.push(body) =~= seq![body]);
}

/// Parsing the body of a packet gives back its type and payload.
pub proof fn law_parse_inverts_body(typ: u8, payload: Seq<u8>)
    requires
        payload.len() <= 255,
    ensures
        parsed(body_of(typ, payload)) == Ok::<(u8, Seq<u8>), FrameError>((typ, payload)),
{
    let body = body_of(typ, payload);
    let c = crc16_of(covered(typ, payload));
    assert(body.take(body.len() - 2) =~= covered(typ, payload));
    assert(found_crc(body) == c);
    assert(body.subrange(2, body.len() - 2) =~= payload);
}

/// Only the body of a packet parses: whatever is accepted is, byte for byte, what
/// encoding its type and payload gives.
pub proof fn law_accepted_body_is_canonical(body: Seq<u8>)
    ensures
        parsed(body) matches Ok((typ, payload)) ==> payload.len() <= 255 && body == body_of(
            typ,
            payload,
        ),
{
    if let Ok((typ, payload)) = parsed(body) {
        assert(covered(typ, payload) =~= body.take(body.len() - 2));
        assert(body_of(typ, payload) =~= body);
    }
}

proof fn lemma_escaped_len(s: Seq<u8>)
    ensures
        s.len() <= escaped(s).len() <= 2 * s.len(),
    decreases s.len(),
{
    if s.len() > 0 {
        lemma_escaped_len(s.drop_last());
    }
}

/// Escaping at most doubles a packet's body.
pub proof fn law_packet_size(typ: u8, payload: Seq<u8>)
    requires
        payload.len() <= 255,
    ensures
        payload.len() + 6 <= packet(typ, payload).len() <= 2 * payload.len() + 10,
{
    lemma_escaped_len(body_of(typ, payload));
}

/// A packet with a payload of up to 27 bytes fits the driver's write buffer.
pub proof fn law_short_payload_fits(typ: u8, payload: Seq<u8>)
    requires
        payload.len() <= 27,
    ensures
        packet(typ, payload).len() <= FRAME_ROOM,
{
    law_packet_size(typ, payload);
}

// ---------------------------------------------------------------------------
// What reaches the wire
// ---------------------------------------------------------------------------
/// A motor command holds the flag, then the bits of the forward speed and those of the
/// turn rate, four bytes each with the low byte first.
pub proof fn law_motor_payload_layout(flag: u8, linear: Float32, rot: Float32)
    ensures
        motor_payload(flag, linear, rot) == seq![flag] + le32(linear.bits as int) + le32(
            rot.bits as int,
        ),
{
    lemma_float_bytes(linear);
    lemma_float_bytes(rot);
}

proof fn lemma_float_bytes(v: Float32)
    ensures
        v.spec_le_bytes() == le32(v.bits as int),
{
    reveal(le32);
    assert(v.spec_le_bytes() =~= le32(v.bits as int));
}

/// On the wire a packet is `<`, the body, `>`, and inside it every `<`, `>` and `?` is
/// behind a `?` of its own: without those, what is left is the length, the type, the
/// payload and the checksum, high byte first.
pub proof fn law_packet_on_the_wire(typ: u8, payload: Seq<u8>)
    requires
        payload.len() <= 255,
    ensures
        ({
            let p = packet(typ, payload);
            let c = crc16_of(seq![payload.len() as u8, typ] + payload);
            &&& p.first() == '<' as u8
            &&& p.last() == '>' as u8
            &&& literal_bytes(p.subrange(1, p.len() - 1)) == Some(
                seq![payload.len() as u8, typ] + payload + seq![(c / 256) as u8, (c % 256) as u8],
            )
        }),
{
    let p = packet(typ, payload);
    let body = body_of(typ, payload);
    assert(p.subrange(1, p.len() - 1) =~= escaped(body));
    lemma_literal_bytes(body, Seq::empty());
    assert(escaped(body) + Seq::<u8>::empty() =~= escaped(body));
    assert(body + Seq::<u8>::empty() =~= body);
}

/// The bytes that the inside of a packet stands for, if it holds no bare `<` or `>`.
pub open spec fn literal_bytes(s: Seq<u8>) -> Option<Seq<u8>>
    decreases s.len(),
{
    if s.len() == 0 {
        Some(Seq::empty())
    } else if s[0] == '<' as u8 || s[0] == '>' as u8 {
        None
    } else if s[0] == '?' as u8 {
        if s.len() == 1 {
            None
        } else {
            match literal_bytes(s.skip(2)) {
                Some(rest) => Some(seq![s[1]] + rest),
                None => None,
            }
        }
    } else {
        match literal_bytes(s.skip(1)) {
            Some(rest) => Some(seq![s[0]] + rest),
            None => None,
        }
    }
}

#[verifier::spinoff_prover]
proof fn lemma_literal_bytes(s: Seq<u8>, tail: Seq<u8>)
    requires
        literal_bytes(tail) is Some,
    ensures
        literal_bytes(escaped(s) + tail) == Some(s + literal_bytes(tail)->Some_0),
    decreases s.len(),
{
    let t = literal_bytes(tail)->Some_0;
    if s.len() == 0 {
        assert(escaped(s) + tail =~= tail);
        assert(s + t =~= t);
    } else {
        let b = s.last();
        let mine = if special(b) {
            seq![ESCAPE, b]
        } else {
            seq![b]
        };
        let next = mine + tail;
        if special(b) {
            assert(next.skip(2) =~= tail);
        } else {
            assert(next.skip(1) =~= tail);
        }
        assert(literal_bytes(next) == Some(seq![b] + t));
        lemma_literal_bytes(s.drop_last(), next);
        assert(escaped(s) + tail =~= escaped(s.drop_last()) + next);
        assert(s.drop_last() + (seq![b] + t) =~= s + t);
    }
}

/// No shift of the checksum register loses anything: different registers stay different.
proof fn lemma_shift_keeps_apart(a: u16, b: u16)
    requires
        a != b,
    ensures
        crc_shift(a) != crc_shift(b),
{
    assert(a != b ==> (if a & 1 == 1 {
        (a >> 1) ^ 0xa001
    } else {
        a >> 1
    }) != (if b & 1 == 1 {
        (b >> 1) ^ 0xa001
    } else {
        b >> 1
    })) by (bit_vector);
}

proof fn lemma_shifts_keep_apart(a: u16, b: u16, n: nat)
    requires
        a != b,
    ensures
        crc_shifts(a, n) != crc_shifts(b, n),
    decreases n,
{
    if n > 0 {
        lemma_shifts_keep_apart(a, b, (n - 1) as nat);
        lemma_shift_keeps_apart(crc_shifts(a, (n - 1) as nat), crc_shifts(b, (n - 1) as nat));
    }
}

/// Texts of one length that differ in a single byte have different checksums.
pub proof fn law_checksum_shows_a_changed_byte(a: Seq<u8>, b: Seq<u8>, i: int)
    requires
        a.len() == b.len(),
        0 <= i < a.len(),
        a[i] != b[i],
        forall|j: int| 0 <= j < a.len() && j != i ==> a[j] == b[j],
    ensures
        crc16_of(a) != crc16_of(b),
    decreases a.len(),
{
    let (fa, fb) = (a.drop_last(), b.drop_last());
    let (x, y) = (a.last() as u16, b.last() as u16);
    if i == a.len() - 1 {
        assert(fa =~= fb);
        let c = crc16_of(fa);
        assert(x != y ==> c ^ x != c ^ y) by (bit_vector);
        lemma_shifts_keep_apart(c ^ x, c ^ y, 8);
    } else {
        law_checksum_shows_a_changed_byte(fa, fb, i);
        let (c, d) = (crc16_of(fa), crc16_of(fb));
        assert(c != d ==> c ^ x != d ^ x) by (bit_vector);
        lemma_shifts_keep_apart(c ^ x, d ^ x, 8);
    }
}

/// A body of which one byte was changed on the way, whichever it is, does not parse.
pub proof fn law_damaged_body_does_not_parse(typ: u8, payload: Seq<u8>, i: int, b: u8)
    requires
        payload.len() <= 255,
        0 <= i < payload.len() + 4,
        body_of(typ, payload)[i] != b,
    ensures
        parsed(body_of(typ, payload).update(i, b)) is Err,
{
    let body = body_of(typ, payload);
    let bad = body.update(i, b);
    let n = body.len() as int;
    let c = crc16_of(covered(typ, payload));
    assert(body.take(n - 2) =~= covered(typ, payload));
    if i == 0 {
        assert(bad[0] != payload.len());
    } else if i < n - 2 {
        law_checksum_shows_a_changed_byte(bad.take(n - 2), body.take(n - 2), i);
        assert(found_crc(bad) == c);
    } else {
        assert(bad.take(n - 2) =~= body.take(n - 2));
        assert(found_crc(bad) != c);
    }
}

/// What each body is refused for, by its length and the length byte that it opens with.
pub proof fn law_bodies_by_length(body: Seq<u8>)
    ensures
        parsed(body) == Err::<(u8, Seq<u8>), FrameError>(FrameError::TooShort) <==> body.len() < 4
            || body.len() < body[0] + 4,
        parsed(body) == Err::<(u8, Seq<u8>), FrameError>(FrameError::TooLong) <==> body.len() >= 4
            && body.len() > body[0] + 4,
        parsed(body) matches Ok((typ, payload)) ==> {
            &&& typ == body[1]
            &&& payload.len() == body[0]
            &&& forall|k: int| 0 <= k < payload.len() ==> payload[k] == #[trigger] body[k + 2]
        },
{
}

/// A body that outgrows every packet is given up: no scan gives one of more than 259
/// bytes.
pub proof fn law_bodies_are_bounded(bytes: Seq<u8>)
    ensures
        forall|k: int|
            0 <= k < scan(ScanView::Outside, bytes).1.len() ==> (#[trigger] scan(
                ScanView::Outside,
                bytes,
            ).1[k]).len() <= 259,
        scan(ScanView::Outside, bytes).0 matches ScanView::Inside(b) ==> b.len() <= 259,
        scan(ScanView::Outside, bytes).0 matches ScanView::Escaped(b) ==> b.len() <= 259,
    decreases bytes.len(),
{
    if bytes.len() > 0 {
        law_bodies_are_bounded(bytes.drop_last());
    }
}

/// Outside a packet everything up to the next `<` is passed over.
pub proof fn law_noise_is_passed_over(noise: Seq<u8>)
    requires
        forall|i: int| 0 <= i < noise.len() ==> #[trigger] noise[i] != '<' as u8,
    ensures
        scan(ScanView::Outside, noise) == (ScanView::Outside, Seq::<Seq<u8>>::empty()),
    decreases noise.len(),
{
    if noise.len() > 0 {
        law_noise_is_passed_over(noise.drop_last());
    }
}

/// Whatever was put behind a `?`, not only what had to be: inside a packet a scan takes
/// the bytes that its text stands for.
#[verifier::spinoff_prover]
pub proof fn law_scan_takes_literal_bytes(have: Seq<u8>, s: Seq<u8>)
    requires
        literal_bytes(s) matches Some(t) && have.len() + t.len() <= 259,
    ensures
        scan(ScanView::Inside(have), s) == (
            ScanView::Inside(have + literal_bytes(s)->Some_0),
            Seq::<Seq<u8>>::empty(),
        ),
    decreases s.len(),
{
    let from = ScanView::Inside(have);
    let none = Seq::<Seq<u8>>::empty();
    let t = literal_bytes(s)->Some_0;
    assert(none + none =~= none);
    if s.len() == 0 {
        assert(have + t =~= have);
    } else if s[0] == '?' as u8 {
        let first = seq![s[0], s[1]];
        let rest = s.skip(2);
        let u = literal_bytes(rest)->Some_0;
        assert(s =~= first + rest);
        law_scan_in_pieces(from, first, rest);
        assert(first.drop_last() =~= seq![s[0]]);
        assert(first.drop_last().drop_last() =~= Seq::<u8>::empty());
        assert(scan(from, first.drop_last().drop_last()) == (from, none));
        assert(scan(from, first.drop_last()) == (ScanView::Escaped(have), none));
        assert(scan(from, first) == (ScanView::Inside(have.push(s[1])), none));
        law_scan_takes_literal_bytes(have.push(s[1]), rest);
        assert(have.push(s[1]) + u =~= have + t);
    } else {
        let first = seq![s[0]];
        let rest = s.skip(1);
        let u = literal_bytes(rest)->Some_0;
        assert(s =~= first + rest);
        law_scan_in_pieces(from, first, rest);
        assert(first.drop_last() =~= Seq::<u8>::empty());
        assert(scan(from, first.drop_last()) == (from, none));
        assert(scan(from, first) == (ScanView::Inside(have.push(s[0])), none));
        law_scan_takes_literal_bytes(have.push(s[0]), rest);
        assert(have.push(s[0]) + u =~= have + t);
    }
}

/// The checksum register is divided by the reflected polynomial 0xa001: one shift halves
/// it, and takes the polynomial away when a one falls out.
pub proof fn law_checksum_divides(c: u16)
    ensures
        c % 2 == 0 ==> 2 * crc_shift(c) == c,
        c % 2 == 1 ==> 2 * (crc_shift(c) ^ 0xa001) + 1 == c,
{
    assert(c & 1 == c % 2) by (bit_vector);
    assert(c % 2 == 0 ==> 2 * (c >> 1) == c) by (bit_vector);
    assert(c % 2 == 1 ==> 2 * (((c >> 1) ^ 0xa001u16) ^ 0xa001u16) + 1 == c) by (bit_vector);
}

/// The checksum of nothing is 0xffff, and each byte is mixed into the low half of the
/// register and shifted through eight times.
pub proof fn law_checksum_byte_by_byte(s: Seq<u8>, b: u8)
    ensures
        crc16_of(Seq::empty()) == 0xffff,
        crc16_of(s.push(b)) == crc_shift(
            crc_shift(
                crc_shift(
                    crc_shift(
                        crc_shift(crc_shift(crc_shift(crc_shift(crc16_of(s) ^ (b as u16))))),
                    ),
                ),
            ),
        ),
{
    assert(s.push(b).drop_last() =~= s);
    reveal_with_fuel(crc_shifts, 9);
}

/// A `?` is put in front of each `<`, `>` and `?` of a body, and of no other byte.
pub proof fn law_escaping_byte_by_byte(s: Seq<u8>, b: u8)
    ensures
        escaped(Seq::empty()) == Seq::<u8>::empty(),
        b == '<' as u8 || b == '>' as u8 || b == '?' as u8 ==> escaped(s.push(b)) == escaped(s)
            + seq!['?' as u8, b],
        b != '<' as u8 && b != '>' as u8 && b != '?' as u8 ==> escaped(s.push(b)) == escaped(s)
            + seq![b],
{
    assert(s.push(b).drop_last() =~= s);
}

} // verus!
