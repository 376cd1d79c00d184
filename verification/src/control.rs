//! Driving through the tap: replacing the daemon's motor commands in flight.
//!
//! A client's speeds lie in a block shared between the relay and the tap. The tap swaps
//! them into the motor command that a write of the daemon begins with, as long as the
//! client keeps renewing them; every other frame passes as it is.
use vstd::prelude::*;
use vstd::slice::slice_subrange;
use crate::float32::{law_limited_by_pattern, Float32};
use crate::frame::{encode_motor_ctrl, parse_body, FrameScanner, ScanView};
use crate::frame::{END, ESCAPE, START, TYPE_MOTOR_CTRL};
use crate::frame::{body_of, escaped, motor_payload, packet, parsed, scan, special};
use crate::frame::{law_motor_payload_layout, law_packet_is_found, law_parse_inverts_body};
use crate::frame::{law_scan_in_pieces, literal_bytes};
use crate::message::{hazard_bytes, law_hazard_by_value, TYPE_TRIGGERS};
use crate::text::{chars_of, same_text};
use crate::text::texts_of;
use crate::transmit::{drive_command, within, MAX_LINEAR, MAX_ROT};

verus! {

/// Motor commands after which an unrenewed request no longer counts (half a second at
/// the daemon's 50 per second).
pub const WATCHDOG_WRITES: u32 = 25;

/// The shared block.
#[derive(Clone, Copy, Debug, PartialEq, Eq, Structural)]
pub struct Control {
    pub enabled: bool,
    /// Changes with every request.
    pub seq: u32,
    /// Forward speed in mm/s.
    pub linear: Float32,
    /// Turn rate in rad/s.
    pub rot: Float32,
    /// Motor commands replaced.
    pub overrides: u64,
    /// Replaced commands whose forward motion a hazard took away.
    pub hazard_clamps: u64,
}

pub open spec fn next_u32(n: u32) -> u32 {
    if n == u32::MAX {
        0
    } else {
        (n + 1) as u32
    }
}

pub open spec fn next_u64(n: u64) -> u64 {
    if n == u64::MAX {
        0
    } else {
        (n + 1) as u64
    }
}

impl Control {
    /// The block before anyone asked for anything.
    pub open spec fn spec_idle() -> Control {
        Control {
            enabled: false,
            seq: 0,
            linear: Float32 { bits: 0 },
            rot: Float32 { bits: 0 },
            overrides: 0,
            hazard_clamps: 0,
        }
    }

    /// The block after a request.
    pub open spec fn requested(self, enabled: bool, linear: Float32, rot: Float32) -> Control {
        Control { enabled, seq: next_u32(self.seq), linear, rot, ..self }
    }

    pub fn idle() -> (c: Control)
        ensures
            c == Control::spec_idle(),
    {
        Control {
            enabled: false,
            seq: 0,
            linear: Float32::zero_value(),
            rot: Float32::zero_value(),
            overrides: 0,
            hazard_clamps: 0,
        }
    }

    /// Asks for speeds, or (not enabled) gives the motors back.
    pub fn set(&mut self, enabled: bool, linear: Float32, rot: Float32)
        ensures
            *final(self) == old(self).requested(enabled, linear, rot),
    {
        self.enabled = enabled;
        self.seq = self.seq.wrapping_add(1);
        self.linear = linear;
        self.rot = rot;
    }

    /// Gives the motors back.
    pub fn release(&mut self)
        ensures
            *final(self) == old(self).requested(false, Float32 { bits: 0 }, Float32 { bits: 0 }),
    {
        self.set(false, Float32::zero_value(), Float32::zero_value());
    }
}

// ---------------------------------------------------------------------------
// The tap's side
// ---------------------------------------------------------------------------
/// Where the frame that `buf` is in the middle of at `i` ends: its closing byte, if that
/// comes before any other frame begins. `literal` says that byte `i` stands for itself.
pub open spec fn closing_byte(buf: Seq<u8>, i: nat, literal: bool) -> Option<nat>
    decreases buf.len() - i,
{
    if i >= buf.len() {
        None
    } else if literal {
        closing_byte(buf, i + 1, false)
    } else if buf[i as int] == END {
        Some(i)
    } else if buf[i as int] == START {
        None
    } else {
        closing_byte(buf, i + 1, buf[i as int] == ESCAPE)
    }
}

/// The write begins with a whole motor command.
pub open spec fn is_motor_write(buf: Seq<u8>) -> bool {
    buf.len() >= 3 && buf[0] == START && buf[1] == 9 && buf[2] == TYPE_MOTOR_CTRL
        && closing_byte(buf, 1, false) is Some
}

/// What stands behind the motor command that a write begins with.
pub open spec fn behind_command(buf: Seq<u8>) -> Seq<u8> {
    buf.skip(closing_byte(buf, 1, false)->Some_0 as int + 1)
}

/// What the tap remembers of the requests between writes.
pub struct FilterView {
    /// The request seen last.
    pub seq: u32,
    /// Motor commands since then that found the same request.
    pub repeats: u32,
}

/// How often the request stood unchanged, counting this motor command; beyond the
/// watchdog it is not counted on.
pub open spec fn repeats_now(f: FilterView, c: Control) -> u32 {
    if c.seq != f.seq {
        0
    } else if f.repeats <= WATCHDOG_WRITES {
        (f.repeats + 1) as u32
    } else {
        f.repeats
    }
}

/// The request counts: it is enabled and was renewed recently enough.
pub open spec fn in_control(f: FilterView, c: Control) -> bool {
    c.enabled && repeats_now(f, c) <= WATCHDOG_WRITES
}

pub open spec fn forward(v: Float32) -> bool {
    !v.negative() && !v.zero()
}

/// A hazard takes the forward motion away.
pub open spec fn hazard_applies(hazard: bool, c: Control) -> bool {
    hazard && forward(c.linear.spec_limited(MAX_LINEAR))
}

/// The motor command that is written in place of the daemon's.
pub open spec fn replacement(hazard: bool, c: Control) -> Seq<u8> {
    packet(
        TYPE_MOTOR_CTRL,
        motor_payload(
            1,
            if hazard_applies(hazard, c) {
                Float32 { bits: 0 }
            } else {
                c.linear.spec_limited(MAX_LINEAR)
            },
            c.rot.spec_limited(MAX_ROT),
        ),
    )
}

/// The bytes that reach the robot when the daemon writes `buf`: while a client is in
/// control, the motor command that the write begins with is replaced, and what stands
/// behind it follows as it is. A write that begins otherwise, or that ends inside the
/// motor command, passes whole.
pub open spec fn written(f: FilterView, hazard: bool, c: Control, buf: Seq<u8>) -> Seq<u8> {
    if is_motor_write(buf) && in_control(f, c) {
        replacement(hazard, c) + behind_command(buf)
    } else {
        buf
    }
}

/// What the tap remembers afterwards.
pub open spec fn filter_after(f: FilterView, c: Control, buf: Seq<u8>) -> FilterView {
    if is_motor_write(buf) {
        FilterView { seq: c.seq, repeats: repeats_now(f, c), ..f }
    } else {
        f
    }
}

/// The counters afterwards.
pub open spec fn counted(f: FilterView, hazard: bool, c: Control, buf: Seq<u8>) -> Control {
    if is_motor_write(buf) && in_control(f, c) {
        Control {
            overrides: next_u64(c.overrides),
            hazard_clamps: if hazard_applies(hazard, c) {
                next_u64(c.hazard_clamps)
            } else {
                c.hazard_clamps
            },
            ..c
        }
    } else {
        c
    }
}

/// The hazard after one frame body.
pub open spec fn hazard_after(h: bool, body: Seq<u8>) -> bool {
    match parsed(body) {
        Ok((typ, p)) => if typ == TYPE_TRIGGERS && p.len() >= 2 {
            hazard_bytes(p[0], p[1])
        } else {
            h
        },
        Err(_) => h,
    }
}

/// The hazard after several frame bodies.
pub open spec fn hazard_after_all(h: bool, bodies: Seq<Seq<u8>>) -> bool
    decreases bodies.len(),
{
    if bodies.len() == 0 {
        h
    } else {
        hazard_after(hazard_after_all(h, bodies.drop_last()), bodies.last())
    }
}

/// What the tap knows of the robot's hazards.
pub struct HazardView {
    /// The robot reports one.
    pub hazard: bool,
    /// Where the scan of its telemetry stands.
    pub scan: ScanView,
}

/// What the tap knows at first.
pub open spec fn no_hazard() -> HazardView {
    HazardView { hazard: false, scan: ScanView::Outside }
}

/// What the tap knows after `bytes` of the robot's telemetry.
pub open spec fn observed(h: HazardView, bytes: Seq<u8>) -> HazardView {
    HazardView {
        scan: scan(h.scan, bytes).0,
        hazard: hazard_after_all(h.hazard, scan(h.scan, bytes).1),
    }
}

/// Watches the robot's telemetry for the hazard it reports.
pub struct HazardWatch {
    hazard: bool,
    scanner: FrameScanner,
}

impl View for HazardWatch {
    type V = HazardView;

    closed spec fn view(&self) -> HazardView {
        HazardView { hazard: self.hazard, scan: self.scanner@ }
    }
}

impl HazardWatch {
    pub fn new() -> (h: HazardWatch)
        ensures
            h@ == no_hazard(),
    {
        HazardWatch { hazard: false, scanner: FrameScanner::new() }
    }

    /// The robot reports a hazard.
    pub fn hazard(&self) -> (r: bool)
        ensures
            r == self@.hazard,
    {
        self.hazard
    }

    /// Takes bytes of the telemetry.
    pub fn observe(&mut self, bytes: &[u8])
        ensures
            final(self)@ == observed(old(self)@, bytes@),
    {
        let ghost start = self@;
        let mut i: usize = 0;
        assert(bytes@.take(0) =~= Seq::<u8>::empty());
        while i < bytes.len()
            invariant
                i <= bytes@.len(),
                self@ == observed(start, bytes@.take(i as int)),
            decreases bytes.len() - i,
        {
            let ghost bodies = scan(start.scan, bytes@.take(i as int)).1;
            assert(bytes@.take(i + 1).drop_last() =~= bytes@.take(i as int));
            if self.scanner.step(bytes[i]) {
                assert(bodies.push(self.scanner.gathered()).drop_last() =~= bodies);
                if let Ok((typ, payload)) = parse_body(self.scanner.body()) {
                    if typ == TYPE_TRIGGERS && payload.len() >= 2 {
                        self.hazard = payload[0] & 0xf0 != 0 || payload[1] != 0;
                    }
                }
            }
            i = i + 1;
        }
        assert(bytes@.take(bytes@.len() as int) =~= bytes@);
    }
}

/// What the tap remembers of the requests at first.
pub open spec fn idle_filter() -> FilterView {
    FilterView { seq: 0, repeats: 0 }
}

/// Replaces the daemon's motor commands while a client is in control.
pub struct DriveFilter {
    seq: u32,
    repeats: u32,
}

impl View for DriveFilter {
    type V = FilterView;

    closed spec fn view(&self) -> FilterView {
        FilterView { seq: self.seq, repeats: self.repeats }
    }
}

proof fn lemma_closing_byte(buf: Seq<u8>, i: nat, literal: bool)
    ensures
        closing_byte(buf, i, literal) matches Some(e) ==> i <= e < buf.len(),
    decreases buf.len() - i,
{
    if i < buf.len() {
        if literal {
            lemma_closing_byte(buf, i + 1, false);
        } else {
            lemma_closing_byte(buf, i + 1, buf[i as int] == ESCAPE);
        }
    }
}

/// Finds the closing byte of the frame that `buf` begins with.
fn find_closing(buf: &[u8]) -> (r: Option<usize>)
    requires
        buf@.len() >= 1,
    ensures
        match (r, closing_byte(buf@, 1, false)) {
            (Some(a), Some(b)) => a == b && a < buf@.len(),
            (None, None) => true,
            _ => false,
        },
{
    let mut i: usize = 1;
    let mut literal: bool = false;
    while i < buf.len()
        invariant
            1 <= i <= buf@.len(),
            closing_byte(buf@, 1, false) == closing_byte(buf@, i as nat, literal),
        decreases buf.len() - i,
    {
        let b: u8 = buf[i];
        if literal {
            literal = false;
        } else if b == END {
            return Some(i);
        } else if b == START {
            return None;
        } else {
            literal = b == ESCAPE;
        }
        i = i + 1;
    }
    None
}

impl DriveFilter {
    pub fn new() -> (f: DriveFilter)
        ensures
            f@ == idle_filter(),
    {
        DriveFilter { seq: 0, repeats: 0 }
    }

    /// Decides what is written when the daemon writes `buf`: other bytes, or (`None`) `buf`
    /// itself. `hazard` is what the robot reports.
    pub fn filter(&mut self, hazard: bool, c: &mut Control, buf: &[u8]) -> (r: Option<Vec<u8>>)
        ensures
            final(self)@ == filter_after(old(self)@, *old(c), buf@),
            *final(c) == counted(old(self)@, hazard, *old(c), buf@),
            r is Some <==> is_motor_write(buf@) && in_control(old(self)@, *old(c)),
            (match r {
                Some(v) => v@,
                None => buf@,
            }) == written(old(self)@, hazard, *old(c), buf@),
    {
        if buf.len() < 3 || buf[0] != START || buf[1] != 9 || buf[2] != TYPE_MOTOR_CTRL {
            return None;
        }
        let end: usize = match find_closing(buf) {
            Some(e) => e,
            None => {
                return None;
            },
        };
        if c.seq != self.seq {
            self.seq = c.seq;
            self.repeats = 0;
        } else if self.repeats <= WATCHDOG_WRITES {
            self.repeats = self.repeats + 1;
        }
        if !c.enabled || self.repeats > WATCHDOG_WRITES {
            return None;
        }
        let mut linear: Float32 = c.linear.limited(MAX_LINEAR);
        let rot: Float32 = c.rot.limited(MAX_ROT);
        c.overrides = c.overrides.wrapping_add(1);
        if hazard && linear.bits == linear.magnitude() && !linear.is_zero() {
            linear = Float32::zero_value();
            c.hazard_clamps = c.hazard_clamps.wrapping_add(1);
        }
        let mut out: Vec<u8> = encode_motor_ctrl(1, linear, rot);
        let ghost command = out@;
        let rest: &[u8] = slice_subrange(buf, end + 1, buf.len());
        out.extend_from_slice(rest);
        proof {
            assert(rest@ =~= behind_command(buf@));
            assert(out@ =~= command + behind_command(buf@));
        }
        Some(out)
    }
}

// ---------------------------------------------------------------------------
// The relay's side: lines of text
// ---------------------------------------------------------------------------
/// White space as Unicode defines it.
pub open spec fn white(c: char) -> bool {
    let n = c as u32;
    9 <= n <= 13 || n == 0x20 || n == 0x85 || n == 0xa0 || n == 0x1680 || 0x2000 <= n <= 0x200a
        || n == 0x2028 || n == 0x2029 || n == 0x202f || n == 0x205f || n == 0x3000
}

/// The words that are complete within `s`, and the one that `s` ends in.
pub open spec fn split(s: Seq<char>) -> (Seq<Seq<char>>, Seq<char>)
    decreases s.len(),
{
    if s.len() == 0 {
        (Seq::empty(), Seq::empty())
    } else {
        let (done, word) = split(s.drop_last());
        if !white(s.last()) {
            (done, word.push(s.last()))
        } else if word.len() > 0 {
            (done.push(word), Seq::empty())
        } else {
            (done, word)
        }
    }
}

/// The words of `s`: its longest runs without white space.
pub open spec fn words(s: Seq<char>) -> Seq<Seq<char>> {
    let (done, word) = split(s);
    if word.len() > 0 {
        done.push(word)
    } else {
        done
    }
}

/// What a control client's line asks for.
#[derive(Debug)]
pub enum ControlLine {
    /// Nothing.
    Blank,
    /// To give the motors back.
    Release,
    /// To drive with the speeds that these words spell. A word may be missing.
    Drive { linear: String, rot: Option<String> },
}

/// What a line asks for, with its words.
pub enum ControlLineView {
    Blank,
    Release,
    Drive { linear: Seq<char>, rot: Option<Seq<char>> },
}

impl View for ControlLine {
    type V = ControlLineView;

    open spec fn view(&self) -> ControlLineView {
        match self {
            ControlLine::Blank => ControlLineView::Blank,
            ControlLine::Release => ControlLineView::Release,
            ControlLine::Drive { linear, rot } => ControlLineView::Drive {
                linear: linear@,
                rot: match rot {
                    Some(r) => Some(r@),
                    None => None,
                },
            },
        }
    }
}

/// What a line asks for.
pub open spec fn line_asks(s: Seq<char>) -> ControlLineView {
    let w = words(s);
    if w.len() == 0 {
        ControlLineView::Blank
    } else if w.len() == 1 && (w[0] == "stop"@ || w[0] == "disable"@) {
        ControlLineView::Release
    } else {
        ControlLineView::Drive {
            linear: w[0],
            rot: if w.len() > 1 {
                Some(w[1])
            } else {
                None
            },
        }
    }
}

fn is_white(c: char) -> (r: bool)
    ensures
        r == white(c),
{
    let n: u32 = c as u32;
    (9 <= n && n <= 13) || n == 0x20 || n == 0x85 || n == 0xa0 || n == 0x1680 || (0x2000 <= n && n
        <= 0x200a) || n == 0x2028 || n == 0x2029 || n == 0x202f || n == 0x205f || n == 0x3000
}

/// The words of a line.
pub fn words_of(line: &str) -> (r: Vec<String>)
    ensures
        texts_of(r@) == words(line@),
{
    let chars: Vec<char> = chars_of(line);
    let mut done: Vec<String> = Vec::new();
    let mut word: String = String::new();
    let mut word_len: usize = 0;
    let mut i: usize = 0;
    proof {
        assert(chars@.take(0) =~= Seq::<char>::empty());
        assert(texts_of(done@) =~= Seq::<Seq<char>>::empty());
        assert(word@ =~= Seq::<char>::empty());
    }
    while i < chars.len()
        invariant
            i <= chars@.len(),
            word_len <= i,
            word_len == word@.len(),
            split(chars@.take(i as int)) == (texts_of(done@), word@),
        decreases chars.len() - i,
    {
        let c: char = chars[i];
        assert(chars@.take(i + 1).drop_last() =~= chars@.take(i as int));
        if !is_white(c) {
            word.push(c);
            word_len = word_len + 1;
        } else if word_len > 0 {
            let ghost before = done@;
            let ghost text = word@;
            let mut next: String = String::new();
            std::mem::swap(&mut next, &mut word);
            done.push(next);
            word_len = 0;
            assert(texts_of(done@) =~= texts_of(before).push(text));
            assert(word@ =~= Seq::<char>::empty());
        }
        i = i + 1;
    }
    assert(chars@.take(chars@.len() as int) =~= line@);
    if word_len > 0 {
        let ghost before = done@;
        let ghost text = word@;
        done.push(word);
        assert(texts_of(done@) =~= texts_of(before).push(text));
    }
    done
}

/// Reads one line of a control client.
pub fn parse_line(line: &str) -> (r: ControlLine)
    ensures
        r@ == line_asks(line@),
{
    let w: Vec<String> = words_of(line);
    let ghost texts = texts_of(w@);
    assert(texts.len() == w@.len());
    if w.len() == 0 {
        return ControlLine::Blank;
    }
    assert(texts[0] == w@[0]@);
    if w.len() == 1 && (same_text(w[0].as_str(), "stop") || same_text(w[0].as_str(), "disable")) {
        return ControlLine::Release;
    }
    let linear: String = w[0].clone();
    let rot: Option<String> = if w.len() > 1 {
        assert(texts[1] == w@[1]@);
        Some(w[1].clone())
    } else {
        None
    };
    ControlLine::Drive { linear, rot }
}

/// Takes the speeds that a line's words spelled, if both did and both are finite. True
/// when they were taken; otherwise the line was bad and nothing changes.
pub fn request_drive(c: &mut Control, linear: Option<Float32>, rot: Option<Float32>) -> (taken: bool)
    ensures
        taken == (linear matches Some(l) && rot matches Some(r) && l.finite() && r.finite()),
        *final(c) == (if taken {
            old(c).requested(true, linear.unwrap(), rot.unwrap())
        } else {
            *old(c)
        }),
{
    if let (Some(l), Some(r)) = (linear, rot) {
        if l.is_finite() && r.is_finite() {
            c.set(true, l, r);
            return true;
        }
    }
    false
}

// ---------------------------------------------------------------------------
// Laws
// ---------------------------------------------------------------------------
/// Without an enabled request the tap changes nothing: every write reaches the robot
/// byte for byte.
pub proof fn law_disabled_is_identical(f: FilterView, hazard: bool, c: Control, buf: Seq<u8>)
    requires
        !c.enabled,
    ensures
        written(f, hazard, c, buf) == buf,
        counted(f, hazard, c, buf) == c,
{
}

/// A write that does not begin with a whole motor command passes untouched.
pub proof fn law_other_writes_pass(f: FilterView, hazard: bool, c: Control, buf: Seq<u8>)
    requires
        !is_motor_write(buf),
    ensures
        written(f, hazard, c, buf) == buf,
        filter_after(f, c, buf) == f,
        counted(f, hazard, c, buf) == c,
{
}

/// The motor command's closing byte is found in every write that begins with its packet,
/// whatever stands behind it.
proof fn lemma_packet_closes(typ: u8, payload: Seq<u8>, rest: Seq<u8>)
    ensures
        closing_byte(packet(typ, payload) + rest, 1, false) == Some(
            (packet(typ, payload).len() - 1) as nat,
        ),
{
    let body = body_of(typ, payload);
    let tail = seq![END] + rest;
    let buf = packet(typ, payload) + rest;
    assert(buf =~= seq![START] + escaped(body) + tail);
    lemma_closes_behind(seq![START], body, tail);
    let e = (1 + escaped(body).len()) as nat;
    assert(buf[e as int] == END);
    assert(closing_byte(buf, e, false) == Some(e));
}

/// An escaped body neither closes its frame nor begins another.
#[verifier::spinoff_prover]
proof fn lemma_closes_behind(head: Seq<u8>, body: Seq<u8>, tail: Seq<u8>)
    ensures
        closing_byte(head + escaped(body) + tail, head.len(), false) == closing_byte(
            head + escaped(body) + tail,
            head.len() + escaped(body).len(),
            false,
        ),
    decreases body.len(),
{
    if body.len() > 0 {
        let front = body.drop_last();
        let b = body.last();
        let mine = if special(b) {
            seq![ESCAPE, b]
        } else {
            seq![b]
        };
        let buf = head + escaped(body) + tail;
        lemma_closes_behind(head, front, mine + tail);
        assert(escaped(body) == escaped(front) + mine);
        assert(buf =~= head + escaped(front) + (mine + tail));
        let at = head.len() + escaped(front).len();
        assert(buf[at as int] == mine[0]);
        if special(b) {
            assert(closing_byte(buf, at, false) == closing_byte(buf, at + 1, true));
            assert(closing_byte(buf, at + 1, true) == closing_byte(buf, at + 2, false));
        } else {
            assert(closing_byte(buf, at, false) == closing_byte(buf, at + 1, false));
        }
    }
}

/// Every other frame passes untouched, also in one write with a motor command: of a write
/// of a motor command with anything behind it, only the motor command is replaced.
pub proof fn law_other_frames_pass(
    f: FilterView,
    hazard: bool,
    c: Control,
    payload: Seq<u8>,
    rest: Seq<u8>,
)
    requires
        payload.len() == 9,
    ensures
        is_motor_write(packet(TYPE_MOTOR_CTRL, payload) + rest),
        written(f, hazard, c, packet(TYPE_MOTOR_CTRL, payload) + rest) == (if in_control(f, c) {
            replacement(hazard, c)
        } else {
            packet(TYPE_MOTOR_CTRL, payload)
        }) + rest,
{
    let command = packet(TYPE_MOTOR_CTRL, payload);
    let buf = command + rest;
    let body = body_of(TYPE_MOTOR_CTRL, payload);
    assert(body[0] == 9 && body[1] == 0);
    lemma_escaped_start(body);
    assert(buf[1] == escaped(body)[0]);
    assert(buf[2] == escaped(body)[1]);
    lemma_packet_closes(TYPE_MOTOR_CTRL, payload, rest);
    assert(behind_command(buf) =~= rest);
}

/// A write changes in nothing but the motor command that it begins with, if it does at
/// all: what stands behind that command reaches the robot in either case.
pub proof fn law_only_the_command_changes(f: FilterView, hazard: bool, c: Control, buf: Seq<u8>)
    ensures
        written(f, hazard, c, buf) == buf || (is_motor_write(buf) && exists|command: Seq<u8>|
            #![trigger command + behind_command(buf)]
            buf == command + behind_command(buf) && command.last() == END && written(
                f,
                hazard,
                c,
                buf,
            ) == replacement(hazard, c) + behind_command(buf)),
{
    if is_motor_write(buf) {
        lemma_closing_byte(buf, 1, false);
        lemma_closing_is_end(buf, 1, false);
        let e = closing_byte(buf, 1, false)->Some_0;
        let command = buf.take(e as int + 1);
        assert(buf =~= command + behind_command(buf));
    }
}

proof fn lemma_closing_is_end(buf: Seq<u8>, i: nat, literal: bool)
    ensures
        closing_byte(buf, i, literal) matches Some(e) ==> buf[e as int] == END,
    decreases buf.len() - i,
{
    if i < buf.len() {
        if literal {
            lemma_closing_is_end(buf, i + 1, false);
        } else {
            lemma_closing_is_end(buf, i + 1, buf[i as int] == ESCAPE);
        }
    }
}

/// A client that leaves hands the motors back at once.
pub proof fn law_release_restores_the_daemon(
    f: FilterView,
    hazard: bool,
    c: Control,
    buf: Seq<u8>,
)
    ensures
        written(
            f,
            hazard,
            c.requested(false, Float32 { bits: 0 }, Float32 { bits: 0 }),
            buf,
        ) == buf,
{
}

/// The state after `n` motor commands without a new request.
pub open spec fn after_writes(f: FilterView, c: Control, buf: Seq<u8>, n: nat) -> FilterView
    decreases n,
{
    if n == 0 {
        f
    } else {
        filter_after(after_writes(f, c, buf, (n - 1) as nat), c, buf)
    }
}

proof fn lemma_repeats(f: FilterView, c: Control, buf: Seq<u8>, n: nat)
    requires
        is_motor_write(buf),
        f.seq == c.seq,
        f.repeats <= WATCHDOG_WRITES + 1,
    ensures
        after_writes(f, c, buf, n).seq == c.seq,
        after_writes(f, c, buf, n).repeats == (if f.repeats + n <= WATCHDOG_WRITES + 1 {
            f.repeats + n
        } else {
            WATCHDOG_WRITES + 1
        }),
    decreases n,
{
    if n > 0 {
        lemma_repeats(f, c, buf, (n - 1) as nat);
    }
}

/// A request counts from the motor command that first sees it for 25 more, and then no
/// longer, however many follow, until it is renewed.
pub proof fn law_unrenewed_request_expires(
    f: FilterView,
    hazard: bool,
    c: Control,
    buf: Seq<u8>,
    n: nat,
)
    requires
        is_motor_write(buf),
        c.enabled,
        f.seq != c.seq,
    ensures
        written(after_writes(f, c, buf, n), hazard, c, buf) == (if n <= WATCHDOG_WRITES {
            replacement(hazard, c) + behind_command(buf)
        } else {
            buf
        }),
    decreases n,
{
    if n > 0 {
        let first = filter_after(f, c, buf);
        lemma_repeats(first, c, buf, (n - 1) as nat);
        lemma_after_writes_from_first(f, c, buf, n);
    }
}

proof fn lemma_after_writes_from_first(f: FilterView, c: Control, buf: Seq<u8>, n: nat)
    requires
        n > 0,
    ensures
        after_writes(f, c, buf, n) == after_writes(
            filter_after(f, c, buf),
            c,
            buf,
            (n - 1) as nat,
        ),
    decreases n,
{
    if n > 1 {
        lemma_after_writes_from_first(f, c, buf, (n - 1) as nat);
    } else {
        assert(after_writes(f, c, buf, 0) == f);
    }
}

/// A renewed request counts again.
pub proof fn law_renewal_takes_control(
    f: FilterView,
    hazard: bool,
    c: Control,
    linear: Float32,
    rot: Float32,
    buf: Seq<u8>,
)
    requires
        is_motor_write(buf),
        f.seq == c.seq,
    ensures
        written(f, hazard, c.requested(true, linear, rot), buf) == replacement(
            hazard,
            c.requested(true, linear, rot),
        ) + behind_command(buf),
{
}

/// While a hazard is reported, no replaced command drives forward, and none is ever
/// faster than the limits.
pub proof fn law_replacement_is_safe(hazard: bool, c: Control)
    ensures
        exists|linear: Float32, rot: Float32|
            #![trigger motor_payload(1, linear, rot)]
            replacement(hazard, c) == packet(TYPE_MOTOR_CTRL, motor_payload(1, linear, rot))
                && linear.spec_magnitude() <= MAX_LINEAR && rot.spec_magnitude() <= MAX_ROT && (
            hazard ==> !forward(linear)),
{
    let linear = if hazard_applies(hazard, c) {
        Float32 { bits: 0 }
    } else {
        c.linear.spec_limited(MAX_LINEAR)
    };
    let rot = c.rot.spec_limited(MAX_ROT);
    assert(replacement(hazard, c) == packet(TYPE_MOTOR_CTRL, motor_payload(1, linear, rot)));
}

/// What replaces a motor command is a motor command itself.
pub proof fn law_replacement_is_motor_command(hazard: bool, c: Control)
    ensures
        is_motor_write(replacement(hazard, c)),
{
    let linear = if hazard_applies(hazard, c) {
        Float32 { bits: 0 }
    } else {
        c.linear.spec_limited(MAX_LINEAR)
    };
    let rot = c.rot.spec_limited(MAX_ROT);
    let p = motor_payload(1, linear, rot);
    law_other_frames_pass(idle_filter(), hazard, c, p, Seq::empty());
    assert(replacement(hazard, c) + Seq::<u8>::empty() =~= replacement(hazard, c));
}

proof fn lemma_escaped_start(s: Seq<u8>)
    requires
        s.len() >= 2,
        !special(s[0]),
        !special(s[1]),
    ensures
        escaped(s).len() >= 2,
        escaped(s)[0] == s[0],
        escaped(s)[1] == s[1],
    decreases s.len(),
{
    if s.len() == 2 {
        let a = s.drop_last();
        assert(a.drop_last() =~= Seq::<u8>::empty());
        assert(escaped(a.drop_last()) =~= Seq::<u8>::empty());
        assert(escaped(a) =~= seq![s[0]]);
    } else {
        lemma_escaped_start(s.drop_last());
    }
}

// ---------------------------------------------------------------------------
// What a client's request becomes
// ---------------------------------------------------------------------------
/// While a client is in control, the motor command that reaches the robot carries the
/// requested turn rate bit for bit if it is within 1.5 rad/s, whatever the forward speed
/// and hazard, and the requested forward speed bit for bit if it is within 150 mm/s and
/// either no hazard is reported or it does not lead forward. Beyond a limit it carries the
/// limit, with the sign that was asked for. Under a hazard a forward speed becomes zero.
/// What is not a number becomes zero.
#[verifier::spinoff_prover]
pub proof fn law_request_is_what_drives(
    f: FilterView,
    hazard: bool,
    c: Control,
    payload: Seq<u8>,
    rest: Seq<u8>,
)
    requires
        payload.len() == 9,
        c.enabled,
        c.seq != f.seq || f.repeats < 25,
    ensures
        exists|l: u32, r: u32|
            #![trigger drive_command(l, r)]
            {
                let (lin, rot) = (c.linear.bits, c.rot.bits);
                let ahead = 0 < lin <= 0x7f80_0000;
                let free = !hazard || !ahead;
                &&& written(f, hazard, c, packet(0x00, payload) + rest) == drive_command(l, r)
                    + rest
                &&& within(rot, 0x3fc0_0000) ==> r == rot
                &&& 0x3fc0_0000 < rot <= 0x7f80_0000 ==> r == 0x3fc0_0000
                &&& 0xbfc0_0000 < rot <= 0xff80_0000 ==> r == 0xbfc0_0000
                &&& !within(rot, 0x7f80_0000) ==> r == 0
                &&& free && within(lin, 0x4316_0000) ==> l == lin
                &&& free && 0x4316_0000 < lin <= 0x7f80_0000 ==> l == 0x4316_0000
                &&& 0xc316_0000 < lin <= 0xff80_0000 ==> l == 0xc316_0000
                &&& !within(lin, 0x7f80_0000) ==> l == 0
                &&& hazard && ahead ==> l == 0
            },
{
    let linear = if hazard_applies(hazard, c) {
        Float32 { bits: 0 }
    } else {
        c.linear.spec_limited(MAX_LINEAR)
    };
    let turn = c.rot.spec_limited(MAX_ROT);
    law_limited_by_pattern(c.linear, 0x4316_0000);
    law_limited_by_pattern(c.rot, 0x3fc0_0000);
    law_motor_payload_layout(1, linear, turn);
    law_other_frames_pass(f, hazard, c, payload, rest);
    assert(in_control(f, c));
    assert(replacement(hazard, c) == drive_command(linear.bits, turn.bits));
}

/// A request that the last 25 motor commands or more found unchanged no longer counts, nor
/// does one that is not enabled: the daemon's own command reaches the robot.
pub proof fn law_expired_request_leaves_the_daemon(
    f: FilterView,
    hazard: bool,
    c: Control,
    buf: Seq<u8>,
)
    requires
        !c.enabled || c.seq == f.seq && f.repeats >= 25,
    ensures
        written(f, hazard, c, buf) == buf,
        counted(f, hazard, c, buf) == c,
{
}

/// The counters: each motor command that is replaced counts once, and once more as a
/// clamp if a hazard took a forward speed away. Nothing else of the block changes.
pub proof fn law_replaced_commands_are_counted(
    f: FilterView,
    hazard: bool,
    c: Control,
    payload: Seq<u8>,
    rest: Seq<u8>,
)
    requires
        payload.len() == 9,
        c.enabled,
        c.seq != f.seq || f.repeats < 25,
        c.overrides < u64::MAX,
        c.hazard_clamps < u64::MAX,
    ensures
        ({
            let after = counted(f, hazard, c, packet(0x00, payload) + rest);
            let clamped = hazard && 0 < c.linear.bits <= 0x7f80_0000;
            &&& after.overrides == c.overrides + 1
            &&& clamped ==> after.hazard_clamps == c.hazard_clamps + 1
            &&& !clamped ==> after.hazard_clamps == c.hazard_clamps
            &&& after.enabled == c.enabled && after.seq == c.seq
            &&& after.linear == c.linear && after.rot == c.rot
        }),
{
    law_limited_by_pattern(c.linear, 0x4316_0000);
    law_other_frames_pass(f, hazard, c, payload, rest);
}

/// What the tap remembers after a motor command: the request it found, and how many in a
/// row found the same one.
pub proof fn law_unchanged_requests_are_counted(
    f: FilterView,
    c: Control,
    payload: Seq<u8>,
    rest: Seq<u8>,
)
    requires
        payload.len() == 9,
    ensures
        ({
            let after = filter_after(f, c, packet(0x00, payload) + rest);
            &&& after.seq == c.seq
            &&& c.seq != f.seq ==> after.repeats == 0
            &&& c.seq == f.seq && f.repeats <= 25 ==> after.repeats == f.repeats + 1
            &&& c.seq == f.seq && f.repeats > 25 ==> after.repeats == f.repeats
        }),
{
    law_other_frames_pass(f, false, c, payload, rest);
}

proof fn lemma_escaped_first_two(s: Seq<u8>)
    requires
        s.len() >= 2,
    ensures
        escaped(s).len() >= 2,
        escaped(s)[0] == s[0] || escaped(s)[0] == ESCAPE,
        !special(s[0]) ==> escaped(s)[1] == s[1] || escaped(s)[1] == ESCAPE,
    decreases s.len(),
{
    if s.len() == 2 {
        let a = s.drop_last();
        assert(a.drop_last() =~= Seq::<u8>::empty());
        assert(escaped(a.drop_last()) =~= Seq::<u8>::empty());
        if special(s[0]) {
            assert(escaped(a) =~= seq![ESCAPE, s[0]]);
        } else {
            assert(escaped(a) =~= seq![s[0]]);
        }
    } else {
        lemma_escaped_first_two(s.drop_last());
    }
}

/// A frame of another type or length that a write begins with is never replaced, and
/// neither the counters nor what the tap remembers change.
pub proof fn law_only_motor_commands_are_replaced(
    f: FilterView,
    hazard: bool,
    c: Control,
    typ: u8,
    payload: Seq<u8>,
    rest: Seq<u8>,
)
    requires
        payload.len() <= 255,
        typ != 0x00 || payload.len() != 9,
    ensures
        ({
            let buf = packet(typ, payload) + rest;
            &&& written(f, hazard, c, buf) == buf
            &&& filter_after(f, c, buf) == f
            &&& counted(f, hazard, c, buf) == c
        }),
{
    let body = body_of(typ, payload);
    let buf = packet(typ, payload) + rest;
    lemma_escaped_first_two(body);
    assert(body[0] == payload.len() && body[1] == typ);
    assert(buf[1] == escaped(body)[0]);
    assert(buf[2] == escaped(body)[1]);
}

proof fn lemma_closes_within(buf: Seq<u8>, k: int, i: nat, literal: bool)
    requires
        0 <= k <= buf.len(),
    ensures
        closing_byte(buf.take(k), i, literal) matches Some(e) ==> e < k && closing_byte(
            buf,
            i,
            literal,
        ) == Some(e),
    decreases buf.len() - i,
{
    if i < k {
        assert(buf.take(k)[i as int] == buf[i as int]);
        if literal {
            lemma_closes_within(buf, k, i + 1, false);
        } else {
            lemma_closes_within(buf, k, i + 1, buf[i as int] == ESCAPE);
        }
    }
}

/// A write that ends inside a motor command passes as it is.
pub proof fn law_cut_command_passes(
    f: FilterView,
    hazard: bool,
    c: Control,
    payload: Seq<u8>,
    n: int,
)
    requires
        payload.len() == 9,
        0 <= n < packet(0x00, payload).len(),
    ensures
        written(f, hazard, c, packet(0x00, payload).take(n)) == packet(0x00, payload).take(n),
{
    let command = packet(0x00, payload);
    lemma_packet_closes(0x00, payload, Seq::empty());
    assert(command + Seq::<u8>::empty() =~= command);
    lemma_closes_within(command, n, 1, false);
}

/// A request takes what it asks for and is told from the one before it; the counters stay.
pub proof fn law_request_is_new(c: Control, enabled: bool, linear: Float32, rot: Float32)
    ensures
        ({
            let after = c.requested(enabled, linear, rot);
            &&& after.seq != c.seq
            &&& after.enabled == enabled
            &&& after.linear == linear
            &&& after.rot == rot
            &&& after.overrides == c.overrides
            &&& after.hazard_clamps == c.hazard_clamps
        }),
{
}

/// A triggers frame in the telemetry says whether there is a hazard: it does if its first
/// byte is 16 or more or its second is not zero. Every other frame leaves it as it was.
pub proof fn law_hazard_is_what_triggers_say(h: HazardView, typ: u8, payload: Seq<u8>)
    requires
        payload.len() <= 255,
        !(h.scan is Escaped),
    ensures
        ({
            let after = observed(h, packet(typ, payload));
            &&& typ == 0x00 && payload.len() >= 2 ==> (after.hazard <==> payload[0] >= 16
                || payload[1] > 0)
            &&& typ != 0x00 || payload.len() < 2 ==> after.hazard == h.hazard
            &&& after.scan is Outside
        }),
{
    let body = body_of(typ, payload);
    law_packet_is_found(h.scan, typ, payload);
    law_parse_inverts_body(typ, payload);
    let one = seq![body];
    assert(one.drop_last() =~= Seq::<Seq<u8>>::empty());
    assert(hazard_after_all(h.hazard, one.drop_last()) == h.hazard);
    if payload.len() >= 2 {
        law_hazard_by_value(payload[0], payload[1]);
    }
}

// ---------------------------------------------------------------------------
// Words
// ---------------------------------------------------------------------------
proof fn lemma_split_word(a: Seq<char>, w: Seq<char>)
    requires
        forall|i: int| 0 <= i < w.len() ==> !white(#[trigger] w[i]),
    ensures
        split(a + w) == (split(a).0, split(a).1 + w),
    decreases w.len(),
{
    if w.len() == 0 {
        assert(a + w =~= a);
        assert(split(a).1 + w =~= split(a).1);
    } else {
        lemma_split_word(a, w.drop_last());
        assert((a + w).drop_last() =~= a + w.drop_last());
        assert((split(a).1 + w.drop_last()).push(w.last()) =~= split(a).1 + w);
    }
}

/// Behind white space a new word begins: the words of two texts with white space between
/// them are the words of the one and then those of the other.
pub proof fn law_words_part_at_white_space(a: Seq<char>, w: char, b: Seq<char>)
    requires
        w == ' ' || w == '\t' || w == '\n' || w == '\r',
    ensures
        words(a + seq![w] + b) == words(a) + words(b),
{
    let (done, word) = split(a);
    let head = a + seq![w];
    assert(head.drop_last() =~= a);
    assert(split(head).1.len() == 0);
    assert(split(head).0 =~= words(a));
    lemma_split_after(head, b);
    if split(b).1.len() > 0 {
        assert((split(head).0 + split(b).0).push(split(b).1) =~= words(a) + words(b));
    }
}

proof fn lemma_split_after(head: Seq<char>, b: Seq<char>)
    requires
        split(head).1.len() == 0,
    ensures
        split(head + b) == (split(head).0 + split(b).0, split(b).1),
    decreases b.len(),
{
    if b.len() == 0 {
        assert(head + b =~= head);
        assert(split(head).0 + split(b).0 =~= split(head).0);
        assert(split(head).1 =~= split(b).1);
    } else {
        lemma_split_after(head, b.drop_last());
        assert((head + b).drop_last() =~= head + b.drop_last());
        let (done, word) = split(b.drop_last());
        if white(b.last()) && word.len() > 0 {
            assert((split(head).0 + done).push(word) =~= split(head).0 + done.push(word));
        }
    }
}

/// A text without white space is one word, and the empty text none.
pub proof fn law_unbroken_text_is_one_word(s: Seq<char>)
    requires
        forall|i: int| 0 <= i < s.len() ==> '!' <= #[trigger] s[i] <= '~',
    ensures
        s.len() > 0 ==> words(s) == seq![s],
        s.len() == 0 ==> words(s).len() == 0,
{
    let none = Seq::<char>::empty();
    lemma_split_word(none, s);
    assert(none + s =~= s);
    if s.len() > 0 {
        assert(words(s) =~= seq![s]);
    }
}

/// The lines of a control client: nothing but white space asks for nothing; `stop` or
/// `disable` alone gives the motors back; two words ask for the speeds that they spell.
pub proof fn law_lines_by_their_words(s: Seq<char>)
    ensures
        words(s).len() == 0 ==> line_asks(s) is Blank,
        words(s) == seq!["stop"@] ==> line_asks(s) is Release,
        words(s) == seq!["disable"@] ==> line_asks(s) is Release,
        words(s).len() == 1 && words(s)[0] != "stop"@ && words(s)[0] != "disable"@ ==> line_asks(s)
            == (ControlLineView::Drive { linear: words(s)[0], rot: None }),
        words(s).len() >= 2 ==> line_asks(s) == (ControlLineView::Drive {
            linear: words(s)[0],
            rot: Some(words(s)[1]),
        }),
{
}

proof fn lemma_closing_walk(buf: Seq<u8>, i: nat, mid: Seq<u8>)
    requires
        literal_bytes(mid) is Some,
        i + mid.len() <= buf.len(),
        forall|j: int| 0 <= j < mid.len() ==> #[trigger] mid[j] == buf[i + j],
    ensures
        closing_byte(buf, i, false) == closing_byte(buf, i + mid.len(), false),
    decreases mid.len(),
{
    if mid.len() > 0 {
        assert(mid[0] == buf[i as int]);
        if mid[0] == ESCAPE {
            let rest = mid.skip(2);
            assert forall|j: int| 0 <= j < rest.len() implies #[trigger] rest[j] == buf[i + 2
                + j] by {
                assert(mid[j + 2] == buf[i + (j + 2)]);
            }
            lemma_closing_walk(buf, i + 2, rest);
            assert(closing_byte(buf, i, false) == closing_byte(buf, i + 1, true));
            assert(closing_byte(buf, i + 1, true) == closing_byte(buf, i + 2, false));
        } else {
            let rest = mid.skip(1);
            assert forall|j: int| 0 <= j < rest.len() implies #[trigger] rest[j] == buf[i + 1
                + j] by {
                assert(mid[j + 1] == buf[i + (j + 1)]);
            }
            lemma_closing_walk(buf, i + 1, rest);
        }
    }
}

/// The daemon's motor commands are known by how they begin, `<`, 9, 0, and by their
/// closing `>`, whatever else they hold: each is replaced whole. One in which another
/// frame begins before it is closed is left alone.
#[verifier::spinoff_prover]
pub proof fn law_motor_commands_by_their_opening(mid: Seq<u8>, rest: Seq<u8>)
    requires
        literal_bytes(mid) is Some,
    ensures
        is_motor_write(seq!['<' as u8, 9u8, 0u8] + mid + seq!['>' as u8] + rest),
        behind_command(seq!['<' as u8, 9u8, 0u8] + mid + seq!['>' as u8] + rest) == rest,
        !is_motor_write(seq!['<' as u8, 9u8, 0u8] + mid + seq!['<' as u8] + rest),
        !is_motor_write(seq!['<' as u8, 9u8, 0u8] + mid),
{
    let open = seq!['<' as u8, 9u8, 0u8];
    let a = open + mid + seq!['>' as u8] + rest;
    let b = open + mid + seq!['<' as u8] + rest;
    let c = open + mid;
    let e = 3 + mid.len();
    lemma_closing_walk(a, 3, mid);
    lemma_closing_walk(b, 3, mid);
    lemma_closing_walk(c, 3, mid);
    reveal_with_fuel(closing_byte, 3);
    assert(a[1] == 9 && a[2] == 0 && a[e as int] == END);
    assert(b[1] == 9 && b[2] == 0 && b[e as int] == START);
    assert(c[1] == 9 && c[2] == 0);
    assert(closing_byte(a, 1, false) == closing_byte(a, 3, false));
    assert(closing_byte(b, 1, false) == closing_byte(b, 3, false));
    assert(closing_byte(c, 1, false) == closing_byte(c, 3, false));
    assert(closing_byte(a, 1, false) == Some(e));
    assert(behind_command(a) =~= rest);
}

/// White space by its codes.
pub proof fn law_white_space_by_code(c: char)
    ensures
        white(c) <==> {
            let n = c as int;
            ||| 9 <= n <= 13
            ||| n == 32 || n == 133 || n == 160 || n == 5760
            ||| 8192 <= n <= 8202
            ||| n == 8232 || n == 8233 || n == 8239 || n == 8287 || n == 12288
        },
{
}

/// The count of requests goes up by one, and from its highest value to zero; so do the
/// counters.
pub proof fn law_counts_go_up_by_one(n: u32, m: u64)
    ensures
        n < u32::MAX ==> next_u32(n) == n + 1,
        next_u32(u32::MAX) == 0,
        m < u64::MAX ==> next_u64(m) == m + 1,
        next_u64(u64::MAX) == 0,
        forall|c: Control, linear: Float32, rot: Float32|
            (#[trigger] c.requested(true, linear, rot)).seq == next_u32(c.seq),
{
}

proof fn lemma_hazard_after_both(h: bool, a: Seq<Seq<u8>>, b: Seq<Seq<u8>>)
    ensures
        hazard_after_all(h, a + b) == hazard_after_all(hazard_after_all(h, a), b),
    decreases b.len(),
{
    if b.len() == 0 {
        assert(a + b =~= a);
    } else {
        lemma_hazard_after_both(h, a, b.drop_last());
        assert((a + b).drop_last() =~= a + b.drop_last());
    }
}

/// How the telemetry is cut into reads does not matter to the hazard that is known.
pub proof fn law_observed_in_pieces(h: HazardView, a: Seq<u8>, b: Seq<u8>)
    ensures
        observed(h, a + b) == observed(observed(h, a), b),
{
    law_scan_in_pieces(h.scan, a, b);
    lemma_hazard_after_both(
        h.hazard,
        scan(h.scan, a).1,
        scan(scan(h.scan, a).0, b).1,
    );
}

/// A frame that is damaged says nothing of the hazard.
pub proof fn law_damaged_frame_says_no_hazard(h: bool, body: Seq<u8>)
    requires
        parsed(body) is Err,
    ensures
        hazard_after(h, body) == h,
{
}

} // verus!
