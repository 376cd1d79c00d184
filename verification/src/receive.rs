//! What the driver does with the MCU's byte stream.
use vstd::prelude::*;
use crate::frame::{encode_for_link, parse_body, FrameScanner, ScanView};
use crate::frame::{body_of, law_packet_is_found, law_parse_inverts_body, law_short_payload_fits};
use crate::frame::{bodies_of, packet, parsed, scan};
use crate::message::{apply, Msg, TYPE_PING, TYPE_TRIGGERS};
use crate::message::{applied, carries_sensors, decoded, hazard_bytes, law_hazard_by_value};
use crate::sensors::{SensorMap, SensorValue};
use vstd::slice::slice_subrange;

verus! {

/// What came of some bytes.
pub struct ReceivedView {
    /// Sensor values afterwards.
    pub sensors: Map<Seq<char>, SensorValue>,
    /// Some message carried sensor values.
    pub dirty: bool,
    /// The answers that are due, in order.
    pub pongs: Seq<Seq<u8>>,
    /// The hazard last reported, if one was.
    pub hazard: Option<bool>,
}

/// One frame body: its pings are answered with their first four bytes, its triggers
/// state the hazard, its sensor values are kept. A damaged body is passed over.
pub open spec fn received_body(r: ReceivedView, body: Seq<u8>) -> ReceivedView {
    match parsed(body) {
        Ok((typ, p)) => ReceivedView {
            sensors: applied(r.sensors, decoded(typ, p)),
            dirty: r.dirty || carries_sensors(decoded(typ, p)),
            pongs: if typ == TYPE_PING && p.len() >= 4 {
                r.pongs.push(packet(TYPE_PING, p.take(4)))
            } else {
                r.pongs
            },
            hazard: if typ == TYPE_TRIGGERS && p.len() >= 2 {
                Some(hazard_bytes(p[0], p[1]))
            } else {
                r.hazard
            },
        },
        Err(_) => r,
    }
}

/// Several bodies in turn.
pub open spec fn received_bodies(r: ReceivedView, bodies: Seq<Seq<u8>>) -> ReceivedView
    decreases bodies.len(),
{
    if bodies.len() == 0 {
        r
    } else {
        received_body(received_bodies(r, bodies.drop_last()), bodies.last())
    }
}

/// Nothing yet, with the sensor values as they are.
pub open spec fn nothing_received(sensors: Map<Seq<char>, SensorValue>) -> ReceivedView {
    ReceivedView { sensors, dirty: false, pongs: Seq::empty(), hazard: None }
}

/// What came of some bytes, besides the sensor values.
pub struct Received {
    pub dirty: bool,
    pub pongs: Vec<Vec<u8>>,
    pub hazard: Option<bool>,
}

/// Reads the MCU's byte stream.
pub struct McuReader {
    scanner: FrameScanner,
    sensors: SensorMap,
}

/// Where an MCU reader stands.
pub struct McuView {
    pub scan: ScanView,
    pub sensors: Map<Seq<char>, SensorValue>,
}

impl View for McuReader {
    type V = McuView;

    closed spec fn view(&self) -> McuView {
        McuView { scan: self.scanner@, sensors: self.sensors@ }
    }
}

/// The result with the sensor values it goes with.
pub open spec fn received_view(
    r: Received,
    sensors: Map<Seq<char>, SensorValue>,
) -> ReceivedView {
    ReceivedView {
        sensors,
        dirty: r.dirty,
        pongs: r.pongs@.map_values(|f: Vec<u8>| f@),
        hazard: r.hazard,
    }
}

/// Takes one frame body.
pub fn receive_body(sensors: &mut SensorMap, r: &mut Received, body: &[u8])
    requires
        old(sensors).wf(),
    ensures
        final(sensors).wf(),
        received_view(*final(r), final(sensors)@) == received_body(
            received_view(*old(r), old(sensors)@),
            body@,
        ),
{
    let ghost before = received_view(*r, sensors@);
    if let Ok((typ, payload)) = parse_body(body) {
        if typ == TYPE_PING && payload.len() >= 4 {
            let echo: &[u8] = slice_subrange(payload, 0, 4);
            proof {
                law_short_payload_fits(TYPE_PING, echo@);
                assert(echo@ =~= payload@.take(4));
            }
            if let Some(f) = encode_for_link(TYPE_PING, echo) {
                let ghost sent = r.pongs@;
                r.pongs.push(f);
                assert(r.pongs@.map_values(|f: Vec<u8>| f@) =~= sent.map_values(
                    |f: Vec<u8>| f@,
                ).push(f@));
            }
        }
        if typ == TYPE_TRIGGERS && payload.len() >= 2 {
            r.hazard = Some(payload[0] & 0xf0 != 0 || payload[1] != 0);
        }
        let m: Msg = Msg::decode(typ, payload);
        let touched: bool = apply(sensors, &m);
        r.dirty = r.dirty || touched;
    }
}

impl McuReader {
    pub closed spec fn wf(&self) -> bool {
        self.sensors.wf()
    }

    pub fn new() -> (r: McuReader)
        ensures
            r.wf(),
            r@.scan == ScanView::Outside,
            r@.sensors == Map::<Seq<char>, SensorValue>::empty(),
    {
        McuReader { scanner: FrameScanner::new(), sensors: SensorMap::new() }
    }

    /// The sensor values.
    pub fn sensors(&self) -> (m: &SensorMap)
        requires
            self.wf(),
        ensures
            m.wf(),
            m@ == self@.sensors,
    {
        &self.sensors
    }

    /// Takes bytes in direct mode: updates the sensor values, and says which answers are
    /// due and what hazard was last reported.
    pub fn feed(&mut self, bytes: &[u8]) -> (r: Received)
        requires
            old(self).wf(),
        ensures
            final(self).wf(),
            final(self)@.scan == scan(old(self)@.scan, bytes@).0,
            received_view(r, final(self)@.sensors) == received_bodies(
                nothing_received(old(self)@.sensors),
                scan(old(self)@.scan, bytes@).1,
            ),
    {
        let mut r: Received = Received { dirty: false, pongs: Vec::new(), hazard: None };
        let ghost none = nothing_received(self@.sensors);
        let bodies: Vec<Vec<u8>> = self.scanner.collect(bytes);
        let ghost end = self.scanner@;
        let ghost all = bodies_of(bodies@);
        let mut i: usize = 0;
        proof {
            assert(all.take(0) =~= Seq::<Seq<u8>>::empty());
            assert(received_view(r, self@.sensors).pongs =~= none.pongs);
        }
        while i < bodies.len()
            invariant
                i <= bodies@.len(),
                all == bodies_of(bodies@),
                self.scanner@ == end,
                self.sensors.wf(),
                received_view(r, self.sensors@) == received_bodies(none, all.take(i as int)),
            decreases bodies.len() - i,
        {
            assert(all.take(i + 1).drop_last() =~= all.take(i as int));
            assert(all.take(i + 1).last() == bodies@[i as int]@);
            receive_body(&mut self.sensors, &mut r, bodies[i].as_slice());
            i = i + 1;
        }
        assert(all.take(all.len() as int) =~= all);
        r
    }

    /// Takes bytes in over-ava mode: only the sensor values are updated. True when any
    /// message carried some.
    pub fn mirror(&mut self, bytes: &[u8]) -> (dirty: bool)
        requires
            old(self).wf(),
        ensures
            final(self).wf(),
            final(self)@.scan == scan(old(self)@.scan, bytes@).0,
            ({
                let r = received_bodies(
                    nothing_received(old(self)@.sensors),
                    scan(old(self)@.scan, bytes@).1,
                );
                final(self)@.sensors == r.sensors && dirty == r.dirty
            }),
    {
        let r: Received = self.feed(bytes);
        r.dirty
    }
}

// ---------------------------------------------------------------------------
// Laws
// ---------------------------------------------------------------------------
proof fn lemma_one_body(r: ReceivedView, body: Seq<u8>)
    ensures
        received_bodies(r, seq![body]) == received_body(r, body),
{
    assert(seq![body].drop_last() =~= Seq::<Seq<u8>>::empty());
    assert(received_bodies(r, seq![body].drop_last()) == r);
}

/// Every ping is answered: the bytes of a ping frame make exactly one answer due, a
/// frame of the same type with the first four bytes of its payload.
pub proof fn law_ping_is_answered(
    s: ScanView,
    sensors: Map<Seq<char>, SensorValue>,
    payload: Seq<u8>,
)
    requires
        !(s is Escaped),
        4 <= payload.len() <= 255,
    ensures
        received_bodies(
            nothing_received(sensors),
            scan(s, packet(TYPE_PING, payload)).1,
        ).pongs == seq![packet(TYPE_PING, payload.take(4))],
{
    law_packet_is_found(s, TYPE_PING, payload);
    law_parse_inverts_body(TYPE_PING, payload);
    lemma_one_body(nothing_received(sensors), body_of(TYPE_PING, payload));
    assert(Seq::<Seq<u8>>::empty().push(packet(TYPE_PING, payload.take(4))) =~= seq![
        packet(TYPE_PING, payload.take(4)),
    ]);
}

/// A telemetry frame that arrives whole is what the sensor values show next, and no
/// answer is sent for it.
pub proof fn law_telemetry_is_applied(
    s: ScanView,
    sensors: Map<Seq<char>, SensorValue>,
    typ: u8,
    payload: Seq<u8>,
)
    requires
        !(s is Escaped),
        typ != TYPE_PING,
        payload.len() <= 255,
    ensures
        ({
            let r = received_bodies(nothing_received(sensors), scan(s, packet(typ, payload)).1);
            &&& r.sensors == applied(sensors, decoded(typ, payload))
            &&& r.dirty == carries_sensors(decoded(typ, payload))
            &&& r.pongs.len() == 0
        }),
{
    law_packet_is_found(s, typ, payload);
    law_parse_inverts_body(typ, payload);
    lemma_one_body(nothing_received(sensors), body_of(typ, payload));
}

/// The hazard follows the triggers: a trigger frame states it anew.
pub proof fn law_hazard_follows_triggers(
    s: ScanView,
    sensors: Map<Seq<char>, SensorValue>,
    payload: Seq<u8>,
)
    requires
        !(s is Escaped),
        2 <= payload.len() <= 255,
    ensures
        received_bodies(
            nothing_received(sensors),
            scan(s, packet(TYPE_TRIGGERS, payload)).1,
        ).hazard == Some(hazard_bytes(payload[0], payload[1])),
{
    law_packet_is_found(s, TYPE_TRIGGERS, payload);
    law_parse_inverts_body(TYPE_TRIGGERS, payload);
    lemma_one_body(nothing_received(sensors), body_of(TYPE_TRIGGERS, payload));
}

/// How the stream is cut into reads does not matter: the bodies of two reads have the
/// effect of their concatenation.
pub proof fn law_received_in_pieces(r: ReceivedView, a: Seq<Seq<u8>>, b: Seq<Seq<u8>>)
    ensures
        received_bodies(r, a + b) == received_bodies(received_bodies(r, a), b),
    decreases b.len(),
{
    if b.len() == 0 {
        assert(a + b =~= a);
    } else {
        law_received_in_pieces(r, a, b.drop_last());
        assert((a + b).drop_last() =~= a + b.drop_last());
    }
}

/// The body is a sound frame that carries sensor values.
pub open spec fn tells(body: Seq<u8>) -> bool {
    parsed(body) matches Ok((typ, payload)) && carries_sensors(decoded(typ, payload))
}

/// A snapshot of the sensor values is due after a read exactly when some frame of it
/// carried sensor values.
pub proof fn law_snapshot_is_due_when_told(
    sensors: Map<Seq<char>, SensorValue>,
    bodies: Seq<Seq<u8>>,
)
    ensures
        received_bodies(nothing_received(sensors), bodies).dirty <==> exists|i: int|
            0 <= i < bodies.len() && #[trigger] tells(bodies[i]),
    decreases bodies.len(),
{
    if bodies.len() > 0 {
        let front = bodies.drop_last();
        let z = bodies.len() - 1;
        law_snapshot_is_due_when_told(sensors, front);
        let before = received_bodies(nothing_received(sensors), front);
        let now = received_bodies(nothing_received(sensors), bodies);
        assert(now.dirty == (before.dirty || tells(bodies[z])));
        if before.dirty {
            let i = choose|i: int| 0 <= i < front.len() && #[trigger] tells(front[i]);
            assert(tells(bodies[i]));
        }
        if exists|i: int| 0 <= i < bodies.len() && #[trigger] tells(bodies[i]) {
            let i = choose|i: int| 0 <= i < bodies.len() && #[trigger] tells(bodies[i]);
            if i < z {
                assert(tells(front[i]));
            }
        }
    }
}

/// Damaged frames have no effect.
pub proof fn law_damaged_body_is_ignored(r: ReceivedView, body: Seq<u8>)
    requires
        parsed(body) is Err,
    ensures
        received_body(r, body) == r,
{
}

/// A frame of each type and what comes of it, whatever came before: a ping of four bytes
/// or more is answered, behind the answers already due, with those four bytes; triggers
/// of two bytes or more state the hazard; no other frame does either.
pub proof fn law_frames_by_type(r: ReceivedView, typ: u8, p: Seq<u8>)
    requires
        p.len() <= 255,
    ensures
        ({
            let after = received_body(r, body_of(typ, p));
            &&& typ == 0x0f && p.len() >= 4 ==> after.pongs == r.pongs.push(
                packet(0x0f, seq![p[0], p[1], p[2], p[3]]),
            )
            &&& typ != 0x0f || p.len() < 4 ==> after.pongs == r.pongs
            &&& typ == 0x00 && p.len() >= 2 ==> (after.hazard matches Some(h) && (h <==> p[0] >= 16
                || p[1] > 0))
            &&& typ != 0x00 || p.len() < 2 ==> after.hazard == r.hazard
            &&& after.sensors == applied(r.sensors, decoded(typ, p))
            &&& r.dirty ==> after.dirty
            &&& !r.dirty ==> (after.dirty <==> typ == 0x00 && p.len() >= 7 || typ == 0x01
                && p.len() >= 30 || typ == 0x02 && p.len() >= 18 || typ == 0x2b && p.len() >= 12)
        }),
{
    law_parse_inverts_body(typ, p);
    if p.len() >= 2 {
        law_hazard_by_value(p[0], p[1]);
    }
    if p.len() >= 4 {
        assert(p.take(4) =~= seq![p[0], p[1], p[2], p[3]]);
    }
}

/// Before any frame no answer is due, no hazard is known, and no snapshot is due.
pub proof fn law_nothing_comes_of_nothing(sensors: Map<Seq<char>, SensorValue>)
    ensures
        ({
            let r = received_bodies(nothing_received(sensors), Seq::empty());
            &&& r.sensors == sensors
            &&& !r.dirty
            &&& r.pongs.len() == 0
            &&& r.hazard is None
        }),
{
}

} // verus!
