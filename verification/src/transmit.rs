//! What the driver sends to the MCU in direct mode.
//!
//! Every tick (20 ms) carries a motor command. The other frames keep the MCU from
//! faulting and hold the actuators and the lidar as they were last set; they come at
//! fixed places in a cycle of ticks.
use vstd::arithmetic::div_mod::lemma_fundamental_div_mod;
use vstd::arithmetic::div_mod::lemma_fundamental_div_mod_converse;
use vstd::prelude::*;
use crate::command::{initial_cmd, CmdState, CmdView};
use crate::float32::{law_limited_by_pattern, Float32};
use crate::frame::{encode_for_link, encode_motor_ctrl, FRAME_ROOM, TYPE_MOTOR_CTRL};
use crate::frame::{law_motor_payload_layout, law_short_payload_fits, motor_payload, packet};
use crate::message::le32;
use crate::sweep::elapsed;

verus! {

/// 150 mm/s, the highest forward speed.
pub const MAX_LINEAR: u32 = 0x4316_0000;

/// 1.5 rad/s, the highest turn rate.
pub const MAX_ROT: u32 = 0x3fc0_0000;

/// A drive command counts for this long, in nanoseconds.
pub const WATCHDOG_NS: u64 = 500_000_000;

/// Frame types the driver sends.
pub const TYPE_SET_CLEANING: u8 = 0x01;

pub const TYPE_SET_LED: u8 = 0x02;

pub const TYPE_NAV_FLAG: u8 = 0x14;

pub const TYPE_LASER: u8 = 0x1d;

pub const TYPE_NAV_STATUS: u8 = 0x26;

/// The speeds a motor command carries.
#[derive(Clone, Copy, Debug, PartialEq, Eq, Structural)]
pub struct Motion {
    pub linear_mm_s: Float32,
    pub rot_rad_s: Float32,
}

/// The motion that is sent: none once the last drive command is too old, never faster
/// than the limits, and no translation while a hazard is reported.
pub open spec fn motion(c: CmdView, hazard: bool, now_ns: u64) -> Motion {
    let fresh = elapsed(now_ns, c.last_cmd_ns) < WATCHDOG_NS;
    let asked = if fresh {
        Motion { linear_mm_s: c.linear_mm_s, rot_rad_s: c.rot_rad_s }
    } else {
        Motion { linear_mm_s: Float32 { bits: 0 }, rot_rad_s: Float32 { bits: 0 } }
    };
    let linear = asked.linear_mm_s.spec_limited(MAX_LINEAR);
    Motion {
        linear_mm_s: if hazard && !linear.zero() {
            Float32 { bits: 0 }
        } else {
            linear
        },
        rot_rad_s: asked.rot_rad_s.spec_limited(MAX_ROT),
    }
}

/// The motion that is sent now.
pub fn current_motion(c: &CmdState, hazard: bool, now_ns: u64) -> (m: Motion)
    ensures
        m == motion(c@, hazard, now_ns),
{
    let fresh: bool = now_ns < c.last_cmd_ns() || now_ns - c.last_cmd_ns() < WATCHDOG_NS;
    let (lin, rot): (Float32, Float32) = if fresh {
        (c.linear_mm_s(), c.rot_rad_s())
    } else {
        (Float32::zero_value(), Float32::zero_value())
    };
    let mut linear: Float32 = lin.limited(MAX_LINEAR);
    if hazard && !linear.is_zero() {
        linear = Float32::zero_value();
    }
    Motion { linear_mm_s: linear, rot_rad_s: rot.limited(MAX_ROT) }
}

/// The motor command for a motion.
pub open spec fn motor_packet(m: Motion) -> Seq<u8> {
    packet(TYPE_MOTOR_CTRL, motor_payload(1, m.linear_mm_s, m.rot_rad_s))
}

/// The actuator levels as sent: the mode byte says vacuum while the fan runs.
pub open spec fn cleaning_payload(c: CmdView) -> Seq<u8> {
    c.levels.update(
        4,
        if c.levels[2] > 0 {
            0x03
        } else {
            0x00
        },
    )
}

/// Keeps the turret on or off.
pub open spec fn nav_flag_payload(lidar: bool) -> Seq<u8> {
    seq![
        0x04u8,
        if lidar {
            0x01
        } else {
            0x00
        },
    ]
}

/// Reports navigating or idle.
pub open spec fn nav_status_payload(lidar: bool) -> Seq<u8> {
    seq![
        if lidar {
            0x14u8
        } else {
            0x64u8
        },
        0,
        0,
        0,
        0,
        0,
        0,
        0x04,
    ]
}

/// A frame when `due`, else nothing.
pub open spec fn when(due: bool, typ: u8, payload: Seq<u8>) -> Seq<Seq<u8>> {
    if due {
        seq![packet(typ, payload)]
    } else {
        Seq::empty()
    }
}

/// The frames of one tick, in order.
pub open spec fn tick_frames(c: CmdView, hazard: bool, tick: u64, now_ns: u64) -> Seq<Seq<u8>> {
    seq![motor_packet(motion(c, hazard, now_ns))] + when(
        tick % 25 == 5,
        TYPE_SET_LED,
        seq![0x21u8],
    ) + when(tick % 25 == 12, TYPE_SET_CLEANING, cleaning_payload(c)) + when(
        tick % 50 == 20,
        TYPE_NAV_FLAG,
        nav_flag_payload(c.lidar_on),
    ) + when(tick % 50 == 30, TYPE_NAV_STATUS, nav_status_payload(c.lidar_on)) + when(
        c.lidar_on && tick % 200 == 40,
        TYPE_LASER,
        seq![0x05u8, 0x01u8],
    )
}

/// The bytes of frames.
pub open spec fn bytes_of(frames: Seq<Vec<u8>>) -> Seq<Seq<u8>> {
    frames.map_values(|f: Vec<u8>| f@)
}

/// Adds a frame with a short payload to those to be sent.
fn queue(frames: &mut Vec<Vec<u8>>, typ: u8, payload: &[u8])
    requires
        payload@.len() <= 27,
    ensures
        bytes_of(final(frames)@) == bytes_of(old(frames)@).push(packet(typ, payload@)),
{
    let ghost before = frames@;
    proof {
        law_short_payload_fits(typ, payload@);
    }
    if let Some(f) = encode_for_link(typ, payload) {
        frames.push(f);
        assert(bytes_of(frames@) =~= bytes_of(before).push(packet(typ, payload@)));
    }
}

/// Sends the frames of each tick in turn.
pub struct Transmitter {
    tick: u64,
}

impl View for Transmitter {
    type V = u64;

    /// The next tick.
    closed spec fn view(&self) -> u64 {
        self.tick
    }
}

impl Transmitter {
    pub fn new() -> (t: Transmitter)
        ensures
            t@ == 0,
    {
        Transmitter { tick: 0 }
    }

    /// The frames of this tick; then the next tick is due.
    pub fn step(&mut self, c: &CmdState, hazard: bool, now_ns: u64) -> (frames: Vec<Vec<u8>>)
        ensures
            bytes_of(frames@) == tick_frames(c@, hazard, old(self)@, now_ns),
            final(self)@ == (if old(self)@ == u64::MAX {
                0
            } else {
                (old(self)@ + 1) as u64
            }),
    {
        let tick: u64 = self.tick;
        let lidar: bool = c.lidar_on();
        let m: Motion = current_motion(c, hazard, now_ns);
        let mut frames: Vec<Vec<u8>> = Vec::new();
        frames.push(encode_motor_ctrl(1, m.linear_mm_s, m.rot_rad_s));
        let ghost mut want = seq![motor_packet(m)];
        assert(bytes_of(frames@) =~= want);
        if tick % 25 == 5 {
            let p: [u8; 1] = [0x21];
            assert(p@ =~= seq![0x21u8]);
            queue(&mut frames, TYPE_SET_LED, p.as_slice());
        }
        proof {
            want = want + when(tick % 25 == 5, TYPE_SET_LED, seq![0x21u8]);
            assert(bytes_of(frames@) =~= want);
        }
        if tick % 25 == 12 {
            let mode: u8 = if c.level(2) > 0 {
                0x03
            } else {
                0x00
            };
            let p: [u8; 6] = [c.level(0), c.level(1), c.level(2), c.level(3), mode, c.level(5)];
            proof {
                c.lemma_levels();
            }
            assert(p@ =~= cleaning_payload(c@));
            queue(&mut frames, TYPE_SET_CLEANING, p.as_slice());
        }
        proof {
            want = want + when(tick % 25 == 12, TYPE_SET_CLEANING, cleaning_payload(c@));
            assert(bytes_of(frames@) =~= want);
        }
        if tick % 50 == 20 {
            let on: u8 = if lidar {
                0x01
            } else {
                0x00
            };
            let p: [u8; 2] = [0x04, on];
            assert(p@ =~= nav_flag_payload(lidar));
            queue(&mut frames, TYPE_NAV_FLAG, p.as_slice());
        }
        proof {
            want = want + when(tick % 50 == 20, TYPE_NAV_FLAG, nav_flag_payload(lidar));
            assert(bytes_of(frames@) =~= want);
        }
        if tick % 50 == 30 {
            let state: u8 = if lidar {
                0x14
            } else {
                0x64
            };
            let p: [u8; 8] = [state, 0, 0, 0, 0, 0, 0, 0x04];
            assert(p@ =~= nav_status_payload(lidar));
            queue(&mut frames, TYPE_NAV_STATUS, p.as_slice());
        }
        proof {
            want = want + when(tick % 50 == 30, TYPE_NAV_STATUS, nav_status_payload(lidar));
            assert(bytes_of(frames@) =~= want);
        }
        if lidar && tick % 200 == 40 {
            let p: [u8; 2] = [0x05, 0x01];
            assert(p@ =~= seq![0x05u8, 0x01u8]);
            queue(&mut frames, TYPE_LASER, p.as_slice());
        }
        proof {
            want = want + when(lidar && tick % 200 == 40, TYPE_LASER, seq![0x05u8, 0x01u8]);
            assert(bytes_of(frames@) =~= want);
        }
        self.tick = tick.wrapping_add(1);
        frames
    }
}

/// The motor command that is sent last when the driver shuts down: stand still.
pub fn stop_frame() -> (f: Vec<u8>)
    ensures
        f@ == motor_packet(
            Motion { linear_mm_s: Float32 { bits: 0 }, rot_rad_s: Float32 { bits: 0 } },
        ),
{
    encode_motor_ctrl(1, Float32::zero_value(), Float32::zero_value())
}

// ---------------------------------------------------------------------------
// Laws
// ---------------------------------------------------------------------------
/// The limits are 150 and three halves, counted in the smallest step of a float.
#[verifier::spinoff_prover]
pub proof fn law_limits_are_150_and_one_and_a_half()
    ensures
        crate::float32::steps(MAX_LINEAR) == 150 * vstd::arithmetic::power2::pow2(149),
        2 * crate::float32::steps(MAX_ROT) == 3 * vstd::arithmetic::power2::pow2(149),
{
    use_pow2_split(16, 133);
    use_pow2_split(22, 126);
    use_pow2_split(148, 1);
    vstd::arithmetic::power2::lemma2_to64();
    let p133 = vstd::arithmetic::power2::pow2(133);
    let p126 = vstd::arithmetic::power2::pow2(126);
    assert(MAX_LINEAR / 0x80_0000 == 134 && MAX_LINEAR % 0x80_0000 == 0x16_0000);
    assert(MAX_ROT / 0x80_0000 == 127 && MAX_ROT % 0x80_0000 == 0x40_0000);
    assert((0x80_0000 + 0x16_0000) * p133 == 150 * (65536 * p133)) by (nonlinear_arith);
    assert((0x80_0000 + 0x40_0000) * p126 == 3 * (4194304 * p126)) by (nonlinear_arith);
}

proof fn use_pow2_split(a: nat, b: nat)
    ensures
        vstd::arithmetic::power2::pow2(a) * vstd::arithmetic::power2::pow2(b)
            == vstd::arithmetic::power2::pow2(a + b),
{
    vstd::arithmetic::power2::lemma_pow2_adds(a, b);
}

/// No motor command is faster than the limits, whatever was asked; what is not a number
/// asks for nothing.
pub proof fn law_speed_is_limited(c: CmdView, hazard: bool, now_ns: u64)
    ensures
        motion(c, hazard, now_ns).linear_mm_s.spec_magnitude() <= MAX_LINEAR,
        motion(c, hazard, now_ns).rot_rad_s.spec_magnitude() <= MAX_ROT,
        c.linear_mm_s.nan() ==> motion(c, hazard, now_ns).linear_mm_s.zero(),
        c.rot_rad_s.nan() ==> motion(c, hazard, now_ns).rot_rad_s.zero(),
{
}

/// While a hazard is reported the robot does not translate.
pub proof fn law_hazard_stops_translation(c: CmdView, now_ns: u64)
    ensures
        motion(c, true, now_ns).linear_mm_s.zero(),
{
}

/// Half a second after the last drive command the robot stands still.
pub proof fn law_old_command_stops(c: CmdView, hazard: bool, now_ns: u64)
    requires
        elapsed(now_ns, c.last_cmd_ns) >= WATCHDOG_NS,
    ensures
        motion(c, hazard, now_ns).linear_mm_s.zero(),
        motion(c, hazard, now_ns).rot_rad_s.zero(),
{
}

/// A fresh command within the limits is sent as it was asked when there is no hazard.
pub proof fn law_fresh_command_is_obeyed(c: CmdView, now_ns: u64)
    requires
        elapsed(now_ns, c.last_cmd_ns) < WATCHDOG_NS,
        c.linear_mm_s.spec_magnitude() <= MAX_LINEAR,
        c.rot_rad_s.spec_magnitude() <= MAX_ROT,
    ensures
        motion(c, false, now_ns) == (Motion {
            linear_mm_s: c.linear_mm_s,
            rot_rad_s: c.rot_rad_s,
        }),
{
}

/// Every tick carries a motor command, which comes first, and at most two other frames.
pub proof fn law_every_tick_drives(c: CmdView, hazard: bool, tick: u64, now_ns: u64)
    ensures
        tick_frames(c, hazard, tick, now_ns).len() >= 1,
        tick_frames(c, hazard, tick, now_ns)[0] == motor_packet(motion(c, hazard, now_ns)),
        tick_frames(c, hazard, tick, now_ns).len() <= 3,
{
}

/// Any 25 ticks in a row hold a heartbeat and a statement of the actuator levels.
#[verifier::spinoff_prover]
pub proof fn law_heartbeat_within_25_ticks(c: CmdView, hazard: bool, from: u64, now_ns: u64)
    requires
        from + 25 <= u64::MAX,
    ensures
        exists|t: u64|
            from <= t < from + 25 && (#[trigger] tick_frames(c, hazard, t, now_ns)).contains(
                packet(TYPE_SET_LED, seq![0x21u8]),
            ),
        exists|t: u64|
            from <= t < from + 25 && (#[trigger] tick_frames(c, hazard, t, now_ns)).contains(
                packet(TYPE_SET_CLEANING, cleaning_payload(c)),
            ),
{
    let a = (from + (5 - from as int) % 25) as u64;
    assert(from <= a < from + 25 && a % 25 == 5);
    assert(tick_frames(c, hazard, a, now_ns)[1] == packet(TYPE_SET_LED, seq![0x21u8]));
    let b = (from + (12 - from as int) % 25) as u64;
    assert(from <= b < from + 25 && b % 25 == 12);
    assert(tick_frames(c, hazard, b, now_ns)[1] == packet(TYPE_SET_CLEANING, cleaning_payload(c)));
}

/// The turret is only ever told to run while the lidar is on: with it off, the frames of
/// a tick are those of the idle state.
pub proof fn law_lidar_off_is_idle(c: CmdView, hazard: bool, tick: u64, now_ns: u64)
    requires
        !c.lidar_on,
    ensures
        tick % 50 == 20 ==> tick_frames(c, hazard, tick, now_ns) == seq![
            motor_packet(motion(c, hazard, now_ns)),
            packet(TYPE_NAV_FLAG, seq![0x04u8, 0x00u8]),
        ],
        tick % 50 == 30 ==> tick_frames(c, hazard, tick, now_ns) == seq![
            motor_packet(motion(c, hazard, now_ns)),
            packet(TYPE_SET_LED, seq![0x21u8]),
            packet(TYPE_NAV_STATUS, seq![0x64u8, 0, 0, 0, 0, 0, 0, 0x04]),
        ],
        tick % 200 == 40 ==> tick_frames(c, hazard, tick, now_ns) == seq![
            motor_packet(motion(c, hazard, now_ns)),
        ],
{
    if tick % 50 == 20 {
        assert(nav_flag_payload(false) =~= seq![0x04u8, 0x00u8]);
        assert(tick_frames(c, hazard, tick, now_ns) =~= seq![
            motor_packet(motion(c, hazard, now_ns)),
            packet(TYPE_NAV_FLAG, seq![0x04u8, 0x00u8]),
        ]);
    }
    if tick % 50 == 30 {
        assert(nav_status_payload(false) =~= seq![0x64u8, 0, 0, 0, 0, 0, 0, 0x04]);
        assert(tick_frames(c, hazard, tick, now_ns) =~= seq![
            motor_packet(motion(c, hazard, now_ns)),
            packet(TYPE_SET_LED, seq![0x21u8]),
            packet(TYPE_NAV_STATUS, seq![0x64u8, 0, 0, 0, 0, 0, 0, 0x04]),
        ]);
    }
    if tick % 200 == 40 {
        assert(tick_frames(c, hazard, tick, now_ns) =~= seq![
            motor_packet(motion(c, hazard, now_ns)),
        ]);
    }
}

/// While the lidar is on, any 50 ticks in a row keep the turret running and any 200
/// pulse the laser.
#[verifier::spinoff_prover]
pub proof fn law_lidar_on_is_sustained(c: CmdView, hazard: bool, from: u64, now_ns: u64)
    requires
        c.lidar_on,
        from + 200 <= u64::MAX,
    ensures
        exists|t: u64|
            from <= t < from + 50 && (#[trigger] tick_frames(c, hazard, t, now_ns)).contains(
                packet(TYPE_NAV_FLAG, seq![0x04u8, 0x01u8]),
            ),
        exists|t: u64|
            from <= t < from + 50 && (#[trigger] tick_frames(c, hazard, t, now_ns)).contains(
                packet(TYPE_NAV_STATUS, seq![0x14u8, 0, 0, 0, 0, 0, 0, 0x04]),
            ),
        exists|t: u64|
            from <= t < from + 200 && (#[trigger] tick_frames(c, hazard, t, now_ns)).contains(
                packet(TYPE_LASER, seq![0x05u8, 0x01u8]),
            ),
{
    let a = (from + (20 - from as int) % 50) as u64;
    assert(from <= a < from + 50 && a % 50 == 20 && a % 25 == 20);
    assert(nav_flag_payload(true) =~= seq![0x04u8, 0x01u8]);
    assert(tick_frames(c, hazard, a, now_ns)[1] == packet(TYPE_NAV_FLAG, seq![0x04u8, 0x01u8]));
    let b = (from + (30 - from as int) % 50) as u64;
    assert(from <= b < from + 50 && b % 50 == 30 && b % 25 == 5);
    assert(nav_status_payload(true) =~= seq![0x14u8, 0, 0, 0, 0, 0, 0, 0x04]);
    assert(tick_frames(c, hazard, b, now_ns)[2] == packet(
        TYPE_NAV_STATUS,
        seq![0x14u8, 0, 0, 0, 0, 0, 0, 0x04],
    ));
    let d = (from + (40 - from as int) % 200) as u64;
    assert(from <= d < from + 200 && d % 200 == 40 && d % 50 == 40 && d % 25 == 15);
    assert(tick_frames(c, hazard, d, now_ns)[1] == packet(TYPE_LASER, seq![0x05u8, 0x01u8]));
}

/// Every frame that is sent fits the link's write buffer.
pub proof fn law_sent_frames_fit(c: CmdView, hazard: bool, tick: u64, now_ns: u64, i: int)
    requires
        c.levels.len() == 6,
        0 <= i < tick_frames(c, hazard, tick, now_ns).len(),
    ensures
        tick_frames(c, hazard, tick, now_ns)[i].len() <= FRAME_ROOM,
{
    let m = motion(c, hazard, now_ns);
    law_short_payload_fits(TYPE_MOTOR_CTRL, motor_payload(1, m.linear_mm_s, m.rot_rad_s));
    law_short_payload_fits(TYPE_SET_LED, seq![0x21u8]);
    law_short_payload_fits(TYPE_SET_CLEANING, cleaning_payload(c));
    law_short_payload_fits(TYPE_NAV_FLAG, nav_flag_payload(c.lidar_on));
    law_short_payload_fits(TYPE_NAV_STATUS, nav_status_payload(c.lidar_on));
    law_short_payload_fits(TYPE_LASER, seq![0x05u8, 0x01u8]);
}

// ---------------------------------------------------------------------------
// How often each frame comes
// ---------------------------------------------------------------------------
/// A frame by its type and payload.
pub open spec fn message_when(due: bool, typ: u8, payload: Seq<u8>) -> Seq<(u8, Seq<u8>)> {
    if due {
        seq![(typ, payload)]
    } else {
        Seq::empty()
    }
}

/// The motor command for a motion, by its type and payload.
pub open spec fn motor_message(m: Motion) -> (u8, Seq<u8>) {
    (TYPE_MOTOR_CTRL, motor_payload(1, m.linear_mm_s, m.rot_rad_s))
}

/// The frames of one tick by their types and payloads, in order.
pub open spec fn tick_messages(c: CmdView, hazard: bool, tick: u64, now_ns: u64) -> Seq<
    (u8, Seq<u8>),
> {
    seq![motor_message(motion(c, hazard, now_ns))] + message_when(
        tick % 25 == 5,
        TYPE_SET_LED,
        seq![0x21u8],
    ) + message_when(tick % 25 == 12, TYPE_SET_CLEANING, cleaning_payload(c)) + message_when(
        tick % 50 == 20,
        TYPE_NAV_FLAG,
        nav_flag_payload(c.lidar_on),
    ) + message_when(tick % 50 == 30, TYPE_NAV_STATUS, nav_status_payload(c.lidar_on))
        + message_when(c.lidar_on && tick % 200 == 40, TYPE_LASER, seq![0x05u8, 0x01u8])
}

/// The bytes of a tick are its messages, each as a packet.
pub proof fn law_tick_sends_its_messages(c: CmdView, hazard: bool, tick: u64, now_ns: u64)
    ensures
        tick_frames(c, hazard, tick, now_ns) == tick_messages(c, hazard, tick, now_ns).map_values(
            |m: (u8, Seq<u8>)| packet(m.0, m.1),
        ),
{
    assert(tick_frames(c, hazard, tick, now_ns) =~= tick_messages(
        c,
        hazard,
        tick,
        now_ns,
    ).map_values(|m: (u8, Seq<u8>)| packet(m.0, m.1)));
}

/// What a tick goes by.
pub struct TickInput {
    pub c: CmdView,
    pub hazard: bool,
    pub now_ns: u64,
}

/// The messages of the `n` ticks from `from` on, in order.
pub open spec fn run_messages(
    inputs: spec_fn(int) -> TickInput,
    from: int,
    n: nat,
) -> Seq<(u8, Seq<u8>)>
    decreases n,
{
    if n == 0 {
        Seq::empty()
    } else {
        let t = from + n - 1;
        let i = inputs(t);
        run_messages(inputs, from, (n - 1) as nat) + tick_messages(
            i.c,
            i.hazard,
            t as u64,
            i.now_ns,
        )
    }
}

/// How many messages are of a type.
pub open spec fn count_type(ms: Seq<(u8, Seq<u8>)>, typ: u8) -> nat
    decreases ms.len(),
{
    if ms.len() == 0 {
        0
    } else {
        count_type(ms.drop_last(), typ) + (if ms.last().0 == typ {
            1nat
        } else {
            0nat
        })
    }
}

/// Every message of the type has this payload.
pub open spec fn all_say(ms: Seq<(u8, Seq<u8>)>, typ: u8, payload: Seq<u8>) -> bool {
    forall|k: int| 0 <= k < ms.len() && (#[trigger] ms[k]).0 == typ ==> ms[k].1 == payload
}

proof fn lemma_count_add(a: Seq<(u8, Seq<u8>)>, b: Seq<(u8, Seq<u8>)>, typ: u8)
    ensures
        count_type(a + b, typ) == count_type(a, typ) + count_type(b, typ),
    decreases b.len(),
{
    if b.len() == 0 {
        assert(a + b =~= a);
    } else {
        lemma_count_add(a, b.drop_last(), typ);
        assert((a + b).drop_last() =~= a + b.drop_last());
    }
}

proof fn lemma_count_when(due: bool, t: u8, payload: Seq<u8>, typ: u8)
    ensures
        count_type(message_when(due, t, payload), typ) == (if due && t == typ {
            1nat
        } else {
            0nat
        }),
{
    let one = seq![(t, payload)];
    assert(one.drop_last() =~= Seq::<(u8, Seq<u8>)>::empty());
    assert(count_type(one.drop_last(), typ) == 0);
}

/// The ticks at which a type is due.
pub open spec fn due_at(typ: u8, lidar: bool, t: int) -> bool {
    if typ == TYPE_MOTOR_CTRL {
        true
    } else if typ == TYPE_SET_LED {
        t % 25 == 5
    } else if typ == TYPE_SET_CLEANING {
        t % 25 == 12
    } else if typ == TYPE_NAV_FLAG {
        t % 50 == 20
    } else if typ == TYPE_NAV_STATUS {
        t % 50 == 30
    } else {
        typ == TYPE_LASER && lidar && t % 200 == 40
    }
}

#[verifier::spinoff_prover]
proof fn lemma_count_tick(c: CmdView, hazard: bool, tick: u64, now_ns: u64, typ: u8)
    ensures
        count_type(tick_messages(c, hazard, tick, now_ns), typ) == (if due_at(
            typ,
            c.lidar_on,
            tick as int,
        ) {
            1nat
        } else {
            0nat
        }),
{
    let m = motor_message(motion(c, hazard, now_ns));
    let a = seq![m];
    let led = message_when(tick % 25 == 5, TYPE_SET_LED, seq![0x21u8]);
    let levels = message_when(tick % 25 == 12, TYPE_SET_CLEANING, cleaning_payload(c));
    let flag = message_when(tick % 50 == 20, TYPE_NAV_FLAG, nav_flag_payload(c.lidar_on));
    let status = message_when(tick % 50 == 30, TYPE_NAV_STATUS, nav_status_payload(c.lidar_on));
    let laser = message_when(
        c.lidar_on && tick % 200 == 40,
        TYPE_LASER,
        seq![0x05u8, 0x01u8],
    );
    lemma_count_when(true, m.0, m.1, typ);
    assert(message_when(true, m.0, m.1) =~= a);
    lemma_count_when(tick % 25 == 5, TYPE_SET_LED, seq![0x21u8], typ);
    lemma_count_when(tick % 25 == 12, TYPE_SET_CLEANING, cleaning_payload(c), typ);
    lemma_count_when(tick % 50 == 20, TYPE_NAV_FLAG, nav_flag_payload(c.lidar_on), typ);
    lemma_count_when(tick % 50 == 30, TYPE_NAV_STATUS, nav_status_payload(c.lidar_on), typ);
    lemma_count_when(
        c.lidar_on && tick % 200 == 40,
        TYPE_LASER,
        seq![0x05u8, 0x01u8],
        typ,
    );
    lemma_count_add(a, led, typ);
    lemma_count_add(a + led, levels, typ);
    lemma_count_add(a + led + levels, flag, typ);
    lemma_count_add(a + led + levels + flag, status, typ);
    lemma_count_add(a + led + levels + flag + status, laser, typ);
}

/// How many of the `n` numbers from `from` on are due for a type.
pub open spec fn due_count(typ: u8, lidar: bool, from: int, n: nat) -> nat
    decreases n,
{
    if n == 0 {
        0
    } else {
        due_count(typ, lidar, from, (n - 1) as nat) + (if due_at(typ, lidar, from + n - 1) {
            1nat
        } else {
            0nat
        })
    }
}

proof fn lemma_count_run(
    inputs: spec_fn(int) -> TickInput,
    from: int,
    n: nat,
    lidar: bool,
    typ: u8,
)
    requires
        0 <= from,
        from + n <= u64::MAX,
        forall|t: int| from <= t < from + n ==> (#[trigger] inputs(t)).c.lidar_on == lidar,
    ensures
        count_type(run_messages(inputs, from, n), typ) == due_count(typ, lidar, from, n),
    decreases n,
{
    if n > 0 {
        lemma_count_run(inputs, from, (n - 1) as nat, lidar, typ);
        let t = from + n - 1;
        let i = inputs(t);
        lemma_count_tick(i.c, i.hazard, t as u64, i.now_ns, typ);
        lemma_count_add(
            run_messages(inputs, from, (n - 1) as nat),
            tick_messages(i.c, i.hazard, t as u64, i.now_ns),
            typ,
        );
    }
}

/// Numbers below `x` that leave the rest `r` by `m`.
spec fn below(x: int, m: int, r: int) -> int {
    (x + m - 1 - r) / m
}

proof fn lemma_below_at(x: int, m: int, r: int, q: int, k: int)
    requires
        0 <= r < m,
        0 <= k < m,
        x == q * m + k,
    ensures
        below(x, m, r) == q + (if k > r {
            1int
        } else {
            0int
        }),
{
    let y = x + m - 1 - r;
    if k <= r {
        lemma_fundamental_div_mod_converse(y, m, q, k + m - 1 - r);
    } else {
        assert((q + 1) * m == q * m + m) by (nonlinear_arith);
        lemma_fundamental_div_mod_converse(y, m, q + 1, k - 1 - r);
    }
}

proof fn lemma_below(x: int, m: int, r: int, j: int)
    requires
        0 <= r < m,
    ensures
        below(x + 1, m, r) == below(x, m, r) + (if x % m == r {
            1int
        } else {
            0int
        }),
        below(x + j * m, m, r) == below(x, m, r) + j,
{
    let q = x / m;
    let k = x % m;
    lemma_fundamental_div_mod(x, m);
    assert(m * q == q * m) by (nonlinear_arith);
    lemma_below_at(x, m, r, q, k);
    if k + 1 < m {
        lemma_below_at(x + 1, m, r, q, k + 1);
    } else {
        assert((q + 1) * m == q * m + m) by (nonlinear_arith);
        lemma_below_at(x + 1, m, r, q + 1, 0);
    }
    assert((q + j) * m == q * m + j * m) by (nonlinear_arith);
    lemma_below_at(x + j * m, m, r, q + j, k);
}

/// The period and the rest by which a type other than the motor command is due.
spec fn period_of(typ: u8) -> (int, int) {
    if typ == TYPE_SET_LED {
        (25, 5)
    } else if typ == TYPE_SET_CLEANING {
        (25, 12)
    } else if typ == TYPE_NAV_FLAG {
        (50, 20)
    } else if typ == TYPE_NAV_STATUS {
        (50, 30)
    } else {
        (200, 40)
    }
}

#[verifier::opaque]
spec fn below_period(typ: u8, x: int) -> int {
    let (m, r) = period_of(typ);
    below(x, m, r)
}

#[verifier::spinoff_prover]
proof fn lemma_below_period(typ: u8, x: int)
    ensures
        below_period(typ, x + 1) == below_period(typ, x) + (if x % period_of(typ).0 == period_of(
            typ,
        ).1 {
            1int
        } else {
            0int
        }),
        below_period(typ, x + 200) == below_period(typ, x) + 200int / period_of(typ).0,
{
    reveal(below_period);
    let (m, r) = period_of(typ);
    assert(200int / 25 == 8 && 200int / 50 == 4 && 200int / 200 == 1);
    if m == 25 {
        lemma_below(x, 25, r, 8);
    } else if m == 50 {
        lemma_below(x, 50, r, 4);
    } else {
        lemma_below(x, 200, r, 1);
    }
}

proof fn lemma_due_count(typ: u8, lidar: bool, from: int, n: nat)
    requires
        typ == TYPE_SET_LED || typ == TYPE_SET_CLEANING || typ == TYPE_NAV_FLAG || typ
            == TYPE_NAV_STATUS || typ == TYPE_LASER && lidar,
    ensures
        due_count(typ, lidar, from, n) == below_period(typ, from + n) - below_period(typ, from),
    decreases n,
{
    if n > 0 {
        lemma_due_count(typ, lidar, from, (n - 1) as nat);
        lemma_below_period(typ, from + n - 1);
    }
}

proof fn lemma_due_always_or_never(typ: u8, lidar: bool, from: int, n: nat)
    requires
        typ == TYPE_MOTOR_CTRL || typ == TYPE_LASER && !lidar,
    ensures
        due_count(typ, lidar, from, n) == (if typ == TYPE_MOTOR_CTRL {
            n
        } else {
            0
        }),
    decreases n,
{
    if n > 0 {
        lemma_due_always_or_never(typ, lidar, from, (n - 1) as nat);
    }
}

proof fn lemma_due_in_200(typ: u8, lidar: bool, from: int)
    requires
        typ == TYPE_SET_LED || typ == TYPE_SET_CLEANING || typ == TYPE_NAV_FLAG || typ
            == TYPE_NAV_STATUS || typ == TYPE_LASER && lidar,
    ensures
        due_count(typ, lidar, from, 200) == (if typ == TYPE_LASER {
            1nat
        } else if typ == TYPE_NAV_FLAG || typ == TYPE_NAV_STATUS {
            4nat
        } else {
            8nat
        }),
{
    lemma_due_count(typ, lidar, from, 200);
    lemma_below_period(typ, from);
    assert(200int / 25 == 8 && 200int / 50 == 4 && 200int / 200 == 1);
}

#[verifier::spinoff_prover]
proof fn lemma_run_payloads(inputs: spec_fn(int) -> TickInput, from: int, n: nat, lidar: bool)
    requires
        0 <= from,
        from + n <= u64::MAX,
        forall|t: int| from <= t < from + n ==> (#[trigger] inputs(t)).c.lidar_on == lidar,
    ensures
        ({
            let ms = run_messages(inputs, from, n);
            &&& all_say(ms, TYPE_SET_LED, seq![0x21u8])
            &&& all_say(ms, TYPE_NAV_FLAG, nav_flag_payload(lidar))
            &&& all_say(ms, TYPE_NAV_STATUS, nav_status_payload(lidar))
            &&& all_say(ms, TYPE_LASER, seq![0x05u8, 0x01u8])
        }),
    decreases n,
{
    if n > 0 {
        lemma_run_payloads(inputs, from, (n - 1) as nat, lidar);
        let i = inputs(from + n - 1);
        let front = run_messages(inputs, from, (n - 1) as nat);
        let tick = tick_messages(i.c, i.hazard, (from + n - 1) as u64, i.now_ns);
        let ms = run_messages(inputs, from, n);
        assert(ms == front + tick);
        assert forall|k: int| 0 <= k < ms.len() implies (#[trigger] ms[k]) == (if k < front.len() {
            front[k]
        } else {
            tick[k - front.len()]
        }) by {}
    }
}

/// Any 200 ticks in a row, which is about four seconds, with the lidar left on or left
/// off: a motor command each, eight heartbeats, eight statements of the levels, four and
/// four of the turret's frames, and one laser pulse if the lidar is on, else none.
#[verifier::spinoff_prover]
pub proof fn law_frames_of_200_ticks(
    inputs: spec_fn(int) -> TickInput,
    from: int,
    lidar: bool,
)
    requires
        0 <= from,
        from + 200 <= u64::MAX,
        forall|t: int| from <= t < from + 200 ==> (#[trigger] inputs(t)).c.lidar_on == lidar,
    ensures
        count_type(run_messages(inputs, from, 200), TYPE_MOTOR_CTRL) == 200,
        count_type(run_messages(inputs, from, 200), TYPE_SET_LED) == 8,
        count_type(run_messages(inputs, from, 200), TYPE_SET_CLEANING) == 8,
        count_type(run_messages(inputs, from, 200), TYPE_NAV_FLAG) == 4,
        count_type(run_messages(inputs, from, 200), TYPE_NAV_STATUS) == 4,
        count_type(run_messages(inputs, from, 200), TYPE_LASER) == (if lidar {
            1nat
        } else {
            0nat
        }),
{
    lemma_count_run(inputs, from, 200, lidar, TYPE_MOTOR_CTRL);
    lemma_count_run(inputs, from, 200, lidar, TYPE_SET_LED);
    lemma_count_run(inputs, from, 200, lidar, TYPE_SET_CLEANING);
    lemma_count_run(inputs, from, 200, lidar, TYPE_NAV_FLAG);
    lemma_count_run(inputs, from, 200, lidar, TYPE_NAV_STATUS);
    lemma_count_run(inputs, from, 200, lidar, TYPE_LASER);
    lemma_due_always_or_never(TYPE_MOTOR_CTRL, lidar, from, 200);
    lemma_due_in_200(TYPE_SET_LED, lidar, from);
    lemma_due_in_200(TYPE_SET_CLEANING, lidar, from);
    lemma_due_in_200(TYPE_NAV_FLAG, lidar, from);
    lemma_due_in_200(TYPE_NAV_STATUS, lidar, from);
    if lidar {
        lemma_due_in_200(TYPE_LASER, lidar, from);
    } else {
        lemma_due_always_or_never(TYPE_LASER, lidar, from, 200);
    }
}

/// With the lidar left on, all of the turret's frames over any number of ticks say so;
/// with it left off, all say that. Heartbeats and laser pulses are always the same.
#[verifier::spinoff_prover]
pub proof fn law_frames_say_the_lidar_state(
    inputs: spec_fn(int) -> TickInput,
    from: int,
    n: nat,
    lidar: bool,
)
    requires
        0 <= from,
        from + n <= u64::MAX,
        forall|t: int| from <= t < from + n ==> (#[trigger] inputs(t)).c.lidar_on == lidar,
    ensures
        all_say(run_messages(inputs, from, n), TYPE_SET_LED, seq![0x21u8]),
        all_say(run_messages(inputs, from, n), TYPE_LASER, seq![0x05u8, 0x01u8]),
        lidar ==> all_say(run_messages(inputs, from, n), TYPE_NAV_FLAG, seq![0x04u8, 0x01u8]),
        !lidar ==> all_say(run_messages(inputs, from, n), TYPE_NAV_FLAG, seq![0x04u8, 0x00u8]),
        lidar ==> all_say(
            run_messages(inputs, from, n),
            TYPE_NAV_STATUS,
            seq![0x14u8, 0, 0, 0, 0, 0, 0, 0x04],
        ),
        !lidar ==> all_say(
            run_messages(inputs, from, n),
            TYPE_NAV_STATUS,
            seq![0x64u8, 0, 0, 0, 0, 0, 0, 0x04],
        ),
{
    lemma_run_payloads(inputs, from, n, lidar);
    if lidar {
        assert(nav_flag_payload(lidar) =~= seq![0x04u8, 0x01u8]);
        assert(nav_status_payload(lidar) =~= seq![0x14u8, 0, 0, 0, 0, 0, 0, 0x04]);
    } else {
        assert(nav_flag_payload(lidar) =~= seq![0x04u8, 0x00u8]);
        assert(nav_status_payload(lidar) =~= seq![0x64u8, 0, 0, 0, 0, 0, 0, 0x04]);
    }
}

// ---------------------------------------------------------------------------
// The frames of a tick, byte for byte
// ---------------------------------------------------------------------------
/// A motor command with these bits for the speeds.
pub open spec fn drive_command(linear: u32, rot: u32) -> Seq<u8> {
    packet(0x00, seq![0x01u8] + le32(linear as int) + le32(rot as int))
}

/// The bits of a speed that is not beyond the limit on either side of zero.
pub open spec fn within(bits: u32, limit: u32) -> bool {
    bits <= limit || 0x8000_0000 <= bits <= 0x8000_0000 + limit
}

/// The frames of every tick by its number. All begin with the motor command. Tick 12 of
/// 25 states the levels, each at its own place, with 3 for the mode while the fan runs
/// and 0 while it does not; tick 5 of 25 lights the LED; ticks 20 and 30 of 50 tell of
/// the turret; tick 40 of 200 fires the laser while the lidar is on.
#[verifier::spinoff_prover]
pub proof fn law_tick_by_number(c: CmdView, hazard: bool, tick: u64, now_ns: u64)
    requires
        c.levels.len() == 6,
    ensures
        ({
            let frames = tick_frames(c, hazard, tick, now_ns);
            let m = motion(c, hazard, now_ns);
            let drive = drive_command(m.linear_mm_s.bits, m.rot_rad_s.bits);
            let led = packet(0x02, seq![0x21u8]);
            let l = c.levels;
            &&& tick % 25 == 12 && l[2] > 0 ==> frames == seq![
                drive,
                packet(0x01, seq![l[0], l[1], l[2], l[3], 3u8, l[5]]),
            ]
            &&& tick % 25 == 12 && l[2] == 0 ==> frames == seq![
                drive,
                packet(0x01, seq![l[0], l[1], l[2], l[3], 0u8, l[5]]),
            ]
            &&& tick % 50 == 5 ==> frames == seq![drive, led]
            &&& tick % 50 == 20 && c.lidar_on ==> frames == seq![
                drive,
                packet(0x14, seq![4u8, 1u8]),
            ]
            &&& tick % 50 == 20 && !c.lidar_on ==> frames == seq![
                drive,
                packet(0x14, seq![4u8, 0u8]),
            ]
            &&& tick % 50 == 30 && c.lidar_on ==> frames == seq![
                drive,
                led,
                packet(0x26, seq![0x14u8, 0, 0, 0, 0, 0, 0, 4]),
            ]
            &&& tick % 50 == 30 && !c.lidar_on ==> frames == seq![
                drive,
                led,
                packet(0x26, seq![0x64u8, 0, 0, 0, 0, 0, 0, 4]),
            ]
            &&& tick % 200 == 40 && c.lidar_on ==> frames == seq![
                drive,
                packet(0x1d, seq![5u8, 1u8]),
            ]
            &&& tick % 200 == 40 && !c.lidar_on ==> frames == seq![drive]
            &&& tick % 25 != 12 && tick % 25 != 5 && tick % 50 != 20 && tick % 200 != 40 ==> frames
                == seq![drive]
        }),
{
    let frames = tick_frames(c, hazard, tick, now_ns);
    let m = motion(c, hazard, now_ns);
    let drive = drive_command(m.linear_mm_s.bits, m.rot_rad_s.bits);
    let led = packet(0x02, seq![0x21u8]);
    let l = c.levels;
    law_motor_payload_layout(1, m.linear_mm_s, m.rot_rad_s);
    assert(motor_packet(m) == drive);
    lemma_tick_rests(tick);
    if tick % 25 == 12 {
        if l[2] > 0 {
            let p = seq![l[0], l[1], l[2], l[3], 3u8, l[5]];
            assert(cleaning_payload(c) =~= p);
            assert(frames =~= seq![drive, packet(0x01, p)]);
        } else {
            let p = seq![l[0], l[1], l[2], l[3], 0u8, l[5]];
            assert(cleaning_payload(c) =~= p);
            assert(frames =~= seq![drive, packet(0x01, p)]);
        }
    } else if tick % 50 == 5 {
        assert(frames =~= seq![drive, led]);
    } else if tick % 50 == 20 {
        if c.lidar_on {
            assert(nav_flag_payload(true) =~= seq![4u8, 1u8]);
            assert(frames =~= seq![drive, packet(0x14, seq![4u8, 1u8])]);
        } else {
            assert(nav_flag_payload(false) =~= seq![4u8, 0u8]);
            assert(frames =~= seq![drive, packet(0x14, seq![4u8, 0u8])]);
        }
    } else if tick % 50 == 30 {
        if c.lidar_on {
            let p = seq![0x14u8, 0, 0, 0, 0, 0, 0, 4];
            assert(nav_status_payload(true) =~= p);
            assert(frames =~= seq![drive, led, packet(0x26, p)]);
        } else {
            let p = seq![0x64u8, 0, 0, 0, 0, 0, 0, 4];
            assert(nav_status_payload(false) =~= p);
            assert(frames =~= seq![drive, led, packet(0x26, p)]);
        }
    } else if tick % 200 == 40 && c.lidar_on {
        assert(frames =~= seq![drive, packet(0x1d, seq![5u8, 1u8])]);
    } else {
        assert(frames =~= seq![drive]);
    }
}

/// A tick's rest by 200 and by 50 tells its rest by 25.
proof fn lemma_tick_rests(tick: u64)
    ensures
        tick % 50 == tick % 25 || tick % 50 == tick % 25 + 25,
        tick % 200 == 40 ==> tick % 50 == 40 && tick % 25 == 15,
{
    let q = tick as int / 200;
    let r = tick as int % 200;
    lemma_fundamental_div_mod(tick as int, 200);
    let (a, b) = (r / 25, r % 25);
    lemma_fundamental_div_mod_converse(tick as int, 25, 8 * q + a, b);
    let (d, e) = (r / 50, r % 50);
    lemma_fundamental_div_mod_converse(tick as int, 50, 4 * q + d, e);
}

/// Within half a second of the drive command the turn rate is the one asked for, bit for
/// bit while within 1.5 rad/s and held at that beyond, whatever the forward speed and
/// hazard. The same holds of the forward speed and 150 mm/s while no hazard is reported;
/// under a hazard it is zero. From half a second on both are zero.
#[verifier::spinoff_prover]
pub proof fn law_motion_by_bits(c: CmdView, hazard: bool, now_ns: u64)
    ensures
        ({
            let m = motion(c, hazard, now_ns);
            let fresh = now_ns < c.last_cmd_ns + 500_000_000;
            let (lin, rot) = (c.linear_mm_s.bits, c.rot_rad_s.bits);
            &&& fresh && within(rot, 0x3fc0_0000) ==> m.rot_rad_s.bits == rot
            &&& fresh && 0x3fc0_0000 < rot <= 0x7f80_0000 ==> m.rot_rad_s.bits == 0x3fc0_0000
            &&& fresh && 0xbfc0_0000 < rot <= 0xff80_0000 ==> m.rot_rad_s.bits == 0xbfc0_0000
            &&& fresh && !hazard && within(lin, 0x4316_0000) ==> m.linear_mm_s.bits == lin
            &&& fresh && !hazard && 0x4316_0000 < lin <= 0x7f80_0000 ==> m.linear_mm_s.bits
                == 0x4316_0000
            &&& fresh && !hazard && 0xc316_0000 < lin <= 0xff80_0000 ==> m.linear_mm_s.bits
                == 0xc316_0000
            &&& hazard ==> m.linear_mm_s.bits == 0 || m.linear_mm_s.bits == 0x8000_0000
            &&& !within(lin, 0x7f80_0000) ==> m.linear_mm_s.bits == 0
            &&& !within(rot, 0x7f80_0000) ==> m.rot_rad_s.bits == 0
            &&& !fresh ==> m.linear_mm_s.bits == 0 && m.rot_rad_s.bits == 0
        }),
{
    law_limited_by_pattern(c.linear_mm_s, 0x4316_0000);
    law_limited_by_pattern(c.rot_rad_s, 0x3fc0_0000);
}

/// Until the first command comes the robot stands still, and the levels that are stated
/// are all zero but for the main brush at one.
pub proof fn law_start_stands_still(start_ns: u64, hazard: bool, tick: u64, now_ns: u64)
    ensures
        tick_frames(initial_cmd(start_ns), hazard, tick, now_ns)[0] == drive_command(0, 0),
        tick % 25 == 12 ==> tick_frames(initial_cmd(start_ns), hazard, tick, now_ns)[1] == packet(
            0x01,
            seq![0u8, 1, 0, 0, 0, 0],
        ),
        !initial_cmd(start_ns).lidar_on,
{
    let c = initial_cmd(start_ns);
    law_tick_by_number(c, hazard, tick, now_ns);
    law_motor_payload_layout(1, Float32 { bits: 0 }, Float32 { bits: 0 });
    if tick % 25 == 12 {
        assert(seq![c.levels[0], c.levels[1], c.levels[2], c.levels[3], 0u8, c.levels[5]] =~= seq![
            0u8,
            1,
            0,
            0,
            0,
            0,
        ]);
    }
}

/// The motor command for a motion carries its bits.
pub proof fn law_motor_packet_carries_the_bits(m: Motion)
    ensures
        motor_packet(m) == drive_command(m.linear_mm_s.bits, m.rot_rad_s.bits),
{
    law_motor_payload_layout(1, m.linear_mm_s, m.rot_rad_s);
}

} // verus!
