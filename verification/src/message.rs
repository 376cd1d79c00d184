//! Telemetry of the MCU.
//!
//! Integers on the link are little-endian. A payload longer than a message's fields is
//! read up to them; a shorter one is not that message.
use vstd::arithmetic::power2::{lemma2_to64, pow2};
use vstd::prelude::*;
use crate::sensors::{SensorMap, SensorValue};

verus! {

/// Type bytes of the decoded messages.
pub const TYPE_TRIGGERS: u8 = 0x00;

pub const TYPE_STATUS_20MS: u8 = 0x01;

pub const TYPE_STATUS_10MS: u8 = 0x02;

pub const TYPE_STATUS_100MS: u8 = 0x03;

pub const TYPE_PING: u8 = 0x0f;

pub const TYPE_BATTERY: u8 = 0x2b;

pub open spec fn u16_at(s: Seq<u8>, i: int) -> u16 {
    (s[i] + 256 * s[i + 1]) as u16
}

/// Two's complement of 16 bits.
pub open spec fn signed16(v: u16) -> i16 {
    if v < 0x8000 {
        v as i16
    } else {
        (v - 0x1_0000) as i16
    }
}

pub open spec fn i16_at(s: Seq<u8>, i: int) -> i16 {
    signed16(u16_at(s, i))
}

pub open spec fn i8_at(s: Seq<u8>, i: int) -> i8 {
    if s[i] < 0x80 {
        s[i] as i8
    } else {
        (s[i] - 0x100) as i8
    }
}

pub open spec fn u32_at(s: Seq<u8>, i: int) -> u32 {
    (u16_at(s, i) + 65536 * u16_at(s, i + 2)) as u32
}

pub open spec fn i32_at(s: Seq<u8>, i: int) -> i32 {
    let v = u32_at(s, i);
    if v < 0x8000_0000 {
        v as i32
    } else {
        (v - 0x1_0000_0000) as i32
    }
}

fn get_u16(p: &[u8], i: usize) -> (v: u16)
    requires
        i + 2 <= p@.len(),
    ensures
        v == u16_at(p@, i as int),
{
    p[i] as u16 + 256 * p[i + 1] as u16
}

fn get_i16(p: &[u8], i: usize) -> (v: i16)
    requires
        i + 2 <= p@.len(),
    ensures
        v == i16_at(p@, i as int),
{
    let v: u16 = get_u16(p, i);
    if v < 0x8000 {
        v as i16
    } else {
        (v as i32 - 0x1_0000) as i16
    }
}

fn get_i8(p: &[u8], i: usize) -> (v: i8)
    requires
        i < p@.len(),
    ensures
        v == i8_at(p@, i as int),
{
    let v: u8 = p[i];
    if v < 0x80 {
        v as i8
    } else {
        (v as i16 - 0x100) as i8
    }
}

fn get_u32(p: &[u8], i: usize) -> (v: u32)
    requires
        i < 256,
        i + 4 <= p@.len(),
    ensures
        v == u32_at(p@, i as int),
{
    get_u16(p, i) as u32 + 65536 * get_u16(p, i + 2) as u32
}

fn get_i32(p: &[u8], i: usize) -> (v: i32)
    requires
        i < 256,
        i + 4 <= p@.len(),
    ensures
        v == i32_at(p@, i as int),
{
    let v: u32 = get_u32(p, i);
    if v < 0x8000_0000 {
        v as i32
    } else {
        (v as i64 - 0x1_0000_0000) as i32
    }
}

/// Pose and wheel speeds, every 20 ms.
#[derive(Clone, Copy, Debug, PartialEq, Eq, Structural)]
pub struct Status20ms {
    pub timestamp_us: u32,
    /// Position in tenths of a millimetre.
    pub x_mm10: i32,
    pub y_mm10: i32,
    /// Heading in hundredths of a degree.
    pub yaw_cdeg: i16,
    pub yaw_integral: i16,
    pub left_vel: i16,
    pub right_vel: i16,
    pub edge_dis: i16,
    pub roller_current: i16,
    pub sidebrush_current: i16,
}

/// Inertial sensor and wheel travel, every 10 ms.
#[derive(Clone, Copy, Debug, PartialEq, Eq, Structural)]
pub struct Status10ms {
    pub timestamp_us: u32,
    /// Turn rates in hundredths of a degree per second.
    pub gyro_x: i16,
    pub gyro_y: i16,
    pub gyro_z: i16,
    /// Accelerations, 16384 to the g.
    pub accel_x: i16,
    pub accel_y: i16,
    pub accel_z: i16,
    /// Wheel travel since the last packet in millimetres.
    pub left_dis_mm: i8,
    pub right_dis_mm: i8,
}

/// Tilt and wheel currents, every 100 ms.
#[derive(Clone, Copy, Debug, PartialEq, Eq, Structural)]
pub struct Status100ms {
    /// Tilt in tenths of a degree.
    pub pitch_ddeg: i16,
    pub roll_ddeg: i16,
    pub left_current: i16,
    pub right_current: i16,
    pub load: i16,
    pub flags: u8,
}

impl Status100ms {
    pub open spec fn spec_dust_container_missing(&self) -> bool {
        self.flags % 2 == 1
    }

    /// The dust container is out.
    pub fn dust_container_missing(&self) -> (r: bool)
        ensures
            r == self.spec_dust_container_missing(),
    {
        self.flags % 2 == 1
    }
}

/// Battery, every second.
#[derive(Clone, Copy, Debug, PartialEq, Eq, Structural)]
pub struct Battery {
    pub voltage_mv: u16,
    pub current_ma: u16,
    /// Temperature in tenths of a degree.
    pub temperature_ddeg: i16,
    pub charge_voltage_mv: u16,
    /// State of charge in percent.
    pub soc: i16,
}

/// The charge a battery message reports, held to 0 to 100 percent.
pub open spec fn level_of(soc: i16) -> u8 {
    if soc < 0 {
        0
    } else if soc > 100 {
        100
    } else {
        soc as u8
    }
}

/// The supply voltage above which the battery counts as charging.
pub const CHARGING_ABOVE_MV: u16 = 1000;

impl Battery {
    /// Charge in percent, from 0 to 100.
    pub fn level(&self) -> (r: u8)
        ensures
            r == level_of(self.soc),
    {
        if self.soc < 0 {
            0
        } else if self.soc > 100 {
            100
        } else {
            self.soc as u8
        }
    }
}

/// Contact, drop, floor and dock flags, every 100 ms: seven bytes of them.
#[derive(Clone, Copy, Debug, PartialEq, Eq, Structural)]
pub struct Triggers {
    pub b0: u8,
    pub b1: u8,
    pub b2: u8,
    pub b3: u8,
    pub b4: u8,
    pub b5: u8,
    pub b6: u8,
}

impl Triggers {
    /// The bytes in the order of the link.
    pub open spec fn raw(&self) -> Seq<u8> {
        seq![self.b0, self.b1, self.b2, self.b3, self.b4, self.b5, self.b6]
    }

    /// Flag `k`, counted from the lowest bit of the first byte.
    pub open spec fn spec_bit(&self, k: int) -> bool {
        (self.raw()[k / 8] >> ((k % 8) as u8)) & 1 == 1
    }

    /// Flag `k`, counted from the lowest bit of the first byte.
    pub fn bit(&self, k: u8) -> (r: bool)
        requires
            k < 56,
        ensures
            r == self.spec_bit(k as int),
    {
        let all: [u8; 7] = [self.b0, self.b1, self.b2, self.b3, self.b4, self.b5, self.b6];
        assert(all@ =~= self.raw());
        (all[(k / 8) as usize] >> (k % 8)) & 1 == 1
    }

    pub fn left_bumper(&self) -> (r: bool)
        ensures
            r == self.spec_bit(4),
    {
        self.bit(4)
    }

    pub fn right_bumper(&self) -> (r: bool)
        ensures
            r == self.spec_bit(5),
    {
        self.bit(5)
    }

    pub fn left_wheel_floating(&self) -> (r: bool)
        ensures
            r == self.spec_bit(6),
    {
        self.bit(6)
    }

    pub fn right_wheel_floating(&self) -> (r: bool)
        ensures
            r == self.spec_bit(7),
    {
        self.bit(7)
    }

    /// The robot stands on the dock.
    pub fn dock_sta(&self) -> (r: bool)
        ensures
            r == self.spec_bit(32),
    {
        self.bit(32)
    }

    /// Something the robot must not move towards: a pressed bumper, a dropped wheel or a
    /// floor sensor without floor.
    pub open spec fn spec_hazard(&self) -> bool {
        hazard_bytes(self.b0, self.b1)
    }
}

/// The hazard that the first two trigger bytes report.
pub open spec fn hazard_bytes(b0: u8, b1: u8) -> bool {
    b0 & 0xf0 != 0 || b1 != 0
}

/// A message of the MCU.
#[derive(Clone, Copy, Debug, PartialEq, Eq, Structural)]
pub enum Msg {
    Triggers(Triggers),
    Status20ms(Status20ms),
    Status10ms(Status10ms),
    Status100ms(Status100ms),
    Battery(Battery),
    /// A type that is not decoded, or a payload too short for its type.
    Other { typ: u8 },
}

/// What a payload of type `typ` says.
pub open spec fn decoded(typ: u8, p: Seq<u8>) -> Msg {
    if typ == TYPE_TRIGGERS && p.len() >= 7 {
        Msg::Triggers(
            Triggers { b0: p[0], b1: p[1], b2: p[2], b3: p[3], b4: p[4], b5: p[5], b6: p[6] },
        )
    } else if typ == TYPE_STATUS_20MS && p.len() >= 30 {
        Msg::Status20ms(
            Status20ms {
                timestamp_us: u32_at(p, 0),
                x_mm10: i32_at(p, 4),
                y_mm10: i32_at(p, 8),
                yaw_cdeg: i16_at(p, 12),
                yaw_integral: i16_at(p, 14),
                left_vel: i16_at(p, 20),
                right_vel: i16_at(p, 22),
                edge_dis: i16_at(p, 24),
                roller_current: i16_at(p, 26),
                sidebrush_current: i16_at(p, 28),
            },
        )
    } else if typ == TYPE_STATUS_10MS && p.len() >= 18 {
        Msg::Status10ms(
            Status10ms {
                timestamp_us: u32_at(p, 0),
                gyro_x: i16_at(p, 4),
                gyro_y: i16_at(p, 6),
                gyro_z: i16_at(p, 8),
                accel_x: i16_at(p, 10),
                accel_y: i16_at(p, 12),
                accel_z: i16_at(p, 14),
                left_dis_mm: i8_at(p, 16),
                right_dis_mm: i8_at(p, 17),
            },
        )
    } else if typ == TYPE_STATUS_100MS && p.len() >= 11 {
        Msg::Status100ms(
            Status100ms {
                pitch_ddeg: i16_at(p, 0),
                roll_ddeg: i16_at(p, 2),
                left_current: i16_at(p, 4),
                right_current: i16_at(p, 6),
                load: i16_at(p, 8),
                flags: p[10],
            },
        )
    } else if typ == TYPE_BATTERY && p.len() >= 12 {
        Msg::Battery(
            Battery {
                voltage_mv: u16_at(p, 0),
                current_ma: u16_at(p, 2),
                temperature_ddeg: i16_at(p, 4),
                charge_voltage_mv: u16_at(p, 6),
                soc: i16_at(p, 8),
            },
        )
    } else {
        Msg::Other { typ }
    }
}

impl Msg {
    /// Reads a payload of type `typ`.
    pub fn decode(typ: u8, p: &[u8]) -> (m: Msg)
        ensures
            m == decoded(typ, p@),
    {
        let n: usize = p.len();
        if typ == TYPE_TRIGGERS && n >= 7 {
            Msg::Triggers(
                Triggers { b0: p[0], b1: p[1], b2: p[2], b3: p[3], b4: p[4], b5: p[5], b6: p[6] },
            )
        } else if typ == TYPE_STATUS_20MS && n >= 30 {
            Msg::Status20ms(
                Status20ms {
                    timestamp_us: get_u32(p, 0),
                    x_mm10: get_i32(p, 4),
                    y_mm10: get_i32(p, 8),
                    yaw_cdeg: get_i16(p, 12),
                    yaw_integral: get_i16(p, 14),
                    left_vel: get_i16(p, 20),
                    right_vel: get_i16(p, 22),
                    edge_dis: get_i16(p, 24),
                    roller_current: get_i16(p, 26),
                    sidebrush_current: get_i16(p, 28),
                },
            )
        } else if typ == TYPE_STATUS_10MS && n >= 18 {
            Msg::Status10ms(
                Status10ms {
                    timestamp_us: get_u32(p, 0),
                    gyro_x: get_i16(p, 4),
                    gyro_y: get_i16(p, 6),
                    gyro_z: get_i16(p, 8),
                    accel_x: get_i16(p, 10),
                    accel_y: get_i16(p, 12),
                    accel_z: get_i16(p, 14),
                    left_dis_mm: get_i8(p, 16),
                    right_dis_mm: get_i8(p, 17),
                },
            )
        } else if typ == TYPE_STATUS_100MS && n >= 11 {
            Msg::Status100ms(
                Status100ms {
                    pitch_ddeg: get_i16(p, 0),
                    roll_ddeg: get_i16(p, 2),
                    left_current: get_i16(p, 4),
                    right_current: get_i16(p, 6),
                    load: get_i16(p, 8),
                    flags: p[10],
                },
            )
        } else if typ == TYPE_BATTERY && n >= 12 {
            Msg::Battery(
                Battery {
                    voltage_mv: get_u16(p, 0),
                    current_ma: get_u16(p, 2),
                    temperature_ddeg: get_i16(p, 4),
                    charge_voltage_mv: get_u16(p, 6),
                    soc: get_i16(p, 8),
                },
            )
        } else {
            Msg::Other { typ }
        }
    }
}

/// A quotient as a sensor value.
pub open spec fn ratio(num: int, den: u32) -> SensorValue {
    SensorValue::Ratio { num: num as i32, den }
}

/// The sensor values after a message.
pub open spec fn applied(d: Map<Seq<char>, SensorValue>, m: Msg) -> Map<Seq<char>, SensorValue> {
    match m {
        Msg::Status20ms(s) => d.insert("left_vel"@, SensorValue::I16(s.left_vel)).insert(
            "right_vel"@,
            SensorValue::I16(s.right_vel),
        ).insert("yaw_deg"@, ratio(s.yaw_cdeg as int, 100)).insert(
            "pose_x_mm"@,
            ratio(s.x_mm10 as int, 10),
        ).insert("pose_y_mm"@, ratio(s.y_mm10 as int, 10)),
        Msg::Status10ms(s) => d.insert("gyro_x"@, ratio(s.gyro_x as int, 100)).insert(
            "gyro_y"@,
            ratio(s.gyro_y as int, 100),
        ).insert("gyro_z"@, ratio(s.gyro_z as int, 100)).insert(
            "accel_x"@,
            ratio(s.accel_x as int, 16384),
        ).insert("accel_y"@, ratio(s.accel_y as int, 16384)).insert(
            "accel_z"@,
            ratio(s.accel_z as int, 16384),
        ).insert("wheel_dist_left"@, SensorValue::I8(s.left_dis_mm)).insert(
            "wheel_dist_right"@,
            SensorValue::I8(s.right_dis_mm),
        ),
        Msg::Triggers(t) => d.insert("bumper_left"@, SensorValue::Bool(t.spec_bit(4))).insert(
            "bumper_right"@,
            SensorValue::Bool(t.spec_bit(5)),
        ).insert("wheel_float_left"@, SensorValue::Bool(t.spec_bit(6))).insert(
            "wheel_float_right"@,
            SensorValue::Bool(t.spec_bit(7)),
        ).insert("is_dock_connected"@, SensorValue::Bool(t.spec_bit(32))),
        Msg::Battery(b) => d.insert("battery_voltage"@, ratio(b.voltage_mv as int, 1000)).insert(
            "battery_level"@,
            SensorValue::U8(level_of(b.soc)),
        ).insert("is_charging"@, SensorValue::Bool(b.charge_voltage_mv > CHARGING_ABOVE_MV)),
        _ => d,
    }
}

/// The messages that carry sensor values.
pub open spec fn carries_sensors(m: Msg) -> bool {
    m is Status20ms || m is Status10ms || m is Triggers || m is Battery
}

/// Folds a message into the sensor values; true when it carried any.
pub fn apply(d: &mut SensorMap, m: &Msg) -> (touched: bool)
    requires
        old(d).wf(),
    ensures
        final(d).wf(),
        final(d)@ == applied(old(d)@, *m),
        touched == carries_sensors(*m),
{
    match m {
        Msg::Status20ms(s) => {
            d.set("left_vel", SensorValue::I16(s.left_vel));
            d.set("right_vel", SensorValue::I16(s.right_vel));
            d.set("yaw_deg", SensorValue::Ratio { num: s.yaw_cdeg as i32, den: 100 });
            d.set("pose_x_mm", SensorValue::Ratio { num: s.x_mm10, den: 10 });
            d.set("pose_y_mm", SensorValue::Ratio { num: s.y_mm10, den: 10 });
            true
        },
        Msg::Status10ms(s) => {
            d.set("gyro_x", SensorValue::Ratio { num: s.gyro_x as i32, den: 100 });
            d.set("gyro_y", SensorValue::Ratio { num: s.gyro_y as i32, den: 100 });
            d.set("gyro_z", SensorValue::Ratio { num: s.gyro_z as i32, den: 100 });
            d.set("accel_x", SensorValue::Ratio { num: s.accel_x as i32, den: 16384 });
            d.set("accel_y", SensorValue::Ratio { num: s.accel_y as i32, den: 16384 });
            d.set("accel_z", SensorValue::Ratio { num: s.accel_z as i32, den: 16384 });
            d.set("wheel_dist_left", SensorValue::I8(s.left_dis_mm));
            d.set("wheel_dist_right", SensorValue::I8(s.right_dis_mm));
            true
        },
        Msg::Triggers(t) => {
            d.set("bumper_left", SensorValue::Bool(t.left_bumper()));
            d.set("bumper_right", SensorValue::Bool(t.right_bumper()));
            d.set("wheel_float_left", SensorValue::Bool(t.left_wheel_floating()));
            d.set("wheel_float_right", SensorValue::Bool(t.right_wheel_floating()));
            d.set("is_dock_connected", SensorValue::Bool(t.dock_sta()));
            true
        },
        Msg::Battery(b) => {
            d.set("battery_voltage", SensorValue::Ratio { num: b.voltage_mv as i32, den: 1000 });
            d.set("battery_level", SensorValue::U8(b.level()));
            d.set("is_charging", SensorValue::Bool(b.charge_voltage_mv > CHARGING_ABOVE_MV));
            true
        },
        _ => false,
    }
}

/// The published charge is a percentage, whatever the battery reports.
pub proof fn law_battery_level_is_a_percentage(d: Map<Seq<char>, SensorValue>, b: Battery)
    ensures
        applied(d, Msg::Battery(b)).dom().contains("battery_level"@),
        applied(d, Msg::Battery(b))["battery_level"@] matches SensorValue::U8(v) && v <= 100 && (0
            <= b.soc <= 100 ==> v == b.soc),
{
    reveal_strlit("battery_level");
    reveal_strlit("is_charging");
    assert("battery_level"@.len() != "is_charging"@.len());
}

/// The hazard of a trigger message is exactly: a bumper, a dropped wheel, or any bit of
/// the floor-sensor byte.
pub proof fn law_hazard_is_bumper_wheel_or_floor(t: Triggers)
    ensures
        t.spec_hazard() <==> t.spec_bit(4) || t.spec_bit(5) || t.spec_bit(6) || t.spec_bit(7)
            || t.b1 != 0,
{
    let b = t.b0;
    assert(b & 0xf0 != 0 <==> (b >> 4) & 1 == 1 || (b >> 5) & 1 == 1 || (b >> 6) & 1 == 1 || (b
        >> 7) & 1 == 1) by (bit_vector);
}

/// Every floor sensor without floor is a hazard.
pub proof fn law_cliff_is_hazard(t: Triggers, k: int)
    requires
        8 <= k <= 13,
        t.spec_bit(k),
    ensures
        t.spec_hazard(),
{
    let s = (k % 8) as u8;
    assert((0u8 >> s) & 1 == 0) by (bit_vector);
}

// ---------------------------------------------------------------------------
// Layouts
// ---------------------------------------------------------------------------
/// A number as one byte, in two's complement when it is negative.
#[verifier::opaque]
pub open spec fn le8(v: int) -> Seq<u8> {
    seq![(v % 256) as u8]
}

/// A number as two bytes, low byte first, in two's complement when it is negative.
#[verifier::opaque]
pub open spec fn le16(v: int) -> Seq<u8> {
    seq![(v % 256) as u8, (v / 256 % 256) as u8]
}

/// A number as four bytes, low byte first, in two's complement when it is negative.
#[verifier::opaque]
pub open spec fn le32(v: int) -> Seq<u8> {
    seq![
        (v % 256) as u8,
        (v / 256 % 256) as u8,
        (v / 65536 % 256) as u8,
        (v / 16777216 % 256) as u8,
    ]
}

/// The lengths of laid-out numbers.
pub proof fn lemma_le_lens()
    ensures
        forall|v: int| (#[trigger] le8(v)).len() == 1,
        forall|v: int| (#[trigger] le16(v)).len() == 2,
        forall|v: int| (#[trigger] le32(v)).len() == 4,
{
    reveal(le8);
    reveal(le16);
    reveal(le32);
}

proof fn lemma_read_le8(s: Seq<u8>, i: int, v: int)
    requires
        -128 <= v < 128,
        0 <= i < s.len(),
        s[i] == le8(v)[0],
    ensures
        i8_at(s, i) == v,
{
    reveal(le8);
}

/// Two bytes hold a number's rest by 65536.
proof fn lemma_two_bytes(v: int)
    ensures
        v % 256 + 256 * (v / 256 % 256) == v % 65536,
{
    let q = v / 256;
    let k = q % 256;
    let n = q / 256;
    assert(v == 65536 * n + (256 * k + v % 256));
    assert(0 <= 256 * k + v % 256 < 65536);
    vstd::arithmetic::div_mod::lemma_fundamental_div_mod_converse(
        v,
        65536,
        n,
        256 * k + v % 256,
    );
}

proof fn lemma_read_le16(s: Seq<u8>, i: int, v: int)
    requires
        -32768 <= v < 65536,
        0 <= i,
        i + 2 <= s.len(),
        s[i] == le16(v)[0],
        s[i + 1] == le16(v)[1],
    ensures
        v >= 0 ==> u16_at(s, i) == v,
        v < 32768 ==> i16_at(s, i) == v,
{
    reveal(le16);
    lemma_two_bytes(v);
}

proof fn lemma_read_le32(s: Seq<u8>, i: int, v: int)
    requires
        -0x8000_0000 <= v < 0x1_0000_0000,
        0 <= i,
        i + 4 <= s.len(),
        s[i] == le32(v)[0],
        s[i + 1] == le32(v)[1],
        s[i + 2] == le32(v)[2],
        s[i + 3] == le32(v)[3],
    ensures
        v >= 0 ==> u32_at(s, i) == v,
        v < 0x8000_0000 ==> i32_at(s, i) == v,
{
    reveal(le32);
    let q = v / 65536;
    lemma_two_bytes(v);
    lemma_two_bytes(q);
    assert(q / 256 == v / 16777216) by {
        let r = 65536 * (q % 256) + v % 65536;
        assert(v == 16777216 * (q / 256) + r);
        assert(0 <= r < 16777216);
        vstd::arithmetic::div_mod::lemma_fundamental_div_mod_converse(v, 16777216, q / 256, r);
    }
    assert(u16_at(s, i) == v % 65536);
    assert(u16_at(s, i + 2) == q % 65536);
}

/// Decoding a battery frame gives back what was laid out in it: voltage, current,
/// temperature, charge voltage and charge, two bytes each, with two more behind them.
pub proof fn law_battery_layout(b: Battery, rest: Seq<u8>)
    requires
        rest.len() >= 2,
    ensures
        decoded(
            0x2b,
            le16(b.voltage_mv as int) + le16(b.current_ma as int) + le16(
                b.temperature_ddeg as int,
            ) + le16(b.charge_voltage_mv as int) + le16(b.soc as int) + rest,
        ) == Msg::Battery(b),
{
    lemma_le_lens();
    let p = le16(b.voltage_mv as int) + le16(b.current_ma as int) + le16(b.temperature_ddeg as int)
        + le16(b.charge_voltage_mv as int) + le16(b.soc as int) + rest;
    lemma_read_le16(p, 0, b.voltage_mv as int);
    lemma_read_le16(p, 2, b.current_ma as int);
    lemma_read_le16(p, 4, b.temperature_ddeg as int);
    lemma_read_le16(p, 6, b.charge_voltage_mv as int);
    lemma_read_le16(p, 8, b.soc as int);
}

/// Decoding a pose frame gives back what was laid out in it: time, position, heading, the
/// heading's integral, four reserved bytes, wheel speeds, edge distance, brush currents.
pub proof fn law_pose_layout(s: Status20ms, reserved: Seq<u8>, rest: Seq<u8>)
    requires
        reserved.len() == 4,
    ensures
        decoded(
            0x01,
            le32(s.timestamp_us as int) + le32(s.x_mm10 as int) + le32(s.y_mm10 as int) + le16(
                s.yaw_cdeg as int,
            ) + le16(s.yaw_integral as int) + reserved + le16(s.left_vel as int) + le16(
                s.right_vel as int,
            ) + le16(s.edge_dis as int) + le16(s.roller_current as int) + le16(
                s.sidebrush_current as int,
            ) + rest,
        ) == Msg::Status20ms(s),
{
    lemma_le_lens();
    let p = le32(s.timestamp_us as int) + le32(s.x_mm10 as int) + le32(s.y_mm10 as int) + le16(
        s.yaw_cdeg as int,
    ) + le16(s.yaw_integral as int) + reserved + le16(s.left_vel as int) + le16(s.right_vel as int)
        + le16(s.edge_dis as int) + le16(s.roller_current as int) + le16(
        s.sidebrush_current as int,
    ) + rest;
    lemma_read_le32(p, 0, s.timestamp_us as int);
    lemma_read_le32(p, 4, s.x_mm10 as int);
    lemma_read_le32(p, 8, s.y_mm10 as int);
    lemma_read_le16(p, 12, s.yaw_cdeg as int);
    lemma_read_le16(p, 14, s.yaw_integral as int);
    lemma_read_le16(p, 20, s.left_vel as int);
    lemma_read_le16(p, 22, s.right_vel as int);
    lemma_read_le16(p, 24, s.edge_dis as int);
    lemma_read_le16(p, 26, s.roller_current as int);
    lemma_read_le16(p, 28, s.sidebrush_current as int);
}

/// Decoding a motion frame gives back what was laid out in it: time, turn rates,
/// accelerations, and one byte of travel for each wheel.
pub proof fn law_motion_layout(s: Status10ms, rest: Seq<u8>)
    ensures
        decoded(
            0x02,
            le32(s.timestamp_us as int) + le16(s.gyro_x as int) + le16(s.gyro_y as int) + le16(
                s.gyro_z as int,
            ) + le16(s.accel_x as int) + le16(s.accel_y as int) + le16(s.accel_z as int) + le8(
                s.left_dis_mm as int,
            ) + le8(s.right_dis_mm as int) + rest,
        ) == Msg::Status10ms(s),
{
    lemma_le_lens();
    let p = le32(s.timestamp_us as int) + le16(s.gyro_x as int) + le16(s.gyro_y as int) + le16(
        s.gyro_z as int,
    ) + le16(s.accel_x as int) + le16(s.accel_y as int) + le16(s.accel_z as int) + le8(
        s.left_dis_mm as int,
    ) + le8(s.right_dis_mm as int) + rest;
    lemma_read_le32(p, 0, s.timestamp_us as int);
    lemma_read_le16(p, 4, s.gyro_x as int);
    lemma_read_le16(p, 6, s.gyro_y as int);
    lemma_read_le16(p, 8, s.gyro_z as int);
    lemma_read_le16(p, 10, s.accel_x as int);
    lemma_read_le16(p, 12, s.accel_y as int);
    lemma_read_le16(p, 14, s.accel_z as int);
    lemma_read_le8(p, 16, s.left_dis_mm as int);
    lemma_read_le8(p, 17, s.right_dis_mm as int);
}

/// Decoding a tilt frame gives back what was laid out in it: tilt, wheel currents, load,
/// and a byte of flags, the lowest of which says that the dust container is out.
pub proof fn law_tilt_layout(s: Status100ms, rest: Seq<u8>)
    ensures
        decoded(
            0x03,
            le16(s.pitch_ddeg as int) + le16(s.roll_ddeg as int) + le16(s.left_current as int)
                + le16(s.right_current as int) + le16(s.load as int) + seq![s.flags] + rest,
        ) == Msg::Status100ms(s),
        s.spec_dust_container_missing() <==> s.flags & 1 == 1,
{
    lemma_le_lens();
    let p = le16(s.pitch_ddeg as int) + le16(s.roll_ddeg as int) + le16(s.left_current as int)
        + le16(s.right_current as int) + le16(s.load as int) + seq![s.flags] + rest;
    lemma_read_le16(p, 0, s.pitch_ddeg as int);
    lemma_read_le16(p, 2, s.roll_ddeg as int);
    lemma_read_le16(p, 4, s.left_current as int);
    lemma_read_le16(p, 6, s.right_current as int);
    lemma_read_le16(p, 8, s.load as int);
    assert(p[10] == s.flags);
    let f = s.flags;
    assert(f & 1 == f % 2) by (bit_vector);
}

/// Decoding a flags frame keeps its seven bytes in their order.
pub proof fn law_triggers_layout(t: Triggers, rest: Seq<u8>)
    ensures
        decoded(0x00, seq![t.b0, t.b1, t.b2, t.b3, t.b4, t.b5, t.b6] + rest) == Msg::Triggers(t),
{
    let p = seq![t.b0, t.b1, t.b2, t.b3, t.b4, t.b5, t.b6] + rest;
    assert(p[0] == t.b0 && p[1] == t.b1 && p[2] == t.b2 && p[3] == t.b3);
    assert(p[4] == t.b4 && p[5] == t.b5 && p[6] == t.b6);
}

/// A payload shorter than its message, or of another type, is not decoded.
pub proof fn law_short_payloads_are_not_decoded(typ: u8, p: Seq<u8>)
    ensures
        decoded(typ, p) == (Msg::Other { typ }) <==> !(typ == 0x00 && p.len() >= 7 || typ == 0x01
            && p.len() >= 30 || typ == 0x02 && p.len() >= 18 || typ == 0x03 && p.len() >= 11 || typ
            == 0x2b && p.len() >= 12),
{
}

/// The flags by their place: flag `k` of the seven bytes is the one that is worth
/// `2^(k % 8)` in byte `k / 8`.
pub proof fn law_flags_by_value(t: Triggers)
    ensures
        t.spec_bit(4) <==> t.b0 / 16 % 2 == 1,
        t.spec_bit(5) <==> t.b0 / 32 % 2 == 1,
        t.spec_bit(6) <==> t.b0 / 64 % 2 == 1,
        t.spec_bit(7) <==> t.b0 / 128 % 2 == 1,
        t.spec_bit(32) <==> t.b4 % 2 == 1,
{
    let (b, d) = (t.b0, t.b4);
    assert((b >> 4) & 1 == b / 16 % 2 && (b >> 5) & 1 == b / 32 % 2 && (b >> 6) & 1 == b / 64 % 2
        && (b >> 7) & 1 == b / 128 % 2) by (bit_vector);
    assert((d >> 0) & 1 == d % 2) by (bit_vector);
    assert(t.raw()[4] == d && t.raw()[0] == b);
    assert(4int / 8 == 0 && 5int / 8 == 0 && 6int / 8 == 0 && 7int / 8 == 0 && 32int / 8 == 4);
    assert(4int % 8 == 4 && 5int % 8 == 5 && 6int % 8 == 6 && 7int % 8 == 7 && 32int % 8 == 0);
}

/// A hazard is any of the four upper flags of the first byte or any flag of the second.
pub proof fn law_hazard_by_value(b0: u8, b1: u8)
    ensures
        hazard_bytes(b0, b1) <==> b0 >= 16 || b1 > 0,
{
    assert(b0 & 0xf0 != 0 <==> b0 >= 16) by (bit_vector);
}

// ---------------------------------------------------------------------------
// Published values
// ---------------------------------------------------------------------------
/// What a message publishes: these values under these names, and nothing else.
pub open spec fn publishes(
    before: Map<Seq<char>, SensorValue>,
    after: Map<Seq<char>, SensorValue>,
    names: Seq<Seq<char>>,
    values: Seq<SensorValue>,
) -> bool {
    &&& forall|i: int|
        0 <= i < names.len() ==> after.dom().contains(#[trigger] names[i]) && after[names[i]]
            == values[i]
    &&& forall|n: Seq<char>|
        !names.contains(n) ==> (#[trigger] after.dom().contains(n) <==> before.dom().contains(n))
            && (before.dom().contains(n) ==> after[n] == before[n])
}

proof fn lemma_listed(names: Seq<Seq<char>>, i: int)
    requires
        0 <= i < names.len(),
    ensures
        names.contains(names[i]),
{
}

/// A number held to 0 to 100.
pub open spec fn percent(n: int) -> u8 {
    (if n < 0 {
        0
    } else if n > 100 {
        100
    } else {
        n
    }) as u8
}

/// A battery message publishes its voltage in volts, its charge in percent, and whether
/// the charge voltage is above one volt.
#[verifier::spinoff_prover]
pub proof fn law_battery_is_published(d: Map<Seq<char>, SensorValue>, b: Battery)
    ensures
        publishes(
            d,
            applied(d, Msg::Battery(b)),
            seq!["battery_voltage"@, "battery_level"@, "is_charging"@],
            seq![
                (SensorValue::Ratio { num: b.voltage_mv as i32, den: 1000 }),
                SensorValue::U8(percent(b.soc as int)),
                SensorValue::Bool(b.charge_voltage_mv > 1000),
            ],
        ),
{
    reveal_strlit("battery_voltage");
    reveal_strlit("battery_level");
    reveal_strlit("is_charging");
    assert("battery_voltage"@.len() == 15 && "battery_level"@.len() == 13 && "is_charging"@.len()
        == 11);
    let names = seq!["battery_voltage"@, "battery_level"@, "is_charging"@];
    lemma_listed(names, 0);
    lemma_listed(names, 1);
    lemma_listed(names, 2);
    assert(names[0] == "battery_voltage"@ && names[1] == "battery_level"@ && names[2]
        == "is_charging"@);
}

/// A flags message publishes the bumpers, the wheels that hang, and the dock contact, each
/// by its own flag.
#[verifier::spinoff_prover]
pub proof fn law_triggers_are_published(d: Map<Seq<char>, SensorValue>, t: Triggers)
    ensures
        publishes(
            d,
            applied(d, Msg::Triggers(t)),
            seq![
                "bumper_left"@,
                "bumper_right"@,
                "wheel_float_left"@,
                "wheel_float_right"@,
                "is_dock_connected"@,
            ],
            seq![
                SensorValue::Bool(t.b0 / 16 % 2 == 1),
                SensorValue::Bool(t.b0 / 32 % 2 == 1),
                SensorValue::Bool(t.b0 / 64 % 2 == 1),
                SensorValue::Bool(t.b0 / 128 % 2 == 1),
                SensorValue::Bool(t.b4 % 2 == 1),
            ],
        ),
{
    law_flags_by_value(t);
    reveal_strlit("bumper_left");
    reveal_strlit("bumper_right");
    reveal_strlit("wheel_float_left");
    reveal_strlit("wheel_float_right");
    reveal_strlit("is_dock_connected");
    assert("bumper_left"@.len() == 11 && "bumper_right"@.len() == 12 && "wheel_float_left"@.len()
        == 16 && "wheel_float_right"@.len() == 17 && "is_dock_connected"@.len() == 17);
    assert("wheel_float_right"@[0] == 'w' && "is_dock_connected"@[0] == 'i');
    let names = seq![
        "bumper_left"@,
        "bumper_right"@,
        "wheel_float_left"@,
        "wheel_float_right"@,
        "is_dock_connected"@,
    ];
    lemma_listed(names, 0);
    lemma_listed(names, 1);
    lemma_listed(names, 2);
    lemma_listed(names, 3);
    lemma_listed(names, 4);
}

/// A pose message publishes the wheel speeds as they are, the heading in degrees and the
/// position in millimetres.
#[verifier::spinoff_prover]
pub proof fn law_pose_is_published(d: Map<Seq<char>, SensorValue>, s: Status20ms)
    ensures
        publishes(
            d,
            applied(d, Msg::Status20ms(s)),
            seq!["left_vel"@, "right_vel"@, "yaw_deg"@, "pose_x_mm"@, "pose_y_mm"@],
            seq![
                SensorValue::I16(s.left_vel),
                SensorValue::I16(s.right_vel),
                (SensorValue::Ratio { num: s.yaw_cdeg as i32, den: 100 }),
                (SensorValue::Ratio { num: s.x_mm10, den: 10 }),
                (SensorValue::Ratio { num: s.y_mm10, den: 10 }),
            ],
        ),
{
    reveal_strlit("left_vel");
    reveal_strlit("right_vel");
    reveal_strlit("yaw_deg");
    reveal_strlit("pose_x_mm");
    reveal_strlit("pose_y_mm");
    assert("left_vel"@.len() == 8 && "right_vel"@.len() == 9 && "yaw_deg"@.len() == 7
        && "pose_x_mm"@.len() == 9 && "pose_y_mm"@.len() == 9);
    assert("right_vel"@[0] == 'r' && "pose_x_mm"@[0] == 'p' && "pose_y_mm"@[0] == 'p');
    assert("pose_x_mm"@[5] == 'x' && "pose_y_mm"@[5] == 'y');
    let names = seq!["left_vel"@, "right_vel"@, "yaw_deg"@, "pose_x_mm"@, "pose_y_mm"@];
    lemma_listed(names, 0);
    lemma_listed(names, 1);
    lemma_listed(names, 2);
    lemma_listed(names, 3);
    lemma_listed(names, 4);
}

/// A motion message publishes the turn rates in degrees per second, the accelerations in
/// g, each by its axis, and the travel of each wheel.
#[verifier::spinoff_prover]
pub proof fn law_motion_is_published(d: Map<Seq<char>, SensorValue>, s: Status10ms)
    ensures
        publishes(
            d,
            applied(d, Msg::Status10ms(s)),
            seq![
                "gyro_x"@,
                "gyro_y"@,
                "gyro_z"@,
                "accel_x"@,
                "accel_y"@,
                "accel_z"@,
                "wheel_dist_left"@,
                "wheel_dist_right"@,
            ],
            seq![
                (SensorValue::Ratio { num: s.gyro_x as i32, den: 100 }),
                (SensorValue::Ratio { num: s.gyro_y as i32, den: 100 }),
                (SensorValue::Ratio { num: s.gyro_z as i32, den: 100 }),
                (SensorValue::Ratio { num: s.accel_x as i32, den: 16384 }),
                (SensorValue::Ratio { num: s.accel_y as i32, den: 16384 }),
                (SensorValue::Ratio { num: s.accel_z as i32, den: 16384 }),
                SensorValue::I8(s.left_dis_mm),
                SensorValue::I8(s.right_dis_mm),
            ],
        ),
{
    reveal_strlit("gyro_x");
    reveal_strlit("gyro_y");
    reveal_strlit("gyro_z");
    reveal_strlit("accel_x");
    reveal_strlit("accel_y");
    reveal_strlit("accel_z");
    reveal_strlit("wheel_dist_left");
    reveal_strlit("wheel_dist_right");
    assert("gyro_x"@.len() == 6 && "gyro_y"@.len() == 6 && "gyro_z"@.len() == 6);
    assert("accel_x"@.len() == 7 && "accel_y"@.len() == 7 && "accel_z"@.len() == 7);
    assert("wheel_dist_left"@.len() == 15 && "wheel_dist_right"@.len() == 16);
    assert("gyro_x"@[5] == 'x' && "gyro_y"@[5] == 'y' && "gyro_z"@[5] == 'z');
    assert("accel_x"@[6] == 'x' && "accel_y"@[6] == 'y' && "accel_z"@[6] == 'z');
    let names = seq![
        "gyro_x"@,
        "gyro_y"@,
        "gyro_z"@,
        "accel_x"@,
        "accel_y"@,
        "accel_z"@,
        "wheel_dist_left"@,
        "wheel_dist_right"@,
    ];
    lemma_listed(names, 0);
    lemma_listed(names, 1);
    lemma_listed(names, 2);
    lemma_listed(names, 3);
    lemma_listed(names, 4);
    lemma_listed(names, 5);
    lemma_listed(names, 6);
    lemma_listed(names, 7);
}

/// Tilt messages and messages that are not decoded publish nothing, and only they.
pub proof fn law_other_messages_publish_nothing(d: Map<Seq<char>, SensorValue>, m: Msg)
    ensures
        m is Status100ms || m is Other ==> applied(d, m) == d,
        carries_sensors(m) <==> !(m is Status100ms || m is Other),
{
}

/// Numbers are laid out with the low byte first.
pub proof fn law_low_byte_first(a: u8, b: u8, c: u8, d: u8)
    ensures
        le8(a as int) == seq![a],
        le16(a + 256 * b) == seq![a, b],
        le32(a + 256 * b + 65536 * c + 16777216 * d) == seq![a, b, c, d],
        le8(a as int - 256) == seq![a],
        le16(a + 256 * b - 65536) == seq![a, b],
{
    reveal(le8);
    reveal(le16);
    reveal(le32);
    let v = a + 256 * b + 65536 * c + 16777216 * d;
    assert(v / 256 == b + 256 * c + 65536 * d);
    assert(v / 65536 == c + 256 * d);
    assert(v / 16777216 == d);
    assert(le8(a as int) =~= seq![a]);
    assert(le16(a + 256 * b) =~= seq![a, b]);
    assert(le32(v) =~= seq![a, b, c, d]);
    assert((a + 256 * b - 65536) / 256 == b - 256);
    assert(le8(a as int - 256) =~= seq![a]);
    assert(le16(a + 256 * b - 65536) =~= seq![a, b]);
}

/// Any flag by its place: flag `8 * i + j` is the one that is worth `2^j` in byte `i`.
pub proof fn law_any_flag_by_value(t: Triggers, i: int, j: int)
    requires
        0 <= i < 7,
        0 <= j < 8,
    ensures
        t.spec_bit(8 * i + j) <==> seq![t.b0, t.b1, t.b2, t.b3, t.b4, t.b5, t.b6][i] as int
            / pow2(j as nat) as int % 2 == 1,
{
    lemma2_to64();
    let b = t.raw()[i];
    assert((8 * i + j) / 8 == i && (8 * i + j) % 8 == j);
    assert((b >> 0) & 1 == b % 2 && (b >> 1) & 1 == b / 2 % 2 && (b >> 2) & 1 == b / 4 % 2 && (b
        >> 3) & 1 == b / 8 % 2 && (b >> 4) & 1 == b / 16 % 2 && (b >> 5) & 1 == b / 32 % 2 && (b
        >> 6) & 1 == b / 64 % 2 && (b >> 7) & 1 == b / 128 % 2) by (bit_vector);
    if j == 0 {
        assert(t.spec_bit(8 * i + j) == ((b >> 0u8) & 1 == 1));
        assert(pow2(j as nat) == 1);
    } else if j == 1 {
        assert(t.spec_bit(8 * i + j) == ((b >> 1u8) & 1 == 1));
        assert(pow2(j as nat) == 2);
    } else if j == 2 {
        assert(t.spec_bit(8 * i + j) == ((b >> 2u8) & 1 == 1));
        assert(pow2(j as nat) == 4);
    } else if j == 3 {
        assert(t.spec_bit(8 * i + j) == ((b >> 3u8) & 1 == 1));
        assert(pow2(j as nat) == 8);
    } else if j == 4 {
        assert(t.spec_bit(8 * i + j) == ((b >> 4u8) & 1 == 1));
        assert(pow2(j as nat) == 16);
    } else if j == 5 {
        assert(t.spec_bit(8 * i + j) == ((b >> 5u8) & 1 == 1));
        assert(pow2(j as nat) == 32);
    } else if j == 6 {
        assert(t.spec_bit(8 * i + j) == ((b >> 6u8) & 1 == 1));
        assert(pow2(j as nat) == 64);
    } else {
        assert(t.spec_bit(8 * i + j) == ((b >> 7u8) & 1 == 1));
        assert(pow2(j as nat) == 128);
    }
}

/// The dust container is out while the flags are odd.
pub proof fn law_dust_container_by_value(s: Status100ms, n: u8)
    requires
        n < 128,
    ensures
        s.flags == 2 * n ==> !s.spec_dust_container_missing(),
        s.flags == 2 * n + 1 ==> s.spec_dust_container_missing(),
{
}

} // verus!
