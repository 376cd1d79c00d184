//! Single-precision values, held by their IEEE-754 bit pattern.
//!
//! Speeds travel as 32-bit floats from the client to the motor frame. Limiting them
//! needs only their order, and for values of one sign that is the order of the bit
//! patterns read as integers.
use vstd::prelude::*;
use vstd::arithmetic::power2::pow2;

verus! {

/// A 32-bit float by its bit pattern.
#[derive(Clone, Copy, Debug, PartialEq, Eq, Structural)]
pub struct Float32 {
    pub bits: u32,
}

/// Pattern of positive infinity; larger magnitudes are not numbers.
pub const INFINITE: u32 = 0x7f80_0000;

/// The sign bit.
pub const SIGN: u32 = 0x8000_0000;

impl Float32 {
    /// The pattern without its sign.
    pub open spec fn spec_magnitude(self) -> u32 {
        if self.bits >= SIGN {
            (self.bits - SIGN) as u32
        } else {
            self.bits
        }
    }

    pub open spec fn negative(self) -> bool {
        self.bits >= SIGN
    }

    pub open spec fn nan(self) -> bool {
        self.spec_magnitude() > INFINITE
    }

    pub open spec fn finite(self) -> bool {
        self.spec_magnitude() < INFINITE
    }

    /// Either zero.
    pub open spec fn zero(self) -> bool {
        self.spec_magnitude() == 0
    }

    /// This value, or the limit with this value's sign where it is further from zero
    /// than the limit. In place of what is not a number, zero.
    pub open spec fn spec_limited(self, limit: u32) -> Float32 {
        if self.nan() {
            Float32 { bits: 0 }
        } else if self.spec_magnitude() <= limit {
            self
        } else if self.negative() {
            Float32 { bits: (SIGN + limit) as u32 }
        } else {
            Float32 { bits: limit }
        }
    }

    /// The four bytes of the pattern, least significant first.
    pub open spec fn spec_le_bytes(self) -> Seq<u8> {
        seq![
            (self.bits % 256) as u8,
            ((self.bits / 256) % 256) as u8,
            ((self.bits / 65536) % 256) as u8,
            (self.bits / 16777216) as u8,
        ]
    }

    /// Positive zero.
    pub fn zero_value() -> (z: Float32)
        ensures
            z.bits == 0,
            z.zero(),
    {
        Float32 { bits: 0 }
    }

    pub fn magnitude(self) -> (m: u32)
        ensures
            m == self.spec_magnitude(),
    {
        if self.bits >= SIGN {
            self.bits - SIGN
        } else {
            self.bits
        }
    }

    pub fn is_finite(self) -> (r: bool)
        ensures
            r == self.finite(),
    {
        self.magnitude() < INFINITE
    }

    pub fn is_zero(self) -> (r: bool)
        ensures
            r == self.zero(),
    {
        self.magnitude() == 0
    }

    /// Limits the value to `limit` (a pattern without a sign) on either side of zero; what
    /// is not a number becomes zero.
    pub fn limited(self, limit: u32) -> (r: Float32)
        requires
            limit <= INFINITE,
        ensures
            r == self.spec_limited(limit),
    {
        let m: u32 = self.magnitude();
        if m > INFINITE {
            Float32 { bits: 0 }
        } else if m <= limit {
            self
        } else if self.bits >= SIGN {
            Float32 { bits: SIGN + limit }
        } else {
            Float32 { bits: limit }
        }
    }

    /// Appends the value's four bytes, least significant first.
    pub fn push_le(self, out: &mut Vec<u8>)
        ensures
            final(out)@ == old(out)@ + self.spec_le_bytes(),
    {
        let ghost before = out@;
        out.push((self.bits % 256) as u8);
        out.push(((self.bits / 256) % 256) as u8);
        out.push(((self.bits / 65536) % 256) as u8);
        out.push((self.bits / 16777216) as u8);
        assert(out@ =~= before + self.spec_le_bytes());
    }
}

/// The size of a finite value with the given magnitude pattern, as a multiple of the
/// smallest positive value (two to the power -149).
pub open spec fn steps(magnitude: u32) -> nat {
    let exponent = (magnitude / 0x80_0000) as nat;
    let fraction = (magnitude % 0x80_0000) as nat;
    if exponent == 0 {
        fraction
    } else {
        (0x80_0000 + fraction) * pow2((exponent - 1) as nat)
    }
}

/// Magnitude patterns are ordered as the sizes they stand for, so a value held within
/// a limit by its pattern is held within it by its size.
pub proof fn law_patterns_order_by_size(a: u32, b: u32)
    requires
        a < b,
        b < INFINITE,
    ensures
        steps(a) < steps(b),
{
    let (ea, fa) = ((a / 0x80_0000) as nat, (a % 0x80_0000) as nat);
    let (eb, fb) = ((b / 0x80_0000) as nat, (b % 0x80_0000) as nat);
    if ea == eb {
        if ea > 0 {
            let p = pow2((ea - 1) as nat);
            vstd::arithmetic::power2::lemma_pow2_pos((ea - 1) as nat);
            assert((0x80_0000 + fa) * p < (0x80_0000 + fb) * p) by (nonlinear_arith)
                requires
                    fa < fb,
                    p > 0,
            ;
        }
    } else {
        let pb = pow2((eb - 1) as nat);
        vstd::arithmetic::power2::lemma_pow2_pos((eb - 1) as nat);
        assert((0x80_0000 + fb) * pb >= 0x80_0000 * pb) by (nonlinear_arith)
            requires
                pb > 0,
        ;
        if ea == 0 {
            assert(0x80_0000 * pb >= 0x80_0000) by (nonlinear_arith)
                requires
                    pb > 0,
            ;
        } else {
            let pa = pow2((ea - 1) as nat);
            vstd::arithmetic::power2::lemma_pow2_pos((ea - 1) as nat);
            vstd::arithmetic::power2::lemma_pow2_unfold(ea);
            if ea < eb - 1 {
                vstd::arithmetic::power2::lemma_pow2_strictly_increases(ea, (eb - 1) as nat);
            }
            assert(2 * pa <= pb);
            assert((0x80_0000 + fa) * pa < 0x80_0000 * pb) by (nonlinear_arith)
                requires
                    fa < 0x80_0000,
                    pa > 0,
                    2 * pa <= pb,
            ;
        }
    }
}

/// Limiting leaves nothing outside the limit, keeps what was inside, keeps the sign of
/// every number, and is done once for all.
pub proof fn law_limited_is_within(v: Float32, limit: u32)
    requires
        limit <= INFINITE,
    ensures
        v.spec_limited(limit).spec_magnitude() <= limit,
        v.nan() ==> v.spec_limited(limit).zero(),
        !v.nan() ==> v.spec_limited(limit).negative() == v.negative(),
        v.spec_magnitude() <= limit ==> v.spec_limited(limit) == v,
        v.spec_limited(limit).spec_limited(limit) == v.spec_limited(limit),
{
}

/// Limiting by the bit patterns themselves. Up to the limit, on either side of zero, a
/// value stays bit for bit; beyond it, up to infinity, it becomes the limit on its side;
/// what is not a number becomes zero.
pub proof fn law_limited_by_pattern(v: Float32, limit: u32)
    requires
        limit <= 0x7f80_0000,
    ensures
        v.bits <= limit ==> v.spec_limited(limit).bits == v.bits,
        limit < v.bits <= 0x7f80_0000 ==> v.spec_limited(limit).bits == limit,
        0x8000_0000 <= v.bits <= 0x8000_0000 + limit ==> v.spec_limited(limit).bits == v.bits,
        0x8000_0000 + limit < v.bits <= 0xff80_0000 ==> v.spec_limited(limit).bits == 0x8000_0000
            + limit,
        0x7f80_0000 < v.bits < 0x8000_0000 || v.bits > 0xff80_0000 ==> v.spec_limited(limit).bits
            == 0,
{
}

/// The four bytes of a pattern, low byte first, make up the pattern again.
pub proof fn law_bytes_make_up_the_pattern(v: Float32)
    ensures
        ({
            let b = v.spec_le_bytes();
            &&& b.len() == 4
            &&& b[0] + 0x100 * b[1] + 0x1_0000 * b[2] + 0x100_0000 * b[3] == v.bits
        }),
{
}

/// Which patterns are finite: those below infinity, with either sign.
pub proof fn law_finite_by_pattern(v: Float32)
    ensures
        v.finite() <==> v.bits < 0x7f80_0000 || 0x8000_0000 <= v.bits < 0xff80_0000,
{
}

} // verus!
