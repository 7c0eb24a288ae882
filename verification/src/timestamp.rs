//! Points in time and measured values, held as plain integers.
use vstd::prelude::*;

verus! {

/// A point in time with the UTC offset it was written in.
///
/// Two timestamps compare by the instant they name; the offset only says how
/// to write it down.
#[derive(Clone, Copy, Debug)]
pub struct Timestamp {
    /// Whole seconds since the Unix epoch, rounded towards the past.
    pub seconds: i64,
    /// Nanoseconds after `seconds`.
    pub nanos: u32,
    /// Offset from UTC in seconds.
    pub offset_seconds: i32,
}

impl Timestamp {
    /// Nanoseconds since the Unix epoch.
    pub open spec fn at(self) -> int {
        self.seconds * 1_000_000_000 + self.nanos
    }

    /// Nanoseconds since the Unix epoch.
    pub fn instant(&self) -> (nanos: i128)
        ensures
            nanos == self.at(),
            nanos == self.seconds * 1_000_000_000 + self.nanos,
    {
        self.seconds as i128 * 1_000_000_000 + self.nanos as i128
    }

    /// The UTC timestamp of a whole second.
    pub fn from_unix_timestamp(seconds: i64) -> (ts: Self)
        ensures
            ts == (Timestamp { seconds, nanos: 0, offset_seconds: 0 }),
            ts.at() == seconds * 1_000_000_000,
    {
        Timestamp { seconds, nanos: 0, offset_seconds: 0 }
    }
}

impl PartialEq for Timestamp {
    fn eq(&self, other: &Self) -> (same: bool) {
        self.instant() == other.instant()
    }
}

impl vstd::std_specs::cmp::PartialEqSpecImpl for Timestamp {
    open spec fn obeys_eq_spec() -> bool {
        true
    }

    open spec fn eq_spec(&self, other: &Self) -> bool {
        self.at() == other.at()
    }
}

impl Eq for Timestamp {

}

/// A measured number, as the bits of its IEEE 754 double.
#[derive(Clone, Copy, Debug)]
pub struct Value {
    pub bits: u64,
}

impl Value {
    /// The biased exponent.
    pub open spec fn exponent(self) -> int {
        (self.bits as int / 0x0010_0000_0000_0000) % 0x800
    }

    /// The fraction bits.
    pub open spec fn fraction(self) -> int {
        self.bits as int % 0x0010_0000_0000_0000
    }

    /// Neither an infinity nor a NaN.
    pub open spec fn finite(self) -> bool {
        self.exponent() != 0x7ff
    }

    /// Not a number.
    pub open spec fn nan(self) -> bool {
        self.exponent() == 0x7ff && self.fraction() != 0
    }

    /// Zero, of either sign.
    pub open spec fn zero(self) -> bool {
        self.exponent() == 0 && self.fraction() == 0
    }

    /// Whether this is neither an infinity nor a NaN.
    pub fn is_finite(&self) -> (finite: bool)
        ensures
            finite == self.finite(),
            finite == (self.bits as int % 0x8000_0000_0000_0000 < 0x7ff0_0000_0000_0000),
    {
        (self.bits / 0x0010_0000_0000_0000) % 0x800 != 0x7ff
    }

    fn is_nan(&self) -> (nan: bool)
        ensures
            nan == self.nan(),
    {
        !self.is_finite() && self.bits % 0x0010_0000_0000_0000 != 0
    }

    fn is_zero(&self) -> (zero: bool)
        ensures
            zero == self.zero(),
    {
        (self.bits / 0x0010_0000_0000_0000) % 0x800 == 0 && self.bits % 0x0010_0000_0000_0000 == 0
    }
}

/// Numeric equality: a NaN equals nothing, the two zeros equal each other.
impl PartialEq for Value {
    fn eq(&self, other: &Self) -> (same: bool) {
        !self.is_nan() && !other.is_nan() && (self.bits == other.bits || (self.is_zero()
            && other.is_zero()))
    }
}

impl vstd::std_specs::cmp::PartialEqSpecImpl for Value {
    open spec fn obeys_eq_spec() -> bool {
        true
    }

    open spec fn eq_spec(&self, other: &Self) -> bool {
        !self.nan() && !other.nan() && (self.bits == other.bits || (self.zero() && other.zero()))
    }
}

/// An instant is made of the seconds and the nanoseconds alone: timestamps that
/// differ in nothing but their offset name the same one.
pub proof fn law_offsets_do_not_move_an_instant(a: Timestamp, b: Timestamp)
    requires
        a.seconds == b.seconds,
        a.nanos == b.nanos,
    ensures
        a.at() == b.at(),
        a.at() == a.seconds * 1_000_000_000 + a.nanos,
        vstd::std_specs::cmp::PartialEqSpec::eq_spec(&a, &b),
{
}

/// Instants order as seconds do, and within a second as nanoseconds do; two
/// timestamps are equal exactly if they name the same second and nanosecond.
pub proof fn law_instants_order_by_seconds_and_nanos(a: Timestamp, b: Timestamp)
    requires
        a.nanos < 1_000_000_000,
        b.nanos < 1_000_000_000,
    ensures
        a.at() < b.at() <==> (a.seconds < b.seconds || (a.seconds == b.seconds && a.nanos
            < b.nanos)),
        vstd::std_specs::cmp::PartialEqSpec::eq_spec(&a, &b) <==> (a.seconds == b.seconds
            && a.nanos == b.nanos),
{
}

/// An instant moves by a billion for every second and by one for every
/// nanosecond.
pub proof fn law_instants_move_with_their_parts(a: Timestamp, b: Timestamp)
    ensures
        b.at() - a.at() == (b.seconds - a.seconds) * 1_000_000_000 + (b.nanos - a.nanos),
{
}

/// A value is finite exactly if its bits, without the sign, stand below those
/// of infinity; the sign makes no difference.
pub proof fn law_finite_values_stand_below_infinity(v: Value)
    ensures
        v.finite() <==> v.bits as int % 0x8000_0000_0000_0000 < 0x7ff0_0000_0000_0000,
{
}

/// Values are equal if their bits are, or if both are zeros, of whatever sign;
/// what stands above infinity is no number and equals nothing.
pub proof fn law_values_are_equal_by_number(a: Value, b: Value)
    ensures
        ({
            let x = a.bits % 0x8000_0000_0000_0000u64;
            let y = b.bits % 0x8000_0000_0000_0000u64;
            vstd::std_specs::cmp::PartialEqSpec::eq_spec(&a, &b) <==> {
                &&& x <= 0x7ff0_0000_0000_0000
                &&& y <= 0x7ff0_0000_0000_0000
                &&& a.bits == b.bits || (x == 0 && y == 0)
            }
        }),
{
}

} // verus!
