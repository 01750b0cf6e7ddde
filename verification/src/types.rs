//! The word-array types that carry decimal floating-point encodings and
//! wide intermediate integers.

use vstd::prelude::*;
use crate::math::two64;

verus! {

/// A 128-bit decimal floating-point value in BID encoding, as two 64-bit
/// words in little-endian order: `w[0]` is the least significant word.
#[derive(Clone, Copy, PartialEq, Eq, Debug)]
pub struct BidUint128 {
    /// The two 64-bit words, least significant first.
    pub w: [u64; 2],
}

/// A 192-bit unsigned integer as three 64-bit words, least significant first.
#[derive(Clone, Copy, PartialEq, Eq, Debug)]
pub struct BidUint192 {
    /// The three 64-bit words, least significant first.
    pub w: [u64; 3],
}

/// A 256-bit unsigned integer as four 64-bit words, least significant first.
#[derive(Clone, Copy, PartialEq, Eq, Debug)]
pub struct BidUint256 {
    /// The four 64-bit words, least significant first.
    pub w: [u64; 4],
}

/// A 384-bit unsigned integer as six 64-bit words, least significant first.
#[derive(Clone, Copy, PartialEq, Eq, Debug)]
pub struct BidUint384 {
    /// The six 64-bit words, least significant first.
    pub w: [u64; 6],
}

/// A 512-bit unsigned integer as eight 64-bit words, least significant first.
#[derive(Clone, Copy, PartialEq, Eq, Debug)]
pub struct BidUint512 {
    /// The eight 64-bit words, least significant first.
    pub w: [u64; 8],
}

/// A 192-bit value as three 64-bit words, least significant first.
#[derive(Clone, Copy, Debug)]
pub struct Bid192 {
    pub(crate) w: [u64; 3],
}

impl Default for BidUint128 {
    fn default() -> (r: Self)
        ensures
            r.w[0] == 0 && r.w[1] == 0,
    {
        BidUint128 { w: [0, 0] }
    }
}

impl Default for BidUint192 {
    fn default() -> (r: Self)
        ensures
            r.w[0] == 0 && r.w[1] == 0 && r.w[2] == 0,
    {
        BidUint192 { w: [0, 0, 0] }
    }
}

impl Default for BidUint256 {
    fn default() -> (r: Self)
        ensures
            r.w[0] == 0 && r.w[1] == 0 && r.w[2] == 0 && r.w[3] == 0,
    {
        BidUint256 { w: [0, 0, 0, 0] }
    }
}

impl Default for BidUint384 {
    fn default() -> (r: Self)
        ensures
            forall|i: int| 0 <= i < 6 ==> r.w[i] == 0,
    {
        BidUint384 { w: [0, 0, 0, 0, 0, 0] }
    }
}

impl Default for BidUint512 {
    fn default() -> (r: Self)
        ensures
            forall|i: int| 0 <= i < 8 ==> r.w[i] == 0,
    {
        BidUint512 { w: [0, 0, 0, 0, 0, 0, 0, 0] }
    }
}

impl Bid192 {
    /// The unsigned integer that the three words spell.
    pub closed spec fn value(self) -> nat {
        (self.w[2] as nat * two64() + self.w[1] as nat) * two64() + self.w[0] as nat
    }
}

impl Default for Bid192 {
    fn default() -> (r: Self)
        ensures
            r.value() == 0,
    {
        Bid192 { w: [0, 0, 0] }
    }
}

impl BidUint128 {
    /// The unsigned integer that the two words spell.
    pub open spec fn value(self) -> nat {
        self.w[1] as nat * two64() + self.w[0] as nat
    }
}

impl BidUint192 {
    /// The unsigned integer that the three words spell.
    pub open spec fn value(self) -> nat {
        (self.w[2] as nat * two64() + self.w[1] as nat) * two64() + self.w[0] as nat
    }
}

impl BidUint256 {
    /// The unsigned integer that the four words spell.
    pub open spec fn value(self) -> nat {
        ((self.w[3] as nat * two64() + self.w[2] as nat) * two64() + self.w[1] as nat) * two64()
            + self.w[0] as nat
    }
}

/// A 64-bit unsigned integer whose arithmetic always wraps modulo `2^64`.
#[derive(Clone, Copy, PartialEq, Eq, Structural, Debug)]
pub struct BidUint64(u64);

impl BidUint64 {
    /// The integer held.
    pub closed spec fn spec_value(self) -> u64 {
        self.0
    }

    /// Creates a new value holding `value`.
    pub fn new(value: u64) -> (r: Self)
        ensures
            r.spec_value() == value,
    {
        BidUint64(value)
    }

    /// The integer held.
    pub fn get(&self) -> (r: u64)
        ensures
            r == self.spec_value(),
    {
        self.0
    }
}

/// Two wrapped values are equal exactly when the integers they hold are;
/// in particular `BidUint64::new(a) == BidUint64::new(b)` exactly when
/// `a == b`.
pub proof fn law_uint64_eq(x: BidUint64, y: BidUint64)
    ensures
        (x == y) == (x.spec_value() == y.spec_value()),
{
}

impl vstd::std_specs::ops::AddSpecImpl<BidUint64> for BidUint64 {
    open spec fn obeys_add_spec() -> bool {
        true
    }

    open spec fn add_req(self, rhs: BidUint64) -> bool {
        true
    }

    closed spec fn add_spec(self, rhs: BidUint64) -> BidUint64 {
        BidUint64(((self.0 + rhs.0) % 0x1_0000_0000_0000_0000) as u64)
    }
}

impl core::ops::Add<BidUint64> for BidUint64 {
    type Output = BidUint64;

    /// The sum modulo `2^64`.
    fn add(self, rhs: BidUint64) -> (r: BidUint64)
    {
        BidUint64(self.0.wrapping_add(rhs.0))
    }
}

impl vstd::std_specs::ops::AddSpecImpl<u32> for BidUint64 {
    open spec fn obeys_add_spec() -> bool {
        true
    }

    open spec fn add_req(self, rhs: u32) -> bool {
        true
    }

    closed spec fn add_spec(self, rhs: u32) -> BidUint64 {
        BidUint64(((self.0 + rhs) % 0x1_0000_0000_0000_0000) as u64)
    }
}

impl core::ops::Add<u32> for BidUint64 {
    type Output = BidUint64;

    /// The sum modulo `2^64`.
    fn add(self, rhs: u32) -> (r: BidUint64)
    {
        BidUint64(self.0.wrapping_add(rhs as u64))
    }
}

impl vstd::std_specs::ops::AddSpecImpl<u64> for BidUint64 {
    open spec fn obeys_add_spec() -> bool {
        true
    }

    open spec fn add_req(self, rhs: u64) -> bool {
        true
    }

    closed spec fn add_spec(self, rhs: u64) -> BidUint64 {
        BidUint64(((self.0 + rhs) % 0x1_0000_0000_0000_0000) as u64)
    }
}

impl core::ops::Add<u64> for BidUint64 {
    type Output = BidUint64;

    /// The sum modulo `2^64`.
    fn add(self, rhs: u64) -> (r: BidUint64)
    {
        BidUint64(self.0.wrapping_add(rhs))
    }
}

impl vstd::std_specs::ops::AddSpecImpl<BidUint64> for u32 {
    open spec fn obeys_add_spec() -> bool {
        true
    }

    open spec fn add_req(self, rhs: BidUint64) -> bool {
        true
    }

    closed spec fn add_spec(self, rhs: BidUint64) -> BidUint64 {
        BidUint64(((self + rhs.0) % 0x1_0000_0000_0000_0000) as u64)
    }
}

impl core::ops::Add<BidUint64> for u32 {
    type Output = BidUint64;

    /// The sum modulo `2^64`.
    fn add(self, rhs: BidUint64) -> (r: BidUint64)
    {
        BidUint64((self as u64).wrapping_add(rhs.0))
    }
}

impl vstd::std_specs::ops::AddSpecImpl<BidUint64> for u64 {
    open spec fn obeys_add_spec() -> bool {
        true
    }

    open spec fn add_req(self, rhs: BidUint64) -> bool {
        true
    }

    closed spec fn add_spec(self, rhs: BidUint64) -> BidUint64 {
        BidUint64(((self + rhs.0) % 0x1_0000_0000_0000_0000) as u64)
    }
}

impl core::ops::Add<BidUint64> for u64 {
    type Output = BidUint64;

    /// The sum modulo `2^64`.
    fn add(self, rhs: BidUint64) -> (r: BidUint64)
    {
        BidUint64(self.wrapping_add(rhs.0))
    }
}

impl vstd::std_specs::ops::SubSpecImpl<BidUint64> for BidUint64 {
    open spec fn obeys_sub_spec() -> bool {
        true
    }

    open spec fn sub_req(self, rhs: BidUint64) -> bool {
        true
    }

    closed spec fn sub_spec(self, rhs: BidUint64) -> BidUint64 {
        BidUint64(((self.0 - rhs.0 + 0x1_0000_0000_0000_0000) % 0x1_0000_0000_0000_0000) as u64)
    }
}

impl core::ops::Sub<BidUint64> for BidUint64 {
    type Output = BidUint64;

    /// The difference modulo `2^64`.
    fn sub(self, rhs: BidUint64) -> (r: BidUint64)
    {
        BidUint64(self.0.wrapping_sub(rhs.0))
    }
}

impl vstd::std_specs::ops::MulSpecImpl<BidUint64> for BidUint64 {
    open spec fn obeys_mul_spec() -> bool {
        true
    }

    open spec fn mul_req(self, rhs: BidUint64) -> bool {
        true
    }

    closed spec fn mul_spec(self, rhs: BidUint64) -> BidUint64 {
        BidUint64(((self.0 * rhs.0) % 0x1_0000_0000_0000_0000) as u64)
    }
}

impl core::ops::Mul<BidUint64> for BidUint64 {
    type Output = BidUint64;

    /// The product modulo `2^64`.
    fn mul(self, rhs: BidUint64) -> (r: BidUint64)
    {
        BidUint64(self.0.wrapping_mul(rhs.0))
    }
}

impl vstd::std_specs::ops::DivSpecImpl<BidUint64> for BidUint64 {
    open spec fn obeys_div_spec() -> bool {
        true
    }

    open spec fn div_req(self, rhs: BidUint64) -> bool {
        rhs.spec_value() != 0
    }

    closed spec fn div_spec(self, rhs: BidUint64) -> BidUint64 {
        BidUint64(self.0 / rhs.0)
    }
}

impl core::ops::Div<BidUint64> for BidUint64 {
    type Output = BidUint64;

    /// The quotient, rounded down; the divisor must not be zero.
    fn div(self, rhs: BidUint64) -> (r: BidUint64)
    {
        BidUint64(self.0 / rhs.0)
    }
}

impl vstd::std_specs::ops::BitXorSpecImpl<BidUint64> for BidUint64 {
    open spec fn obeys_bitxor_spec() -> bool {
        true
    }

    open spec fn bitxor_req(self, rhs: BidUint64) -> bool {
        true
    }

    closed spec fn bitxor_spec(self, rhs: BidUint64) -> BidUint64 {
        BidUint64(self.0 ^ rhs.0)
    }
}

impl core::ops::BitXor<BidUint64> for BidUint64 {
    type Output = BidUint64;

    /// The bitwise exclusive or.
    fn bitxor(self, rhs: BidUint64) -> (r: BidUint64)
    {
        BidUint64(self.0 ^ rhs.0)
    }
}

impl Default for BidUint64 {
    fn default() -> (r: Self)
        ensures
            r.spec_value() == 0,
    {
        BidUint64(0)
    }
}

impl core::ops::Deref for BidUint64 {
    type Target = u64;

    /// The integer held.
    fn deref(&self) -> (r: &u64)
        ensures
            *r == self.spec_value(),
    {
        &self.0
    }
}

/// One row of the digit-count table: how many decimal digits a number of a
/// given bit length has.
pub struct DecDigits {
    /// The digit count, or 0 when it depends on the threshold.
    pub digits: u32,
    /// High word of the threshold `10^digits1`.
    pub threshold_hi: u64,
    /// Low word of the threshold `10^digits1`.
    pub threshold_lo: u64,
    /// The digit count below the threshold.
    pub digits1: u32,
}

} // verus!
