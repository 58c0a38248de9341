//! Numbers of 512 bits, for products and sums that a weight cannot hold.

use vstd::prelude::*;
use crate::types::U256;
use crate::types::two_128;

verus! {

/// Two to the power of 64.
pub open spec fn two_64() -> int {
    0x1_0000_0000_0000_0000int
}

/// The number that eight limbs stand for, the least significant first.
pub open spec fn limbs_value(l: [u64; 8]) -> int {
    l[0] + two_64() * (l[1] + two_64() * (l[2] + two_64() * (l[3] + two_64() * (l[4] + two_64() * (
    l[5] + two_64() * (l[6] + two_64() * l[7]))))))
}

/// Two to the power of 512.
pub open spec fn two_512() -> int {
    two_128() * two_128() * two_128() * two_128()
}

/// `U512 * U512` of `ethereum_types`: the product of the two numbers, where it
/// fits 512 bits. (It panics where it does not.)
#[verifier::external_body]
fn u512_mul(a: &[u64; 8], b: &[u64; 8]) -> (r: [u64; 8])
    requires
        limbs_value(*a) * limbs_value(*b) < two_512(),
    ensures
        limbs_value(r) == limbs_value(*a) * limbs_value(*b),
{
    (ethereum_types::U512(*a) * ethereum_types::U512(*b)).0
}

/// `U512 + U512` of `ethereum_types`: the sum of the two numbers, where it
/// fits 512 bits. (It panics where it does not.)
#[verifier::external_body]
fn u512_add(a: &[u64; 8], b: &[u64; 8]) -> (r: [u64; 8])
    requires
        limbs_value(*a) + limbs_value(*b) < two_512(),
    ensures
        limbs_value(r) == limbs_value(*a) + limbs_value(*b),
{
    (ethereum_types::U512(*a) + ethereum_types::U512(*b)).0
}

/// `U512 / U512` of `ethereum_types`: the quotient without the remainder, where
/// the divisor is not zero. (It panics where it is.)
#[verifier::external_body]
fn u512_div(a: &[u64; 8], b: &[u64; 8]) -> (r: [u64; 8])
    requires
        limbs_value(*b) != 0,
    ensures
        limbs_value(r) == limbs_value(*a) / limbs_value(*b),
{
    (ethereum_types::U512(*a) / ethereum_types::U512(*b)).0
}

/// `U512 >= U512` of `ethereum_types`: compares the two numbers.
#[verifier::external_body]
fn u512_ge(a: &[u64; 8], b: &[u64; 8]) -> (r: bool)
    ensures
        r == (limbs_value(*a) >= limbs_value(*b)),
{
    ethereum_types::U512(*a) >= ethereum_types::U512(*b)
}

/// A number of 512 bits.
#[derive(Clone, Copy, Debug, PartialEq, Eq)]
pub struct U512 {
    pub limbs: [u64; 8],
}

impl U512 {
    /// The number.
    pub open spec fn value(self) -> int {
        limbs_value(self.limbs)
    }

    pub fn zero() -> (x: U512)
        ensures
            x.value() == 0,
    {
        U512 { limbs: [0, 0, 0, 0, 0, 0, 0, 0] }
    }

    pub fn from_u64(x: u64) -> (r: U512)
        ensures
            r.value() == x,
    {
        U512 { limbs: [x, 0, 0, 0, 0, 0, 0, 0] }
    }

    pub fn from_u256(x: &U256) -> (r: U512)
        ensures
            r.value() == x.value(),
    {
        let base: u128 = 0x1_0000_0000_0000_0000;
        let l0: u64 = (x.lo % base) as u64;
        let l1: u64 = (x.lo / base) as u64;
        let l2: u64 = (x.hi % base) as u64;
        let l3: u64 = (x.hi / base) as u64;
        U512 { limbs: [l0, l1, l2, l3, 0, 0, 0, 0] }
    }

    /// The product.
    pub fn times(&self, other: &U512) -> (r: U512)
        requires
            self.value() * other.value() < two_512(),
        ensures
            r.value() == self.value() * other.value(),
    {
        U512 { limbs: u512_mul(&self.limbs, &other.limbs) }
    }

    /// The sum.
    pub fn plus(&self, other: &U512) -> (r: U512)
        requires
            self.value() + other.value() < two_512(),
        ensures
            r.value() == self.value() + other.value(),
    {
        U512 { limbs: u512_add(&self.limbs, &other.limbs) }
    }

    /// The quotient without the remainder.
    pub fn over(&self, other: &U512) -> (r: U512)
        requires
            other.value() != 0,
        ensures
            r.value() == self.value() / other.value(),
    {
        U512 { limbs: u512_div(&self.limbs, &other.limbs) }
    }

    /// Whether this number is at least the other one.
    pub fn at_least(&self, other: &U512) -> (r: bool)
        ensures
            r == (self.value() >= other.value()),
    {
        u512_ge(&self.limbs, &other.limbs)
    }
}

} // verus!
