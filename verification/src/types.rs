//! The plain values that blocks carry: hashes, wide integers, epoch selectors
//! and block headers.

use vstd::prelude::*;

verus! {

/// A 256-bit hash, most significant half first.
#[derive(Copy, Clone, Debug, PartialEq, Eq, Structural)]
pub struct H256 {
    pub hi: u128,
    pub lo: u128,
}

impl H256 {
    /// The order of the hash's bytes, read from the most significant one.
    pub open spec fn exceeds(self, other: H256) -> bool {
        self.hi > other.hi || (self.hi == other.hi && self.lo > other.lo)
    }

    pub fn is_greater(&self, other: &H256) -> (greater: bool)
        ensures
            greater == self.exceeds(*other),
    {
        self.hi > other.hi || (self.hi == other.hi && self.lo > other.lo)
    }

    /// The all-zero hash, which stands for "no block".
    pub open spec fn spec_zero() -> H256 {
        H256 { hi: 0, lo: 0 }
    }

    pub fn zero() -> (h: H256)
        ensures
            h == H256::spec_zero(),
    {
        H256 { hi: 0, lo: 0 }
    }
}

/// Two to the power of 128.
pub open spec fn two_128() -> int {
    0x1_0000_0000_0000_0000_0000_0000_0000_0000int
}

/// A 256-bit unsigned integer, most significant half first.
#[derive(Copy, Clone, Debug, PartialEq, Eq, Structural)]
pub struct U256 {
    pub hi: u128,
    pub lo: u128,
}

impl U256 {
    pub open spec fn value(self) -> int {
        self.hi * two_128() + self.lo
    }

    /// The number fits the signed weights that the graph computes with.
    pub open spec fn fits_weight(self) -> bool {
        self.hi == 0 && self.lo <= i128::MAX
    }

    pub proof fn lemma_value_decides(self, other: U256)
        ensures
            self.value() == other.value() ==> self == other,
            0 <= self.value() < two_128() * two_128(),
            self.value() < other.value() <==> self.hi < other.hi || (self.hi == other.hi && self.lo
                < other.lo),
    {
    }

    pub fn zero() -> (x: U256)
        ensures
            x.value() == 0,
            x == (U256 { hi: 0, lo: 0 }),
    {
        U256 { hi: 0, lo: 0 }
    }

    pub fn from_u64(x: u64) -> (r: U256)
        ensures
            r.value() == x,
            r == (U256 { hi: 0, lo: x as u128 }),
    {
        U256 { hi: 0, lo: x as u128 }
    }

    /// The number of a weight that is not negative.
    pub fn from_weight(x: i128) -> (r: U256)
        requires
            0 <= x,
        ensures
            r.value() == x,
            r.fits_weight(),
    {
        U256 { hi: 0, lo: x as u128 }
    }

    /// The number as a weight.
    pub fn to_weight(&self) -> (x: i128)
        requires
            self.fits_weight(),
        ensures
            x == self.value(),
            0 <= x,
    {
        self.lo as i128
    }

    pub fn is_less(&self, other: &U256) -> (less: bool)
        ensures
            less == (self.value() < other.value()),
    {
        proof {
            self.lemma_value_decides(*other);
        }
        self.hi < other.hi || (self.hi == other.hi && self.lo < other.lo)
    }

    pub fn is_zero(&self) -> (zero: bool)
        ensures
            zero == (self.value() == 0),
    {
        self.hi == 0 && self.lo == 0
    }

    pub fn plus(&self, other: &U256) -> (r: U256)
        requires
            self.value() + other.value() < two_128() * two_128(),
        ensures
            r.value() == self.value() + other.value(),
    {
        let room: u128 = u128::MAX - self.lo;
        if other.lo <= room {
            U256 { hi: self.hi + other.hi, lo: self.lo + other.lo }
        } else {
            U256 { hi: self.hi + other.hi + 1, lo: other.lo - room - 1 }
        }
    }

    pub fn minus(&self, other: &U256) -> (r: U256)
        requires
            other.value() <= self.value(),
        ensures
            r.value() == self.value() - other.value(),
    {
        if other.lo <= self.lo {
            U256 { hi: self.hi - other.hi, lo: self.lo - other.lo }
        } else {
            U256 { hi: self.hi - other.hi - 1, lo: u128::MAX - other.lo + self.lo + 1 }
        }
    }
}

/// Which epoch a query is about.
#[derive(Copy, Clone, Debug, PartialEq, Eq, Structural)]
pub enum EpochNumber {
    Earliest,
    LatestMined,
    LatestState,
    Number(usize),
}

/// What the graph reads of a block.
pub struct BlockHeader {
    pub hash: H256,
    pub parent_hash: H256,
    pub height: u64,
    pub difficulty: U256,
    pub pow_quality: U256,
    pub adaptive: bool,
    pub referee_hashes: Vec<H256>,
    pub deferred_state_root: H256,
    pub deferred_receipts_root: H256,
}

} // verus!
