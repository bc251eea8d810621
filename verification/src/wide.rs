//! Natural numbers of up to 256 binary digits, for the exact comparisons that
//! the shortest decimal of a value asks for.
use vstd::prelude::*;

verus! {

/// A natural number below 2^256, held as two halves of 128 digits.
#[derive(Clone, Copy, Debug)]
pub struct Wide {
    pub high: u128,
    pub low: u128,
}

/// The weight of the upper half: 2^128.
pub open spec fn half_weight() -> int {
    0x1_0000_0000_0000_0000_0000_0000_0000_0000int
}

impl Wide {
    /// The number that the two halves stand for.
    pub open spec fn value(self) -> int {
        self.high * half_weight() + self.low
    }

    /// The number `x`.
    pub fn from_u128(x: u128) -> (r: Wide)
        ensures
            r.value() == x,
    {
        Wide { high: 0, low: x }
    }

    /// The sum, where it fits.
    pub fn plus(self, other: Wide) -> (r: Wide)
        requires
            self.value() + other.value() < half_weight() * half_weight(),
        ensures
            r.value() == self.value() + other.value(),
    {
        let room: u128 = u128::MAX - other.low;
        if self.low > room {
            let low: u128 = self.low - room - 1;
            Wide { high: self.high + other.high + 1, low }
        } else {
            Wide { high: self.high + other.high, low: self.low + other.low }
        }
    }

    /// The difference, where the first is not the smaller.
    pub fn minus(self, other: Wide) -> (r: Wide)
        requires
            self.value() >= other.value(),
        ensures
            r.value() == self.value() - other.value(),
    {
        if self.low >= other.low {
            Wide { high: self.high - other.high, low: self.low - other.low }
        } else {
            let low: u128 = u128::MAX - other.low + self.low + 1;
            Wide { high: self.high - other.high - 1, low }
        }
    }

    /// Whether the first is the smaller.
    pub fn less(self, other: Wide) -> (r: bool)
        ensures
            r == (self.value() < other.value()),
    {
        self.high < other.high || (self.high == other.high && self.low < other.low)
    }

    /// Whether the two are the same number.
    pub fn same(self, other: Wide) -> (r: bool)
        ensures
            r == (self.value() == other.value()),
    {
        self.high == other.high && self.low == other.low
    }

    /// Twice the number, where it fits.
    pub fn doubled(self) -> (r: Wide)
        requires
            2 * self.value() < half_weight() * half_weight(),
        ensures
            r.value() == 2 * self.value(),
    {
        self.plus(self)
    }

    /// Ten times the number, where it fits.
    pub fn times_ten(self) -> (r: Wide)
        requires
            10 * self.value() < half_weight() * half_weight(),
        ensures
            r.value() == 10 * self.value(),
    {
        let two = self.plus(self);
        let four = two.plus(two);
        let eight = four.plus(four);
        eight.plus(two)
    }
}

} // verus!
