//! Amounts of the smallest currency unit, and the errors of the wallet.

use vstd::prelude::*;

verus! {

/// A non-negative count of the smallest currency unit.
#[derive(Clone, Copy, Debug, PartialEq, Eq, PartialOrd, Ord, Hash, Structural)]
pub struct Amount {
    pub units: u64,
}

impl Amount {
    /// The number of units.
    pub open spec fn view(self) -> nat {
        self.units as nat
    }

    /// The amount of `units` units.
    pub fn new(units: u64) -> (r: Amount)
        ensures
            r@ == units,
    {
        Amount { units }
    }

    /// The number of units.
    pub fn units(self) -> (r: u64)
        ensures
            r == self@,
    {
        self.units
    }

    /// The sum, unless it does not fit.
    pub fn checked_add(self, other: Amount) -> (r: Option<Amount>)
        ensures
            self@ + other@ <= u64::MAX ==> r == Some(Amount { units: (self@ + other@) as u64 }),
            self@ + other@ > u64::MAX ==> r is None,
    {
        if other.units <= u64::MAX - self.units {
            Some(Amount { units: self.units + other.units })
        } else {
            None
        }
    }

    /// The difference, unless `other` is the larger.
    pub fn checked_sub(self, other: Amount) -> (r: Option<Amount>)
        ensures
            other@ <= self@ ==> r == Some(Amount { units: (self@ - other@) as u64 }),
            other@ > self@ ==> r is None,
    {
        if other.units <= self.units {
            Some(Amount { units: self.units - other.units })
        } else {
            None
        }
    }

    /// `self` is strictly less than `other`.
    pub fn less_than(self, other: Amount) -> (r: bool)
        ensures
            r == (self@ < other@),
    {
        self.units < other.units
    }
}

/// Why an operation of the wallet did not succeed.
#[derive(Clone, Copy, Debug, PartialEq, Eq, Structural)]
pub enum MintError {
    /// No combination of held coins adds up to the amount.
    InsufficientFunds,
    /// The amount cannot be written as a sum of denominations.
    AmountNotRepresentable,
    /// The federation refused the request, with its reason code.
    FederationRejected(u32),
    /// That many signatures of that denomination did not verify.
    VerificationFailed(u64, u64),
    /// The federation could not be reached.
    TransportUnavailable,
}

} // verus!
