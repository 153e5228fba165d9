//! Strongly-typed identifiers and quantities.
//!
//! Newtypes over `u64` keep a quantity from being passed where a price is expected. Prices are
//! integer ticks (one tick is 0.01 quote units), so ordering is exact.
use vstd::prelude::*;

use crate::text::decimal_string;

verus! {

/// Number of quote-currency cents in one price tick: a `Price(12_345)` means 123.45 quote units.
pub const TICK_CENTS: u64 = 1;

/// Unique identifier for an order, assigned by the client or gateway.
#[derive(Debug, Clone, Copy, PartialEq, Eq, PartialOrd, Ord, Hash, Structural)]
pub struct OrderId(pub u64);

/// Identifies the owning account, used for self-trade prevention.
#[derive(Debug, Clone, Copy, PartialEq, Eq, PartialOrd, Ord, Hash, Structural)]
pub struct AccountId(pub u64);

/// Price expressed in integer ticks (see [`TICK_CENTS`]).
#[derive(Debug, Clone, Copy, PartialEq, Eq, PartialOrd, Ord, Hash, Structural)]
pub struct Price(pub u64);

/// A quantity (lots, shares, contracts). Arithmetic is checked so that a quantity never wraps.
#[derive(Debug, Clone, Copy, PartialEq, Eq, PartialOrd, Ord, Hash, Structural)]
pub struct Qty(pub u64);

/// Engine-assigned sequence number. At one price level the lowest number fills first.
#[derive(Debug, Clone, Copy, PartialEq, Eq, PartialOrd, Ord, Hash, Structural)]
pub struct SeqNum(pub u64);

impl OrderId {
    /// The underlying raw value.
    pub fn get(self) -> (r: u64)
        ensures
            r == self.0,
    {
        self.0
    }

    /// Decimal rendering of the raw value.
    pub fn to_string(&self) -> (s: String)
        ensures
            s@ == crate::text::decimal_digits(self.0 as nat),
    {
        decimal_string(self.0)
    }
}

impl AccountId {
    /// The underlying raw value.
    pub fn get(self) -> (r: u64)
        ensures
            r == self.0,
    {
        self.0
    }

    /// Decimal rendering of the raw value.
    pub fn to_string(&self) -> (s: String)
        ensures
            s@ == crate::text::decimal_digits(self.0 as nat),
    {
        decimal_string(self.0)
    }
}

impl Price {
    /// The underlying raw value.
    pub fn get(self) -> (r: u64)
        ensures
            r == self.0,
    {
        self.0
    }

    /// Decimal rendering of the raw value.
    pub fn to_string(&self) -> (s: String)
        ensures
            s@ == crate::text::decimal_digits(self.0 as nat),
    {
        decimal_string(self.0)
    }
}

impl Qty {
    /// The underlying raw value.
    pub fn get(self) -> (r: u64)
        ensures
            r == self.0,
    {
        self.0
    }

    /// Whether the quantity is zero.
    pub fn is_zero(self) -> (r: bool)
        ensures
            r == (self.0 == 0),
    {
        self.0 == 0
    }

    /// Checked addition: `None` exactly when the sum does not fit in a `u64`.
    pub fn checked_add(self, rhs: Qty) -> (r: Option<Qty>)
        ensures
            self.0 + rhs.0 <= u64::MAX ==> r == Some(Qty((self.0 + rhs.0) as u64)),
            self.0 + rhs.0 > u64::MAX ==> r is None,
    {
        match self.0.checked_add(rhs.0) {
            Some(v) => Some(Qty(v)),
            None => None,
        }
    }

    /// Checked subtraction: `None` exactly when `rhs` exceeds `self`.
    pub fn checked_sub(self, rhs: Qty) -> (r: Option<Qty>)
        ensures
            rhs.0 <= self.0 ==> r == Some(Qty((self.0 - rhs.0) as u64)),
            rhs.0 > self.0 ==> r is None,
    {
        if rhs.0 <= self.0 {
            Some(Qty(self.0 - rhs.0))
        } else {
            None
        }
    }

    /// The smaller of two quantities: what a taker and a maker can fill between them.
    pub fn min(self, rhs: Qty) -> (r: Qty)
        ensures
            r.0 == if self.0 <= rhs.0 { self.0 } else { rhs.0 },
    {
        if self.0 <= rhs.0 {
            self
        } else {
            rhs
        }
    }

    /// Decimal rendering of the raw value.
    pub fn to_string(&self) -> (s: String)
        ensures
            s@ == crate::text::decimal_digits(self.0 as nat),
    {
        decimal_string(self.0)
    }
}

/// The successor of a sequence value, wrapping at `u64::MAX`.
pub open spec fn next_seq_value(v: u64) -> u64 {
    if v == u64::MAX {
        0
    } else {
        (v + 1) as u64
    }
}

impl SeqNum {
    /// The underlying raw value.
    pub fn get(self) -> (r: u64)
        ensures
            r == self.0,
    {
        self.0
    }

    /// The next sequence value. The last value has none (at a billion orders a second it is
    /// centuries away).
    pub fn next(self) -> (r: SeqNum)
        requires
            self.0 < u64::MAX,
        ensures
            r.0 == self.0 + 1,
    {
        SeqNum(self.0 + 1)
    }
}

impl Default for SeqNum {
    fn default() -> (r: SeqNum)
        ensures
            r.0 == 0,
    {
        SeqNum(0)
    }
}

impl From<u64> for OrderId {
    fn from(v: u64) -> (r: OrderId)
        ensures
            r.0 == v,
    {
        OrderId(v)
    }
}

impl vstd::std_specs::convert::FromSpecImpl<u64> for OrderId {
    open spec fn obeys_from_spec() -> bool {
        true
    }

    open spec fn from_spec(v: u64) -> OrderId {
        OrderId(v)
    }
}

impl From<u64> for AccountId {
    fn from(v: u64) -> (r: AccountId)
        ensures
            r.0 == v,
    {
        AccountId(v)
    }
}

impl vstd::std_specs::convert::FromSpecImpl<u64> for AccountId {
    open spec fn obeys_from_spec() -> bool {
        true
    }

    open spec fn from_spec(v: u64) -> AccountId {
        AccountId(v)
    }
}

impl From<u64> for Price {
    fn from(v: u64) -> (r: Price)
        ensures
            r.0 == v,
    {
        Price(v)
    }
}

impl vstd::std_specs::convert::FromSpecImpl<u64> for Price {
    open spec fn obeys_from_spec() -> bool {
        true
    }

    open spec fn from_spec(v: u64) -> Price {
        Price(v)
    }
}

impl From<u64> for Qty {
    fn from(v: u64) -> (r: Qty)
        ensures
            r.0 == v,
    {
        Qty(v)
    }
}

impl vstd::std_specs::convert::FromSpecImpl<u64> for Qty {
    open spec fn obeys_from_spec() -> bool {
        true
    }

    open spec fn from_spec(v: u64) -> Qty {
        Qty(v)
    }
}

} // verus!
