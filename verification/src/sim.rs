//! The synthetic order-flow simulator's rules: a random walk of the mid price within a band,
//! and random limit orders around it, biased to cross sometimes. The ticking and the waiting
//! belong to the caller.
use rand::rngs::StdRng;
use rand::Rng;

use vstd::prelude::*;

use crate::domain::{AccountId, Order, OrderId, OrderType, Price, Qty, SeqNum, Side};
use crate::engine::rules::spec_validate;

verus! {

/// A batch of orders goes in every `TICK_MS` milliseconds; the rate is in orders a second.
pub const TICK_MS: u64 = 10;

/// Simulated orders come from accounts `1..=NUM_ACCOUNTS`.
pub const NUM_ACCOUNTS: u64 = 8;

/// The mid price the walk starts from.
pub const START_MID: i64 = 10_000;

/// The lowest the mid price walks to.
pub const MID_LOW: i64 = 1_000;

/// The highest the mid price walks to.
pub const MID_HIGH: i64 = 100_000;

/// The lowest simulated price.
pub const PRICE_LOW: i64 = 1;

/// The highest simulated price.
pub const PRICE_HIGH: i64 = 1_000_000;

/// The lowest simulator rate.
pub const RATE_LOW: u64 = 1;

/// The highest simulator rate.
pub const RATE_HIGH: u64 = 1_000_000;

/// The random generator of the simulator: a seeded, deterministic generator of `rand`.
#[verifier::external_type_specification]
#[verifier::external_body]
pub struct ExStdRng(StdRng);

/// `v` kept within `lo..=hi`.
pub open spec fn clamp_int(v: int, lo: int, hi: int) -> int {
    if v < lo {
        lo
    } else if v > hi {
        hi
    } else {
        v
    }
}

/// A uniform draw from `lo..=hi`.
///
/// Calls `rand::Rng::gen_range` with an inclusive range, which panics on an empty range (so
/// `lo <= hi` is required) and otherwise returns a value within the range; the contract claims
/// that much and nothing of which value comes.
#[verifier::external_body]
fn draw_i64(rng: &mut StdRng, lo: i64, hi: i64) -> (r: i64)
    requires
        lo <= hi,
    ensures
        lo <= r <= hi,
{
    rng.gen_range(lo..=hi)
}

/// A uniform draw from `lo..=hi`.
///
/// Calls `rand::Rng::gen_range` with an inclusive range, as [`draw_i64`] does.
#[verifier::external_body]
fn draw_u64(rng: &mut StdRng, lo: u64, hi: u64) -> (r: u64)
    requires
        lo <= hi,
    ensures
        lo <= r <= hi,
{
    rng.gen_range(lo..=hi)
}

/// True with probability `numerator / denominator`.
///
/// Calls `rand::Rng::gen_ratio`, which panics when `denominator` is 0 or `numerator` exceeds
/// it (the `requires` leaves those out), always returns true when the two are equal and always
/// false when `numerator` is 0; the contract claims that much, and nothing of which value a
/// draw between those gives.
#[verifier::external_body]
fn chance(rng: &mut StdRng, numerator: u32, denominator: u32) -> (r: bool)
    requires
        0 < denominator,
        numerator <= denominator,
    ensures
        numerator == denominator ==> r,
        numerator == 0 ==> !r,
{
    rng.gen_ratio(numerator, denominator)
}

/// A requested simulator rate kept within `RATE_LOW..=RATE_HIGH`.
pub fn clamp_rate(rate: u64) -> (r: u64)
    ensures
        r == clamp_int(rate as int, RATE_LOW as int, RATE_HIGH as int),
{
    if rate < RATE_LOW {
        RATE_LOW
    } else if rate > RATE_HIGH {
        RATE_HIGH
    } else {
        rate
    }
}

/// The body of `POST /sim/start`.
#[derive(Debug, Clone, Copy, PartialEq, Eq, Structural)]
pub struct SimStartRequest {
    pub rate: Option<u64>,
}

impl SimStartRequest {
    /// The rate after this request, from the `current` one: a requested rate replaces it, kept
    /// within its band.
    pub fn rate_after(&self, current: u64) -> (r: u64)
        ensures
            r == match self.rate {
                Some(rate) => clamp_int(rate as int, RATE_LOW as int, RATE_HIGH as int),
                None => current as int,
            },
    {
        match self.rate {
            Some(rate) => clamp_rate(rate),
            None => current,
        }
    }
}

/// The number of orders per tick at `rate` orders a second: at least one.
pub fn batch_size(rate: u64) -> (r: u64)
    requires
        rate * TICK_MS <= u64::MAX,
    ensures
        r == if rate == 0 || rate * TICK_MS / 1000 == 0 { 1 } else { rate * TICK_MS / 1000 },
{
    let rate = if rate < 1 { 1 } else { rate };
    let b = rate * TICK_MS / 1000;
    if b < 1 {
        1
    } else {
        b
    }
}

/// The mid price moved by `step`, kept within `MID_LOW..=MID_HIGH`.
pub fn walk_mid(mid: i64, step: i64) -> (r: i64)
    requires
        -2 <= step <= 2,
        i64::MIN + 2 <= mid <= i64::MAX - 2,
    ensures
        r == clamp_int(mid + step, MID_LOW as int, MID_HIGH as int),
{
    let m = mid + step;
    if m < MID_LOW {
        MID_LOW
    } else if m > MID_HIGH {
        MID_HIGH
    } else {
        m
    }
}

/// One step of the mid price's random walk: a move of at most two ticks either way, kept within
/// `MID_LOW..=MID_HIGH`.
pub fn next_mid(rng: &mut StdRng, mid: i64) -> (r: i64)
    requires
        i64::MIN + 2 <= mid <= i64::MAX - 2,
    ensures
        MID_LOW <= r <= MID_HIGH,
        exists|m: int| mid - 2 <= m <= mid + 2 && r == #[trigger] clamp_int(m, MID_LOW as int, MID_HIGH as int),
{
    let d = draw_i64(rng, -2, 2);
    let r = walk_mid(mid, d);
    assert(r == clamp_int(mid + d, MID_LOW as int, MID_HIGH as int));
    r
}

/// The price offsets from the mid a simulated order of `side` draws from: buys a little above,
/// sells a little below, so that they cross now and then.
pub open spec fn drift_band(side: Side) -> (int, int) {
    match side {
        Side::Buy => (-3, 4),
        Side::Sell => (-4, 3),
    }
}

/// The simulated limit order built from its draws: the side (`buy`), the price offset `drift`
/// from the mid (kept within `PRICE_LOW..=PRICE_HIGH`), the quantity, and `account_draw`, which
/// picks account `1 + account_draw`.
pub fn sim_order(id: u64, mid: i64, buy: bool, drift: i64, qty: u64, account_draw: u64) -> (o: Order)
    requires
        -4 <= drift <= 4,
        i64::MIN + 4 <= mid <= i64::MAX - 4,
        account_draw < NUM_ACCOUNTS,
    ensures
        o == (Order {
            id: OrderId(id),
            account: AccountId((1 + account_draw) as u64),
            side: if buy { Side::Buy } else { Side::Sell },
            order_type: OrderType::Limit,
            limit_price: Some(Price(clamp_int(mid + drift, PRICE_LOW as int, PRICE_HIGH as int) as u64)),
            stop_price: None,
            quantity: Qty(qty),
            seq: SeqNum(0),
        }),
{
    let side = if buy {
        Side::Buy
    } else {
        Side::Sell
    };
    let v = mid + drift;
    let clamped = if v < PRICE_LOW {
        PRICE_LOW
    } else if v > PRICE_HIGH {
        PRICE_HIGH
    } else {
        v
    };
    assert(clamped == clamp_int(mid + drift, PRICE_LOW as int, PRICE_HIGH as int));
    Order {
        id: OrderId(id),
        account: AccountId(1 + account_draw),
        side,
        order_type: OrderType::Limit,
        limit_price: Some(Price(clamped as u64)),
        stop_price: None,
        quantity: Qty(qty),
        seq: SeqNum(0),
    }
}

/// A random limit order around `mid` under the server-assigned `id`: a buy or a sell with even
/// odds, a price offset from the mid by the side's drift and kept within
/// `PRICE_LOW..=PRICE_HIGH`, a quantity of 1 to 20, and an account of 1 to `NUM_ACCOUNTS`. It
/// always passes validation.
pub fn random_order(rng: &mut StdRng, mid: i64, id: u64) -> (o: Order)
    requires
        i64::MIN + 4 <= mid <= i64::MAX - 4,
    ensures
        o.id == OrderId(id),
        o.order_type == OrderType::Limit,
        o.stop_price is None,
        o.seq == SeqNum(0),
        exists|v: int|
            mid + drift_band(o.side).0 <= v <= mid + drift_band(o.side).1 && o.limit_price == Some(
                Price(#[trigger] clamp_int(v, PRICE_LOW as int, PRICE_HIGH as int) as u64),
            ),
        1 <= o.quantity.0 <= 20,
        1 <= o.account.0 <= NUM_ACCOUNTS,
        spec_validate(o) is None,
{
    let buy = chance(rng, 1, 2);
    let drift = if buy {
        draw_i64(rng, -3, 4)
    } else {
        draw_i64(rng, -4, 3)
    };
    let qty = draw_u64(rng, 1, 20);
    let account_draw = draw_u64(rng, 0, NUM_ACCOUNTS - 1);
    let o = sim_order(id, mid, buy, drift, qty, account_draw);
    assert(o.limit_price == Some(Price(clamp_int(mid + drift, PRICE_LOW as int, PRICE_HIGH as int) as u64)));
    o
}

} // verus!
