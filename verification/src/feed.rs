//! What the gateway does with the engine's output stream: which server message each engine
//! message becomes and where it goes, the bounded list of recent trades, and the values of the
//! event counters and book gauges. The channels, the locks and the metrics recorder belong to
//! the caller.
use std::collections::VecDeque;

use vstd::prelude::*;

use crate::domain::trade::{first_price, spec_spread};
use crate::domain::{BookLevel, BookSnapshot, EngineEvent};
use crate::runtime::EngineMsg;
use crate::wire::{book_message_of, event_message_of, ticks_of, ServerMessage};

verus! {

/// Where a server message goes.
pub enum Outbound {
    /// A book message: cached as the latest book and broadcast.
    Book(ServerMessage),
    /// A trade message: kept among the recent trades and broadcast.
    Trade(ServerMessage),
    /// Any other message: broadcast.
    Other(ServerMessage),
    /// Nothing to send.
    Nothing,
}

/// The server message of an engine message, and where it goes: a snapshot becomes a book
/// message; an event becomes its message (a trade message goes among the recent trades), and a
/// book update becomes nothing.
pub fn outbound(msg: &EngineMsg) -> (r: Outbound)
    ensures
        match *msg {
            EngineMsg::Book(s) => match r {
                Outbound::Book(m) => book_message_of(m, s),
                _ => false,
            },
            EngineMsg::Event(ev) => match r {
                Outbound::Trade(m) => ev is Trade && event_message_of(Some(m), ev),
                Outbound::Other(m) => !(ev is Trade) && event_message_of(Some(m), ev),
                Outbound::Nothing => event_message_of(None, ev),
                Outbound::Book(_) => false,
            },
        },
{
    match msg {
        EngineMsg::Book(s) => Outbound::Book(ServerMessage::from_snapshot(s)),
        EngineMsg::Event(ev) => match ServerMessage::from_event(ev) {
            Some(m) => {
                if let EngineEvent::Trade(_) = ev {
                    Outbound::Trade(m)
                } else {
                    Outbound::Other(m)
                }
            },
            None => Outbound::Nothing,
        },
    }
}

/// How many recent trades are kept.
pub const RECENT_TRADES_CAP: usize = 200;

/// The most recent trade messages, oldest first, at most [`RECENT_TRADES_CAP`] of them.
pub struct RecentTrades {
    trades: VecDeque<ServerMessage>,
}

impl View for RecentTrades {
    type V = Seq<ServerMessage>;

    closed spec fn view(&self) -> Seq<ServerMessage> {
        self.trades@
    }
}

impl RecentTrades {
    /// No trades yet.
    pub fn new() -> (r: Self)
        ensures
            r@ == Seq::<ServerMessage>::empty(),
    {
        RecentTrades { trades: VecDeque::with_capacity(RECENT_TRADES_CAP) }
    }

    /// Keep a new trade, dropping the oldest one when the list is full.
    pub fn push(&mut self, trade: ServerMessage)
        ensures
            final(self)@ == if old(self)@.len() >= RECENT_TRADES_CAP {
                old(self)@.drop_first().push(trade)
            } else {
                old(self)@.push(trade)
            },
            old(self)@.len() <= RECENT_TRADES_CAP ==> final(self)@.len() <= RECENT_TRADES_CAP,
    {
        proof {
            broadcast use vstd::std_specs::vecdeque::group_vec_dequeue_axioms;
        }
        if self.trades.len() >= RECENT_TRADES_CAP {
            let _ = self.trades.pop_front();
        }
        self.trades.push_back(trade);
    }

    /// Number of trades kept.
    pub fn len(&self) -> (r: usize)
        ensures
            r == self@.len(),
    {
        proof {
            broadcast use vstd::std_specs::vecdeque::group_vec_dequeue_axioms;
        }
        self.trades.len()
    }

    /// The `i`-th trade kept, oldest first.
    pub fn get(&self, i: usize) -> (r: &ServerMessage)
        requires
            i < self@.len(),
        ensures
            *r == self@[i as int],
    {
        proof {
            broadcast use vstd::std_specs::vecdeque::group_vec_dequeue_axioms;
        }
        &self.trades[i]
    }
}

/// Which event counter an engine event moves.
#[derive(Debug, Clone, Copy, PartialEq, Eq, Structural)]
pub enum EventMetric {
    /// One more trade, and `quantity` more traded.
    Trade { quantity: u64 },
    /// One more accepted order.
    Accepted,
    /// One more rejected order.
    Rejected,
    /// One more canceled order.
    Canceled,
}

/// The counter an engine event moves, if any: amends and book updates move none.
pub fn event_metric(ev: &EngineEvent) -> (r: Option<EventMetric>)
    ensures
        r == match *ev {
            EngineEvent::Trade(t) => Some(EventMetric::Trade { quantity: t.quantity.0 }),
            EngineEvent::OrderAccepted { .. } => Some(EventMetric::Accepted),
            EngineEvent::OrderRejected { .. } => Some(EventMetric::Rejected),
            EngineEvent::OrderCanceled { .. } => Some(EventMetric::Canceled),
            _ => None,
        },
{
    match ev {
        EngineEvent::Trade(t) => Some(EventMetric::Trade { quantity: t.quantity.get() }),
        EngineEvent::OrderAccepted { .. } => Some(EventMetric::Accepted),
        EngineEvent::OrderRejected { .. } => Some(EventMetric::Rejected),
        EngineEvent::OrderCanceled { .. } => Some(EventMetric::Canceled),
        _ => None,
    }
}

/// Total quantity over a run of levels.
pub open spec fn depth_total(levels: Seq<BookLevel>) -> nat
    decreases levels.len(),
{
    if levels.len() == 0 {
        0
    } else {
        depth_total(levels.drop_last()) + levels.last().quantity.0 as nat
    }
}

/// The total quantity of `levels`, or `None` when it does not fit in a `u64`.
pub fn depth_sum(levels: &Vec<BookLevel>) -> (r: Option<u64>)
    ensures
        match r {
            Some(t) => t == depth_total(levels@),
            None => depth_total(levels@) > u64::MAX,
        },
{
    let mut total: u64 = 0;
    let mut i: usize = 0;
    while i < levels.len()
        invariant
            0 <= i <= levels@.len(),
            total == depth_total(levels@.subrange(0, i as int)),
        decreases levels@.len() - i,
    {
        let ghost prefix = levels@.subrange(0, i as int + 1);
        proof {
            assert(prefix.drop_last() =~= levels@.subrange(0, i as int));
        }
        let q = levels[i].quantity.0;
        if q > u64::MAX - total {
            proof {
                lemma_depth_total_prefix(levels@, i as int + 1);
            }
            return None;
        }
        total = total + q;
        i = i + 1;
    }
    proof {
        assert(levels@.subrange(0, levels@.len() as int) =~= levels@);
    }
    Some(total)
}

/// The total of a run of levels is at least that of any prefix of it.
proof fn lemma_depth_total_prefix(levels: Seq<BookLevel>, k: int)
    requires
        0 <= k <= levels.len(),
    ensures
        depth_total(levels.subrange(0, k)) <= depth_total(levels),
    decreases levels.len() - k,
{
    if k < levels.len() {
        lemma_depth_total_prefix(levels, k + 1);
        assert(levels.subrange(0, k + 1).drop_last() =~= levels.subrange(0, k));
    } else {
        assert(levels.subrange(0, k) =~= levels);
    }
}

/// The values of the book gauges.
#[derive(Debug, Clone, Copy, PartialEq, Eq, Structural)]
pub struct BookGauges {
    pub bid_depth: u64,
    pub ask_depth: u64,
    pub spread: Option<u64>,
    pub best_bid: Option<u64>,
    pub best_ask: Option<u64>,
}

/// The book gauges of a snapshot: the total quantity on each side, the spread and the best
/// prices. `None` when a side's total does not fit in a `u64`.
pub fn book_gauges(s: &BookSnapshot) -> (r: Option<BookGauges>)
    ensures
        match r {
            Some(g) => {
                &&& g.bid_depth == depth_total(s.bids@)
                &&& g.ask_depth == depth_total(s.asks@)
                &&& g.spread == spec_spread(s.bids@, s.asks@)
                &&& g.best_bid == ticks_of(first_price(s.bids@))
                &&& g.best_ask == ticks_of(first_price(s.asks@))
            },
            None => depth_total(s.bids@) > u64::MAX || depth_total(s.asks@) > u64::MAX,
        },
{
    let bid_depth = match depth_sum(&s.bids) {
        Some(t) => t,
        None => {
            return None;
        },
    };
    let ask_depth = match depth_sum(&s.asks) {
        Some(t) => t,
        None => {
            return None;
        },
    };
    let best_bid = match s.best_bid() {
        Some(p) => Some(p.get()),
        None => None,
    };
    let best_ask = match s.best_ask() {
        Some(p) => Some(p.get()),
        None => None,
    };
    Some(BookGauges { bid_depth, ask_depth, spread: s.spread(), best_bid, best_ask })
}

} // verus!
