use limitbook::domain::{
    AccountId, EngineError, EngineEvent, Order, OrderId, OrderType, Price, Qty, RejectReason, SeqNum, Side,
    StpPolicy,
};
use limitbook::engine::engine::validate;
use limitbook::MatchingEngine;

fn ord(id: u64, acct: u64, side: Side, ot: OrderType, limit: Option<u64>, stop: Option<u64>, qty: u64) -> Order {
    Order {
        id: OrderId(id),
        account: AccountId(acct),
        side,
        order_type: ot,
        limit_price: limit.map(Price),
        stop_price: stop.map(Price),
        quantity: Qty(qty),
        seq: SeqNum(0),
    }
}

fn limit(id: u64, acct: u64, side: Side, price: u64, qty: u64) -> Order {
    ord(id, acct, side, OrderType::Limit, Some(price), None, qty)
}

#[test]
fn validation_names_the_missing_field() {
    assert_eq!(validate(&ord(1, 1, Side::Buy, OrderType::Limit, None, None, 5)), Some(RejectReason::MissingLimitPrice));
    assert_eq!(validate(&ord(1, 1, Side::Buy, OrderType::PostOnly, None, None, 5)), Some(RejectReason::MissingLimitPrice));
    assert_eq!(validate(&ord(1, 1, Side::Buy, OrderType::Stop, None, None, 5)), Some(RejectReason::MissingStopPrice));
    assert_eq!(validate(&ord(1, 1, Side::Buy, OrderType::StopLimit, None, Some(3), 5)), Some(RejectReason::MissingLimitPrice));
    assert_eq!(validate(&ord(1, 1, Side::Buy, OrderType::StopLimit, Some(3), None, 5)), Some(RejectReason::MissingStopPrice));
    assert_eq!(validate(&ord(1, 1, Side::Buy, OrderType::Market, None, None, 0)), Some(RejectReason::ZeroQuantity));
    assert_eq!(validate(&ord(1, 1, Side::Buy, OrderType::Market, None, None, 1)), None);
}

#[test]
fn accepted_order_is_announced_first() {
    let mut eng = MatchingEngine::default();
    let evs = eng.submit(limit(5, 1, Side::Buy, 100, 1)).to_vec();
    assert_eq!(evs[0], EngineEvent::OrderAccepted { id: OrderId(5) });
    assert_eq!(*evs.last().unwrap(), EngineEvent::BookUpdated);
}

#[test]
fn trades_carry_increasing_sequence_numbers() {
    let mut eng = MatchingEngine::default();
    eng.submit(limit(1, 1, Side::Sell, 100, 1));
    eng.submit(limit(2, 1, Side::Sell, 101, 1));
    let evs = eng.submit(limit(3, 2, Side::Buy, 101, 2)).to_vec();
    let seqs: Vec<u64> = evs
        .iter()
        .filter_map(|e| match e {
            EngineEvent::Trade(t) => Some(t.seq.get()),
            _ => None,
        })
        .collect();
    assert_eq!(seqs, vec![4, 5]);
    assert_eq!(eng.last_trade_price(), Some(Price(101)));
}

#[test]
fn cancel_drops_a_dormant_stop() {
    let mut eng = MatchingEngine::default();
    eng.submit(ord(1, 1, Side::Sell, OrderType::Stop, None, Some(90), 4));
    let evs = eng.cancel(OrderId(1)).unwrap().to_vec();
    assert_eq!(evs, vec![EngineEvent::OrderCanceled { id: OrderId(1), remaining: Qty(4) }]);
    assert_eq!(eng.cancel(OrderId(1)), Err(EngineError::UnknownOrder(OrderId(1))));
}

#[test]
fn amend_unknown_order_errors() {
    let mut eng = MatchingEngine::default();
    assert_eq!(eng.amend(OrderId(3), Qty(1), None), Err(EngineError::UnknownOrder(OrderId(3))));
    assert_eq!(eng.amend(OrderId(3), Qty(0), None), Err(EngineError::InvalidAmendQuantity));
}

#[test]
fn amend_up_loses_priority_and_can_trade() {
    let mut eng = MatchingEngine::default();
    eng.submit(limit(1, 1, Side::Buy, 99, 5));
    eng.submit(limit(2, 2, Side::Sell, 101, 5));
    let evs = eng.amend(OrderId(1), Qty(8), Some(Price(101))).unwrap().to_vec();
    let traded: u64 = evs
        .iter()
        .filter_map(|e| match e {
            EngineEvent::Trade(t) => Some(t.quantity.get()),
            _ => None,
        })
        .sum();
    assert_eq!(traded, 5);
    assert_eq!(eng.best_bid(), Some(Price(101)));
    assert_eq!(eng.snapshot(0).bids[0].quantity, Qty(3));
    assert!(eng.best_ask().is_none());
}

#[test]
fn stop_limit_fires_as_a_limit_order() {
    let mut eng = MatchingEngine::default();
    eng.submit(limit(1, 1, Side::Buy, 98, 10));
    eng.submit(ord(2, 2, Side::Sell, OrderType::StopLimit, Some(97), Some(99), 3));
    eng.submit(limit(3, 3, Side::Buy, 99, 1));
    let evs = eng.submit(limit(4, 4, Side::Sell, 99, 1)).to_vec();
    assert!(evs.iter().any(|e| matches!(e, EngineEvent::Trade(t) if t.taker_order == OrderId(2) && t.price == Price(98))));
    assert_eq!(eng.snapshot(0).bids[0].quantity, Qty(7));
}

#[test]
fn stop_already_triggered_fires_on_entry() {
    let mut eng = MatchingEngine::default();
    eng.submit(limit(1, 1, Side::Sell, 100, 5));
    eng.submit(limit(2, 2, Side::Buy, 100, 1));
    let evs = eng.submit(ord(3, 3, Side::Buy, OrderType::Stop, None, Some(100), 2)).to_vec();
    assert!(evs.iter().any(|e| matches!(e, EngineEvent::Trade(t) if t.taker_order == OrderId(3))));
    assert_eq!(eng.snapshot(0).asks[0].quantity, Qty(2));
}

#[test]
fn snapshot_depth_limits_levels() {
    let mut eng = MatchingEngine::with_capacity(8, StpPolicy::CancelNewest);
    eng.submit(limit(1, 1, Side::Sell, 103, 1));
    eng.submit(limit(2, 1, Side::Sell, 101, 2));
    eng.submit(limit(3, 1, Side::Sell, 102, 3));
    let s = eng.snapshot(2);
    assert_eq!(s.asks.len(), 2);
    assert_eq!(s.asks[0].price, Price(101));
    assert_eq!(s.asks[1].price, Price(102));
    assert_eq!(s.seq, SeqNum(3));
}

#[test]
fn fok_stopped_by_self_trade_cancels_remainder() {
    let mut eng = MatchingEngine::default();
    eng.submit(limit(1, 7, Side::Sell, 100, 5));
    let evs = eng.submit(ord(2, 7, Side::Buy, OrderType::FillOrKill, Some(100), None, 5)).to_vec();
    assert!(evs.iter().all(|e| !matches!(e, EngineEvent::Trade(_))));
    assert!(evs.contains(&EngineEvent::OrderCanceled { id: OrderId(2), remaining: Qty(5) }));
}

#[test]
fn sell_sweep_walks_bids_downward() {
    let mut eng = MatchingEngine::default();
    eng.submit(limit(1, 1, Side::Buy, 99, 2));
    eng.submit(limit(2, 1, Side::Buy, 101, 2));
    eng.submit(limit(3, 1, Side::Buy, 100, 2));
    let evs = eng.submit(ord(4, 2, Side::Sell, OrderType::Market, None, None, 5)).to_vec();
    let prices: Vec<u64> = evs
        .iter()
        .filter_map(|e| match e {
            EngineEvent::Trade(t) => Some(t.price.get()),
            _ => None,
        })
        .collect();
    assert_eq!(prices, vec![101, 100, 99]);
    assert_eq!(eng.snapshot(0).bids[0].quantity, Qty(1));
}

#[test]
fn repriced_amend_never_leaves_the_book_crossed() {
    let mut eng = MatchingEngine::default();
    eng.submit(limit(1, 1, Side::Buy, 99, 5));
    eng.submit(limit(2, 2, Side::Sell, 102, 3));
    eng.amend(OrderId(1), Qty(5), Some(Price(105))).unwrap();
    assert_eq!(eng.best_bid(), Some(Price(105)));
    assert!(eng.best_ask().is_none());
    assert_eq!(eng.snapshot(0).bids[0].quantity, Qty(2));
}

#[test]
fn duplicate_of_a_resting_id_leaves_the_book_alone() {
    let mut eng = MatchingEngine::default();
    eng.submit(limit(1, 1, Side::Buy, 99, 5));
    let evs = eng.submit(limit(1, 1, Side::Sell, 90, 5)).to_vec();
    assert_eq!(evs, vec![EngineEvent::OrderRejected { id: OrderId(1), reason: RejectReason::DuplicateOrderId }]);
    assert_eq!(eng.best_bid(), Some(Price(99)));
    assert!(eng.best_ask().is_none());
}

#[test]
fn snapshot_carries_the_last_assigned_sequence_number() {
    let mut eng = MatchingEngine::default();
    assert_eq!(eng.snapshot(0).seq, SeqNum(0));
    eng.submit(limit(1, 1, Side::Buy, 100, 10));
    let s = eng.snapshot(0);
    assert_eq!(s.seq, SeqNum(1));
    assert_eq!(s.bids.len(), 1);
    assert_eq!((s.bids[0].price, s.bids[0].quantity), (Price(100), Qty(10)));
    assert!(s.asks.is_empty());
}

#[test]
fn id_of_a_dormant_stop_is_a_duplicate() {
    let mut eng = MatchingEngine::default();
    let evs = eng.submit(ord(2, 2, Side::Buy, OrderType::Stop, None, Some(102), 5)).to_vec();
    assert_eq!(evs, vec![EngineEvent::OrderAccepted { id: OrderId(2) }]);
    let evs = eng.submit(limit(2, 2, Side::Buy, 100, 5)).to_vec();
    assert_eq!(evs, vec![EngineEvent::OrderRejected { id: OrderId(2), reason: RejectReason::DuplicateOrderId }]);
    assert!(eng.best_bid().is_none());
}

#[test]
fn quantity_a_full_level_cannot_take_is_canceled() {
    let mut eng = MatchingEngine::default();
    eng.submit(limit(1, 1, Side::Sell, 100, u64::MAX));
    let evs = eng.submit(ord(2, 2, Side::Sell, OrderType::PostOnly, Some(100), None, 1)).to_vec();
    assert_eq!(
        evs,
        vec![
            EngineEvent::OrderAccepted { id: OrderId(2) },
            EngineEvent::OrderCanceled { id: OrderId(2), remaining: Qty(1) },
            EngineEvent::BookUpdated,
        ]
    );
    assert_eq!(eng.snapshot(0).asks[0].quantity, Qty(u64::MAX));
    let evs = eng.submit(limit(3, 3, Side::Sell, 100, 4)).to_vec();
    assert!(evs.contains(&EngineEvent::OrderCanceled { id: OrderId(3), remaining: Qty(4) }));
}

#[test]
fn seq_next_of_a_middle_value() {
    assert_eq!(SeqNum(41).next(), SeqNum(42));
}
