use limitbook::domain::{
    AccountId, BookLevel, BookSnapshot, EngineError, EngineEvent, OrderId, OrderType, Price, Qty,
    RejectReason, SeqNum, Side, StpPolicy, TICK_CENTS,
};
use limitbook::matcher::{price_crosses, stop_triggered};

fn lvl(p: u64, q: u64) -> BookLevel {
    BookLevel { price: Price(p), quantity: Qty(q) }
}

#[test]
fn display_is_human_readable() {
    assert_eq!(EngineError::UnknownOrder(OrderId(7)).to_string(), "unknown order: 7");
}

#[test]
fn error_messages_name_their_cause() {
    assert!(EngineError::CapacityExhausted.to_string().contains("capacity"));
    assert_eq!(EngineError::InvalidAmendQuantity.to_string(), "amend quantity must be positive");
    assert_eq!(EngineError::UnknownOrder(OrderId(0)).to_string(), "unknown order: 0");
    assert_eq!(
        EngineError::UnknownOrder(OrderId(u64::MAX)).to_string(),
        "unknown order: 18446744073709551615"
    );
}

#[test]
fn events_are_comparable() {
    let a = EngineEvent::OrderAccepted { id: OrderId(1) };
    let b = EngineEvent::OrderAccepted { id: OrderId(1) };
    assert_eq!(a, b);
    assert_ne!(a, EngineEvent::BookUpdated);
}

#[test]
fn reject_reasons_are_distinct() {
    assert_ne!(RejectReason::ZeroQuantity, RejectReason::NoLiquidity);
}

#[test]
fn qty_checked_add_detects_overflow() {
    assert_eq!(Qty(u64::MAX).checked_add(Qty(1)), None);
    assert_eq!(Qty(2).checked_add(Qty(3)), Some(Qty(5)));
}

#[test]
fn qty_checked_sub_detects_underflow() {
    assert_eq!(Qty(3).checked_sub(Qty(5)), None);
    assert_eq!(Qty(5).checked_sub(Qty(3)), Some(Qty(2)));
}

#[test]
fn qty_min_returns_smaller() {
    assert_eq!(Qty(5).min(Qty(3)), Qty(3));
    assert_eq!(Qty(2).min(Qty(9)), Qty(2));
}

#[test]
fn qty_is_zero_only_for_zero() {
    assert!(Qty(0).is_zero());
    assert!(!Qty(1).is_zero());
}

#[test]
fn seq_next_increments() {
    assert_eq!(SeqNum(0).next(), SeqNum(1));
}

#[test]
fn price_ordering_is_exact() {
    assert!(Price(100) < Price(101));
    assert_eq!(Price::from(42).get(), 42);
}

#[test]
fn ids_render_in_decimal() {
    assert_eq!(OrderId(1234).to_string(), "1234");
    assert_eq!(Price(0).to_string(), "0");
    assert_eq!(Qty(90).to_string(), "90");
    assert_eq!(AccountId(5).to_string(), "5");
    assert_eq!(TICK_CENTS, 1);
}

#[test]
fn side_opposite_is_involutive() {
    assert_eq!(Side::Buy.opposite(), Side::Sell);
    assert_eq!(Side::Sell.opposite().opposite(), Side::Sell);
}

#[test]
fn only_limit_and_post_only_rest() {
    assert!(OrderType::Limit.rests_when_unfilled());
    assert!(OrderType::PostOnly.rests_when_unfilled());
    assert!(!OrderType::Market.rests_when_unfilled());
    assert!(!OrderType::ImmediateOrCancel.rests_when_unfilled());
    assert!(!OrderType::FillOrKill.rests_when_unfilled());
}

#[test]
fn stop_types_flagged() {
    assert!(OrderType::Stop.is_stop());
    assert!(OrderType::StopLimit.is_stop());
    assert!(!OrderType::Limit.is_stop());
}

#[test]
fn stp_policy_defaults_to_cancel_newest() {
    assert_eq!(StpPolicy::default(), StpPolicy::CancelNewest);
}

#[test]
fn snapshot_reports_best_prices_and_spread() {
    let snap = BookSnapshot {
        bids: vec![lvl(100, 5), lvl(99, 3)],
        asks: vec![lvl(102, 4), lvl(103, 7)],
        seq: SeqNum(10),
    };
    assert_eq!(snap.best_bid(), Some(Price(100)));
    assert_eq!(snap.best_ask(), Some(Price(102)));
    assert_eq!(snap.spread(), Some(2));
}

#[test]
fn empty_snapshot_has_no_spread() {
    let snap = BookSnapshot::default();
    assert_eq!(snap.best_bid(), None);
    assert_eq!(snap.spread(), None);
}

#[test]
fn one_sided_snapshot_has_no_spread() {
    let snap = BookSnapshot { bids: vec![lvl(100, 5)], asks: vec![], seq: SeqNum(1) };
    assert_eq!(snap.best_bid(), Some(Price(100)));
    assert_eq!(snap.best_ask(), None);
    assert_eq!(snap.spread(), None);
}

#[test]
fn buy_crosses_when_ask_at_or_below_limit() {
    assert!(price_crosses(Side::Buy, Some(Price(100)), Price(100)));
    assert!(price_crosses(Side::Buy, Some(Price(100)), Price(99)));
    assert!(!price_crosses(Side::Buy, Some(Price(100)), Price(101)));
}

#[test]
fn sell_crosses_when_bid_at_or_above_limit() {
    assert!(price_crosses(Side::Sell, Some(Price(100)), Price(100)));
    assert!(price_crosses(Side::Sell, Some(Price(100)), Price(101)));
    assert!(!price_crosses(Side::Sell, Some(Price(100)), Price(99)));
}

#[test]
fn market_always_crosses() {
    assert!(price_crosses(Side::Buy, None, Price(1)));
    assert!(price_crosses(Side::Sell, None, Price(u64::MAX)));
}

#[test]
fn buy_stop_triggers_on_rise() {
    assert!(stop_triggered(Side::Buy, Price(100), Price(100)));
    assert!(stop_triggered(Side::Buy, Price(100), Price(105)));
    assert!(!stop_triggered(Side::Buy, Price(100), Price(99)));
}

#[test]
fn sell_stop_triggers_on_fall() {
    assert!(stop_triggered(Side::Sell, Price(100), Price(100)));
    assert!(stop_triggered(Side::Sell, Price(100), Price(95)));
    assert!(!stop_triggered(Side::Sell, Price(100), Price(101)));
}
