use limitbook::book::OrderBook;
use limitbook::domain::{AccountId, EngineError, OrderId, Price, Qty, SeqNum, Side};

fn rest(b: &mut OrderBook, id: u64, side: Side, price: u64, qty: u64) {
    b.insert(OrderId(id), AccountId(id), side, Price(price), Qty(qty), SeqNum(id)).unwrap();
}

#[test]
fn book_best_prices_follow_levels() {
    let mut b = OrderBook::with_capacity(16);
    assert!(b.is_empty());
    rest(&mut b, 1, Side::Buy, 99, 5);
    rest(&mut b, 2, Side::Buy, 100, 5);
    rest(&mut b, 3, Side::Sell, 103, 5);
    rest(&mut b, 4, Side::Sell, 102, 5);
    assert_eq!(b.best_bid(), Some(Price(100)));
    assert_eq!(b.best_ask(), Some(Price(102)));
    assert_eq!(b.len(), 4);
    assert!(b.contains(OrderId(3)));
    assert_eq!(b.get(OrderId(4)), Some((Side::Sell, Price(102), AccountId(4), Qty(5))));
    assert_eq!(b.get(OrderId(9)), None);
}

#[test]
fn book_duplicate_insert_is_refused() {
    let mut b = OrderBook::with_capacity(4);
    rest(&mut b, 1, Side::Buy, 99, 5);
    let r = b.insert(OrderId(1), AccountId(1), Side::Buy, Price(98), Qty(1), SeqNum(2));
    assert_eq!(r, Err(EngineError::CapacityExhausted));
    assert_eq!(b.len(), 1);
    assert_eq!(b.best_bid(), Some(Price(99)));
}

#[test]
fn book_best_maker_is_oldest_at_best_price() {
    let mut b = OrderBook::with_capacity(8);
    rest(&mut b, 1, Side::Sell, 101, 5);
    rest(&mut b, 2, Side::Sell, 100, 7);
    rest(&mut b, 3, Side::Sell, 100, 9);
    let m = b.best_maker(Side::Sell).unwrap();
    assert_eq!(m.id, OrderId(2));
    assert_eq!(m.price, Price(100));
    assert_eq!(m.quantity, Qty(7));
    assert!(b.best_maker(Side::Buy).is_none());
}

#[test]
fn book_reduce_maker_consumes_front() {
    let mut b = OrderBook::with_capacity(8);
    rest(&mut b, 1, Side::Sell, 100, 5);
    rest(&mut b, 2, Side::Sell, 100, 5);
    let m = b.best_maker(Side::Sell).unwrap();
    b.reduce_maker(m.node, Qty(2));
    assert_eq!(b.get(OrderId(1)), Some((Side::Sell, Price(100), AccountId(1), Qty(3))));
    let m = b.best_maker(Side::Sell).unwrap();
    b.reduce_maker(m.node, Qty(3));
    assert!(!b.contains(OrderId(1)));
    assert_eq!(b.best_maker(Side::Sell).unwrap().id, OrderId(2));
    assert_eq!(b.snapshot(0, SeqNum(1)).asks[0].quantity, Qty(5));
}

#[test]
fn book_cancel_and_unknown() {
    let mut b = OrderBook::with_capacity(8);
    rest(&mut b, 1, Side::Buy, 100, 5);
    assert_eq!(b.cancel(OrderId(1)), Ok(Qty(5)));
    assert!(b.best_bid().is_none());
    assert_eq!(b.cancel(OrderId(1)), Err(EngineError::UnknownOrder(OrderId(1))));
}

#[test]
fn book_reduce_in_place_keeps_level_total() {
    let mut b = OrderBook::with_capacity(8);
    rest(&mut b, 1, Side::Buy, 100, 5);
    rest(&mut b, 2, Side::Buy, 100, 4);
    assert_eq!(b.reduce_in_place(OrderId(1), Qty(2)), Ok(()));
    let s = b.snapshot(0, SeqNum(3));
    assert_eq!(s.bids[0].quantity, Qty(6));
    assert_eq!(b.best_maker(Side::Buy).unwrap().id, OrderId(1));
    assert_eq!(b.reduce_in_place(OrderId(7), Qty(1)), Err(EngineError::UnknownOrder(OrderId(7))));
}

#[test]
fn book_available_against_stops_at_limit() {
    let mut b = OrderBook::with_capacity(8);
    rest(&mut b, 1, Side::Sell, 100, 5);
    rest(&mut b, 2, Side::Sell, 101, 6);
    rest(&mut b, 3, Side::Sell, 103, 7);
    assert_eq!(b.available_against(Side::Buy, Some(Price(101))), Qty(11));
    assert_eq!(b.available_against(Side::Buy, None), Qty(18));
    assert_eq!(b.available_against(Side::Buy, Some(Price(99))), Qty(0));
    assert_eq!(b.available_against(Side::Sell, None), Qty(0));
}

#[test]
fn book_snapshot_depth_caps_levels() {
    let mut b = OrderBook::with_capacity(8);
    rest(&mut b, 1, Side::Buy, 98, 1);
    rest(&mut b, 2, Side::Buy, 100, 2);
    rest(&mut b, 3, Side::Buy, 99, 3);
    rest(&mut b, 4, Side::Buy, 100, 4);
    let s = b.snapshot(2, SeqNum(7));
    assert_eq!(s.bids.len(), 2);
    assert_eq!((s.bids[0].price, s.bids[0].quantity), (Price(100), Qty(6)));
    assert_eq!((s.bids[1].price, s.bids[1].quantity), (Price(99), Qty(3)));
    assert_eq!(s.seq, SeqNum(7));
    assert_eq!(b.snapshot(0, SeqNum(7)).bids.len(), 3);
}

#[test]
fn book_rest_then_cancel_restores() {
    let mut b = OrderBook::with_capacity(8);
    rest(&mut b, 1, Side::Sell, 100, 5);
    rest(&mut b, 2, Side::Buy, 98, 4);
    let before = b.snapshot(0, SeqNum(1));
    let len = b.len();
    rest(&mut b, 3, Side::Sell, 100, 7);
    assert_eq!(b.cancel(OrderId(3)), Ok(Qty(7)));
    assert_eq!(b.snapshot(0, SeqNum(1)), before);
    assert_eq!(b.len(), len);
    assert_eq!(b.best_maker(Side::Sell).unwrap().id, OrderId(1));
    rest(&mut b, 4, Side::Buy, 97, 1);
    assert_eq!(b.cancel(OrderId(4)), Ok(Qty(1)));
    assert_eq!(b.snapshot(0, SeqNum(1)), before);
}
