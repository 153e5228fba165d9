use limitbook::domain::{
    AccountId, BookLevel, BookSnapshot, EngineEvent, OrderId, OrderType, Price, Qty, RejectReason, SeqNum, Side,
    Trade,
};
use limitbook::feed::{book_gauges, event_metric, outbound, EventMetric, Outbound, RecentTrades, RECENT_TRADES_CAP};
use limitbook::sim::{batch_size, clamp_rate, SimStartRequest};
use limitbook::wire::{AmendRequest, LevelDto, NewOrderRequest, OrderAck, ServerMessage};
use limitbook::EngineMsg;

fn req(order_type: OrderType, price: Option<u64>, stop_price: Option<u64>, quantity: u64) -> NewOrderRequest {
    NewOrderRequest { side: Side::Buy, order_type, price, stop_price, quantity, account: None }
}

fn fields(errs: &[limitbook::wire::FieldError]) -> Vec<(&'static str, &'static str)> {
    errs.iter().map(|e| (e.field, e.message)).collect()
}

#[test]
fn valid_request_becomes_an_order() {
    let o = req(OrderType::Limit, Some(10_000), None, 5).into_order(9).unwrap();
    assert_eq!(o.id, OrderId(9));
    assert_eq!(o.account, AccountId(0));
    assert_eq!(o.limit_price, Some(Price(10_000)));
    assert_eq!(o.stop_price, None);
    assert_eq!(o.quantity, Qty(5));
    assert_eq!(o.seq, SeqNum(0));
    let mut r = req(OrderType::Market, None, None, 1);
    r.account = Some(42);
    assert_eq!(r.into_order(1).unwrap().account, AccountId(42));
}

#[test]
fn limit_request_without_price_is_refused() {
    let errs = req(OrderType::Limit, None, None, 5).into_order(1).unwrap_err();
    assert_eq!(fields(&errs), vec![("price", "required for this order type")]);
}

#[test]
fn zero_quantity_request_is_refused() {
    let errs = req(OrderType::Market, None, None, 0).into_order(1).unwrap_err();
    assert_eq!(fields(&errs), vec![("quantity", "must be greater than zero")]);
}

#[test]
fn every_field_error_is_reported() {
    let errs = req(OrderType::StopLimit, None, None, 0).into_order(1).unwrap_err();
    assert_eq!(
        fields(&errs),
        vec![
            ("quantity", "must be greater than zero"),
            ("price", "required for this order type"),
            ("stop_price", "required for stop orders"),
        ]
    );
    let errs = req(OrderType::Stop, Some(5), None, 3).into_order(1).unwrap_err();
    assert_eq!(fields(&errs), vec![("stop_price", "required for stop orders")]);
}

#[test]
fn amend_request_needs_positive_quantity() {
    let errs = AmendRequest { quantity: 0, price: Some(3) }.into_amend().unwrap_err();
    assert_eq!(fields(&errs), vec![("quantity", "must be greater than zero")]);
    assert_eq!(AmendRequest { quantity: 4, price: Some(3) }.into_amend().unwrap(), (Qty(4), Some(Price(3))));
    assert_eq!(AmendRequest { quantity: 4, price: None }.into_amend().unwrap(), (Qty(4), None));
}

#[test]
fn book_message_from_snapshot() {
    let snap = BookSnapshot {
        bids: vec![BookLevel { price: Price(100), quantity: Qty(5) }],
        asks: vec![BookLevel { price: Price(103), quantity: Qty(2) }, BookLevel { price: Price(104), quantity: Qty(1) }],
        seq: SeqNum(12),
    };
    let m = ServerMessage::from_snapshot(&snap);
    assert_eq!(
        m,
        ServerMessage::Book {
            bids: vec![LevelDto { price: 100, quantity: 5 }],
            asks: vec![LevelDto { price: 103, quantity: 2 }, LevelDto { price: 104, quantity: 1 }],
            seq: 12,
            best_bid: Some(100),
            best_ask: Some(103),
            spread: Some(3),
        }
    );
}

#[test]
fn event_messages() {
    let t = Trade {
        seq: SeqNum(3),
        taker_order: OrderId(2),
        maker_order: OrderId(1),
        price: Price(100),
        quantity: Qty(4),
        taker_side: Side::Sell,
    };
    assert_eq!(
        ServerMessage::from_event(&EngineEvent::Trade(t)),
        Some(ServerMessage::Trade { seq: 3, price: 100, quantity: 4, taker_side: Side::Sell, taker_order: 2, maker_order: 1 })
    );
    assert_eq!(
        ServerMessage::from_event(&EngineEvent::OrderRejected { id: OrderId(8), reason: RejectReason::FillOrKillUnfillable }),
        Some(ServerMessage::OrderRejected { id: 8, reason: "FillOrKillUnfillable".to_string() })
    );
    assert_eq!(
        ServerMessage::from_event(&EngineEvent::OrderAmended {
            id: OrderId(4),
            new_quantity: Qty(2),
            new_price: Some(Price(7)),
            repriced: true
        }),
        Some(ServerMessage::OrderAmended { id: 4, quantity: 2, price: Some(7), repriced: true })
    );
    assert_eq!(
        ServerMessage::from_event(&EngineEvent::OrderCanceled { id: OrderId(4), remaining: Qty(6) }),
        Some(ServerMessage::OrderCanceled { id: 4, remaining: 6 })
    );
    assert_eq!(
        ServerMessage::from_event(&EngineEvent::OrderAccepted { id: OrderId(4) }),
        Some(ServerMessage::OrderAccepted { id: 4 })
    );
    assert_eq!(ServerMessage::from_event(&EngineEvent::BookUpdated), None);
    let ack = OrderAck { id: 1, accepted: true };
    assert!(ack.accepted);
}

#[test]
fn outbound_routes_messages() {
    let t = Trade {
        seq: SeqNum(3),
        taker_order: OrderId(2),
        maker_order: OrderId(1),
        price: Price(100),
        quantity: Qty(4),
        taker_side: Side::Buy,
    };
    assert!(matches!(outbound(&EngineMsg::Event(EngineEvent::Trade(t))), Outbound::Trade(ServerMessage::Trade { .. })));
    assert!(matches!(
        outbound(&EngineMsg::Event(EngineEvent::OrderAccepted { id: OrderId(1) })),
        Outbound::Other(ServerMessage::OrderAccepted { id: 1 })
    ));
    assert!(matches!(outbound(&EngineMsg::Event(EngineEvent::BookUpdated)), Outbound::Nothing));
    assert!(matches!(outbound(&EngineMsg::Book(BookSnapshot::default())), Outbound::Book(ServerMessage::Book { .. })));
}

#[test]
fn recent_trades_keep_the_last_two_hundred() {
    let mut r = RecentTrades::new();
    for i in 0..(RECENT_TRADES_CAP as u64 + 5) {
        r.push(ServerMessage::OrderAccepted { id: i });
    }
    assert_eq!(r.len(), RECENT_TRADES_CAP);
    assert_eq!(*r.get(0), ServerMessage::OrderAccepted { id: 5 });
    assert_eq!(*r.get(RECENT_TRADES_CAP - 1), ServerMessage::OrderAccepted { id: RECENT_TRADES_CAP as u64 + 4 });
}

#[test]
fn metrics_of_events_and_books() {
    let t = Trade {
        seq: SeqNum(3),
        taker_order: OrderId(2),
        maker_order: OrderId(1),
        price: Price(100),
        quantity: Qty(4),
        taker_side: Side::Buy,
    };
    assert_eq!(event_metric(&EngineEvent::Trade(t)), Some(EventMetric::Trade { quantity: 4 }));
    assert_eq!(event_metric(&EngineEvent::OrderAccepted { id: OrderId(1) }), Some(EventMetric::Accepted));
    assert_eq!(event_metric(&EngineEvent::BookUpdated), None);
    let snap = BookSnapshot {
        bids: vec![BookLevel { price: Price(99), quantity: Qty(5) }, BookLevel { price: Price(98), quantity: Qty(6) }],
        asks: vec![BookLevel { price: Price(101), quantity: Qty(7) }],
        seq: SeqNum(1),
    };
    let g = book_gauges(&snap).unwrap();
    assert_eq!((g.bid_depth, g.ask_depth, g.spread, g.best_bid, g.best_ask), (11, 7, Some(2), Some(99), Some(101)));
    let big = BookSnapshot {
        bids: vec![BookLevel { price: Price(2), quantity: Qty(u64::MAX) }, BookLevel { price: Price(1), quantity: Qty(1) }],
        asks: vec![],
        seq: SeqNum(1),
    };
    assert!(book_gauges(&big).is_none());
}

#[test]
fn simulator_rate_and_batch() {
    assert_eq!(clamp_rate(0), 1);
    assert_eq!(clamp_rate(500), 500);
    assert_eq!(clamp_rate(5_000_000), 1_000_000);
    assert_eq!(SimStartRequest { rate: Some(500) }.rate_after(200), 500);
    assert_eq!(SimStartRequest { rate: None }.rate_after(200), 200);
    assert_eq!(batch_size(200), 2);
    assert_eq!(batch_size(0), 1);
    assert_eq!(batch_size(50), 1);
    assert_eq!(batch_size(1_000_000), 10_000);
}
