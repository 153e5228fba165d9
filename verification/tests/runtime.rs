use std::sync::mpsc::sync_channel;

use limitbook::domain::{AccountId, EngineEvent, Order, OrderId, OrderType, Price, Qty, SeqNum, Side};
use limitbook::runtime::{book_changed, on_received, snapshot_due, Received, Step};
use limitbook::sim::{next_mid, random_order, sim_order, walk_mid, START_MID};
use limitbook::{ClosedError, Command, MatchingEngine, RuntimeConfig, StpPolicy, TrySendError};
use rand::rngs::StdRng;
use rand::SeedableRng;

fn limit(id: u64, side: Side, price: u64, qty: u64) -> Order {
    Order {
        id: OrderId(id),
        account: AccountId(id),
        side,
        order_type: OrderType::Limit,
        limit_price: Some(Price(price)),
        stop_price: None,
        quantity: Qty(qty),
        seq: SeqNum(0),
    }
}

fn forwarded(step: Step) -> Vec<EngineEvent> {
    match step {
        Step::Forward(evs) => evs,
        _ => panic!("expected events to forward"),
    }
}

#[test]
fn engine_step_matches_orders_and_forwards_trade() {
    let mut eng = MatchingEngine::with_capacity(64, StpPolicy::CancelNewest);
    let evs = forwarded(on_received(&mut eng, Received::Command(Command::Submit(Box::new(limit(1, Side::Sell, 100, 10))))));
    assert!(book_changed(&evs, evs.len()));
    let evs = forwarded(on_received(&mut eng, Received::Command(Command::Submit(Box::new(limit(2, Side::Buy, 100, 10))))));
    assert!(evs.iter().any(|e| matches!(e, EngineEvent::Trade(_))));
}

#[test]
fn engine_step_replies_to_snapshot_request() {
    let mut eng = MatchingEngine::with_capacity(64, StpPolicy::CancelNewest);
    on_received(&mut eng, Received::Command(Command::Submit(Box::new(limit(1, Side::Buy, 99, 5)))));
    let (tx, rx) = sync_channel(1);
    match on_received(&mut eng, Received::Command(Command::Snapshot { depth: 10, reply: tx })) {
        Step::Reply { reply, snapshot } => reply.send(snapshot).unwrap(),
        _ => panic!("expected a reply"),
    }
    assert_eq!(rx.recv().unwrap().best_bid(), Some(Price(99)));
}

#[test]
fn engine_step_stops_and_idles() {
    let mut eng = MatchingEngine::default();
    assert!(matches!(on_received(&mut eng, Received::Command(Command::Shutdown)), Step::Stop));
    assert!(matches!(on_received(&mut eng, Received::Disconnected), Step::Stop));
    assert!(matches!(on_received(&mut eng, Received::Timeout), Step::Idle));
}

#[test]
fn failed_cancel_and_amend_forward_nothing() {
    let mut eng = MatchingEngine::default();
    assert!(forwarded(on_received(&mut eng, Received::Command(Command::Cancel(OrderId(3))))).is_empty());
    let amend = Command::Amend { id: OrderId(3), quantity: Qty(1), price: None };
    assert!(forwarded(on_received(&mut eng, Received::Command(amend))).is_empty());
    on_received(&mut eng, Received::Command(Command::Submit(Box::new(limit(3, Side::Buy, 99, 5)))));
    let evs = forwarded(on_received(&mut eng, Received::Command(Command::Cancel(OrderId(3)))));
    assert_eq!(evs, vec![EngineEvent::OrderCanceled { id: OrderId(3), remaining: Qty(5) }, EngineEvent::BookUpdated]);
}

#[test]
fn book_change_counts_only_attempted_events() {
    let evs = vec![
        EngineEvent::OrderAccepted { id: OrderId(1) },
        EngineEvent::BookUpdated,
    ];
    assert!(!book_changed(&evs, 1));
    assert!(book_changed(&evs, 2));
    assert!(book_changed(&evs, 9));
    assert!(!book_changed(&[], 3));
}

#[test]
fn snapshot_is_due_only_when_dirty_and_a_frame_passed() {
    assert!(snapshot_due(true, true));
    assert!(!snapshot_due(true, false));
    assert!(!snapshot_due(false, true));
}

#[test]
fn runtime_defaults_and_errors() {
    let c = RuntimeConfig::default();
    assert_eq!(c.book_capacity, 4096);
    assert_eq!(c.command_capacity, 65_536);
    assert_eq!(c.output_capacity, 65_536);
    assert_eq!(c.snapshot_depth, 25);
    assert_eq!(c.stp, StpPolicy::CancelNewest);
    assert_eq!(c.frame, std::time::Duration::from_millis(16));
    assert_eq!(ClosedError.to_string(), "engine command channel is closed");
    assert_ne!(TrySendError::Full, TrySendError::Closed);
}

#[test]
fn simulated_orders_stay_in_their_bands() {
    let mut rng = StdRng::seed_from_u64(0xC0FFEE);
    let mut mid = START_MID;
    for id in 1..2000u64 {
        let m = next_mid(&mut rng, mid);
        assert!((m - mid).abs() <= 2 && (1_000..=100_000).contains(&m));
        mid = m;
        let o = random_order(&mut rng, mid, id);
        let p = o.limit_price.unwrap().get() as i64;
        match o.side {
            Side::Buy => assert!(mid - 3 <= p && p <= mid + 4),
            Side::Sell => assert!(mid - 4 <= p && p <= mid + 3),
        }
        assert!((1..=20).contains(&o.quantity.get()));
        assert!((1..=8).contains(&o.account.get()));
        assert_eq!(o.id, OrderId(id));
    }
    assert_eq!(next_mid(&mut rng, 999), 1_000);
    assert_eq!(next_mid(&mut rng, 100_003), 100_000);
}

#[test]
fn simulated_order_from_its_draws() {
    let o = sim_order(9, 10_000, true, 4, 7, 2);
    assert_eq!(o.side, Side::Buy);
    assert_eq!(o.limit_price, Some(Price(10_004)));
    assert_eq!(o.quantity, Qty(7));
    assert_eq!(o.account, AccountId(3));
    assert_eq!(o.id, OrderId(9));
    let o = sim_order(9, 2, false, -4, 1, 0);
    assert_eq!((o.side, o.limit_price, o.account), (Side::Sell, Some(Price(1)), AccountId(1)));
    assert_eq!(walk_mid(10_000, -2), 9_998);
    assert_eq!(walk_mid(1_001, -2), 1_000);
    assert_eq!(walk_mid(99_999, 2), 100_000);
}

#[test]
fn dirty_flag_stays_or_turns_on() {
    let evs = vec![EngineEvent::OrderAccepted { id: OrderId(1) }, EngineEvent::BookUpdated];
    assert!(limitbook::runtime::still_dirty(true, &evs, 0));
    assert!(!limitbook::runtime::still_dirty(false, &evs, 1));
    assert!(limitbook::runtime::still_dirty(false, &evs, 2));
}
