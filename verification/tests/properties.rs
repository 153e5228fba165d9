use limitbook::domain::{AccountId, EngineEvent, Order, OrderId, OrderType, Price, Qty, SeqNum, Side};
use limitbook::MatchingEngine;

#[derive(Debug, Clone, Copy)]
enum Cmd {
    Submit { side: Side, price: u64, qty: u64 },
    Cancel { which: usize },
}

fn limit_acct(id: u64, acct: u64, side: Side, price: u64, qty: u64) -> Order {
    Order {
        id: OrderId(id),
        account: AccountId(acct),
        side,
        order_type: OrderType::Limit,
        limit_price: Some(Price(price)),
        stop_price: None,
        quantity: Qty(qty),
        seq: SeqNum(0),
    }
}

/// A deterministic command stream from a simple linear congruential generator.
fn commands(seed: u64, n: usize) -> Vec<Cmd> {
    let mut x = seed;
    let mut next = move || {
        x = x.wrapping_mul(6364136223846793005).wrapping_add(1442695040888963407);
        x >> 33
    };
    (0..n)
        .map(|_| {
            if next() % 5 == 0 {
                Cmd::Cancel { which: (next() % 32) as usize }
            } else {
                let side = if next() % 2 == 0 { Side::Buy } else { Side::Sell };
                Cmd::Submit { side, price: 95 + next() % 11, qty: 1 + next() % 20 }
            }
        })
        .collect()
}

fn run_with(cmds: &[Cmd], accounts: u64, check: &mut dyn FnMut(&MatchingEngine, &[EngineEvent])) -> Vec<EngineEvent> {
    let mut eng = MatchingEngine::default();
    let mut all = Vec::new();
    let mut ids: Vec<u64> = Vec::new();
    let mut next_id = 1u64;
    for cmd in cmds {
        match *cmd {
            Cmd::Submit { side, price, qty } => {
                let id = next_id;
                next_id += 1;
                let evs = eng.submit(limit_acct(id, 1 + id % accounts, side, price, qty)).to_vec();
                check(&eng, &evs);
                all.extend(evs);
                ids.push(id);
            }
            Cmd::Cancel { which } => {
                if !ids.is_empty() {
                    if let Ok(evs) = eng.cancel(OrderId(ids[which % ids.len()])) {
                        let evs = evs.to_vec();
                        check(&eng, &evs);
                        all.extend(evs);
                    }
                }
            }
        }
    }
    all
}

/// Every order from account 1, as a single trader would send them.
fn run(cmds: &[Cmd], check: &mut dyn FnMut(&MatchingEngine, &[EngineEvent])) -> Vec<EngineEvent> {
    run_with(cmds, 1, check)
}

fn assert_uncrossed(eng: &MatchingEngine) {
    if let (Some(bid), Some(ask)) = (eng.best_bid(), eng.best_ask()) {
        assert!(bid < ask, "book crossed: bid {bid:?} >= ask {ask:?}");
    }
}

#[test]
fn book_never_crosses_across_accounts() {
    for seed in 300..340u64 {
        let evs = run_with(&commands(seed, 60), 3, &mut |eng, _| assert_uncrossed(eng));
        for e in evs {
            if let EngineEvent::Trade(t) = e {
                assert!(t.quantity.get() > 0);
            }
        }
    }
}

#[test]
fn book_never_crosses() {
    for seed in 0..40u64 {
        run(&commands(seed, 60), &mut |eng, _| assert_uncrossed(eng));
    }
}

#[test]
fn no_trade_has_zero_quantity() {
    for seed in 100..140u64 {
        for e in run(&commands(seed, 60), &mut |_, _| {}) {
            if let EngineEvent::Trade(t) = e {
                assert!(t.quantity.get() > 0);
            }
        }
    }
}

#[test]
fn aggressor_fills_never_exceed_submitted() {
    for maker_qty in 1u64..50 {
        for taker_qty in 1u64..50 {
            let mut eng = MatchingEngine::default();
            eng.submit(limit_acct(1, 1, Side::Sell, 100, maker_qty));
            let evs: Vec<_> = eng.submit(limit_acct(2, 2, Side::Buy, 100, taker_qty)).to_vec();
            let filled: u64 = evs
                .iter()
                .filter_map(|e| match e {
                    EngineEvent::Trade(t) => Some(t.quantity.get()),
                    _ => None,
                })
                .sum();
            assert_eq!(filled, maker_qty.min(taker_qty));
            assert!(filled <= taker_qty);
            let resting_bid = eng.snapshot(0).bids.iter().map(|l| l.quantity.get()).sum::<u64>();
            let resting_ask = eng.snapshot(0).asks.iter().map(|l| l.quantity.get()).sum::<u64>();
            assert_eq!(resting_bid + resting_ask, taker_qty.max(maker_qty) - filled);
        }
    }
}

#[test]
fn matching_is_deterministic() {
    for seed in 200..230u64 {
        let cmds = commands(seed, 60);
        let mut snap_a = None;
        let mut snap_b = None;
        let a = run(&cmds, &mut |eng, _| snap_a = Some(eng.snapshot(0)));
        let b = run(&cmds, &mut |eng, _| snap_b = Some(eng.snapshot(0)));
        assert_eq!(a, b);
        assert_eq!(snap_a, snap_b);
    }
}
