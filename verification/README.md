# LimitBook

A price-time-priority order-matching engine with a verified core. The engine accepts buy and
sell orders (limit, market, immediate-or-cancel, fill-or-kill, post-only, stop and stop-limit),
matches them best price first and oldest first within a price, prints every trade at the resting
maker's price, applies self-trade prevention (cancel-newest, cancel-oldest, decrement-both), and
supports cancel and amend. Prices are integer ticks.

## Layout

- `src/` — the library, verified with Verus.
  - `domain/` — identifiers, orders, events, errors, trades and level-2 snapshots.
  - `matcher.rs` — when a price crosses and when a stop fires.
  - `book/` — the order book: an arena of order nodes linked into FIFO queues per price level,
    ordered maps of levels per side, and an index by id; `model.rs` is the abstract book every
    operation is stated over, `links.rs` and `walk.rs` hold the proofs that tie the concrete
    structure to it.
  - `engine/` — the matching engine (`engine.rs`), the matching rules as spec functions
    (`rules.rs`), and the laws proved of them (`laws.rs`): the book never crosses, trades are
    positive, fills never exceed the order, fills walk the book outward, and more.
  - `runtime.rs` — what the single engine thread does with each command it receives.
  - `wire.rs`, `feed.rs`, `sim.rs` — the gateway's validation and wire messages, the routing of
    the engine's output and its metrics, and the order-flow simulator's rules.
- `tests/` — behaviour tests of the library.
- `app/` — the program around it: the engine thread and its channels, the HTTP and WebSocket
  gateway (axum), Prometheus metrics and the simulator task.
