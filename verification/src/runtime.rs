//! The single-writer runtime's decisions. One thread owns the [`MatchingEngine`]; commands reach
//! it over a bounded channel and its events and coalesced book snapshots leave over another.
//! The waiting, the channels and the clock belong to the caller: this module says what the
//! engine thread does with each thing it receives, which events change the book, and when a
//! coalesced snapshot is due.
use std::sync::mpsc::SyncSender;
use std::time::Duration;

use vstd::prelude::*;

use crate::domain::{BookSnapshot, EngineEvent, Order, OrderId, Price, Qty, Side, StpPolicy};
use crate::engine::rules;
use crate::engine::rules::EngineModel;
use crate::engine::engine::last_seq;
use crate::engine::MatchingEngine;

verus! {

/// The sending half of a bounded std channel; the engine thread only hands it back to the
/// caller, who sends on it.
#[verifier::external_type_specification]
#[verifier::external_body]
#[verifier::reject_recursive_types(T)]
pub struct ExSyncSender<T>(SyncSender<T>);

/// A command sent to the engine thread.
#[derive(Debug)]
pub enum Command {
    Submit(Box<Order>),
    Cancel(OrderId),
    Amend { id: OrderId, quantity: Qty, price: Option<Price> },
    /// Request an immediate snapshot, delivered on the reply channel.
    Snapshot { depth: usize, reply: SyncSender<BookSnapshot> },
    Shutdown,
}

/// A message emitted by the engine thread to consumers.
#[derive(Debug, Clone)]
pub enum EngineMsg {
    Event(EngineEvent),
    Book(BookSnapshot),
}

/// Configuration of the engine thread.
#[derive(Debug)]
pub struct RuntimeConfig {
    pub book_capacity: usize,
    pub stp: StpPolicy,
    pub command_capacity: usize,
    pub output_capacity: usize,
    pub snapshot_depth: usize,
    pub frame: Duration,
}

/// The default snapshot cadence, in milliseconds (about 60 frames a second).
pub const DEFAULT_FRAME_MS: u64 = 16;

/// A span of `ms` milliseconds.
///
/// Calls std's `Duration::from_millis`. Verus holds a `Duration` as an opaque value, so nothing
/// is stated of the result.
#[verifier::external_body]
fn millis(ms: u64) -> Duration {
    Duration::from_millis(ms)
}

impl Default for RuntimeConfig {
    /// A book pre-sized for 4096 orders, cancel-newest self-trade prevention, command and output
    /// queues of 65536, snapshots 25 levels deep every 16 ms.
    fn default() -> (r: Self)
        ensures
            r.book_capacity == 4096,
            r.stp == StpPolicy::CancelNewest,
            r.command_capacity == 65_536,
            r.output_capacity == 65_536,
            r.snapshot_depth == 25,
    {
        RuntimeConfig {
            book_capacity: 4096,
            stp: StpPolicy::default(),
            command_capacity: 65_536,
            output_capacity: 65_536,
            snapshot_depth: 25,
            frame: millis(DEFAULT_FRAME_MS),
        }
    }
}

/// The command channel is closed (the engine thread is gone).
#[derive(Debug, Clone, Copy, PartialEq, Eq, Structural)]
pub struct ClosedError;

impl ClosedError {
    /// The human-readable message of this error.
    pub fn to_string(&self) -> (s: String)
        ensures
            s@ == "engine command channel is closed"@,
    {
        String::from_str("engine command channel is closed")
    }
}

/// A non-blocking send failed.
#[derive(Debug, Clone, Copy, PartialEq, Eq, Structural)]
pub enum TrySendError {
    /// The bounded command queue is full: apply backpressure and retry.
    Full,
    /// The engine thread is gone.
    Closed,
}

/// What the engine thread got from one wait on its command channel.
pub enum Received {
    Command(Command),
    /// The frame interval passed with no command.
    Timeout,
    /// Every sender is gone.
    Disconnected,
}

/// What the engine thread does next.
pub enum Step {
    /// Leave the loop.
    Stop,
    /// Send `snapshot` on `reply`.
    Reply { reply: SyncSender<BookSnapshot>, snapshot: BookSnapshot },
    /// Forward these events, in order, to the output channel.
    Forward(Vec<EngineEvent>),
    /// Nothing to send.
    Idle,
}

/// The state after a mutating command and the events it forwards: those of a submit; those of
/// a cancel or amend that succeeded; nothing for one that failed (its error is dropped, as the
/// caller of an asynchronous command never sees it).
pub open spec fn applied(e: EngineModel, cmd: Command) -> (EngineModel, Seq<EngineEvent>) {
    match cmd {
        Command::Submit(o) => (rules::submit(e, *o), rules::submit(e, *o).events),
        Command::Cancel(id) => match rules::cancel(e, id) {
            Ok(r) => (r, r.events),
            Err(_) => (e.cleared(), Seq::empty()),
        },
        Command::Amend { id, quantity, price } => match rules::amend(e, id, quantity, price) {
            Ok(r) => (r, r.events),
            Err(_) => (e.cleared(), Seq::empty()),
        },
        _ => (e, Seq::empty()),
    }
}

/// Copy a run of events out of the engine's buffer.
fn copy_events(evs: &[EngineEvent]) -> (r: Vec<EngineEvent>)
    ensures
        r@ == evs@,
{
    let mut out: Vec<EngineEvent> = Vec::new();
    let mut i: usize = 0;
    while i < evs.len()
        invariant
            0 <= i <= evs@.len(),
            out@ == evs@.subrange(0, i as int),
        decreases evs@.len() - i,
    {
        out.push(evs[i]);
        i = i + 1;
        proof {
            assert(out@ =~= evs@.subrange(0, i as int));
        }
    }
    proof {
        assert(evs@.subrange(0, evs@.len() as int) =~= evs@);
    }
    out
}

/// Apply one mutating command to the engine and return the events to forward.
pub fn apply(engine: &mut MatchingEngine, cmd: Command) -> (r: Vec<EngineEvent>)
    requires
        old(engine).wf(),
    ensures
        final(engine).wf(),
        (final(engine)@, r@) == applied(old(engine)@, cmd),
{
    match cmd {
        Command::Submit(order) => {
            let evs = engine.submit(*order);
            copy_events(evs)
        },
        Command::Cancel(id) => match engine.cancel(id) {
            Ok(evs) => copy_events(evs),
            Err(_) => Vec::new(),
        },
        Command::Amend { id, quantity, price } => match engine.amend(id, quantity, price) {
            Ok(evs) => copy_events(evs),
            Err(_) => Vec::new(),
        },
        Command::Snapshot { .. } | Command::Shutdown => Vec::new(),
    }
}

/// What the engine thread does with what it received: stop on a shutdown or a closed channel,
/// answer a snapshot request with a snapshot of the book, apply any other command and forward
/// its events, and do nothing on a timeout.
pub fn on_received(engine: &mut MatchingEngine, received: Received) -> (r: Step)
    requires
        old(engine).wf(),
    ensures
        final(engine).wf(),
        match received {
            Received::Timeout => r is Idle && final(engine)@ == old(engine)@,
            Received::Disconnected => r is Stop && final(engine)@ == old(engine)@,
            Received::Command(Command::Shutdown) => r is Stop && final(engine)@ == old(engine)@,
            Received::Command(Command::Snapshot { depth, reply }) => final(engine)@ == old(engine)@
                && match r {
                Step::Reply { reply: to, snapshot } => {
                    &&& to == reply
                    &&& snapshot.bids@ == old(engine)@.book.depth_levels(Side::Buy, depth)
                    &&& snapshot.asks@ == old(engine)@.book.depth_levels(Side::Sell, depth)
                    &&& snapshot.seq.0 == last_seq(old(engine)@.seq)
                },
                _ => false,
            },
            Received::Command(cmd) => match r {
                Step::Forward(evs) => (final(engine)@, evs@) == applied(old(engine)@, cmd),
                _ => false,
            },
        },
{
    match received {
        Received::Timeout => Step::Idle,
        Received::Disconnected => Step::Stop,
        Received::Command(Command::Shutdown) => Step::Stop,
        Received::Command(Command::Snapshot { depth, reply }) => {
            let snapshot = engine.snapshot(depth);
            Step::Reply { reply, snapshot }
        },
        Received::Command(cmd) => Step::Forward(apply(engine, cmd)),
    }
}

/// Whether a book update is among the first `attempted` events. Forwarding stops at the first
/// send that fails, so the book counts as changed by the events up to and including that one.
pub fn book_changed(evs: &[EngineEvent], attempted: usize) -> (r: bool)
    ensures
        r == exists|i: int| 0 <= i < evs@.len() && i < attempted && #[trigger] evs@[i] is BookUpdated,
{
    let mut i: usize = 0;
    while i < evs.len() && i < attempted
        invariant
            0 <= i <= evs@.len(),
            i <= attempted,
            forall|j: int| 0 <= j < i ==> !(#[trigger] evs@[j] is BookUpdated),
        decreases evs@.len() - i,
    {
        if let EngineEvent::BookUpdated = evs[i] {
            return true;
        }
        i = i + 1;
    }
    false
}

/// Whether the book has changed since the last coalesced snapshot, after forwarding the first
/// `attempted` of `evs`: it had already, or a book update was among them.
pub fn still_dirty(dirty: bool, evs: &[EngineEvent], attempted: usize) -> (r: bool)
    ensures
        r == (dirty || exists|i: int| 0 <= i < evs@.len() && i < attempted && #[trigger] evs@[i] is BookUpdated),
{
    let changed = book_changed(evs, attempted);
    dirty || changed
}

/// A coalesced snapshot is due when the book changed since the last one and a frame has passed.
pub fn snapshot_due(dirty: bool, frame_elapsed: bool) -> (r: bool)
    ensures
        r == (dirty && frame_elapsed),
{
    dirty && frame_elapsed
}

} // verus!
