//! The engine as a state machine over mathematical values: the state, and
//! what each event makes of it.
use vstd::prelude::*;

use crate::ids::NodeId;
use crate::ids::Operation;
use crate::ids::OperationId;
use crate::registry::announced;
use crate::registry::fan_out_batches;
use crate::registry::first_peers;
use crate::registry::forgot;
use crate::registry::learned;
use crate::registry::registered;
use crate::registry::Peers;

verus! {

/// The last ask for an operation.
pub struct AskRecord {
    /// End of the cooling window: the time of the ask plus the period.
    pub until: int,
    /// The peers the operation was asked from at that time.
    pub peers: Seq<NodeId>,
}

/// An announcement put aside until the cooling window has passed.
pub struct Deferred {
    /// The time from which the record is due.
    pub ready_at: int,
    /// The peer that made the announcement.
    pub source: NodeId,
    /// The announced operations that were in their cooling window.
    pub ops: Set<OperationId>,
}

/// What the engine does with one announced operation.
pub enum Verdict {
    /// Nothing: the node has it, or has asked this peer for it already.
    Skip,
    /// Look at it again later: it is in its cooling window.
    Defer,
    /// Ask the announcing peer for it.
    Ask,
}

/// An event that the engine handles.
pub enum Event {
    /// Peer `from` announced `batch`, at time `now`.
    Batch { batch: Set<OperationId>, from: NodeId, now: int },
    /// Peer `from` delivered `ops`.
    Delivery { from: NodeId, ops: Map<OperationId, Operation> },
    /// Peer `from` asked for `op_ids`.
    Ask { from: NodeId, op_ids: Set<OperationId> },
    /// The timer of deferred announcements fired, at time `now`.
    SendLoop { now: int },
    /// The timer that ends the memory of past asks fired.
    Prune,
    /// Peer `id` joined.
    Register { id: NodeId },
    /// The payload of operation `op` was handed to the store.
    Record { op: OperationId, payload: Operation },
}

/// The state of the engine.
pub struct State {
    /// The peer registry.
    pub peers: Peers,
    /// The last ask for each operation that was asked for.
    pub asked: Map<OperationId, AskRecord>,
    /// The operations the node has.
    pub received: Map<OperationId, Operation>,
    /// The deferred announcements, oldest first.
    pub buffer: Seq<Deferred>,
    /// Largest batch, in operations.
    pub max_batch_size: nat,
    /// Length of the cooling window, in milliseconds.
    pub period: nat,
    /// Most records the buffer holds.
    pub capacity: nat,
    /// Announcements queued for sending, oldest first.
    pub batches_sent: Seq<(NodeId, Set<OperationId>)>,
    /// Asks queued for sending, oldest first.
    pub asks_sent: Seq<(NodeId, Set<OperationId>)>,
    /// Answers queued for sending, oldest first.
    pub operations_sent: Seq<(NodeId, Map<OperationId, Operation>)>,
}

/// What the engine does with operation `op`, announced by peer `from` at
/// time `now`.
pub open spec fn verdict(
    received: Map<OperationId, Operation>,
    asked: Map<OperationId, AskRecord>,
    op: OperationId,
    from: NodeId,
    now: int,
) -> Verdict {
    if received.contains_key(op) {
        Verdict::Skip
    } else if asked.contains_key(op) && asked[op].peers.contains(from) {
        Verdict::Skip
    } else if asked.contains_key(op) && asked[op].until > now {
        Verdict::Defer
    } else {
        Verdict::Ask
    }
}

/// The ask table once `asks` have been asked from peer `from`, with the
/// cooling window ending at `until`.
pub open spec fn asked_after(
    asked: Map<OperationId, AskRecord>,
    asks: Set<OperationId>,
    from: NodeId,
    until: int,
) -> Map<OperationId, AskRecord> {
    Map::new(
        |op: OperationId| asked.contains_key(op) || asks.contains(op),
        |op: OperationId|
            if asks.contains(op) {
                AskRecord { until, peers: seq![from] }
            } else {
                asked[op]
            },
    )
}

impl State {
    /// The state of an engine that was just made, with peers `0` to
    /// `peer_count - 1` registered.
    pub open spec fn initial(peer_count: nat, max_batch_size: nat, period: nat, capacity: nat) -> State {
        State {
            peers: first_peers(peer_count),
            asked: Map::empty(),
            received: Map::empty(),
            buffer: Seq::empty(),
            max_batch_size,
            period,
            capacity,
            batches_sent: Seq::empty(),
            asks_sent: Seq::empty(),
            operations_sent: Seq::empty(),
        }
    }

    /// The operations of `batch` that are asked from `from` at once.
    pub open spec fn ask_set(self, batch: Set<OperationId>, from: NodeId, now: int) -> Set<
        OperationId,
    > {
        batch.filter(|op: OperationId| verdict(self.received, self.asked, op, from, now) is Ask)
    }

    /// The operations of `batch` that are put aside.
    pub open spec fn future_set(self, batch: Set<OperationId>, from: NodeId, now: int) -> Set<
        OperationId,
    > {
        batch.filter(|op: OperationId| verdict(self.received, self.asked, op, from, now) is Defer)
    }

    /// The state after peer `from` announced `batch` at time `now`.
    ///
    /// The operations to ask for are recorded as asked from `from`, with a
    /// cooling window that ends one period after `now`. The operations in
    /// their cooling window are appended to the buffer as one record, due
    /// at that same time, unless the buffer is full; then they are dropped.
    /// One ask to `from` is queued if there is anything to ask for.
    pub open spec fn batch_received(self, batch: Set<OperationId>, from: NodeId, now: int) -> State {
        let asks = self.ask_set(batch, from, now);
        let later = self.future_set(batch, from, now);
        let until = now + self.period;
        State {
            asked: asked_after(self.asked, asks, from, until),
            buffer: if self.buffer.len() < self.capacity {
                self.buffer.push(Deferred { ready_at: until, source: from, ops: later })
            } else {
                self.buffer
            },
            asks_sent: if asks.is_empty() {
                self.asks_sent
            } else {
                self.asks_sent.push((from, asks))
            },
            ..self
        }
    }

    /// The state after peer `from` delivered `ops`.
    ///
    /// The payloads are stored; a delivered payload takes the place of one
    /// that the node held for the same operation. `from` is recorded as
    /// knowing the operations, and then every peer is told of them.
    pub open spec fn operation_received(self, from: NodeId, ops: Map<OperationId, Operation>) -> State {
        let taught = learned(self.peers, from, ops.dom());
        State {
            received: self.received.union_prefer_right(ops),
            peers: announced(taught, ops.dom()),
            batches_sent: self.batches_sent + fan_out_batches(taught, ops.dom()),
            ..self
        }
    }

    /// The answer to an ask for `op_ids`: the payloads the node has.
    pub open spec fn answer(self, op_ids: Set<OperationId>) -> Map<OperationId, Operation> {
        self.received.restrict(op_ids)
    }

    /// The state after peer `from` asked for `op_ids`.
    ///
    /// A peer that asks for an operation does not have it, so `from` is
    /// no longer believed to know any of `op_ids`. The answer is queued,
    /// even when it is empty.
    pub open spec fn ask_received(self, from: NodeId, op_ids: Set<OperationId>) -> State {
        State {
            peers: forgot(self.peers, from, op_ids),
            operations_sent: self.operations_sent.push((from, self.answer(op_ids))),
            ..self
        }
    }

    /// The state after the asks of the past are forgotten.
    pub open spec fn pruned(self) -> State {
        State { asked: Map::empty(), ..self }
    }

    /// Whether the oldest deferred record is due at time `now`.
    pub open spec fn head_is_due(self, now: int) -> bool {
        self.buffer.len() > 0 && self.buffer[0].ready_at <= now
    }

    /// The state after the oldest deferred record is taken off the buffer
    /// and looked at again, at time `now`.
    pub open spec fn head_replayed(self, now: int) -> State
        recommends
            self.buffer.len() > 0,
    {
        State { buffer: self.buffer.drop_first(), ..self }.batch_received(
            self.buffer[0].ops,
            self.buffer[0].source,
            now,
        )
    }

    /// The state after the timer of deferred announcements fired at time
    /// `now`: the records that are in the buffer are replayed, oldest
    /// first, up to the first that is not due; what the replay defers
    /// anew waits for the next time.
    pub open spec fn send_loop_fired(self, now: int) -> State {
        self.send_loop(now, self.buffer.len())
    }

    /// The state after peer `id` joined: an unknown peer gets an empty
    /// entry, a known one keeps its own.
    pub open spec fn peer_registered(self, id: NodeId) -> State {
        State { peers: registered(self.peers, id), ..self }
    }

    /// The state after the payload of operation `op` was handed to the
    /// store: it is stored, unless the node has the operation already.
    pub open spec fn recorded(self, op: OperationId, payload: Operation) -> State {
        if self.received.contains_key(op) {
            self
        } else {
            State { received: self.received.insert(op, payload), ..self }
        }
    }

    /// The state after event `event`.
    pub open spec fn step(self, event: Event) -> State {
        match event {
            Event::Batch { batch, from, now } => self.batch_received(batch, from, now),
            Event::Delivery { from, ops } => self.operation_received(from, ops),
            Event::Ask { from, op_ids } => self.ask_received(from, op_ids),
            Event::SendLoop { now } => self.send_loop_fired(now),
            Event::Prune => self.pruned(),
            Event::Register { id } => self.peer_registered(id),
            Event::Record { op, payload } => self.recorded(op, payload),
        }
    }

    /// The state after the events of `events`, first to last.
    pub open spec fn run(self, events: Seq<Event>) -> State
        decreases events.len(),
    {
        if events.len() == 0 {
            self
        } else {
            self.run(events.drop_last()).step(events.last())
        }
    }

    /// What every state of an engine satisfies: the registry is finite.
    pub open spec fn wf(self) -> bool {
        self.peers.dom().finite()
    }

    /// The state after at most `budget` deferred records were replayed at
    /// time `now`, oldest first, stopping at the first that is not due.
    pub open spec fn send_loop(self, now: int, budget: nat) -> State
        decreases budget,
    {
        if budget == 0 || !self.head_is_due(now) {
            self
        } else {
            self.head_replayed(now).send_loop(now, (budget - 1) as nat)
        }
    }
}

} // verus!
