//! The engine as a state machine over mathematical values: the state, and
//! what each event makes of it.
use vstd::prelude::*;

use crate::ascending::ascending;
use crate::ids::NodeId;
use crate::ids::Operation;
use crate::ids::OperationId;
use crate::registry::announced;
use crate::registry::fan_out_batches;
use crate::registry::first_peers;
use crate::registry::learned;
use crate::registry::registered;
use crate::registry::Peers;
use crate::registry::PeerView;
use crate::registry::wished;

verus! {

/// The asks that are planned: for each peer, the operations to ask it for.
pub type Plan = Map<NodeId, Set<OperationId>>;

/// An answer to an ask: for each operation asked for, its payload, or
/// nothing if the answering node does not have the operation.
pub type Answer = Map<OperationId, Option<Operation>>;

/// An event that the engine handles.
pub enum Event {
    /// Peer `from` announced `batch`.
    Batch { batch: Set<OperationId>, from: NodeId },
    /// The asking timer fired.
    AskingLoop,
    /// Peer `from` answered an ask with `answer`.
    Delivery { from: NodeId, answer: Answer },
    /// Peer `from` asked for `op_ids`.
    Ask { from: NodeId, op_ids: Set<OperationId> },
    /// The answering timer fired.
    SendOperationLoop,
    /// Peer `id` joined.
    Register { id: NodeId },
    /// The payload of operation `op` was handed to the store.
    Record { op: OperationId, payload: Operation },
}

/// The state of the engine.
pub struct State {
    /// The peer registry.
    pub peers: Peers,
    /// The operations the node wants.
    pub wishlist: Set<OperationId>,
    /// The planned asks.
    pub wanted: Plan,
    /// The operations that were planned into an ask with room.
    pub already_asked: Set<OperationId>,
    /// The operations the node has.
    pub received: Map<OperationId, Operation>,
    /// Largest batch, in operations.
    pub max_batch_size: nat,
    /// Announcements queued for sending, oldest first.
    pub batches_sent: Seq<(NodeId, Set<OperationId>)>,
    /// Asks queued for sending, oldest first.
    pub asks_sent: Seq<(NodeId, Set<OperationId>)>,
    /// Answers queued for sending, oldest first.
    pub operations_sent: Seq<(NodeId, Answer)>,
}

/// The first member of `order` that satisfies `fits`.
pub open spec fn first_match(order: Seq<NodeId>, fits: spec_fn(NodeId) -> bool) -> Option<NodeId>
    decreases order.len(),
{
    if order.len() == 0 {
        None
    } else if fits(order[0]) {
        Some(order[0])
    } else {
        first_match(order.drop_first(), fits)
    }
}

/// Whether peer `id` is believed to know `op` and its planned ask exists
/// and has room.
pub open spec fn has_room(peers: Peers, wanted: Plan, max: nat, op: OperationId, id: NodeId) -> bool {
    &&& peers.contains_key(id)
    &&& peers[id].known_op.contains(op)
    &&& wanted.contains_key(id)
    &&& wanted[id].len() < max
}

/// Whether a first ask can be planned for peer `id` to hold `op`: the peer
/// is believed to know `op`, no ask is planned for it yet, and a batch may
/// hold an operation at all.
pub open spec fn has_no_plan(peers: Peers, wanted: Plan, max: nat, op: OperationId, id: NodeId) -> bool {
    &&& max >= 1
    &&& peers.contains_key(id)
    &&& peers[id].known_op.contains(op)
    &&& !wanted.contains_key(id)
}

/// The delivered operations of an answer: those that come with a payload.
pub open spec fn delivered(answer: Answer) -> Set<OperationId> {
    answer.dom().filter(|op: OperationId| answer[op] is Some)
}

/// The store once the payloads that `answer` delivers for the operations in
/// `got` are stored. A delivered payload takes the place of one that the
/// store held for the same operation.
pub open spec fn kept(
    received: Map<OperationId, Operation>,
    answer: Answer,
    got: Set<OperationId>,
) -> Map<OperationId, Operation> {
    Map::new(
        |op: OperationId| received.contains_key(op) || got.contains(op),
        |op: OperationId|
            if got.contains(op) {
                answer[op]->0
            } else {
                received[op]
            },
    )
}

/// The planned asks once the operations in `got` are struck from them.
pub open spec fn struck(wanted: Plan, got: Set<OperationId>) -> Plan {
    wanted.map_values(|ops: Set<OperationId>| ops.difference(got))
}

/// What a peer waits for once one round of answers has served it.
pub open spec fn waiting_after(peer: PeerView, max: nat) -> PeerView {
    PeerView {
        known_op: peer.known_op,
        wishlist: peer.wishlist.difference(served(peer.wishlist, max)),
    }
}

/// The operations of `wishlist` that one round of answers serves: the
/// `max` smallest, or all if there are fewer.
pub open spec fn served(wishlist: Set<OperationId>, max: nat) -> Set<OperationId> {
    let order = ascending(wishlist);
    if order.len() <= max {
        wishlist
    } else {
        order.take(max as int).to_set()
    }
}

/// The answer to an ask for `ops`, from a node that has `received`.
pub open spec fn answer_for(received: Map<OperationId, Operation>, ops: Set<OperationId>) -> Answer {
    Map::new(
        |op: OperationId| ops.contains(op),
        |op: OperationId|
            if received.contains_key(op) {
                Some(received[op])
            } else {
                None
            },
    )
}

/// The answers of one round to the peers in `order`: one for each peer,
/// in that order.
pub open spec fn answers(
    peers: Peers,
    received: Map<OperationId, Operation>,
    max: nat,
    order: Seq<NodeId>,
) -> Seq<(NodeId, Answer)>
    decreases order.len(),
{
    if order.len() == 0 {
        Seq::empty()
    } else {
        let id = order.last();
        answers(peers, received, max, order.drop_last()).push(
            (id, answer_for(received, served(peers[id].wishlist, max))),
        )
    }
}

/// The asks of a plan to the peers in `order`: one for each peer, in that
/// order.
pub open spec fn asks(wanted: Plan, order: Seq<NodeId>) -> Seq<(NodeId, Set<OperationId>)>
    decreases order.len(),
{
    if order.len() == 0 {
        Seq::empty()
    } else {
        asks(wanted, order.drop_last()).push((order.last(), wanted[order.last()]))
    }
}

impl State {
    /// The state of an engine that was just made, with peers `0` to
    /// `peer_count - 1` registered.
    pub open spec fn initial(peer_count: nat, max_batch_size: nat) -> State {
        State {
            peers: first_peers(peer_count),
            wishlist: Set::empty(),
            wanted: Map::empty(),
            already_asked: Set::empty(),
            received: Map::empty(),
            max_batch_size,
            batches_sent: Seq::empty(),
            asks_sent: Seq::empty(),
            operations_sent: Seq::empty(),
        }
    }

    /// The operations of `batch` that the node lacks.
    pub open spec fn news(self, batch: Set<OperationId>) -> Set<OperationId> {
        batch.filter(|op: OperationId| !self.received.contains_key(op))
    }

    /// The state after peer `from` announced `batch`.
    ///
    /// The announced operations that the node lacks are wished for, and
    /// `from` is recorded as knowing them. Nothing is asked for yet.
    pub open spec fn batch_received(self, batch: Set<OperationId>, from: NodeId) -> State {
        let news = self.news(batch);
        if news.is_empty() {
            self
        } else {
            State {
                peers: learned(self.peers, from, news),
                wishlist: self.wishlist.union(news),
                ..self
            }
        }
    }

    /// The state after operation `op` of the wishlist was looked at for
    /// planning.
    ///
    /// An operation that was planned already, or that the node has by now,
    /// is passed over. Otherwise the peers are walked in ascending order.
    /// The first that knows the operation and has a planned ask with room
    /// gets it, and the operation counts as planned. If there is none, the
    /// first that knows the operation and has no planned ask yet gets a
    /// new one that holds just this operation; the operation does not
    /// count as planned then, and a later round looks at it again. With a
    /// batch size of zero no ask is opened, so that no planned ask is ever
    /// larger than the batch size.
    pub open spec fn placed(self, op: OperationId) -> State {
        let order = ascending(self.peers.dom());
        if self.already_asked.contains(op) || self.received.contains_key(op) {
            self
        } else {
            match first_match(
                order,
                |id: NodeId| has_room(self.peers, self.wanted, self.max_batch_size, op, id),
            ) {
                Some(id) => State {
                    wanted: self.wanted.insert(id, self.wanted[id].insert(op)),
                    already_asked: self.already_asked.insert(op),
                    ..self
                },
                None => match first_match(
                    order,
                    |id: NodeId|
                        has_no_plan(self.peers, self.wanted, self.max_batch_size, op, id),
                ) {
                    Some(id) => State { wanted: self.wanted.insert(id, set![op]), ..self },
                    None => self,
                },
            }
        }
    }

    /// The state after the operations of `order` were looked at for
    /// planning, one after the other.
    pub open spec fn planned(self, order: Seq<OperationId>) -> State
        decreases order.len(),
    {
        if order.len() == 0 {
            self
        } else {
            self.planned(order.drop_last()).placed(order.last())
        }
    }

    /// The state after the asking timer fired.
    ///
    /// The wishlist is planned in ascending order of operation, and then
    /// every planned ask is queued, in ascending order of peer.
    pub open spec fn asking_loop(self) -> State {
        let after = self.planned(ascending(self.wishlist));
        State {
            asks_sent: self.asks_sent + asks(after.wanted, ascending(after.wanted.dom())),
            ..after
        }
    }

    /// The state after peer `from` answered an ask with `answer`.
    ///
    /// The delivered payloads are stored; a delivered payload takes the
    /// place of one that the node held for the same operation. The
    /// delivered operations leave the wishlist and the planned asks. `from` is recorded as knowing them, and then
    /// every peer is told of them.
    pub open spec fn operation_received(self, from: NodeId, answer: Answer) -> State {
        let got = delivered(answer);
        let taught = learned(self.peers, from, got);
        State {
            received: kept(self.received, answer, got),
            wishlist: self.wishlist.difference(got),
            wanted: struck(self.wanted, got),
            peers: announced(taught, got),
            batches_sent: self.batches_sent + fan_out_batches(taught, got),
            ..self
        }
    }

    /// The state after peer `id` joined: an unknown peer gets an empty
    /// entry, a known one keeps its own.
    pub open spec fn peer_registered(self, id: NodeId) -> State {
        State { peers: registered(self.peers, id), ..self }
    }

    /// The state after the payload of operation `op` was handed to the
    /// store.
    ///
    /// If the node has the operation already, nothing changes. Otherwise
    /// the payload is stored, and the operation leaves the wishlist and
    /// the planned asks, as a delivered one does.
    pub open spec fn recorded(self, op: OperationId, payload: Operation) -> State {
        if self.received.contains_key(op) {
            self
        } else {
            State {
                received: self.received.insert(op, payload),
                wishlist: self.wishlist.remove(op),
                wanted: struck(self.wanted, set![op]),
                ..self
            }
        }
    }

    /// The state after event `event`.
    pub open spec fn step(self, event: Event) -> State {
        match event {
            Event::Batch { batch, from } => self.batch_received(batch, from),
            Event::AskingLoop => self.asking_loop(),
            Event::Delivery { from, answer } => self.operation_received(from, answer),
            Event::Ask { from, op_ids } => self.ask_received(from, op_ids),
            Event::SendOperationLoop => self.send_operation_loop(),
            Event::Register { id } => self.peer_registered(id),
            Event::Record { op, payload } => self.recorded(op, payload),
        }
    }

    /// The state after the events of `events`, first to last.
    pub open spec fn run(self, events: Seq<Event>) -> State
        decreases events.len(),
    {
        if events.len() == 0 {
            self
        } else {
            self.run(events.drop_last()).step(events.last())
        }
    }

    /// What every state of an engine satisfies: the registry and the plan
    /// are finite.
    pub open spec fn wf(self) -> bool {
        &&& self.peers.dom().finite()
        &&& self.wanted.dom().finite()
    }

    /// Whether no planned ask is larger than the batch size.
    pub open spec fn bounded(self) -> bool {
        forall|id: NodeId| #[trigger]
            self.wanted.contains_key(id) ==> self.wanted[id].finite() && self.wanted[id].len()
                <= self.max_batch_size
    }

    /// Whether the node neither wishes nor plans to ask for an operation
    /// that it has.
    pub open spec fn clean(self) -> bool {
        &&& forall|op: OperationId| #[trigger]
            self.received.contains_key(op) ==> !self.wishlist.contains(op)
        &&& forall|id: NodeId, op: OperationId|
            self.wanted.contains_key(id) && #[trigger] self.wanted[id].contains(op)
                ==> !self.received.contains_key(op)
    }

    /// The state after peer `from` asked for `op_ids`: they join what the
    /// peer waits for.
    pub open spec fn ask_received(self, from: NodeId, op_ids: Set<OperationId>) -> State {
        State { peers: wished(self.peers, from, op_ids), ..self }
    }

    /// The state after the answering timer fired.
    ///
    /// Every peer is answered, in ascending order of peer: the round
    /// serves the smallest `max_batch_size` operations that the peer waits
    /// for, and these are no longer waited for.
    pub open spec fn send_operation_loop(self) -> State {
        State {
            peers: self.peers.map_values(
                |peer: PeerView| waiting_after(peer, self.max_batch_size),
            ),
            operations_sent: self.operations_sent + answers(
                self.peers,
                self.received,
                self.max_batch_size,
                ascending(self.peers.dom()),
            ),
            ..self
        }
    }
}

} // verus!
