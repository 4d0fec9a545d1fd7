//! The engine's data, and how it is read as a state of the model.
use std::collections::BTreeMap;
use vstd::prelude::*;

use crate::more_cpu::algo::strike;
use crate::more_cpu::model::Answer;
use crate::more_cpu::model::Plan;
use crate::more_cpu::model::State;
use crate::registry::batches_view;
use crate::registry::BatchQueue;
use crate::registry::first_peers;
use crate::registry::peers_view;
use crate::registry::PeerView;
use crate::registry::Registry;

pub use crate::ids::NodeId;
pub use crate::ids::Operation;
pub use crate::ids::OperationId;
pub use crate::ids::OperationIds;
pub use crate::ids::OperationMap;
pub use crate::registry::NodeInfo;

verus! {

/// An answer to an ask: for each operation asked for, its payload, or
/// `None` if the answering node does not have the operation.
pub type AskedOperations = BTreeMap<OperationId, Option<Operation>>;

/// The planned asks: for each peer, the operations to ask it for.
pub type WantOperations = BTreeMap<NodeId, OperationIds>;

/// A queue of answers waiting to be sent: the addressee and the answer.
pub type AnswerQueue = Vec<(NodeId, AskedOperations)>;

/// The engine.
pub struct FakeProtocol {
    /// The peer registry.
    pub node_infos: Registry,
    /// The operations the node wants.
    pub wishlist: OperationIds,
    /// The planned asks.
    pub wanted: WantOperations,
    /// The operations that were planned into an ask with room.
    pub already_asked: OperationIds,
    /// The operations the node has.
    pub received: OperationMap,
    /// Largest batch, in operations.
    pub max_batch_size: usize,
    /// Announcements to send, oldest first.
    pub batch_send_queue: BatchQueue,
    /// Asks to send, oldest first.
    pub ask_batch_queue: BatchQueue,
    /// Answers to send, oldest first.
    pub send_operation: AnswerQueue,
}

/// The mathematical content of the planned asks.
pub open spec fn wanted_view(wanted: Map<NodeId, OperationIds>) -> Plan {
    wanted.map_values(|ops: OperationIds| ops@)
}

/// The mathematical content of a queue of answers.
pub open spec fn answers_view(queue: Seq<(NodeId, AskedOperations)>) -> Seq<(NodeId, Answer)> {
    queue.map_values(|entry: (NodeId, AskedOperations)| (entry.0, entry.1@))
}

impl View for FakeProtocol {
    type V = State;

    open spec fn view(&self) -> State {
        State {
            peers: peers_view(self.node_infos@),
            wishlist: self.wishlist@,
            wanted: wanted_view(self.wanted@),
            already_asked: self.already_asked@,
            received: self.received@,
            max_batch_size: self.max_batch_size as nat,
            batches_sent: batches_view(self.batch_send_queue@),
            asks_sent: batches_view(self.ask_batch_queue@),
            operations_sent: answers_view(self.send_operation@),
        }
    }
}

impl FakeProtocol {
    /// An engine with peers `0` to `nodes_number - 1` registered, nothing
    /// received, nothing wished for and nothing to send.
    pub fn new(nodes_number: usize, max_batch_size: usize) -> (protocol: FakeProtocol)
        ensures
            protocol@ == State::initial(nodes_number as nat, max_batch_size as nat),
    {
        let mut node_infos = Registry::new();
        let mut k: usize = 0;
        while k < nodes_number
            invariant
                k <= nodes_number,
                peers_view(node_infos@) == first_peers(k as nat),
            decreases nodes_number - k,
        {
            let ghost before = peers_view(node_infos@);
            node_infos.insert(k as u64, NodeInfo::default());
            assert(peers_view(node_infos@) =~= before.insert(k as u64, PeerView::empty()));
            k += 1;
            assert(peers_view(node_infos@) =~= first_peers(k as nat));
        }
        let protocol = FakeProtocol {
            node_infos,
            wishlist: OperationIds::new(),
            wanted: WantOperations::new(),
            already_asked: OperationIds::new(),
            received: OperationMap::new(),
            max_batch_size,
            batch_send_queue: BatchQueue::new(),
            ask_batch_queue: BatchQueue::new(),
            send_operation: AnswerQueue::new(),
        };
        assert(protocol@.peers =~= State::initial(
            nodes_number as nat,
            max_batch_size as nat,
        ).peers);
        assert(protocol@.wanted =~= Map::empty());
        assert(protocol@.batches_sent =~= Seq::empty());
        assert(protocol@.asks_sent =~= Seq::empty());
        assert(protocol@.operations_sent =~= Seq::empty());
        protocol
    }

    /// Registers peer `id` if it is not registered yet.
    pub fn register_peer(&mut self, id: NodeId)
        ensures
            final(self)@ == old(self)@.peer_registered(id),
    {
        crate::registry::register_peer(&mut self.node_infos, id);
    }

    /// Whether the node has operation `op`.
    pub fn is_received(&self, op: OperationId) -> (has: bool)
        ensures
            has == self@.received.contains_key(op),
    {
        self.received.contains_key(&op)
    }

    /// Hands the payload of operation `op` to the store. If the node has
    /// the operation already, nothing changes. Otherwise the payload is
    /// stored and the node stops wishing and asking for the operation.
    /// Returns whether the payload was stored.
    pub fn record_received(&mut self, op: OperationId, payload: Operation) -> (stored: bool)
        ensures
            stored == !old(self)@.received.contains_key(op),
            final(self)@ == old(self)@.recorded(op, payload),
    {
        if self.received.contains_key(&op) {
            false
        } else {
            self.received.insert(op, payload);
            self.wishlist.remove(&op);
            let mut got = OperationIds::new();
            got.insert(op);
            strike(&mut self.wanted, &got);
            true
        }
    }
}

} // verus!
