//! The engine's data, and how it is read as a state of the model.
use std::collections::BTreeMap;
use std::collections::VecDeque;
use vstd::prelude::*;

use crate::less_cpu::model::AskRecord;
use crate::less_cpu::model::Deferred;
use crate::less_cpu::model::State;
use crate::registry::batches_view;
use crate::registry::BatchQueue;
use crate::registry::first_peers;
use crate::registry::peers_view;
use crate::registry::PeerView;
use crate::registry::Registry;

pub use crate::clock::Timestamp;
pub use crate::ids::NodeId;
pub use crate::ids::Operation;
pub use crate::ids::OperationId;
pub use crate::ids::OperationIds;
pub use crate::ids::OperationMap;
pub use crate::registry::NodeInfo;

verus! {

/// For each operation that was asked for: the end of its cooling window and
/// the peers it was asked from.
pub type WantOperations = BTreeMap<OperationId, (Timestamp, Vec<NodeId>)>;

/// A deferred announcement: when it is due, who made it, and the announced
/// operations that were in their cooling window.
pub type DeferredBatch = (Timestamp, NodeId, OperationIds);

/// A queue of answers waiting to be sent: the addressee and the payloads.
pub type OperationQueue = Vec<(NodeId, OperationMap)>;

/// The engine.
pub struct FakeProtocol {
    /// The peer registry.
    pub node_infos: Registry,
    /// The last ask for each operation that was asked for.
    pub wanted_alias_asked_ops: WantOperations,
    /// The operations the node has.
    pub received: OperationMap,
    /// Announcements put aside until their cooling window has passed,
    /// oldest first.
    pub op_batch_buffer: VecDeque<DeferredBatch>,
    /// Largest batch, in operations.
    pub max_batch_size: usize,
    /// Length of the cooling window, in milliseconds.
    pub op_batch_proc_period: u64,
    /// Most records that `op_batch_buffer` holds.
    pub op_batch_buf_capacity: usize,
    /// Announcements to send, oldest first.
    pub batch_send_queue: BatchQueue,
    /// Asks to send, oldest first.
    pub ask_batch_queue: BatchQueue,
    /// Answers to send, oldest first.
    pub send_operation: OperationQueue,
}

/// The mathematical content of the ask table.
pub open spec fn asked_view(asked: Map<OperationId, (Timestamp, Vec<NodeId>)>) -> Map<
    OperationId,
    AskRecord,
> {
    asked.map_values(
        |entry: (Timestamp, Vec<NodeId>)| AskRecord { until: entry.0 as int, peers: entry.1@ },
    )
}

/// The mathematical content of the buffer of deferred announcements.
pub open spec fn buffer_view(buffer: Seq<DeferredBatch>) -> Seq<Deferred> {
    buffer.map_values(
        |record: DeferredBatch|
            Deferred { ready_at: record.0 as int, source: record.1, ops: record.2@ },
    )
}

/// The mathematical content of a queue of answers.
pub open spec fn operations_view(queue: Seq<(NodeId, OperationMap)>) -> Seq<
    (NodeId, Map<OperationId, Operation>),
> {
    queue.map_values(|entry: (NodeId, OperationMap)| (entry.0, entry.1@))
}

impl View for FakeProtocol {
    type V = State;

    open spec fn view(&self) -> State {
        State {
            peers: peers_view(self.node_infos@),
            asked: asked_view(self.wanted_alias_asked_ops@),
            received: self.received@,
            buffer: buffer_view(self.op_batch_buffer@),
            max_batch_size: self.max_batch_size as nat,
            period: self.op_batch_proc_period as nat,
            capacity: self.op_batch_buf_capacity as nat,
            batches_sent: batches_view(self.batch_send_queue@),
            asks_sent: batches_view(self.ask_batch_queue@),
            operations_sent: operations_view(self.send_operation@),
        }
    }
}

impl FakeProtocol {
    /// An engine with peers `0` to `nodes_number - 1` registered, nothing
    /// received, nothing asked and nothing to send.
    pub fn new(
        nodes_number: usize,
        max_batch_size: usize,
        op_batch_proc_period: u64,
        op_batch_buf_capacity: usize,
    ) -> (protocol: FakeProtocol)
        ensures
            protocol@ == State::initial(
                nodes_number as nat,
                max_batch_size as nat,
                op_batch_proc_period as nat,
                op_batch_buf_capacity as nat,
            ),
    {
        let mut node_infos = Registry::new();
        let mut k: usize = 0;
        while k < nodes_number
            invariant
                k <= nodes_number,
                peers_view(node_infos@) == first_peers(k as nat),
            decreases nodes_number - k,
        {
            let ghost before = peers_view(node_infos@);
            node_infos.insert(k as u64, NodeInfo::default());
            assert(peers_view(node_infos@) =~= before.insert(k as u64, PeerView::empty()));
            k += 1;
            assert(peers_view(node_infos@) =~= first_peers(k as nat));
        }
        let protocol = FakeProtocol {
            node_infos,
            wanted_alias_asked_ops: WantOperations::new(),
            received: OperationMap::new(),
            op_batch_buffer: VecDeque::new(),
            max_batch_size,
            op_batch_proc_period,
            op_batch_buf_capacity,
            batch_send_queue: BatchQueue::new(),
            ask_batch_queue: BatchQueue::new(),
            send_operation: OperationQueue::new(),
        };
        assert(protocol@.peers =~= State::initial(
            nodes_number as nat,
            max_batch_size as nat,
            op_batch_proc_period as nat,
            op_batch_buf_capacity as nat,
        ).peers);
        assert(protocol@.asked =~= Map::empty());
        assert(protocol@.buffer =~= Seq::empty());
        assert(protocol@.batches_sent =~= Seq::empty());
        assert(protocol@.asks_sent =~= Seq::empty());
        assert(protocol@.operations_sent =~= Seq::empty());
        protocol
    }

    /// Registers peer `id` if it is not registered yet.
    pub fn register_peer(&mut self, id: NodeId)
        ensures
            final(self)@ == old(self)@.peer_registered(id),
    {
        crate::registry::register_peer(&mut self.node_infos, id);
    }

    /// Whether the node has operation `op`.
    pub fn is_received(&self, op: OperationId) -> (has: bool)
        ensures
            has == self@.received.contains_key(op),
    {
        self.received.contains_key(&op)
    }

    /// Stores the payload of operation `op`, unless the node has the
    /// operation already. Returns whether it was stored.
    pub fn record_received(&mut self, op: OperationId, payload: Operation) -> (stored: bool)
        ensures
            stored == !old(self)@.received.contains_key(op),
            final(self)@ == old(self)@.recorded(op, payload),
    {
        if self.received.contains_key(&op) {
            false
        } else {
            self.received.insert(op, payload);
            true
        }
    }
}

} // verus!
