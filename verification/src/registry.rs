//! The peer registry: what the node believes each peer knows and what each
//! peer has asked of it, and the fan-out of announcements over the peers.
use std::collections::BTreeMap;
use vstd::prelude::*;

use crate::ascending::ascending;
use crate::ascending::enumerates;
use crate::ascending::keys_in_order;
use crate::ascending::lemma_take_next;
use crate::ids::absorb;
use crate::ids::insert_all;
use crate::ids::NodeId;
use crate::ids::OperationId;
use crate::ids::OperationIds;
use crate::ids::remove_all;

verus! {

/// What the node remembers of one peer.
pub struct NodeInfo {
    /// Operations the node believes the peer holds or has been told of.
    pub known_op: OperationIds,
    /// Operations the peer has asked for and the node has not answered yet.
    pub wishlist: OperationIds,
}

/// The mathematical content of a [`NodeInfo`].
pub struct PeerView {
    /// Operations the node believes the peer holds or has been told of.
    pub known_op: Set<OperationId>,
    /// Operations the peer has asked for and the node has not answered yet.
    pub wishlist: Set<OperationId>,
}

impl PeerView {
    /// A peer of which nothing is known.
    pub open spec fn empty() -> PeerView {
        PeerView { known_op: Set::empty(), wishlist: Set::empty() }
    }
}

impl View for NodeInfo {
    type V = PeerView;

    open spec fn view(&self) -> PeerView {
        PeerView { known_op: self.known_op@, wishlist: self.wishlist@ }
    }
}

impl Default for NodeInfo {
    fn default() -> (info: NodeInfo)
        ensures
            info@ == PeerView::empty(),
    {
        NodeInfo { known_op: OperationIds::new(), wishlist: OperationIds::new() }
    }
}

/// The registry: every peer the node has seen, by identifier.
pub type Registry = BTreeMap<NodeId, NodeInfo>;

/// The mathematical content of a [`Registry`].
pub type Peers = Map<NodeId, PeerView>;

/// A queue of announcements or asks waiting to be sent: the addressee and
/// the operations named.
pub type BatchQueue = Vec<(NodeId, OperationIds)>;

/// The mathematical content of a registry.
pub open spec fn peers_view(registry: Map<NodeId, NodeInfo>) -> Peers {
    registry.map_values(|info: NodeInfo| info@)
}

/// The mathematical content of a [`BatchQueue`].
pub open spec fn batches_view(queue: Seq<(NodeId, OperationIds)>) -> Seq<
    (NodeId, Set<OperationId>),
> {
    queue.map_values(|entry: (NodeId, OperationIds)| (entry.0, entry.1@))
}

/// What is recorded of peer `id`; nothing if the peer is not registered.
pub open spec fn peer_or_empty(peers: Peers, id: NodeId) -> PeerView {
    if peers.contains_key(id) {
        peers[id]
    } else {
        PeerView::empty()
    }
}

/// The registry once `id` is registered: an unknown peer gets an empty
/// entry, a known one keeps its own.
pub open spec fn registered(peers: Peers, id: NodeId) -> Peers {
    peers.insert(id, peer_or_empty(peers, id))
}

/// The registry once peer `id` is believed to know `ops` as well.
pub open spec fn learned(peers: Peers, id: NodeId, ops: Set<OperationId>) -> Peers {
    peers.insert(
        id,
        PeerView {
            known_op: peer_or_empty(peers, id).known_op.union(ops),
            wishlist: peer_or_empty(peers, id).wishlist,
        },
    )
}

/// The registry once peer `id` is believed not to know any of `ops`.
pub open spec fn forgot(peers: Peers, id: NodeId, ops: Set<OperationId>) -> Peers {
    peers.insert(
        id,
        PeerView {
            known_op: peer_or_empty(peers, id).known_op.difference(ops),
            wishlist: peer_or_empty(peers, id).wishlist,
        },
    )
}

/// The registry once peer `id` has asked for `ops` as well.
pub open spec fn wished(peers: Peers, id: NodeId, ops: Set<OperationId>) -> Peers {
    peers.insert(
        id,
        PeerView {
            known_op: peer_or_empty(peers, id).known_op,
            wishlist: peer_or_empty(peers, id).wishlist.union(ops),
        },
    )
}

/// The registry once every peer has been told of `ops`.
pub open spec fn announced(peers: Peers, ops: Set<OperationId>) -> Peers {
    peers.map_values(
        |peer: PeerView| PeerView { known_op: peer.known_op.union(ops), wishlist: peer.wishlist },
    )
}

/// The part of `ops` that peer `id` is not believed to know.
pub open spec fn news_for(peers: Peers, id: NodeId, ops: Set<OperationId>) -> Set<OperationId> {
    ops.difference(peers[id].known_op)
}

/// The announcements that telling the peers in `order` of `ops` takes: one
/// for each peer that has news, in that order.
pub open spec fn announcements(peers: Peers, ops: Set<OperationId>, order: Seq<NodeId>) -> Seq<
    (NodeId, Set<OperationId>),
>
    decreases order.len(),
{
    if order.len() == 0 {
        Seq::empty()
    } else {
        let earlier = announcements(peers, ops, order.drop_last());
        let id = order.last();
        if news_for(peers, id, ops).is_empty() {
            earlier
        } else {
            earlier.push((id, news_for(peers, id, ops)))
        }
    }
}

/// The announcements that telling every registered peer of `ops` takes,
/// in ascending order of peer.
pub open spec fn fan_out_batches(peers: Peers, ops: Set<OperationId>) -> Seq<
    (NodeId, Set<OperationId>),
> {
    announcements(peers, ops, ascending(peers.dom()))
}

/// Queues the announcement of `batch` to peer `to`.
pub fn send_batch(to: NodeId, batch: OperationIds, queue: &mut BatchQueue)
    ensures
        batches_view(final(queue)@) == batches_view(old(queue)@).push((to, batch@)),
{
    queue.push((to, batch));
}

/// Queues the ask for `op_ids` to peer `to`.
pub fn ask_operations(to: NodeId, op_ids: OperationIds, queue: &mut BatchQueue)
    ensures
        batches_view(final(queue)@) == batches_view(old(queue)@).push((to, op_ids@)),
{
    queue.push((to, op_ids));
}

/// Registers peer `id` if it is not registered yet.
pub fn register_peer(registry: &mut Registry, id: NodeId)
    ensures
        peers_view(final(registry)@) == registered(peers_view(old(registry)@), id),
{
    if !registry.contains_key(&id) {
        registry.insert(id, NodeInfo::default());
    }
}

/// Records that peer `id` knows `ops`; registers the peer on first use.
pub fn learn(registry: &mut Registry, id: NodeId, ops: &OperationIds)
    ensures
        peers_view(final(registry)@) == learned(peers_view(old(registry)@), id, ops@),
{
    let mut info = match registry.remove(&id) {
        Some(info) => info,
        None => NodeInfo::default(),
    };
    insert_all(&mut info.known_op, ops);
    registry.insert(id, info);
}

/// Records that peer `id` does not know `ops`; registers the peer on first
/// use.
pub fn forget(registry: &mut Registry, id: NodeId, ops: &OperationIds)
    ensures
        peers_view(final(registry)@) == forgot(peers_view(old(registry)@), id, ops@),
{
    let mut info = match registry.remove(&id) {
        Some(info) => info,
        None => NodeInfo::default(),
    };
    remove_all(&mut info.known_op, ops);
    registry.insert(id, info);
}

/// Records that peer `id` asks for `ops`; registers the peer on first use.
pub fn wish(registry: &mut Registry, id: NodeId, ops: &OperationIds)
    ensures
        peers_view(final(registry)@) == wished(peers_view(old(registry)@), id, ops@),
{
    let mut info = match registry.remove(&id) {
        Some(info) => info,
        None => NodeInfo::default(),
    };
    insert_all(&mut info.wishlist, ops);
    registry.insert(id, info);
}

/// Tells every registered peer of `ops`: each peer is marked as knowing
/// them, and for each peer that did not know all of them an announcement
/// of the part it did not know is queued, in ascending order of peer.
pub fn fan_out(registry: &mut Registry, ops: &OperationIds, queue: &mut BatchQueue)
    ensures
        peers_view(final(registry)@) == announced(peers_view(old(registry)@), ops@),
        batches_view(final(queue)@) == batches_view(old(queue)@) + fan_out_batches(
            peers_view(old(registry)@),
            ops@,
        ),
{
    let order = keys_in_order(registry);
    let ghost before = peers_view(registry@);
    let ghost sent = batches_view(queue@);
    let mut i: usize = 0;
    proof {
        assert(before.dom() =~= registry@.dom());
        assert(order@.take(0) =~= Seq::<NodeId>::empty());
        assert(batches_view(queue@) =~= sent + announcements(before, ops@, order@.take(0)));
    }
    while i < order.len()
        invariant
            i <= order.len(),
            enumerates(order@, before.dom()),
            peers_view(registry@).dom() == before.dom(),
            forall|id: NodeId|
                before.contains_key(id) ==> #[trigger] peers_view(registry@)[id] == if order@.take(
                    i as int,
                ).to_set().contains(id) {
                    announced(before, ops@)[id]
                } else {
                    before[id]
                },
            batches_view(queue@) == sent + announcements(before, ops@, order@.take(i as int)),
        decreases order.len() - i,
    {
        let id = order[i];
        let ghost at_entry = peers_view(registry@);
        proof {
            lemma_take_next(order@, i as int);
            assert(order@.to_set().contains(order@[i as int]));
            assert(before.contains_key(id));
            assert(!order@.take(i as int).to_set().contains(id)) by {
                if order@.take(i as int).to_set().contains(id) {
                    let k = choose|k: int| 0 <= k < i && order@.take(i as int)[k] == id;
                    assert(order@[k] < order@[i as int]);
                }
            }
            assert(at_entry[id] == before[id]);
        }
        match registry.remove(&id) {
            Some(info) => {
                let mut info = info;
                assert(info@ == before[id]);
                let batch = absorb(&mut info.known_op, ops);
                assert(batch@ == news_for(before, id, ops@));
                assert(info@ == announced(before, ops@)[id]);
                registry.insert(id, info);
                if !batch.is_empty() {
                    send_batch(id, batch, queue);
                    assert(batches_view(queue@) =~= sent + announcements(
                        before,
                        ops@,
                        order@.take(i + 1),
                    ));
                } else {
                    assert(batches_view(queue@) =~= sent + announcements(
                        before,
                        ops@,
                        order@.take(i + 1),
                    ));
                }
            },
            None => {
                assert(false);
            },
        }
        proof {
            assert(peers_view(registry@).dom() =~= before.dom());
            assert forall|other: NodeId| before.contains_key(other) implies #[trigger] peers_view(
                registry@,
            )[other] == if order@.take(i + 1).to_set().contains(other) {
                announced(before, ops@)[other]
            } else {
                before[other]
            } by {
                if other != id {
                    assert(peers_view(registry@)[other] == at_entry[other]);
                }
            }
        }
        i += 1;
    }
    proof {
        assert(order@.take(order.len() as int) =~= order@);
        crate::ascending::lemma_ascending_is(order@, before.dom());
        assert(peers_view(registry@) =~= announced(before, ops@));
    }
}

/// Every announcement of a fan-out goes to a peer of the walk, names
/// exactly the part of `ops` that the peer was not believed to know, and
/// names something. The peers addressed come in the order of the walk.
pub proof fn lemma_announcements(peers: Peers, ops: Set<OperationId>, order: Seq<NodeId>)
    ensures
        announcements(peers, ops, order).len() <= order.len(),
        forall|k: int|
            0 <= k < announcements(peers, ops, order).len() ==> {
                let entry = #[trigger] announcements(peers, ops, order)[k];
                &&& order.contains(entry.0)
                &&& entry.1 == news_for(peers, entry.0, ops)
                &&& !entry.1.is_empty()
            },
        crate::ascending::increasing(order) ==> forall|j: int, k: int|
            0 <= j < k < announcements(peers, ops, order).len() ==> (#[trigger] announcements(
                peers,
                ops,
                order,
            )[j]).0 < (#[trigger] announcements(peers, ops, order)[k]).0,
    decreases order.len(),
{
    if order.len() > 0 {
        let earlier = order.drop_last();
        lemma_announcements(peers, ops, earlier);
        let found = announcements(peers, ops, order);
        let before = announcements(peers, ops, earlier);
        assert forall|k: int| 0 <= k < found.len() implies {
            let entry = #[trigger] found[k];
            &&& order.contains(entry.0)
            &&& entry.1 == news_for(peers, entry.0, ops)
            &&& !entry.1.is_empty()
        } by {
            if k < before.len() {
                let entry = before[k];
                assert(found[k] == entry);
                let at = choose|at: int| 0 <= at < earlier.len() && earlier[at] == entry.0;
                assert(order[at] == entry.0);
            } else {
                assert(order[order.len() - 1] == order.last());
            }
        }
        if crate::ascending::increasing(order) {
            assert(crate::ascending::increasing(earlier));
            assert forall|j: int, k: int| 0 <= j < k < found.len() implies (#[trigger] found[j]).0
                < (#[trigger] found[k]).0 by {
                if k < before.len() {
                    assert(found[j] == before[j]);
                    assert(found[k] == before[k]);
                } else {
                    assert(found[j] == before[j]);
                    let at = choose|at: int| 0 <= at < earlier.len() && earlier[at] == before[j].0;
                    assert(order[at] < order[order.len() - 1]);
                }
            }
        }
    }
}

/// A fan-out to peers that all know `ops` announces nothing.
pub proof fn lemma_announcements_quiet(peers: Peers, ops: Set<OperationId>, order: Seq<NodeId>)
    requires
        forall|k: int| 0 <= k < order.len() ==> ops.subset_of(peers[#[trigger] order[k]].known_op),
    ensures
        announcements(peers, ops, order) == Seq::<(NodeId, Set<OperationId>)>::empty(),
    decreases order.len(),
{
    if order.len() > 0 {
        let earlier = order.drop_last();
        assert forall|k: int| 0 <= k < earlier.len() implies ops.subset_of(
            peers[#[trigger] earlier[k]].known_op,
        ) by {
            assert(earlier[k] == order[k]);
        }
        lemma_announcements_quiet(peers, ops, earlier);
        assert(ops.subset_of(peers[order[order.len() - 1]].known_op));
        assert(news_for(peers, order.last(), ops) =~= Set::empty());
    }
}

/// Telling the peers of `ops` a second time changes nothing and announces
/// nothing.
pub proof fn lemma_announced_twice(peers: Peers, ops: Set<OperationId>)
    requires
        peers.dom().finite(),
    ensures
        announced(announced(peers, ops), ops) == announced(peers, ops),
        fan_out_batches(announced(peers, ops), ops) == Seq::<(NodeId, Set<OperationId>)>::empty(),
{
    let told = announced(peers, ops);
    assert(announced(told, ops) =~= told) by {
        assert forall|id: NodeId| told.contains_key(id) implies announced(told, ops)[id]
            == told[id] by {
            assert(told[id].known_op.union(ops) =~= told[id].known_op);
        }
    }
    assert(told.dom() =~= peers.dom());
    crate::ascending::lemma_ascending_enumerates(told.dom());
    let order = ascending(told.dom());
    assert forall|k: int| 0 <= k < order.len() implies ops.subset_of(
        told[#[trigger] order[k]].known_op,
    ) by {
        assert(order.to_set().contains(order[k]));
    }
    lemma_announcements_quiet(told, ops, order);
}

/// The registry of a new engine: peers `0` to `peer_count - 1`, with
/// nothing known of any.
pub open spec fn first_peers(peer_count: nat) -> Peers {
    Map::new(|id: NodeId| id < peer_count, |id: NodeId| PeerView::empty())
}

/// The registry of a new engine is finite.
pub proof fn lemma_first_peers_finite(peer_count: nat)
    ensures
        first_peers(peer_count).dom().finite(),
    decreases peer_count,
{
    if peer_count == 0 {
        assert(first_peers(peer_count).dom() =~= Set::empty());
    } else {
        let fewer = (peer_count - 1) as nat;
        lemma_first_peers_finite(fewer);
        if fewer <= u64::MAX {
            assert(first_peers(peer_count).dom() =~= first_peers(fewer).dom().insert(
                fewer as NodeId,
            ));
        } else {
            assert(first_peers(peer_count).dom() =~= first_peers(fewer).dom());
        }
    }
}

} // verus!
