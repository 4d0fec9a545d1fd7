//! The engine's event handlers.
use vstd::prelude::*;

use crate::ascending::ascending;
use crate::ascending::enumerates;
use crate::ascending::ids_in_order;
use crate::ascending::keys_in_order;
use crate::ascending::lemma_take_next;
use crate::ids::insert_all;
use crate::ids::remove_all;
use crate::more_cpu::model::answer_for;
use crate::more_cpu::model::answers;
use crate::more_cpu::model::asks;
use crate::more_cpu::model::delivered;
use crate::more_cpu::model::first_match;
use crate::more_cpu::model::has_no_plan;
use crate::more_cpu::model::has_room;
use crate::more_cpu::model::kept;
use crate::more_cpu::model::served;
use crate::more_cpu::model::State;
use crate::more_cpu::model::struck;
use crate::more_cpu::model::waiting_after;
use crate::more_cpu::types::AnswerQueue;
use crate::more_cpu::types::answers_view;
use crate::more_cpu::types::AskedOperations;
use crate::more_cpu::types::FakeProtocol;
use crate::more_cpu::types::NodeId;
use crate::more_cpu::types::OperationId;
use crate::more_cpu::types::OperationIds;
use crate::more_cpu::types::OperationMap;
use crate::more_cpu::types::wanted_view;
use crate::more_cpu::types::WantOperations;
use crate::registry::ask_operations;
use crate::registry::batches_view;
use crate::registry::fan_out;
use crate::registry::learn;
use crate::registry::peers_view;
use crate::registry::Registry;
use crate::registry::wish;

verus! {

/// The operations of `batch` that `received` does not hold.
fn news_of(batch: &OperationIds, received: &OperationMap) -> (news: OperationIds)
    ensures
        news@ == batch@.filter(|op: OperationId| !received@.contains_key(op)),
{
    let order = ids_in_order(batch);
    let ghost lacks = |op: OperationId| !received@.contains_key(op);
    let mut news = OperationIds::new();
    let mut i: usize = 0;
    proof {
        assert(news@ =~= order@.take(0).to_set().filter(lacks));
    }
    while i < order.len()
        invariant
            i <= order.len(),
            lacks == |op: OperationId| !received@.contains_key(op),
            news@ == order@.take(i as int).to_set().filter(lacks),
        decreases order.len() - i,
    {
        if !received.contains_key(&order[i]) {
            news.insert(order[i]);
        }
        proof {
            lemma_take_next(order@, i as int);
            assert(news@ =~= order@.take(i + 1).to_set().filter(lacks));
        }
        i += 1;
    }
    proof {
        assert(order@.take(order.len() as int) =~= order@);
    }
    news
}

/// Peer `node_id` announced the operations of `op_batch`.
///
/// The announced operations that the node lacks join the wishlist, and the
/// peer is recorded as knowing them.
pub fn on_batch_received(op_batch: OperationIds, node_id: NodeId, protocol: &mut FakeProtocol)
    ensures
        final(protocol)@ == old(protocol)@.batch_received(op_batch@, node_id),
{
    let news = news_of(&op_batch, &protocol.received);
    if !news.is_empty() {
        learn(&mut protocol.node_infos, node_id, &news);
        insert_all(&mut protocol.wishlist, &news);
    }
}

/// Peer `node_id` asked for the operations in `op_ids`: they join what the
/// peer waits for.
pub fn on_ask_received(node_id: NodeId, op_ids: OperationIds, protocol: &mut FakeProtocol)
    ensures
        final(protocol)@ == old(protocol)@.ask_received(node_id, op_ids@),
{
    wish(&mut protocol.node_infos, node_id, &op_ids);
}

/// Stores the payloads that `answer` delivers and returns the delivered
/// operations. The payload of an operation that `received` holds already
/// is replaced by the delivered one.
fn store_delivered(received: &mut OperationMap, answer: &AskedOperations) -> (got: OperationIds)
    ensures
        got@ == delivered(answer@),
        final(received)@ == kept(old(received)@, answer@, got@),
{
    let order = keys_in_order(answer);
    let ghost has_payload = |op: OperationId| answer@[op] is Some;
    let mut got = OperationIds::new();
    let mut i: usize = 0;
    proof {
        assert(got@ =~= order@.take(0).to_set().filter(has_payload));
        assert(received@ =~= kept(old(received)@, answer@, got@));
    }
    while i < order.len()
        invariant
            i <= order.len(),
            enumerates(order@, answer@.dom()),
            has_payload == |op: OperationId| answer@[op] is Some,
            got@ == order@.take(i as int).to_set().filter(has_payload),
            received@ == kept(old(received)@, answer@, got@),
        decreases order.len() - i,
    {
        let op = order[i];
        proof {
            lemma_take_next(order@, i as int);
            assert(order@.to_set().contains(order@[i as int]));
        }
        match answer.get(&op) {
            Some(Some(payload)) => {
                got.insert(op);
                received.insert(op, payload.clone());
            },
            _ => {},
        }
        proof {
            assert(got@ =~= order@.take(i + 1).to_set().filter(has_payload));
            assert(received@ =~= kept(old(received)@, answer@, got@));
        }
        i += 1;
    }
    proof {
        assert(order@.take(order.len() as int) =~= order@);
        assert(got@ =~= delivered(answer@));
    }
    got
}

/// Strikes the operations in `got` from every planned ask.
pub fn strike(wanted: &mut WantOperations, got: &OperationIds)
    ensures
        wanted_view(final(wanted)@) == struck(wanted_view(old(wanted)@), got@),
{
    let order = keys_in_order(wanted);
    let ghost before = wanted_view(wanted@);
    let mut i: usize = 0;
    proof {
        assert(before.dom() =~= wanted@.dom());
    }
    while i < order.len()
        invariant
            i <= order.len(),
            enumerates(order@, before.dom()),
            wanted_view(wanted@).dom() == before.dom(),
            forall|id: NodeId|
                before.contains_key(id) ==> #[trigger] wanted_view(wanted@)[id] == if order@.take(
                    i as int,
                ).to_set().contains(id) {
                    before[id].difference(got@)
                } else {
                    before[id]
                },
        decreases order.len() - i,
    {
        let id = order[i];
        let ghost at_entry = wanted_view(wanted@);
        proof {
            lemma_take_next(order@, i as int);
            assert(order@.to_set().contains(order@[i as int]));
            assert(!order@.take(i as int).to_set().contains(id)) by {
                if order@.take(i as int).to_set().contains(id) {
                    let k = choose|k: int| 0 <= k < i && order@.take(i as int)[k] == id;
                    assert(order@[k] < order@[i as int]);
                }
            }
            assert(at_entry[id] == before[id]);
        }
        match wanted.remove(&id) {
            Some(ops) => {
                let mut ops = ops;
                remove_all(&mut ops, got);
                wanted.insert(id, ops);
            },
            None => {},
        }
        proof {
            assert(wanted_view(wanted@).dom() =~= before.dom());
            assert forall|other: NodeId| before.contains_key(other) implies #[trigger] wanted_view(
                wanted@,
            )[other] == if order@.take(i + 1).to_set().contains(other) {
                before[other].difference(got@)
            } else {
                before[other]
            } by {
                if other != id {
                    assert(wanted_view(wanted@)[other] == at_entry[other]);
                }
            }
        }
        i += 1;
    }
    proof {
        assert(order@.take(order.len() as int) =~= order@);
        assert(wanted_view(wanted@) =~= struck(before, got@));
    }
}

/// Peer `from_node_id` answered an ask with `asked_operation`.
///
/// The node stores what was delivered, stops wishing and asking for it,
/// records that the peer knows it, and announces it to every peer that is
/// not believed to know it.
pub fn on_operation_received(
    from_node_id: NodeId,
    asked_operation: AskedOperations,
    protocol: &mut FakeProtocol,
)
    ensures
        final(protocol)@ == old(protocol)@.operation_received(from_node_id, asked_operation@),
{
    let got = store_delivered(&mut protocol.received, &asked_operation);
    remove_all(&mut protocol.wishlist, &got);
    strike(&mut protocol.wanted, &got);
    learn(&mut protocol.node_infos, from_node_id, &got);
    fan_out(&mut protocol.node_infos, &got, &mut protocol.batch_send_queue);
}

/// Queues the answer `operations` to peer `to`.
fn send_operations(to: NodeId, operations: AskedOperations, queue: &mut AnswerQueue)
    ensures
        answers_view(final(queue)@) == answers_view(old(queue)@).push((to, operations@)),
{
    queue.push((to, operations));
}

/// Serves one round of what a peer waits for: takes the smallest `max`
/// operations off `wishlist` and returns the answer for them.
fn serve(wishlist: &mut OperationIds, received: &OperationMap, max: usize) -> (answer:
    AskedOperations)
    ensures
        final(wishlist)@ == old(wishlist)@.difference(served(old(wishlist)@, max as nat)),
        answer@ == answer_for(received@, served(old(wishlist)@, max as nat)),
{
    let order = ids_in_order(wishlist);
    let count: usize = if order.len() <= max {
        order.len()
    } else {
        max
    };
    let mut answer = AskedOperations::new();
    let mut i: usize = 0;
    proof {
        assert(order@.take(0) =~= Seq::<OperationId>::empty());
        assert(answer@ =~= answer_for(received@, order@.take(0).to_set()));
        assert(wishlist@ =~= old(wishlist)@.difference(order@.take(0).to_set()));
    }
    while i < count
        invariant
            i <= count <= order.len(),
            order@ == ascending(old(wishlist)@),
            wishlist@ == old(wishlist)@.difference(order@.take(i as int).to_set()),
            answer@ == answer_for(received@, order@.take(i as int).to_set()),
        decreases count - i,
    {
        let op = order[i];
        proof {
            lemma_take_next(order@, i as int);
        }
        wishlist.remove(&op);
        match received.get(&op) {
            Some(payload) => {
                answer.insert(op, Some(payload.clone()));
            },
            None => {
                answer.insert(op, None);
            },
        }
        proof {
            assert(answer@ =~= answer_for(received@, order@.take(i + 1).to_set()));
        }
        i += 1;
    }
    proof {
        if order.len() <= max {
            assert(order@.take(order.len() as int) =~= order@);
        }
    }
    answer
}

/// The answering timer fired.
///
/// Every registered peer is sent an answer, in ascending order of peer:
/// the smallest `max_batch_size` operations it waits for, each with its
/// payload if the node has the operation and with `None` if not.
pub fn on_send_operation_loop(protocol: &mut FakeProtocol)
    ensures
        final(protocol)@ == old(protocol)@.send_operation_loop(),
{
    let order = keys_in_order(&protocol.node_infos);
    let max = protocol.max_batch_size;
    let ghost before = peers_view(protocol.node_infos@);
    let ghost stored = protocol.received@;
    let ghost sent = answers_view(protocol.send_operation@);
    let ghost start = protocol@;
    let mut i: usize = 0;
    proof {
        assert(before.dom() =~= protocol.node_infos@.dom());
        assert(order@.take(0) =~= Seq::<NodeId>::empty());
        assert(answers_view(protocol.send_operation@) =~= sent + answers(
            before,
            stored,
            max as nat,
            order@.take(0),
        ));
    }
    while i < order.len()
        invariant
            i <= order.len(),
            enumerates(order@, before.dom()),
            order@ == ascending(before.dom()),
            max == protocol.max_batch_size,
            protocol.received@ == stored,
            protocol@ == (State {
                peers: peers_view(protocol.node_infos@),
                operations_sent: answers_view(protocol.send_operation@),
                ..start
            }),
            peers_view(protocol.node_infos@).dom() == before.dom(),
            forall|id: NodeId|
                before.contains_key(id) ==> #[trigger] peers_view(protocol.node_infos@)[id]
                    == if order@.take(i as int).to_set().contains(id) {
                    waiting_after(before[id], max as nat)
                } else {
                    before[id]
                },
            answers_view(protocol.send_operation@) == sent + answers(
                before,
                stored,
                max as nat,
                order@.take(i as int),
            ),
        decreases order.len() - i,
    {
        let id = order[i];
        let ghost at_entry = peers_view(protocol.node_infos@);
        proof {
            lemma_take_next(order@, i as int);
            assert(order@.to_set().contains(order@[i as int]));
            assert(!order@.take(i as int).to_set().contains(id)) by {
                if order@.take(i as int).to_set().contains(id) {
                    let k = choose|k: int| 0 <= k < i && order@.take(i as int)[k] == id;
                    assert(order@[k] < order@[i as int]);
                }
            }
            assert(at_entry[id] == before[id]);
        }
        match protocol.node_infos.remove(&id) {
            Some(info) => {
                let mut info = info;
                let answer = serve(&mut info.wishlist, &protocol.received, max);
                assert(info@ == waiting_after(before[id], max as nat));
                protocol.node_infos.insert(id, info);
                send_operations(id, answer, &mut protocol.send_operation);
                assert(answers_view(protocol.send_operation@) =~= sent + answers(
                    before,
                    stored,
                    max as nat,
                    order@.take(i + 1),
                ));
            },
            None => {
                assert(false);
            },
        }
        proof {
            assert(peers_view(protocol.node_infos@).dom() =~= before.dom());
            assert forall|other: NodeId| before.contains_key(other) implies #[trigger] peers_view(
                protocol.node_infos@,
            )[other] == if order@.take(i + 1).to_set().contains(other) {
                waiting_after(before[other], max as nat)
            } else {
                before[other]
            } by {
                if other != id {
                    assert(peers_view(protocol.node_infos@)[other] == at_entry[other]);
                }
            }
        }
        i += 1;
    }
    proof {
        assert(order@.take(order.len() as int) =~= order@);
        assert(peers_view(protocol.node_infos@) =~= before.map_values(
            |peer: crate::registry::PeerView| waiting_after(peer, max as nat),
        ));
    }
}

/// The first match of a walk lies past every member that does not fit.
proof fn lemma_first_match_skip(order: Seq<NodeId>, fits: spec_fn(NodeId) -> bool, i: int)
    requires
        0 <= i <= order.len(),
        forall|k: int| 0 <= k < i ==> !fits(#[trigger] order[k]),
    ensures
        first_match(order, fits) == first_match(order.skip(i), fits),
    decreases i,
{
    if i == 0 {
        assert(order.skip(0) =~= order);
    } else {
        assert(!fits(order[0]));
        let rest = order.drop_first();
        assert forall|k: int| 0 <= k < i - 1 implies !fits(#[trigger] rest[k]) by {
            assert(rest[k] == order[k + 1]);
        }
        lemma_first_match_skip(rest, fits, i - 1);
        assert(rest.skip(i - 1) =~= order.skip(i));
    }
}

/// Whether peer `id` is believed to know operation `op`.
fn knows(registry: &Registry, id: NodeId, op: OperationId) -> (yes: bool)
    ensures
        yes == (peers_view(registry@).contains_key(id) && peers_view(
            registry@,
        )[id].known_op.contains(op)),
{
    match registry.get(&id) {
        Some(info) => info.known_op.contains(&op),
        None => false,
    }
}

/// The first peer of `order` that knows `op` and has a planned ask with
/// room.
fn first_with_room(
    order: &Vec<NodeId>,
    registry: &Registry,
    wanted: &WantOperations,
    max: usize,
    op: OperationId,
) -> (found: Option<NodeId>)
    ensures
        found == first_match(
            order@,
            |id: NodeId| has_room(peers_view(registry@), wanted_view(wanted@), max as nat, op, id),
        ),
        found matches Some(id) ==> has_room(
            peers_view(registry@),
            wanted_view(wanted@),
            max as nat,
            op,
            id,
        ),
{
    let ghost fits = |id: NodeId|
        has_room(peers_view(registry@), wanted_view(wanted@), max as nat, op, id);
    let mut i: usize = 0;
    while i < order.len()
        invariant
            i <= order.len(),
            fits == |id: NodeId|
                has_room(peers_view(registry@), wanted_view(wanted@), max as nat, op, id),
            forall|k: int| 0 <= k < i ==> !fits(#[trigger] order@[k]),
        decreases order.len() - i,
    {
        let id = order[i];
        let roomy = knows(registry, id, op) && match wanted.get(&id) {
            Some(ops) => ops.len() < max,
            None => false,
        };
        assert(roomy == fits(id));
        if roomy {
            proof {
                lemma_first_match_skip(order@, fits, i as int);
                assert(order@.skip(i as int)[0] == id);
            }
            return Some(id);
        }
        i += 1;
    }
    proof {
        lemma_first_match_skip(order@, fits, order.len() as int);
    }
    None
}

/// The first peer of `order` for which a first ask can be planned to hold
/// `op`: one that knows `op` and has no planned ask, if a batch may hold an
/// operation at all.
fn first_without_plan(
    order: &Vec<NodeId>,
    registry: &Registry,
    wanted: &WantOperations,
    max: usize,
    op: OperationId,
) -> (found: Option<NodeId>)
    ensures
        found == first_match(
            order@,
            |id: NodeId|
                has_no_plan(peers_view(registry@), wanted_view(wanted@), max as nat, op, id),
        ),
{
    let ghost fits = |id: NodeId|
        has_no_plan(peers_view(registry@), wanted_view(wanted@), max as nat, op, id);
    let mut i: usize = 0;
    while i < order.len()
        invariant
            i <= order.len(),
            fits == |id: NodeId|
                has_no_plan(peers_view(registry@), wanted_view(wanted@), max as nat, op, id),
            forall|k: int| 0 <= k < i ==> !fits(#[trigger] order@[k]),
        decreases order.len() - i,
    {
        let id = order[i];
        let free = max >= 1 && knows(registry, id, op) && !wanted.contains_key(&id);
        assert(free == fits(id));
        if free {
            proof {
                lemma_first_match_skip(order@, fits, i as int);
                assert(order@.skip(i as int)[0] == id);
            }
            return Some(id);
        }
        i += 1;
    }
    proof {
        lemma_first_match_skip(order@, fits, order.len() as int);
    }
    None
}

/// Looks at operation `op` of the wishlist for planning; `order` holds the
/// registered peers in ascending order.
fn place(op: OperationId, order: &Vec<NodeId>, protocol: &mut FakeProtocol)
    requires
        order@ == ascending(old(protocol)@.peers.dom()),
    ensures
        final(protocol)@ == old(protocol)@.placed(op),
{
    if protocol.already_asked.contains(&op) || protocol.received.contains_key(&op) {
        return ;
    }
    match first_with_room(order, &protocol.node_infos, &protocol.wanted, protocol.max_batch_size, op) {
        Some(id) => {
            let ghost plan = wanted_view(protocol.wanted@);
            match protocol.wanted.remove(&id) {
                Some(ops) => {
                    let mut ops = ops;
                    ops.insert(op);
                    protocol.wanted.insert(id, ops);
                },
                None => {},
            }
            protocol.already_asked.insert(op);
            assert(wanted_view(protocol.wanted@) =~= plan.insert(id, plan[id].insert(op)));
        },
        None => {
            match first_without_plan(
                order,
                &protocol.node_infos,
                &protocol.wanted,
                protocol.max_batch_size,
                op,
            ) {
                Some(id) => {
                    let ghost plan = wanted_view(protocol.wanted@);
                    let mut ops = OperationIds::new();
                    ops.insert(op);
                    protocol.wanted.insert(id, ops);
                    assert(wanted_view(protocol.wanted@) =~= plan.insert(id, set![op]));
                },
                None => {},
            }
        },
    }
}

/// The asking timer fired.
///
/// Every wished operation that is neither planned nor received is planned
/// into the ask of a peer that knows it, and then every planned ask is
/// queued, in ascending order of peer.
pub fn on_asking_loop(protocol: &mut FakeProtocol)
    ensures
        final(protocol)@ == old(protocol)@.asking_loop(),
{
    let ops = ids_in_order(&protocol.wishlist);
    let peers = keys_in_order(&protocol.node_infos);
    let mut i: usize = 0;
    proof {
        assert(peers_view(protocol.node_infos@).dom() =~= protocol.node_infos@.dom());
        assert(ops@.take(0) =~= Seq::<OperationId>::empty());
    }
    while i < ops.len()
        invariant
            i <= ops.len(),
            ops@ == ascending(old(protocol)@.wishlist),
            peers@ == ascending(old(protocol)@.peers.dom()),
            protocol@.peers == old(protocol)@.peers,
            protocol@.asks_sent == old(protocol)@.asks_sent,
            protocol@ == old(protocol)@.planned(ops@.take(i as int)),
        decreases ops.len() - i,
    {
        proof {
            lemma_take_next(ops@, i as int);
        }
        place(ops[i], &peers, protocol);
        i += 1;
    }
    let ghost after = protocol@;
    let ghost sent = after.asks_sent;
    let targets = keys_in_order(&protocol.wanted);
    let mut j: usize = 0;
    proof {
        assert(ops@.take(ops.len() as int) =~= ops@);
        assert(wanted_view(protocol.wanted@).dom() =~= protocol.wanted@.dom());
        assert(targets@.take(0) =~= Seq::<NodeId>::empty());
        assert(batches_view(protocol.ask_batch_queue@) =~= sent + asks(
            after.wanted,
            targets@.take(0),
        ));
    }
    while j < targets.len()
        invariant
            j <= targets.len(),
            enumerates(targets@, after.wanted.dom()),
            targets@ == ascending(after.wanted.dom()),
            after == old(protocol)@.planned(ascending(old(protocol)@.wishlist)),
            sent == old(protocol)@.asks_sent,
            protocol@ == (State { asks_sent: batches_view(protocol.ask_batch_queue@), ..after }),
            batches_view(protocol.ask_batch_queue@) == sent + asks(
                after.wanted,
                targets@.take(j as int),
            ),
        decreases targets.len() - j,
    {
        let id = targets[j];
        proof {
            lemma_take_next(targets@, j as int);
            assert(targets@.to_set().contains(targets@[j as int]));
        }
        match protocol.wanted.get(&id) {
            Some(ops) => {
                let snapshot = ops.clone();
                ask_operations(id, snapshot, &mut protocol.ask_batch_queue);
            },
            None => {},
        }
        proof {
            assert(batches_view(protocol.ask_batch_queue@) =~= sent + asks(
                after.wanted,
                targets@.take(j + 1),
            ));
        }
        j += 1;
    }
    proof {
        assert(targets@.take(targets.len() as int) =~= targets@);
    }
}

} // verus!
