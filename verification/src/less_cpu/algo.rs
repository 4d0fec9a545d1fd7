//! The engine's event handlers.
use vstd::prelude::*;

use crate::ascending::ids_in_order;
use crate::ascending::keys_in_order;
use crate::ascending::lemma_take_next;
use crate::ids::key_set;
use crate::less_cpu::model::asked_after;
use crate::less_cpu::model::AskRecord;
use crate::less_cpu::model::State;
use crate::less_cpu::model::verdict;
use crate::less_cpu::model::Verdict;
use crate::less_cpu::types::asked_view;
use crate::less_cpu::types::buffer_view;
use crate::less_cpu::types::FakeProtocol;
use crate::less_cpu::types::NodeId;
use crate::less_cpu::types::OperationId;
use crate::less_cpu::types::OperationIds;
use crate::less_cpu::types::OperationMap;
use crate::less_cpu::types::OperationQueue;
use crate::less_cpu::types::operations_view;
use crate::less_cpu::types::Timestamp;
use crate::less_cpu::types::WantOperations;
use crate::registry::ask_operations;
use crate::registry::fan_out;
use crate::registry::forget;
use crate::registry::learn;

verus! {

/// Whether `id` is among `peers`.
fn was_asked(peers: &Vec<NodeId>, id: NodeId) -> (found: bool)
    ensures
        found == peers@.contains(id),
{
    let mut i: usize = 0;
    while i < peers.len()
        invariant
            i <= peers.len(),
            forall|k: int| 0 <= k < i ==> peers@[k] != id,
        decreases peers.len() - i,
    {
        if peers[i] == id {
            return true;
        }
        i += 1;
    }
    false
}

/// What to do with operation `op`, announced by peer `from` at time `now`.
fn judge(
    received: &OperationMap,
    asked: &WantOperations,
    op: OperationId,
    from: NodeId,
    now: Timestamp,
) -> (v: Verdict)
    ensures
        v == verdict(received@, asked_view(asked@), op, from, now as int),
{
    if received.contains_key(&op) {
        return Verdict::Skip;
    }
    match asked.get(&op) {
        Some(last) => {
            if was_asked(&last.1, from) {
                Verdict::Skip
            } else if last.0 > now {
                Verdict::Defer
            } else {
                Verdict::Ask
            }
        },
        None => Verdict::Ask,
    }
}

/// Sorts the operations of `batch` into those to ask `from` for at once
/// and those to look at again later, and records the former as asked.
fn sort_batch(
    batch: &OperationIds,
    from: NodeId,
    now: Timestamp,
    until: Timestamp,
    received: &OperationMap,
    asked: &mut WantOperations,
) -> (sets: (OperationIds, OperationIds))
    ensures
        sets.0@ == batch@.filter(
            |op: OperationId|
                verdict(received@, asked_view(old(asked)@), op, from, now as int) is Ask,
        ),
        sets.1@ == batch@.filter(
            |op: OperationId|
                verdict(received@, asked_view(old(asked)@), op, from, now as int) is Defer,
        ),
        asked_view(final(asked)@) == asked_after(
            asked_view(old(asked)@),
            sets.0@,
            from,
            until as int,
        ),
{
    let order = ids_in_order(batch);
    let ghost before = asked_view(asked@);
    let ghost is_ask = |op: OperationId| verdict(received@, before, op, from, now as int) is Ask;
    let ghost is_defer = |op: OperationId|
        verdict(received@, before, op, from, now as int) is Defer;
    let mut ask_set = OperationIds::new();
    let mut future_set = OperationIds::new();
    let mut i: usize = 0;
    proof {
        assert(order@.take(0) =~= Seq::<OperationId>::empty());
        assert(asked_view(asked@) =~= asked_after(before, ask_set@, from, until as int));
    }
    while i < order.len()
        invariant
            i <= order.len(),
            crate::ascending::enumerates(order@, batch@),
            before == asked_view(old(asked)@),
            is_ask == |op: OperationId| verdict(received@, before, op, from, now as int) is Ask,
            is_defer == |op: OperationId|
                verdict(received@, before, op, from, now as int) is Defer,
            ask_set@ == order@.take(i as int).to_set().filter(is_ask),
            future_set@ == order@.take(i as int).to_set().filter(is_defer),
            asked_view(asked@) == asked_after(before, ask_set@, from, until as int),
        decreases order.len() - i,
    {
        let op = order[i];
        proof {
            lemma_take_next(order@, i as int);
            assert(!order@.take(i as int).to_set().contains(op)) by {
                if order@.take(i as int).to_set().contains(op) {
                    let k = choose|k: int| 0 <= k < i && order@.take(i as int)[k] == op;
                    assert(order@[k] < order@[i as int]);
                }
            }
            assert(!ask_set@.contains(op));
            assert(asked_view(asked@).contains_key(op) == before.contains_key(op));
            assert(before.contains_key(op) ==> asked_view(asked@)[op] == before[op]);
        }
        let ghost asks_before = ask_set@;
        let ghost table = asked_view(asked@);
        match judge(received, asked, op, from, now) {
            Verdict::Skip => {},
            Verdict::Defer => {
                future_set.insert(op);
            },
            Verdict::Ask => {
                ask_set.insert(op);
                let mut peers: Vec<NodeId> = Vec::new();
                peers.push(from);
                asked.insert(op, (until, peers));
                proof {
                    assert(peers@ =~= seq![from]);
                    assert(asked_view(asked@) =~= table.insert(
                        op,
                        AskRecord { until: until as int, peers: seq![from] },
                    ));
                    assert(asked_view(asked@) =~= asked_after(
                        before,
                        asks_before.insert(op),
                        from,
                        until as int,
                    ));
                }
            },
        }
        proof {
            assert(ask_set@ =~= order@.take(i + 1).to_set().filter(is_ask));
            assert(future_set@ =~= order@.take(i + 1).to_set().filter(is_defer));
        }
        i += 1;
    }
    proof {
        assert(order@.take(order.len() as int) =~= order@);
    }
    (ask_set, future_set)
}

/// Peer `node_id` announced the operations of `op_batch`, at time `now`.
///
/// Each announced operation that the node lacks, and has not asked this
/// peer for, is asked for at once or, if it was asked for less than a
/// period ago, put aside for later. Returns the operations asked for.
pub fn on_batch_received(
    op_batch: OperationIds,
    node_id: NodeId,
    now: Timestamp,
    protocol: &mut FakeProtocol,
) -> (ask_set: OperationIds)
    requires
        now + old(protocol).op_batch_proc_period <= u64::MAX,
    ensures
        ask_set@ == old(protocol)@.ask_set(op_batch@, node_id, now as int),
        final(protocol)@ == old(protocol)@.batch_received(op_batch@, node_id, now as int),
{
    let until: Timestamp = now + protocol.op_batch_proc_period;
    let (ask_set, future_set) = sort_batch(
        &op_batch,
        node_id,
        now,
        until,
        &protocol.received,
        &mut protocol.wanted_alias_asked_ops,
    );
    if protocol.op_batch_buffer.len() < protocol.op_batch_buf_capacity {
        protocol.op_batch_buffer.push_back((until, node_id, future_set));
    }
    if !ask_set.is_empty() {
        ask_operations(node_id, ask_set.clone(), &mut protocol.ask_batch_queue);
    }
    proof {
        let expected = old(protocol)@.batch_received(op_batch@, node_id, now as int);
        assert(protocol@.buffer =~= expected.buffer);
        assert(protocol@.asks_sent =~= expected.asks_sent);
    }
    ask_set
}

/// Stores the payloads of `ops`. The payload of an operation that
/// `received` holds already is replaced by the one in `ops`.
fn store_all(received: &mut OperationMap, ops: &OperationMap)
    ensures
        final(received)@ == old(received)@.union_prefer_right(ops@),
{
    let order = keys_in_order(ops);
    let mut i: usize = 0;
    proof {
        assert(received@ =~= old(received)@.union_prefer_right(
            ops@.restrict(order@.take(0).to_set()),
        ));
    }
    while i < order.len()
        invariant
            i <= order.len(),
            crate::ascending::enumerates(order@, ops@.dom()),
            received@ == old(received)@.union_prefer_right(
                ops@.restrict(order@.take(i as int).to_set()),
            ),
        decreases order.len() - i,
    {
        let op = order[i];
        proof {
            lemma_take_next(order@, i as int);
            assert(order@.to_set().contains(order@[i as int]));
        }
        match ops.get(&op) {
            Some(payload) => {
                received.insert(op, payload.clone());
            },
            None => {},
        }
        proof {
            assert(received@ =~= old(received)@.union_prefer_right(
                ops@.restrict(order@.take(i + 1).to_set()),
            ));
        }
        i += 1;
    }
    proof {
        assert(order@.take(order.len() as int) =~= order@);
        assert(ops@.restrict(order@.to_set()) =~= ops@);
    }
}

/// Queues the answer `operations` to peer `to`.
fn send_operations(to: NodeId, operations: OperationMap, queue: &mut OperationQueue)
    ensures
        operations_view(final(queue)@) == operations_view(old(queue)@).push((to, operations@)),
{
    queue.push((to, operations));
}

/// Peer `node_id` delivered `operations`.
///
/// The node stores them, records that the peer knows them, and announces
/// them to every peer that is not believed to know them.
pub fn on_operation_received(node_id: NodeId, operations: OperationMap, protocol: &mut FakeProtocol)
    ensures
        final(protocol)@ == old(protocol)@.operation_received(node_id, operations@),
{
    let delivered = key_set(&operations);
    store_all(&mut protocol.received, &operations);
    learn(&mut protocol.node_infos, node_id, &delivered);
    fan_out(&mut protocol.node_infos, &delivered, &mut protocol.batch_send_queue);
}

/// The payloads that `received` holds of the operations in `op_ids`.
fn collect(received: &OperationMap, op_ids: &OperationIds) -> (found: OperationMap)
    ensures
        found@ == received@.restrict(op_ids@),
{
    let order = ids_in_order(op_ids);
    let mut found = OperationMap::new();
    let mut i: usize = 0;
    proof {
        assert(found@ =~= received@.restrict(order@.take(0).to_set()));
    }
    while i < order.len()
        invariant
            i <= order.len(),
            crate::ascending::enumerates(order@, op_ids@),
            found@ == received@.restrict(order@.take(i as int).to_set()),
        decreases order.len() - i,
    {
        let op = order[i];
        proof {
            lemma_take_next(order@, i as int);
        }
        match received.get(&op) {
            Some(payload) => {
                found.insert(op, payload.clone());
            },
            None => {},
        }
        proof {
            assert(found@ =~= received@.restrict(order@.take(i + 1).to_set()));
        }
        i += 1;
    }
    proof {
        assert(order@.take(order.len() as int) =~= order@);
    }
    found
}

/// Peer `node_id` asked for the operations in `op_ids`.
///
/// The peer is no longer believed to know them, and the payloads the node
/// has are queued as the answer.
pub fn on_ask_received(node_id: NodeId, op_ids: OperationIds, protocol: &mut FakeProtocol)
    ensures
        final(protocol)@ == old(protocol)@.ask_received(node_id, op_ids@),
{
    forget(&mut protocol.node_infos, node_id, &op_ids);
    let answer = collect(&protocol.received, &op_ids);
    send_operations(node_id, answer, &mut protocol.send_operation);
}

/// The timer of deferred announcements fired, at time `now`.
///
/// The records that were in the buffer when the timer fired are taken off
/// it, oldest first, up to the first that is not due yet, and each is
/// handled as an announcement that arrives at `now`.
pub fn on_send_loop(now: Timestamp, protocol: &mut FakeProtocol)
    requires
        now + old(protocol).op_batch_proc_period <= u64::MAX,
    ensures
        final(protocol)@ == old(protocol)@.send_loop_fired(now as int),
{
    let mut budget: usize = protocol.op_batch_buffer.len();
    assert(buffer_view(protocol.op_batch_buffer@).len() == budget);
    while budget > 0
        invariant
            now + protocol.op_batch_proc_period <= u64::MAX,
            protocol@.send_loop(now as int, budget as nat) == old(protocol)@.send_loop(
                now as int,
                old(protocol)@.buffer.len(),
            ),
        decreases budget,
    {
        let due = protocol.op_batch_buffer.len() > 0 && protocol.op_batch_buffer[0].0 <= now;
        assert(due == protocol@.head_is_due(now as int));
        if !due {
            return ;
        }
        let ghost at_entry = protocol@;
        match protocol.op_batch_buffer.pop_front() {
            Some(record) => {
                let (_, source, batch) = record;
                proof {
                    let popped = State { buffer: at_entry.buffer.drop_first(), ..at_entry };
                    assert(protocol@.buffer =~= popped.buffer);
                    assert(protocol@ == popped);
                }
                on_batch_received(batch, source, now, protocol);
                assert(protocol@ == at_entry.head_replayed(now as int));
            },
            None => {},
        }
        budget -= 1;
    }
}

/// The timer that ends the memory of past asks fired: every operation
/// counts as never asked for.
pub fn on_prune_asked_lifetime_loop(protocol: &mut FakeProtocol)
    ensures
        final(protocol)@ == old(protocol)@.pruned(),
{
    protocol.wanted_alias_asked_ops.clear();
    assert(protocol@.asked =~= Map::empty());
}

} // verus!
