//! What holds of the engine over any run of events.
use vstd::prelude::*;

use crate::ascending::ascending;
use crate::ascending::lemma_ascending_enumerates;
use crate::ids::NodeId;
use crate::ids::Operation;
use crate::ids::OperationId;
use crate::less_cpu::model::Event;
use crate::less_cpu::model::State;
use crate::less_cpu::types::FakeProtocol;
use crate::registry::announced;
use crate::registry::fan_out_batches;
use crate::registry::learned;
use crate::registry::lemma_announced_twice;
use crate::registry::lemma_announcements;
use crate::registry::lemma_first_peers_finite;

verus! {

/// Whether no event of `events` ends the memory of past asks.
pub open spec fn without_prune(events: Seq<Event>) -> bool {
    forall|k: int| 0 <= k < events.len() ==> !(#[trigger] events[k] is Prune)
}

/// Whether operation `op` is settled until time `until`: the node has it,
/// or its cooling window does not end before `until`.
pub open spec fn settled(state: State, op: OperationId, until: int) -> bool {
    state.received.contains_key(op) || (state.asked.contains_key(op) && state.asked[op].until
        >= until)
}

/// The state of an engine is well-formed.
pub proof fn lemma_engine_is_wf(protocol: &FakeProtocol)
    ensures
        protocol@.wf(),
{
    assert(protocol@.peers.dom() =~= protocol.node_infos@.dom());
}

/// A new engine is well-formed, and every event keeps an engine so.
pub proof fn law_wf_is_kept(
    peer_count: nat,
    max_batch_size: nat,
    period: nat,
    capacity: nat,
    state: State,
    event: Event,
)
    ensures
        State::initial(peer_count, max_batch_size, period, capacity).wf(),
        state.wf() ==> state.step(event).wf(),
{
    lemma_first_peers_finite(peer_count);
    if state.wf() {
        match event {
            Event::SendLoop { now } => {
                lemma_send_loop_keeps_peers(state, now, state.buffer.len());
            },
            Event::Delivery { from, ops } => {
                assert(state.step(event).peers.dom() =~= state.peers.dom().insert(from));
            },
            Event::Ask { from, op_ids } => {
                assert(state.step(event).peers.dom() =~= state.peers.dom().insert(from));
            },
            Event::Register { id } => {
                assert(state.step(event).peers.dom() =~= state.peers.dom().insert(id));
            },
            _ => {},
        }
    }
}

/// The engine never asks for an operation that the node has.
pub proof fn law_received_is_not_asked(
    state: State,
    batch: Set<OperationId>,
    from: NodeId,
    now: int,
    op: OperationId,
)
    requires
        state.received.contains_key(op),
    ensures
        !state.ask_set(batch, from, now).contains(op),
{
}

/// Whether every ask queued from position `base` on names only operations
/// that `received` does not hold.
pub open spec fn asks_for_missing_since(
    state: State,
    base: int,
    received: Map<OperationId, Operation>,
) -> bool {
    forall|k: int, op: OperationId|
        base <= k < state.asks_sent.len() && (#[trigger] state.asks_sent[k]).1.contains(op)
            ==> !#[trigger] received.contains_key(op)
}

/// An announcement queues only asks for what the node lacks.
proof fn lemma_batch_asks_for_missing(
    state: State,
    batch: Set<OperationId>,
    from: NodeId,
    now: int,
    base: int,
)
    requires
        0 <= base <= state.asks_sent.len(),
        asks_for_missing_since(state, base, state.received),
    ensures
        base <= state.batch_received(batch, from, now).asks_sent.len(),
        state.batch_received(batch, from, now).received == state.received,
        asks_for_missing_since(state.batch_received(batch, from, now), base, state.received),
{
    let next = state.batch_received(batch, from, now);
    assert forall|k: int, op: OperationId|
        base <= k < next.asks_sent.len() && (#[trigger] next.asks_sent[k]).1.contains(
            op,
        ) implies !#[trigger] state.received.contains_key(op) by {
        if k < state.asks_sent.len() {
            assert(next.asks_sent[k] == state.asks_sent[k]);
        }
    }
}

/// A replay of deferred records queues only asks for what the node lacks.
proof fn lemma_send_loop_asks_for_missing(state: State, now: int, budget: nat, base: int)
    requires
        0 <= base <= state.asks_sent.len(),
        asks_for_missing_since(state, base, state.received),
    ensures
        base <= state.send_loop(now, budget).asks_sent.len(),
        state.send_loop(now, budget).received == state.received,
        asks_for_missing_since(state.send_loop(now, budget), base, state.received),
    decreases budget,
{
    if budget != 0 && state.head_is_due(now) {
        let popped = State { buffer: state.buffer.drop_first(), ..state };
        lemma_batch_asks_for_missing(
            popped,
            state.buffer[0].ops,
            state.buffer[0].source,
            now,
            base,
        );
        lemma_send_loop_asks_for_missing(
            state.head_replayed(now),
            now,
            (budget - 1) as nat,
            base,
        );
    }
}

/// No event makes the engine ask for an operation that the node has: the
/// asks that an event queues name only operations that the node lacks
/// when the event arrives.
pub proof fn law_asks_are_for_missing(state: State, event: Event)
    ensures
        state.asks_sent.len() <= state.step(event).asks_sent.len(),
        asks_for_missing_since(state.step(event), state.asks_sent.len() as int, state.received),
{
    let base = state.asks_sent.len() as int;
    match event {
        Event::Batch { batch, from, now } => {
            lemma_batch_asks_for_missing(state, batch, from, now, base);
        },
        Event::SendLoop { now } => {
            lemma_send_loop_asks_for_missing(state, now, state.buffer.len(), base);
        },
        _ => {},
    }
}

/// An operation is asked for only if it was announced, its cooling window
/// has passed and the announcing peer was not asked for it last.
pub proof fn law_ask_needs_window_passed(
    state: State,
    batch: Set<OperationId>,
    from: NodeId,
    now: int,
    op: OperationId,
)
    requires
        state.ask_set(batch, from, now).contains(op),
    ensures
        batch.contains(op),
        state.asked.contains_key(op) ==> state.asked[op].until <= now && !state.asked[op].peers.contains(
            from,
        ),
{
}

/// Asking records the ask: the window of an operation asked for at `now`
/// ends one period later, and the peer asked is the announcing one.
pub proof fn law_ask_is_recorded(
    state: State,
    batch: Set<OperationId>,
    from: NodeId,
    now: int,
    op: OperationId,
)
    requires
        state.ask_set(batch, from, now).contains(op),
    ensures
        state.batch_received(batch, from, now).asked.contains_key(op),
        state.batch_received(batch, from, now).asked[op].until == now + state.period,
        state.batch_received(batch, from, now).asked[op].peers == seq![from],
{
}

/// An announcement keeps settled what is settled.
proof fn lemma_batch_keeps_settled(
    state: State,
    batch: Set<OperationId>,
    from: NodeId,
    now: int,
    op: OperationId,
    until: int,
)
    requires
        settled(state, op, until),
    ensures
        settled(state.batch_received(batch, from, now), op, until),
        state.batch_received(batch, from, now).period == state.period,
{
    let next = state.batch_received(batch, from, now);
    if !state.received.contains_key(op) {
        if state.ask_set(batch, from, now).contains(op) {
            assert(state.asked[op].until <= now);
            assert(next.asked[op].until == now + state.period);
        } else {
            assert(next.asked[op] == state.asked[op]);
        }
    }
}

/// A replay of deferred records keeps settled what is settled.
proof fn lemma_send_loop_keeps_settled(
    state: State,
    now: int,
    budget: nat,
    op: OperationId,
    until: int,
)
    requires
        settled(state, op, until),
    ensures
        settled(state.send_loop(now, budget), op, until),
        state.send_loop(now, budget).period == state.period,
    decreases budget,
{
    if budget != 0 && state.head_is_due(now) {
        let popped = State { buffer: state.buffer.drop_first(), ..state };
        lemma_batch_keeps_settled(
            popped,
            state.buffer[0].ops,
            state.buffer[0].source,
            now,
            op,
            until,
        );
        lemma_send_loop_keeps_settled(state.head_replayed(now), now, (budget - 1) as nat, op, until);
    }
}

/// A run without pruning keeps settled what is settled.
proof fn lemma_run_keeps_settled(state: State, events: Seq<Event>, op: OperationId, until: int)
    requires
        settled(state, op, until),
        without_prune(events),
    ensures
        settled(state.run(events), op, until),
        state.run(events).period == state.period,
    decreases events.len(),
{
    if events.len() > 0 {
        let earlier = events.drop_last();
        assert(without_prune(earlier)) by {
            assert forall|k: int| 0 <= k < earlier.len() implies !(#[trigger] earlier[k] is Prune) by {
                assert(earlier[k] == events[k]);
            }
        }
        lemma_run_keeps_settled(state, earlier, op, until);
        let before = state.run(earlier);
        assert(!(events[events.len() - 1] is Prune));
        match events.last() {
            Event::Batch { batch, from, now } => {
                lemma_batch_keeps_settled(before, batch, from, now, op, until);
            },
            Event::Delivery { from, ops } => {},
            Event::Ask { from, op_ids } => {},
            Event::SendLoop { now } => {
                lemma_send_loop_keeps_settled(before, now, before.buffer.len(), op, until);
            },
            Event::Prune => {},
            Event::Register { id } => {},
            Event::Record { op, payload } => {},
        }
    }
}

/// No second ask within the cooling window.
///
/// Once an operation was asked for at time `first`, no announcement that
/// arrives before `first` plus one period makes the engine ask for it
/// again, from this peer or any other, whatever events lie between, as
/// long as the memory of past asks was not pruned.
pub proof fn law_no_second_ask_within_period(
    state: State,
    first_batch: Set<OperationId>,
    first_from: NodeId,
    first: int,
    between: Seq<Event>,
    second_batch: Set<OperationId>,
    second_from: NodeId,
    second: int,
    op: OperationId,
)
    requires
        state.ask_set(first_batch, first_from, first).contains(op),
        without_prune(between),
        second < first + state.period,
    ensures
        !state.batch_received(first_batch, first_from, first).run(between).ask_set(
            second_batch,
            second_from,
            second,
        ).contains(op),
{
    let asked = state.batch_received(first_batch, first_from, first);
    law_ask_is_recorded(state, first_batch, first_from, first, op);
    lemma_run_keeps_settled(asked, between, op, first + state.period);
}

/// Once a peer was asked for an operation, it is not asked for it again
/// while that ask is the last one on record.
pub proof fn law_same_peer_is_not_asked_again(
    state: State,
    batch: Set<OperationId>,
    from: NodeId,
    now: int,
    op: OperationId,
)
    requires
        state.asked.contains_key(op),
        state.asked[op].peers.contains(from),
    ensures
        !state.ask_set(batch, from, now).contains(op),
{
}

/// After pruning, every operation the node lacks counts as never asked
/// for: an announcement of it is asked for at once.
pub proof fn law_pruned_is_as_never_asked(
    state: State,
    batch: Set<OperationId>,
    from: NodeId,
    now: int,
    op: OperationId,
)
    requires
        batch.contains(op),
        !state.received.contains_key(op),
    ensures
        state.pruned().ask_set(batch, from, now).contains(op),
{
}

/// A replay of deferred records keeps the buffer within its bound.
proof fn lemma_send_loop_bounded(state: State, now: int, budget: nat, bound: nat)
    requires
        state.buffer.len() <= bound,
        state.capacity <= bound,
    ensures
        state.send_loop(now, budget).buffer.len() <= bound,
        state.send_loop(now, budget).capacity == state.capacity,
    decreases budget,
{
    if budget != 0 && state.head_is_due(now) {
        lemma_send_loop_bounded(state.head_replayed(now), now, (budget - 1) as nat, bound);
    }
}

/// The buffer stays within its capacity.
///
/// Whatever events the engine handles, the buffer of deferred
/// announcements never holds more records than the capacity, or than it
/// held at the start if that was more. An announcement that finds the
/// buffer full leaves it as it is.
pub proof fn law_buffer_stays_within_capacity(state: State, events: Seq<Event>)
    ensures
        state.run(events).capacity == state.capacity,
        state.run(events).buffer.len() <= if state.buffer.len() <= state.capacity {
            state.capacity
        } else {
            state.buffer.len()
        },
    decreases events.len(),
{
    if events.len() > 0 {
        law_buffer_stays_within_capacity(state, events.drop_last());
        let before = state.run(events.drop_last());
        let bound = if state.buffer.len() <= state.capacity {
            state.capacity
        } else {
            state.buffer.len()
        };
        match events.last() {
            Event::SendLoop { now } => {
                lemma_send_loop_bounded(before, now, before.buffer.len(), bound);
            },
            _ => {},
        }
    }
}

/// An announcement appends at most one record, and none to a full buffer.
pub proof fn law_full_buffer_drops(state: State, batch: Set<OperationId>, from: NodeId, now: int)
    ensures
        state.buffer.len() >= state.capacity ==> state.batch_received(batch, from, now).buffer
            == state.buffer,
        state.buffer.len() < state.capacity ==> state.batch_received(batch, from, now).buffer
            == state.buffer.push(state.batch_received(batch, from, now).buffer.last()),
{
    let next = state.batch_received(batch, from, now);
    if state.buffer.len() < state.capacity {
        assert(next.buffer =~= state.buffer.push(next.buffer.last()));
    }
}

/// A delivery stores what it delivers: afterwards the node has every
/// delivered operation with the payload delivered, and what it had of other
/// operations is as before.
pub proof fn law_delivery_stores_the_payload(
    state: State,
    from: NodeId,
    ops: Map<OperationId, Operation>,
    op: OperationId,
)
    ensures
        ops.contains_key(op) ==> state.operation_received(from, ops).received.contains_key(op)
            && state.operation_received(from, ops).received[op] == ops[op],
        !ops.contains_key(op) ==> state.operation_received(from, ops).received.contains_key(op)
            == state.received.contains_key(op),
        !ops.contains_key(op) && state.received.contains_key(op) ==> state.operation_received(
            from,
            ops,
        ).received[op] == state.received[op],
{
}

/// A delivery is never announced to the peer it came from. Each
/// announcement it causes names exactly the delivered operations that the
/// addressee was not believed to know, and no peer is addressed twice.
pub proof fn law_delivery_is_not_announced_to_sender(
    state: State,
    from: NodeId,
    ops: Map<OperationId, Operation>,
)
    requires
        state.wf(),
    ensures
        state.operation_received(from, ops).batches_sent.len() >= state.batches_sent.len(),
        state.operation_received(from, ops).batches_sent.take(state.batches_sent.len() as int)
            == state.batches_sent,
        forall|k: int|
            state.batches_sent.len() <= k < state.operation_received(from, ops).batches_sent.len()
                ==> {
                let sent = #[trigger] state.operation_received(from, ops).batches_sent[k];
                &&& sent.0 != from
                &&& state.peers.contains_key(sent.0)
                &&& sent.1 == ops.dom().difference(state.peers[sent.0].known_op)
                &&& !sent.1.is_empty()
            },
        forall|j: int, k: int|
            state.batches_sent.len() <= j < k < state.operation_received(
                from,
                ops,
            ).batches_sent.len() ==> (#[trigger] state.operation_received(
                from,
                ops,
            ).batches_sent[j]).0 < (#[trigger] state.operation_received(from, ops).batches_sent[k]).0,
{
    let taught = learned(state.peers, from, ops.dom());
    let next = state.operation_received(from, ops);
    let news = fan_out_batches(taught, ops.dom());
    assert(taught.dom() =~= state.peers.dom().insert(from));
    lemma_ascending_enumerates(taught.dom());
    let order = ascending(taught.dom());
    lemma_announcements(taught, ops.dom(), order);
    assert(next.batches_sent.take(state.batches_sent.len() as int) =~= state.batches_sent);
    assert forall|k: int| state.batches_sent.len() <= k < next.batches_sent.len() implies {
        let sent = #[trigger] next.batches_sent[k];
        &&& sent.0 != from
        &&& state.peers.contains_key(sent.0)
        &&& sent.1 == ops.dom().difference(state.peers[sent.0].known_op)
        &&& !sent.1.is_empty()
    } by {
        let entry = news[k - state.batches_sent.len()];
        assert(next.batches_sent[k] == entry);
        assert(order.to_set().contains(entry.0));
        if entry.0 == from {
            assert(entry.1 =~= Set::empty());
        }
    }
    assert forall|j: int, k: int|
        state.batches_sent.len() <= j < k < next.batches_sent.len() implies (
    #[trigger] next.batches_sent[j]).0 < (#[trigger] next.batches_sent[k]).0 by {
        assert(next.batches_sent[j] == news[j - state.batches_sent.len()]);
        assert(next.batches_sent[k] == news[k - state.batches_sent.len()]);
    }
}

/// A delivery handled twice is as good as handled once: the second time
/// changes nothing and announces nothing.
pub proof fn law_delivery_is_idempotent(
    state: State,
    from: NodeId,
    ops: Map<OperationId, Operation>,
)
    requires
        state.wf(),
    ensures
        state.operation_received(from, ops).operation_received(from, ops)
            == state.operation_received(from, ops),
{
    let once = state.operation_received(from, ops);
    let twice = once.operation_received(from, ops);
    let taught = learned(state.peers, from, ops.dom());
    assert(taught.dom() =~= state.peers.dom().insert(from));
    lemma_announced_twice(taught, ops.dom());
    let told = announced(taught, ops.dom());
    assert(learned(told, from, ops.dom()) =~= told) by {
        assert(told[from].known_op.union(ops.dom()) =~= told[from].known_op);
    }
    assert(twice.received =~= once.received);
    assert(twice.batches_sent =~= once.batches_sent);
}

/// A replay of deferred records leaves the registry as it is.
proof fn lemma_send_loop_keeps_peers(state: State, now: int, budget: nat)
    ensures
        state.send_loop(now, budget).peers == state.peers,
    decreases budget,
{
    if budget != 0 && state.head_is_due(now) {
        lemma_send_loop_keeps_peers(state.head_replayed(now), now, (budget - 1) as nat);
    }
}

/// What a peer is believed to know only grows, except when the peer asks:
/// no other event unregisters a peer or takes an operation out of what it
/// is believed to know.
pub proof fn law_known_only_grows(state: State, event: Event, id: NodeId)
    requires
        !(event is Ask),
        state.peers.contains_key(id),
    ensures
        state.step(event).peers.contains_key(id),
        state.peers[id].known_op.subset_of(state.step(event).peers[id].known_op),
{
    match event {
        Event::SendLoop { now } => {
            lemma_send_loop_keeps_peers(state, now, state.buffer.len());
        },
        _ => {},
    }
}

/// A replay leaves nothing due, if what lies past its budget is not due.
proof fn lemma_send_loop_leaves_nothing_due(state: State, now: int, budget: nat)
    requires
        state.period > 0,
        budget <= state.buffer.len(),
        forall|k: int| budget <= k < state.buffer.len() ==> (#[trigger] state.buffer[k]).ready_at > now,
    ensures
        !state.send_loop(now, budget).head_is_due(now),
    decreases budget,
{
    if budget != 0 && state.head_is_due(now) {
        let next = state.head_replayed(now);
        assert forall|k: int| budget - 1 <= k < next.buffer.len() implies (
        #[trigger] next.buffer[k]).ready_at > now by {
            if k < state.buffer.len() - 1 {
                assert(next.buffer[k] == state.buffer[k + 1]);
            }
        }
        lemma_send_loop_leaves_nothing_due(next, now, (budget - 1) as nat);
    }
}

/// The timer of deferred announcements takes every record that is due.
///
/// With a period of at least one millisecond, when the timer has been
/// handled the buffer is empty or its oldest record is not due: the
/// records that the replay deferred anew are due later than `now`.
pub proof fn law_send_loop_leaves_nothing_due(state: State, now: int)
    requires
        state.period > 0,
    ensures
        !state.send_loop_fired(now).head_is_due(now),
{
    lemma_send_loop_leaves_nothing_due(state, now, state.buffer.len());
}

} // verus!
