//! What holds of the engine over any run of events.
use vstd::prelude::*;

use crate::ascending::ascending;
use crate::ascending::lemma_ascending_enumerates;
use crate::ids::NodeId;
use crate::ids::Operation;
use crate::ids::OperationId;
use crate::more_cpu::model::Answer;
use crate::more_cpu::model::asks;
use crate::more_cpu::model::delivered;
use crate::more_cpu::model::Event;
use crate::more_cpu::model::first_match;
use crate::more_cpu::model::has_no_plan;
use crate::more_cpu::model::has_room;
use crate::more_cpu::model::Plan;
use crate::more_cpu::model::State;
use crate::more_cpu::model::struck;
use crate::more_cpu::types::FakeProtocol;
use crate::registry::announced;
use crate::registry::fan_out_batches;
use crate::registry::learned;
use crate::registry::lemma_announced_twice;
use crate::registry::lemma_announcements;
use crate::registry::lemma_first_peers_finite;

verus! {

/// The state of an engine is well-formed.
pub proof fn lemma_engine_is_wf(protocol: &FakeProtocol)
    ensures
        protocol@.wf(),
{
    assert(protocol@.peers.dom() =~= protocol.node_infos@.dom());
    assert(protocol@.wanted.dom() =~= protocol.wanted@.dom());
}

/// A new engine is well-formed, and every event keeps an engine so.
pub proof fn law_wf_is_kept(peer_count: nat, max_batch_size: nat, state: State, event: Event)
    ensures
        State::initial(peer_count, max_batch_size).wf(),
        state.wf() ==> state.step(event).wf(),
{
    lemma_first_peers_finite(peer_count);
    if state.wf() {
        match event {
            Event::AskingLoop => {
                lemma_planned_keeps_wf(state, ascending(state.wishlist));
            },
            Event::Delivery { from, answer } => {
                assert(state.step(event).wanted.dom() =~= state.wanted.dom());
                assert(state.step(event).peers.dom() =~= state.peers.dom().insert(from));
            },
            Event::Batch { batch, from } => {
                if !state.news(batch).is_empty() {
                    assert(state.step(event).peers.dom() =~= state.peers.dom().insert(from));
                }
            },
            Event::Ask { from, op_ids } => {
                assert(state.step(event).peers.dom() =~= state.peers.dom().insert(from));
            },
            Event::SendOperationLoop => {
                assert(state.step(event).peers.dom() =~= state.peers.dom());
            },
            Event::Register { id } => {
                assert(state.step(event).peers.dom() =~= state.peers.dom().insert(id));
            },
            Event::Record { op, payload } => {
                assert(state.step(event).wanted.dom() =~= state.wanted.dom());
            },
        }
    }
}

/// Whether the node has operation `op` and neither wishes nor plans to ask
/// for it.
pub open spec fn obtained(state: State, op: OperationId) -> bool {
    &&& state.received.contains_key(op)
    &&& !state.wishlist.contains(op)
    &&& forall|id: NodeId| #[trigger]
        state.wanted.contains_key(id) ==> !state.wanted[id].contains(op)
}

/// What is found first in a walk fits, if anything is found.
proof fn lemma_first_match_fits(order: Seq<NodeId>, fits: spec_fn(NodeId) -> bool)
    ensures
        first_match(order, fits) matches Some(id) ==> fits(id),
    decreases order.len(),
{
    if order.len() > 0 && !fits(order[0]) {
        lemma_first_match_fits(order.drop_first(), fits);
    }
}

/// What planning one operation changes: at most the plan of one peer,
/// which gains the operation, and the set of planned operations, which
/// may gain it too.
proof fn lemma_placed(state: State, op: OperationId)
    ensures
        state.placed(op) == (State {
            wanted: state.placed(op).wanted,
            already_asked: state.placed(op).already_asked,
            ..state
        }),
        state.placed(op) != state ==> !state.received.contains_key(op)
            && !state.already_asked.contains(op),
        state.wanted.dom().finite() ==> state.placed(op).wanted.dom().finite(),
        state.wanted.dom().subset_of(state.placed(op).wanted.dom()),
        state.already_asked.subset_of(state.placed(op).already_asked),
        state.placed(op).already_asked.subset_of(state.already_asked.insert(op)),
        forall|id: NodeId| #[trigger]
            state.placed(op).wanted.contains_key(id) ==> {
                ||| state.wanted.contains_key(id) && state.placed(op).wanted[id]
                    == state.wanted[id]
                ||| state.wanted.contains_key(id) && state.wanted[id].len()
                    < state.max_batch_size && state.placed(op).wanted[id]
                    == state.wanted[id].insert(op)
                ||| !state.wanted.contains_key(id) && state.max_batch_size >= 1 && state.placed(
                    op,
                ).wanted[id] == set![op]
            },
{
    let order = ascending(state.peers.dom());
    let roomy = |id: NodeId| has_room(state.peers, state.wanted, state.max_batch_size, op, id);
    let free = |id: NodeId|
        has_no_plan(state.peers, state.wanted, state.max_batch_size, op, id);
    lemma_first_match_fits(order, roomy);
    lemma_first_match_fits(order, free);
}

/// Planning keeps the state well-formed.
proof fn lemma_planned_keeps_wf(state: State, order: Seq<OperationId>)
    requires
        state.wf(),
    ensures
        state.planned(order).wf(),
    decreases order.len(),
{
    if order.len() > 0 {
        lemma_planned_keeps_wf(state, order.drop_last());
        lemma_placed(state.planned(order.drop_last()), order.last());
    }
}

/// Planning keeps every planned ask within the batch size.
proof fn lemma_planned_bounded(state: State, order: Seq<OperationId>)
    requires
        state.bounded(),
    ensures
        state.planned(order).bounded(),
        state.planned(order).max_batch_size == state.max_batch_size,
    decreases order.len(),
{
    if order.len() > 0 {
        lemma_planned_bounded(state, order.drop_last());
        let before = state.planned(order.drop_last());
        lemma_placed(before, order.last());
    }
}

/// Striking operations from the planned asks makes none of them larger.
proof fn lemma_struck_bounded(state: State, got: Set<OperationId>)
    requires
        state.bounded(),
    ensures
        forall|id: NodeId| #[trigger]
            struck(state.wanted, got).contains_key(id) ==> struck(state.wanted, got)[id].finite()
                && struck(state.wanted, got)[id].len() <= state.max_batch_size,
{
    assert forall|id: NodeId| #[trigger]
        struck(state.wanted, got).contains_key(id) implies struck(state.wanted, got)[id].finite()
        && struck(state.wanted, got)[id].len() <= state.max_batch_size by {
        assert(state.wanted.contains_key(id));
        vstd::set_lib::lemma_len_difference(state.wanted[id], got);
    }
}

/// Planned asks stay within the batch size.
///
/// No run of events makes a planned ask larger than the batch size,
/// whatever the batch size is.
pub proof fn law_planned_asks_stay_bounded(state: State, events: Seq<Event>)
    requires
        state.bounded(),
    ensures
        state.run(events).bounded(),
        state.run(events).max_batch_size == state.max_batch_size,
    decreases events.len(),
{
    if events.len() > 0 {
        law_planned_asks_stay_bounded(state, events.drop_last());
        let before = state.run(events.drop_last());
        match events.last() {
            Event::AskingLoop => {
                lemma_planned_bounded(before, ascending(before.wishlist));
            },
            Event::Delivery { from, answer } => {
                lemma_struck_bounded(before, delivered(answer));
            },
            Event::Record { op, payload } => {
                lemma_struck_bounded(before, set![op]);
            },
            _ => {},
        }
    }
}

/// A new engine plans nothing, so its plans are bounded and hold nothing
/// that the node has.
pub proof fn law_initial_is_bounded_and_clean(peer_count: nat, max_batch_size: nat)
    ensures
        State::initial(peer_count, max_batch_size).bounded(),
        State::initial(peer_count, max_batch_size).clean(),
{
}

/// An operation that counts as planned is passed over by planning, and
/// what counts as planned keeps counting.
pub proof fn law_planned_is_not_planned_again(state: State, op: OperationId)
    ensures
        state.already_asked.contains(op) ==> state.placed(op) == state,
        state.already_asked.subset_of(state.placed(op).already_asked),
{
    lemma_placed(state, op);
}

/// Planning keeps an obtained operation out of wish and plan.
proof fn lemma_planned_keeps_obtained(state: State, order: Seq<OperationId>, op: OperationId)
    requires
        obtained(state, op),
    ensures
        obtained(state.planned(order), op),
        state.planned(order).asks_sent == state.asks_sent,
        state.wanted.dom().finite() ==> state.planned(order).wanted.dom().finite(),
    decreases order.len(),
{
    if order.len() > 0 {
        lemma_planned_keeps_obtained(state, order.drop_last(), op);
        let before = state.planned(order.drop_last());
        lemma_placed(before, order.last());
    }
}

/// The asks of a plan name, for each peer of the walk, what is planned
/// for it.
proof fn lemma_asks(wanted: Plan, order: Seq<NodeId>)
    ensures
        asks(wanted, order).len() == order.len(),
        forall|k: int|
            0 <= k < order.len() ==> #[trigger] asks(wanted, order)[k] == (
                order[k],
                wanted[order[k]],
            ),
    decreases order.len(),
{
    if order.len() > 0 {
        lemma_asks(wanted, order.drop_last());
    }
}

/// Whether no ask queued from position `base` on names operation `op`.
pub open spec fn not_asked_since(state: State, base: int, op: OperationId) -> bool {
    forall|k: int| base <= k < state.asks_sent.len() ==> !(#[trigger] state.asks_sent[k]).1.contains(op)
}

/// One event keeps an obtained operation obtained and queues no ask for
/// it.
proof fn lemma_step_keeps_obtained(state: State, event: Event, base: int, op: OperationId)
    requires
        obtained(state, op),
        state.wanted.dom().finite(),
        0 <= base <= state.asks_sent.len(),
        not_asked_since(state, base, op),
    ensures
        obtained(state.step(event), op),
        state.step(event).wanted.dom().finite(),
        base <= state.step(event).asks_sent.len(),
        not_asked_since(state.step(event), base, op),
{
    let next = state.step(event);
    match event {
        Event::Batch { batch, from } => {},
        Event::AskingLoop => {
            let order = ascending(state.wishlist);
            lemma_planned_keeps_obtained(state, order, op);
            let after = state.planned(order);
            lemma_ascending_enumerates(after.wanted.dom());
            let targets = ascending(after.wanted.dom());
            lemma_asks(after.wanted, targets);
            assert forall|k: int| base <= k < next.asks_sent.len() implies !(
            #[trigger] next.asks_sent[k]).1.contains(op) by {
                if k < state.asks_sent.len() {
                    assert(next.asks_sent[k] == state.asks_sent[k]);
                } else {
                    let at = k - state.asks_sent.len();
                    assert(next.asks_sent[k] == asks(after.wanted, targets)[at]);
                    assert(targets.to_set().contains(targets[at]));
                    assert(after.wanted.contains_key(targets[at]));
                }
            }
        },
        Event::Delivery { from, answer } => {
            assert(next.wanted.dom() =~= state.wanted.dom());
        },
        Event::Ask { from, op_ids } => {},
        Event::SendOperationLoop => {},
        Event::Register { id } => {},
        Event::Record { op, payload } => {
            assert(next.wanted.dom() =~= state.wanted.dom());
        },
    }
}

/// A run keeps an obtained operation obtained and queues no ask for it.
proof fn lemma_run_keeps_obtained(state: State, events: Seq<Event>, base: int, op: OperationId)
    requires
        obtained(state, op),
        state.wanted.dom().finite(),
        0 <= base <= state.asks_sent.len(),
        not_asked_since(state, base, op),
    ensures
        obtained(state.run(events), op),
        state.run(events).wanted.dom().finite(),
        base <= state.run(events).asks_sent.len(),
        not_asked_since(state.run(events), base, op),
    decreases events.len(),
{
    if events.len() > 0 {
        lemma_run_keeps_obtained(state, events.drop_last(), base, op);
        lemma_step_keeps_obtained(state.run(events.drop_last()), events.last(), base, op);
    }
}

/// A delivery ends the wish.
///
/// Once an operation was delivered, the node has it, wishes for it no
/// more, and no ask that is queued afterwards names it, whatever events
/// follow. An announcement of it does not bring the wish back.
pub proof fn law_delivered_is_not_asked_again(
    state: State,
    from: NodeId,
    answer: Answer,
    after: Seq<Event>,
    op: OperationId,
)
    requires
        state.wf(),
        delivered(answer).contains(op),
    ensures
        obtained(state.operation_received(from, answer).run(after), op),
        state.asks_sent.len() <= state.operation_received(from, answer).run(after).asks_sent.len(),
        not_asked_since(
            state.operation_received(from, answer).run(after),
            state.asks_sent.len() as int,
            op,
        ),
{
    let got = state.operation_received(from, answer);
    assert(got.wanted.dom() =~= state.wanted.dom());
    lemma_run_keeps_obtained(got, after, state.asks_sent.len() as int, op);
}

/// Planning keeps wish and plan free of what the node has.
proof fn lemma_planned_clean(state: State, order: Seq<OperationId>)
    requires
        state.clean(),
    ensures
        state.planned(order).clean(),
        state.planned(order).received == state.received,
    decreases order.len(),
{
    if order.len() > 0 {
        lemma_planned_clean(state, order.drop_last());
        let before = state.planned(order.drop_last());
        lemma_placed(before, order.last());
    }
}

/// The node never wishes or plans to ask for what it has.
///
/// If wish and plan hold no operation that the node has, no run of events
/// brings one in.
pub proof fn law_wish_and_plan_stay_clean(state: State, events: Seq<Event>)
    requires
        state.clean(),
    ensures
        state.run(events).clean(),
    decreases events.len(),
{
    if events.len() > 0 {
        law_wish_and_plan_stay_clean(state, events.drop_last());
        let before = state.run(events.drop_last());
        match events.last() {
            Event::AskingLoop => {
                lemma_planned_clean(before, ascending(before.wishlist));
            },
            _ => {},
        }
    }
}

/// The asking timer never asks for what the node has: every ask it queues
/// names only operations that the node lacks.
pub proof fn law_received_is_not_asked(state: State, op: OperationId)
    requires
        state.wf(),
        state.clean(),
        state.received.contains_key(op),
    ensures
        state.asks_sent.len() <= state.asking_loop().asks_sent.len(),
        not_asked_since(state.asking_loop(), state.asks_sent.len() as int, op),
{
    let order = ascending(state.wishlist);
    lemma_planned_clean(state, order);
    let after = state.planned(order);
    assert(obtained(state, op));
    lemma_planned_keeps_obtained(state, order, op);
    lemma_ascending_enumerates(after.wanted.dom());
    let targets = ascending(after.wanted.dom());
    lemma_asks(after.wanted, targets);
    let next = state.asking_loop();
    assert forall|k: int| state.asks_sent.len() <= k < next.asks_sent.len() implies !(
    #[trigger] next.asks_sent[k]).1.contains(op) by {
        let at = k - state.asks_sent.len();
        assert(next.asks_sent[k] == asks(after.wanted, targets)[at]);
        assert(targets.to_set().contains(targets[at]));
        assert(after.wanted.contains_key(targets[at]));
    }
}

/// An answer stores what it delivers: afterwards the node has every
/// delivered operation with the payload delivered, and what it had of other
/// operations is as before.
pub proof fn law_delivery_stores_the_payload(
    state: State,
    from: NodeId,
    answer: Answer,
    op: OperationId,
)
    ensures
        delivered(answer).contains(op) ==> state.operation_received(
            from,
            answer,
        ).received.contains_key(op) && Some(state.operation_received(from, answer).received[op])
            == answer[op],
        !delivered(answer).contains(op) ==> state.operation_received(
            from,
            answer,
        ).received.contains_key(op) == state.received.contains_key(op),
        !delivered(answer).contains(op) && state.received.contains_key(op)
            ==> state.operation_received(from, answer).received[op] == state.received[op],
{
}

/// Handing a payload to the store ends the wish as a delivery does: the
/// node has the operation afterwards and neither wishes nor plans to ask
/// for it, if it did not wish or plan to ask for an operation it had.
pub proof fn law_recorded_is_obtained(state: State, op: OperationId, payload: Operation)
    requires
        state.clean(),
    ensures
        obtained(state.recorded(op, payload), op),
        state.recorded(op, payload).clean(),
{
}

/// An answer is never announced to the peer it came from. Each
/// announcement it causes names exactly the delivered operations that the
/// addressee was not believed to know, and no peer is addressed twice.
pub proof fn law_delivery_is_not_announced_to_sender(state: State, from: NodeId, answer: Answer)
    requires
        state.wf(),
    ensures
        state.operation_received(from, answer).batches_sent.len() >= state.batches_sent.len(),
        state.operation_received(from, answer).batches_sent.take(state.batches_sent.len() as int)
            == state.batches_sent,
        forall|k: int|
            state.batches_sent.len() <= k < state.operation_received(
                from,
                answer,
            ).batches_sent.len() ==> {
                let sent = #[trigger] state.operation_received(from, answer).batches_sent[k];
                &&& sent.0 != from
                &&& state.peers.contains_key(sent.0)
                &&& sent.1 == delivered(answer).difference(state.peers[sent.0].known_op)
                &&& !sent.1.is_empty()
            },
        forall|j: int, k: int|
            state.batches_sent.len() <= j < k < state.operation_received(
                from,
                answer,
            ).batches_sent.len() ==> (#[trigger] state.operation_received(
                from,
                answer,
            ).batches_sent[j]).0 < (#[trigger] state.operation_received(
                from,
                answer,
            ).batches_sent[k]).0,
{
    let got = delivered(answer);
    let taught = learned(state.peers, from, got);
    let next = state.operation_received(from, answer);
    let news = fan_out_batches(taught, got);
    assert(taught.dom() =~= state.peers.dom().insert(from));
    lemma_ascending_enumerates(taught.dom());
    let order = ascending(taught.dom());
    lemma_announcements(taught, got, order);
    assert(next.batches_sent.take(state.batches_sent.len() as int) =~= state.batches_sent);
    assert forall|k: int| state.batches_sent.len() <= k < next.batches_sent.len() implies {
        let sent = #[trigger] next.batches_sent[k];
        &&& sent.0 != from
        &&& state.peers.contains_key(sent.0)
        &&& sent.1 == got.difference(state.peers[sent.0].known_op)
        &&& !sent.1.is_empty()
    } by {
        let entry = news[k - state.batches_sent.len()];
        assert(next.batches_sent[k] == entry);
        assert(order.to_set().contains(entry.0));
        if entry.0 == from {
            assert(entry.1 =~= Set::empty());
        }
    }
    assert forall|j: int, k: int|
        state.batches_sent.len() <= j < k < next.batches_sent.len() implies (
    #[trigger] next.batches_sent[j]).0 < (#[trigger] next.batches_sent[k]).0 by {
        assert(next.batches_sent[j] == news[j - state.batches_sent.len()]);
        assert(next.batches_sent[k] == news[k - state.batches_sent.len()]);
    }
}

/// An answer handled twice is as good as handled once: the second time
/// changes nothing and announces nothing.
pub proof fn law_delivery_is_idempotent(state: State, from: NodeId, answer: Answer)
    requires
        state.wf(),
    ensures
        state.operation_received(from, answer).operation_received(from, answer)
            == state.operation_received(from, answer),
{
    let got = delivered(answer);
    let once = state.operation_received(from, answer);
    let twice = once.operation_received(from, answer);
    let taught = learned(state.peers, from, got);
    assert(taught.dom() =~= state.peers.dom().insert(from));
    lemma_announced_twice(taught, got);
    let told = announced(taught, got);
    assert(learned(told, from, got) =~= told) by {
        assert(told[from].known_op.union(got) =~= told[from].known_op);
    }
    assert(twice.received =~= once.received);
    assert(twice.wishlist =~= once.wishlist);
    assert(twice.wanted =~= once.wanted) by {
        assert forall|id: NodeId| once.wanted.contains_key(id) implies #[trigger] twice.wanted[id]
            == once.wanted[id] by {
            assert(once.wanted[id].difference(got) =~= once.wanted[id]);
        }
    }
    assert(twice.batches_sent =~= once.batches_sent);
}

/// Planning leaves the registry as it is.
proof fn lemma_planned_keeps_peers(state: State, order: Seq<OperationId>)
    ensures
        state.planned(order).peers == state.peers,
    decreases order.len(),
{
    if order.len() > 0 {
        lemma_planned_keeps_peers(state, order.drop_last());
        lemma_placed(state.planned(order.drop_last()), order.last());
    }
}

/// What a peer is believed to know only grows: no event unregisters a peer
/// or takes an operation out of what it is believed to know.
pub proof fn law_known_only_grows(state: State, event: Event, id: NodeId)
    requires
        state.peers.contains_key(id),
    ensures
        state.step(event).peers.contains_key(id),
        state.peers[id].known_op.subset_of(state.step(event).peers[id].known_op),
{
    match event {
        Event::AskingLoop => {
            lemma_planned_keeps_peers(state, ascending(state.wishlist));
        },
        _ => {},
    }
}

} // verus!
