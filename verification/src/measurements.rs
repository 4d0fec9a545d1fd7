//! The workload and the bookkeeping of a measurement run.
//!
//! A run lets every peer announce the same operations to one node, each
//! peer in a random order of its own, a batch at a time, and counts the
//! asks the node needs to get all of them.
use rand::rngs::StdRng;
use rand::seq::SliceRandom;
use vstd::prelude::*;

use crate::ascending::lemma_take_next;
use crate::ids::insert_all;
use crate::ids::NodeId;
use crate::ids::OperationId;
use crate::ids::OperationIds;
use crate::registry::batches_view;

verus! {

/// `rand::rngs::StdRng`, the standard generator of the `rand` crate: a
/// generator that computes its numbers from a seed and nothing else.
/// Nothing is known here of what is inside; the caller seeds one and hands
/// it on.
#[verifier::external_type_specification]
#[verifier::external_body]
pub struct ExStdRng(StdRng);

/// The operations `0` to `operations - 1`, in turn.
pub open spec fn in_turn(operations: nat) -> Seq<OperationId> {
    Seq::new(operations, |i: int| i as OperationId)
}

/// The part of `order` that a batch of `size` operations starting at
/// position `start` covers.
pub open spec fn window(order: Seq<OperationId>, start: nat, size: nat) -> Seq<OperationId> {
    if start >= order.len() {
        Seq::empty()
    } else if start + size >= order.len() {
        order.subrange(start as int, order.len() as int)
    } else {
        order.subrange(start as int, (start + size) as int)
    }
}

/// How many of `asks` went to peer `id`.
pub open spec fn asks_to(asks: Seq<(NodeId, Set<OperationId>)>, id: NodeId) -> nat
    decreases asks.len(),
{
    if asks.len() == 0 {
        0
    } else if asks.last().0 == id {
        asks_to(asks.drop_last(), id) + 1
    } else {
        asks_to(asks.drop_last(), id)
    }
}

/// The operations that `asks` name.
pub open spec fn all_asked(asks: Seq<(NodeId, Set<OperationId>)>) -> Set<OperationId>
    decreases asks.len(),
{
    if asks.len() == 0 {
        Set::empty()
    } else {
        all_asked(asks.drop_last()).union(asks.last().1)
    }
}

/// `rand::seq::SliceRandom::shuffle` on the elements of `order`, with the
/// generator `rng`. The call reorders the elements in place by swapping
/// pairs of them, so afterwards `order` holds the same elements as before,
/// each as often as before. Which order comes out is left open.
#[verifier::external_body]
fn shuffle(order: &mut Vec<OperationId>, rng: &mut StdRng)
    ensures
        final(order)@.to_multiset() == old(order)@.to_multiset(),
{
    order.shuffle(rng);
}

/// An order in which a peer announces the operations `0` to
/// `operations - 1`: each of them once, in a random order.
pub fn announce_order(operations: usize, rng: &mut StdRng) -> (order: Vec<OperationId>)
    ensures
        order@.to_multiset() == in_turn(operations as nat).to_multiset(),
        order@.len() == operations,
        order@.no_duplicates(),
        forall|op: OperationId| order@.contains(op) <==> op < operations,
{
    let mut order: Vec<OperationId> = Vec::new();
    let mut n: usize = 0;
    while n < operations
        invariant
            n <= operations,
            order@ == in_turn(n as nat),
        decreases operations - n,
    {
        order.push(n as u64);
        n += 1;
        assert(order@ =~= in_turn(n as nat));
    }
    let ghost turn = order@;
    shuffle(&mut order, rng);
    proof {
        broadcast use vstd::seq_lib::group_to_multiset_ensures;

        assert(turn.no_duplicates());
        turn.lemma_multiset_has_no_duplicates();
        order@.lemma_multiset_has_no_duplicates_conv();
        assert(order@.to_multiset().len() == turn.to_multiset().len());
        assert forall|op: OperationId| order@.contains(op) <==> op < operations by {
            vstd::seq_lib::to_multiset_contains(order@, op);
            vstd::seq_lib::to_multiset_contains(turn, op);
            if op < operations {
                assert(turn[op as int] == op);
            }
        }
    }
    order
}

/// The batch that a peer with announce order `order` sends when it has
/// announced the first `start` operations: the next `size` of them, or
/// those that are left.
pub fn batch_at(order: &Vec<OperationId>, start: usize, size: usize) -> (batch: OperationIds)
    ensures
        batch@ == window(order@, start as nat, size as nat).to_set(),
{
    let mut batch = OperationIds::new();
    if start >= order.len() {
        assert(window(order@, start as nat, size as nat).to_set() =~= Set::empty());
        return batch;
    }
    let end: usize = if size >= order.len() - start {
        order.len()
    } else {
        start + size
    };
    let ghost covered = order@.subrange(start as int, end as int);
    assert(covered == window(order@, start as nat, size as nat));
    let mut i: usize = start;
    proof {
        assert(covered.take(0) =~= Seq::<OperationId>::empty());
    }
    while i < end
        invariant
            start <= i <= end <= order.len(),
            covered == order@.subrange(start as int, end as int),
            batch@ == covered.take(i - start).to_set(),
        decreases end - i,
    {
        batch.insert(order[i]);
        proof {
            lemma_take_next(covered, i - start);
        }
        i += 1;
    }
    proof {
        assert(covered.take(end - start) =~= covered);
    }
    batch
}

/// Counts the asks of a run: how many went to each peer, for the peers
/// below `peers`, and which operations they name.
pub fn tally(asks: &Vec<(NodeId, OperationIds)>, peers: usize) -> (counted: (
    Vec<usize>,
    OperationIds,
))
    requires
        forall|i: int| 0 <= i < asks@.len() ==> (#[trigger] asks@[i]).0 < peers,
    ensures
        counted.0@.len() == peers,
        forall|id: NodeId|
            id < peers ==> #[trigger] counted.0@[id as int] == asks_to(batches_view(asks@), id),
        counted.1@ == all_asked(batches_view(asks@)),
{
    let mut per_peer: Vec<usize> = Vec::new();
    let mut k: usize = 0;
    while k < peers
        invariant
            k <= peers,
            per_peer@.len() == k,
            forall|id: int| 0 <= id < k ==> per_peer@[id] == 0,
        decreases peers - k,
    {
        per_peer.push(0);
        k += 1;
    }
    let mut asked = OperationIds::new();
    let ghost all = batches_view(asks@);
    let mut i: usize = 0;
    proof {
        assert(all.take(0) =~= Seq::<(NodeId, Set<OperationId>)>::empty());
    }
    while i < asks.len()
        invariant
            i <= asks.len(),
            all == batches_view(asks@),
            forall|j: int| 0 <= j < asks@.len() ==> (#[trigger] asks@[j]).0 < peers,
            per_peer@.len() == peers,
            forall|id: NodeId|
                id < peers ==> #[trigger] per_peer@[id as int] == asks_to(all.take(i as int), id)
                    && per_peer@[id as int] <= i,
            asked@ == all_asked(all.take(i as int)),
        decreases asks.len() - i,
    {
        let to = asks[i].0;
        proof {
            lemma_take_next(all, i as int);
            assert(all[i as int] == (asks@[i as int].0, asks@[i as int].1@));
        }
        let at = to as usize;
        let seen: usize = per_peer[at];
        per_peer.set(at, seen + 1);
        insert_all(&mut asked, &asks[i].1);
        i += 1;
    }
    proof {
        assert(all.take(asks.len() as int) =~= all);
    }
    (per_peer, asked)
}

} // verus!
