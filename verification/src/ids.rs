//! Identifiers, and set algebra on the executable sets that hold them.
use std::collections::BTreeMap;
use std::collections::BTreeSet;
use vstd::prelude::*;

use crate::ascending::ids_in_order;
use crate::ascending::keys_in_order;
use crate::ascending::lemma_take_next;

verus! {

/// Identifier of an operation.
pub type OperationId = u64;

/// Identifier of a peer.
pub type NodeId = u64;

/// An operation's payload. The engines carry it and never look inside.
pub type Operation = String;

/// A set of operation identifiers: a batch, a wishlist.
pub type OperationIds = BTreeSet<OperationId>;

/// The payloads of operations, by identifier.
pub type OperationMap = BTreeMap<OperationId, Operation>;

/// Adds every member of `ops` to `target`.
pub fn insert_all(target: &mut OperationIds, ops: &OperationIds)
    ensures
        final(target)@ == old(target)@.union(ops@),
{
    let order = ids_in_order(ops);
    let mut i: usize = 0;
    while i < order.len()
        invariant
            i <= order.len(),
            target@ == old(target)@.union(order@.take(i as int).to_set()),
        decreases order.len() - i,
    {
        target.insert(order[i]);
        proof {
            lemma_take_next(order@, i as int);
        }
        i += 1;
    }
    proof {
        if order.len() > 0 {
            lemma_take_next(order@, 0);
        }
        assert(order@.take(order.len() as int) =~= order@);
    }
}

/// Removes every member of `ops` from `target`.
pub fn remove_all(target: &mut OperationIds, ops: &OperationIds)
    ensures
        final(target)@ == old(target)@.difference(ops@),
{
    let order = ids_in_order(ops);
    let mut i: usize = 0;
    while i < order.len()
        invariant
            i <= order.len(),
            target@ == old(target)@.difference(order@.take(i as int).to_set()),
        decreases order.len() - i,
    {
        target.remove(&order[i]);
        proof {
            lemma_take_next(order@, i as int);
        }
        i += 1;
    }
    proof {
        assert(order@.take(order.len() as int) =~= order@);
    }
}

/// Adds every member of `ops` to `target` and returns those that were not
/// in it before.
pub fn absorb(target: &mut OperationIds, ops: &OperationIds) -> (fresh: OperationIds)
    ensures
        final(target)@ == old(target)@.union(ops@),
        fresh@ == ops@.difference(old(target)@),
{
    let order = ids_in_order(ops);
    let mut fresh = OperationIds::new();
    let mut i: usize = 0;
    while i < order.len()
        invariant
            i <= order.len(),
            target@ == old(target)@.union(order@.take(i as int).to_set()),
            fresh@ == order@.take(i as int).to_set().difference(old(target)@),
        decreases order.len() - i,
    {
        if target.insert(order[i]) {
            fresh.insert(order[i]);
        }
        proof {
            lemma_take_next(order@, i as int);
        }
        i += 1;
    }
    proof {
        assert(order@.take(order.len() as int) =~= order@);
    }
    fresh
}

/// The identifiers that `map` has a payload for.
pub fn key_set<V>(map: &BTreeMap<OperationId, V>) -> (keys: OperationIds)
    ensures
        keys@ == map@.dom(),
{
    let order = keys_in_order(map);
    let mut keys = OperationIds::new();
    let mut i: usize = 0;
    while i < order.len()
        invariant
            i <= order.len(),
            keys@ == order@.take(i as int).to_set(),
        decreases order.len() - i,
    {
        keys.insert(order[i]);
        proof {
            lemma_take_next(order@, i as int);
        }
        i += 1;
    }
    proof {
        assert(order@.take(order.len() as int) =~= order@);
    }
    keys
}

} // verus!
