use std::collections::BTreeSet;

use op_propagation::less_cpu::on_ask_received;
use op_propagation::less_cpu::on_batch_received;
use op_propagation::less_cpu::on_operation_received;
use op_propagation::less_cpu::on_prune_asked_lifetime_loop;
use op_propagation::less_cpu::on_send_loop;
use op_propagation::less_cpu::FakeProtocol;
use op_propagation::less_cpu::OperationIds;
use op_propagation::less_cpu::OperationMap;

fn ids(members: &[u64]) -> OperationIds {
    let mut set = BTreeSet::new();
    for m in members {
        set.insert(*m);
    }
    set
}

fn payloads(entries: &[(u64, &str)]) -> OperationMap {
    let mut map = OperationMap::new();
    for (op, payload) in entries {
        map.insert(*op, payload.to_string());
    }
    map
}

fn after_first_batch() -> FakeProtocol {
    let mut protocol = FakeProtocol::new(2, 10, 200, 1000);
    on_batch_received(ids(&[7, 8, 9]), 1, 0, &mut protocol);
    protocol
}

fn after_second_batch() -> FakeProtocol {
    let mut protocol = after_first_batch();
    on_batch_received(ids(&[8, 9, 10]), 0, 50, &mut protocol);
    protocol
}

#[test]
fn new_registers_the_first_peers_and_nothing_else() {
    let protocol = FakeProtocol::new(3, 10, 200, 1000);
    let registered: Vec<u64> = protocol.node_infos.keys().copied().collect();
    assert_eq!(registered, vec![0, 1, 2]);
    for info in protocol.node_infos.values() {
        assert!(info.known_op.is_empty());
        assert!(info.wishlist.is_empty());
    }
    assert!(protocol.received.is_empty());
    assert!(protocol.wanted_alias_asked_ops.is_empty());
    assert!(protocol.op_batch_buffer.is_empty());
    assert_eq!(protocol.max_batch_size, 10);
    assert_eq!(protocol.op_batch_proc_period, 200);
    assert_eq!(protocol.op_batch_buf_capacity, 1000);
    assert!(protocol.batch_send_queue.is_empty());
    assert!(protocol.ask_batch_queue.is_empty());
    assert!(protocol.send_operation.is_empty());
}

#[test]
fn new_without_peers_has_an_empty_registry() {
    let protocol = FakeProtocol::new(0, 1, 1, 1);
    assert!(protocol.node_infos.is_empty());
}

#[test]
fn first_announcement_is_asked_for_at_once() {
    let mut protocol = FakeProtocol::new(2, 10, 200, 1000);
    let asked = on_batch_received(ids(&[7, 8, 9]), 1, 0, &mut protocol);
    assert_eq!(asked, ids(&[7, 8, 9]));
    assert_eq!(protocol.ask_batch_queue, vec![(1, ids(&[7, 8, 9]))]);
    assert!(protocol.batch_send_queue.is_empty());
    assert!(protocol.send_operation.is_empty());
}

#[test]
fn asking_records_the_end_of_the_cooling_window() {
    let protocol = after_first_batch();
    assert_eq!(protocol.wanted_alias_asked_ops.len(), 3);
    assert_eq!(protocol.wanted_alias_asked_ops.get(&7), Some(&(200, vec![1])));
    assert_eq!(protocol.wanted_alias_asked_ops.get(&8), Some(&(200, vec![1])));
    assert_eq!(protocol.wanted_alias_asked_ops.get(&9), Some(&(200, vec![1])));
}

#[test]
fn announcement_in_the_cooling_window_is_deferred() {
    let mut protocol = after_first_batch();
    let asked = on_batch_received(ids(&[8, 9, 10]), 0, 50, &mut protocol);
    assert_eq!(asked, ids(&[10]));
    assert_eq!(protocol.ask_batch_queue, vec![(1, ids(&[7, 8, 9])), (0, ids(&[10]))]);
    assert_eq!(protocol.op_batch_buffer.back(), Some(&(250, 0, ids(&[8, 9]))));
    assert_eq!(protocol.op_batch_buffer.len(), 2);
    assert_eq!(protocol.op_batch_buffer.front(), Some(&(200, 1, ids(&[]))));
    assert_eq!(protocol.wanted_alias_asked_ops.get(&8), Some(&(200, vec![1])));
    assert_eq!(protocol.wanted_alias_asked_ops.get(&10), Some(&(250, vec![0])));
}

#[test]
fn deferred_announcement_is_asked_for_after_the_window() {
    let mut protocol = after_second_batch();
    on_send_loop(260, &mut protocol);
    assert_eq!(
        protocol.ask_batch_queue,
        vec![(1, ids(&[7, 8, 9])), (0, ids(&[10])), (0, ids(&[8, 9]))]
    );
    assert_eq!(protocol.wanted_alias_asked_ops.get(&8), Some(&(460, vec![0])));
    assert_eq!(protocol.wanted_alias_asked_ops.get(&9), Some(&(460, vec![0])));
    assert_eq!(protocol.wanted_alias_asked_ops.get(&7), Some(&(200, vec![1])));
    let left: Vec<(u64, u64, OperationIds)> = protocol.op_batch_buffer.iter().cloned().collect();
    assert_eq!(left, vec![(460, 1, ids(&[])), (460, 0, ids(&[]))]);
}

#[test]
fn send_loop_stops_at_the_first_record_that_is_not_due() {
    let mut protocol = after_second_batch();
    on_send_loop(249, &mut protocol);
    assert_eq!(protocol.ask_batch_queue, vec![(1, ids(&[7, 8, 9])), (0, ids(&[10]))]);
    let left: Vec<(u64, u64, OperationIds)> = protocol.op_batch_buffer.iter().cloned().collect();
    assert_eq!(left, vec![(250, 0, ids(&[8, 9])), (449, 1, ids(&[]))]);
}

#[test]
fn send_loop_takes_a_record_that_is_due_exactly_now() {
    let mut protocol = after_second_batch();
    on_send_loop(200, &mut protocol);
    let left: Vec<(u64, u64, OperationIds)> = protocol.op_batch_buffer.iter().cloned().collect();
    assert_eq!(left, vec![(250, 0, ids(&[8, 9])), (400, 1, ids(&[]))]);
}

#[test]
fn send_loop_before_anything_is_due_changes_nothing() {
    let mut protocol = after_second_batch();
    on_send_loop(199, &mut protocol);
    assert_eq!(protocol.op_batch_buffer.len(), 2);
    assert_eq!(protocol.ask_batch_queue.len(), 2);
}

#[test]
fn send_loop_with_a_zero_period_replays_each_record_once() {
    let mut protocol = FakeProtocol::new(2, 10, 0, 1000);
    on_batch_received(ids(&[1]), 0, 5, &mut protocol);
    on_batch_received(ids(&[2]), 1, 6, &mut protocol);
    assert_eq!(protocol.op_batch_buffer.len(), 2);
    on_send_loop(10, &mut protocol);
    let left: Vec<(u64, u64, OperationIds)> = protocol.op_batch_buffer.iter().cloned().collect();
    assert_eq!(left, vec![(10, 0, ids(&[])), (10, 1, ids(&[]))]);
    assert_eq!(protocol.ask_batch_queue.len(), 2);
}

#[test]
fn send_loop_on_an_empty_buffer_does_nothing() {
    let mut protocol = FakeProtocol::new(2, 10, 200, 1000);
    on_send_loop(1_000, &mut protocol);
    assert!(protocol.op_batch_buffer.is_empty());
    assert!(protocol.ask_batch_queue.is_empty());
}

#[test]
fn received_operation_is_not_asked_for() {
    let mut protocol = FakeProtocol::new(2, 10, 200, 1000);
    on_operation_received(0, payloads(&[(7, "seven")]), &mut protocol);
    let asked = on_batch_received(ids(&[7, 8]), 1, 0, &mut protocol);
    assert_eq!(asked, ids(&[8]));
    assert_eq!(protocol.ask_batch_queue, vec![(1, ids(&[8]))]);
    assert!(!protocol.wanted_alias_asked_ops.contains_key(&7));
}

#[test]
fn same_peer_is_not_asked_twice() {
    let mut protocol = after_first_batch();
    let again = on_batch_received(ids(&[7, 8, 9]), 1, 1_000, &mut protocol);
    assert!(again.is_empty());
    assert_eq!(protocol.ask_batch_queue, vec![(1, ids(&[7, 8, 9]))]);
    assert_eq!(protocol.op_batch_buffer.back(), Some(&(1_200, 1, ids(&[]))));
}

#[test]
fn other_peer_is_asked_once_the_window_has_passed() {
    let mut protocol = after_first_batch();
    let asked = on_batch_received(ids(&[7]), 0, 200, &mut protocol);
    assert_eq!(asked, ids(&[7]));
    assert_eq!(protocol.wanted_alias_asked_ops.get(&7), Some(&(400, vec![0])));
}

#[test]
fn other_peer_is_not_asked_one_tick_before_the_window_ends() {
    let mut protocol = after_first_batch();
    let asked = on_batch_received(ids(&[7]), 0, 199, &mut protocol);
    assert!(asked.is_empty());
    assert_eq!(protocol.op_batch_buffer.back(), Some(&(399, 0, ids(&[7]))));
}

#[test]
fn pruning_makes_an_operation_count_as_never_asked() {
    let mut protocol = after_first_batch();
    on_prune_asked_lifetime_loop(&mut protocol);
    assert!(protocol.wanted_alias_asked_ops.is_empty());
    let again = on_batch_received(ids(&[7, 8, 9]), 1, 1, &mut protocol);
    assert_eq!(again, ids(&[7, 8, 9]));
    assert_eq!(protocol.ask_batch_queue.len(), 2);
}

#[test]
fn empty_announcement_asks_nothing_and_still_leaves_a_record() {
    let mut protocol = FakeProtocol::new(1, 10, 200, 1000);
    let asked = on_batch_received(ids(&[]), 0, 3, &mut protocol);
    assert!(asked.is_empty());
    assert!(protocol.ask_batch_queue.is_empty());
    assert_eq!(protocol.op_batch_buffer.len(), 1);
    assert_eq!(protocol.op_batch_buffer.front(), Some(&(203, 0, ids(&[]))));
}

#[test]
fn full_buffer_drops_the_new_record() {
    let mut protocol = FakeProtocol::new(2, 10, 200, 2);
    on_batch_received(ids(&[1]), 0, 0, &mut protocol);
    on_batch_received(ids(&[2]), 0, 1, &mut protocol);
    assert_eq!(protocol.op_batch_buffer.len(), 2);
    let asked = on_batch_received(ids(&[1, 2, 3]), 1, 2, &mut protocol);
    assert_eq!(asked, ids(&[3]));
    assert_eq!(protocol.op_batch_buffer.len(), 2);
    for k in 3..40 {
        on_batch_received(ids(&[k]), 1, k, &mut protocol);
        assert_eq!(protocol.op_batch_buffer.len(), 2);
    }
}

#[test]
fn buffer_of_capacity_zero_stays_empty() {
    let mut protocol = FakeProtocol::new(2, 10, 200, 0);
    on_batch_received(ids(&[1]), 0, 0, &mut protocol);
    on_batch_received(ids(&[1]), 1, 1, &mut protocol);
    assert!(protocol.op_batch_buffer.is_empty());
}

#[test]
fn ask_received_shrinks_what_the_peer_is_believed_to_know() {
    let mut protocol = FakeProtocol::new(4, 10, 200, 1000);
    {
        let info = protocol.node_infos.get_mut(&3).unwrap();
        info.known_op.insert(5);
        info.known_op.insert(6);
    }
    on_ask_received(3, ids(&[5]), &mut protocol);
    assert_eq!(protocol.node_infos.get(&3).unwrap().known_op, ids(&[6]));
    assert_eq!(protocol.send_operation, vec![(3, payloads(&[]))]);
}

#[test]
fn ask_received_answers_with_what_the_node_has() {
    let mut protocol = FakeProtocol::new(2, 10, 200, 1000);
    on_operation_received(0, payloads(&[(1, "a"), (2, "b")]), &mut protocol);
    on_ask_received(1, ids(&[2, 3]), &mut protocol);
    assert_eq!(protocol.send_operation, vec![(1, payloads(&[(2, "b")]))]);
    assert_eq!(protocol.node_infos.get(&1).unwrap().known_op, ids(&[1]));
}

#[test]
fn ask_from_an_unknown_peer_registers_it() {
    let mut protocol = FakeProtocol::new(1, 10, 200, 1000);
    on_ask_received(9, ids(&[1]), &mut protocol);
    assert!(protocol.node_infos.get(&9).unwrap().known_op.is_empty());
    assert_eq!(protocol.send_operation, vec![(9, payloads(&[]))]);
}

#[test]
fn delivery_is_stored_and_announced_to_the_others() {
    let mut protocol = FakeProtocol::new(3, 10, 200, 1000);
    on_operation_received(1, payloads(&[(4, "d"), (5, "e")]), &mut protocol);
    assert_eq!(protocol.received, payloads(&[(4, "d"), (5, "e")]));
    assert_eq!(protocol.batch_send_queue, vec![(0, ids(&[4, 5])), (2, ids(&[4, 5]))]);
    for peer in 0..3 {
        assert_eq!(protocol.node_infos.get(&peer).unwrap().known_op, ids(&[4, 5]));
    }
}

#[test]
fn announcement_leaves_out_what_a_peer_knows() {
    let mut protocol = FakeProtocol::new(3, 10, 200, 1000);
    protocol.node_infos.get_mut(&0).unwrap().known_op.insert(4);
    protocol.node_infos.get_mut(&2).unwrap().known_op.insert(4);
    protocol.node_infos.get_mut(&2).unwrap().known_op.insert(5);
    on_operation_received(1, payloads(&[(4, "d"), (5, "e")]), &mut protocol);
    assert_eq!(protocol.batch_send_queue, vec![(0, ids(&[5]))]);
}

#[test]
fn delivery_is_never_announced_to_the_peer_it_came_from() {
    let mut protocol = FakeProtocol::new(4, 10, 200, 1000);
    on_operation_received(2, payloads(&[(1, "a")]), &mut protocol);
    for (to, _) in protocol.batch_send_queue.iter() {
        assert_ne!(*to, 2);
    }
    assert_eq!(protocol.batch_send_queue.len(), 3);
}

#[test]
fn second_identical_delivery_changes_nothing() {
    let mut protocol = FakeProtocol::new(3, 10, 200, 1000);
    on_operation_received(1, payloads(&[(4, "d"), (5, "e")]), &mut protocol);
    let queued = protocol.batch_send_queue.clone();
    let stored = protocol.received.clone();
    on_operation_received(1, payloads(&[(4, "d"), (5, "e")]), &mut protocol);
    assert_eq!(protocol.batch_send_queue, queued);
    assert_eq!(protocol.received, stored);
    for peer in 0..3 {
        assert_eq!(protocol.node_infos.get(&peer).unwrap().known_op, ids(&[4, 5]));
    }
}

#[test]
fn delivered_payload_replaces_the_one_held() {
    let mut protocol = FakeProtocol::new(1, 10, 200, 1000);
    on_operation_received(0, payloads(&[(4, "first"), (5, "five")]), &mut protocol);
    on_operation_received(0, payloads(&[(4, "second")]), &mut protocol);
    assert_eq!(protocol.received, payloads(&[(4, "second"), (5, "five")]));
}

#[test]
fn record_received_keeps_the_payload_held() {
    let mut protocol = FakeProtocol::new(1, 10, 200, 1000);
    on_operation_received(0, payloads(&[(4, "first")]), &mut protocol);
    assert!(!protocol.record_received(4, "second".to_string()));
    assert_eq!(protocol.received, payloads(&[(4, "first")]));
}

#[test]
fn delivery_from_an_unknown_peer_registers_it() {
    let mut protocol = FakeProtocol::new(1, 10, 200, 1000);
    on_operation_received(7, payloads(&[(4, "d")]), &mut protocol);
    assert_eq!(protocol.node_infos.get(&7).unwrap().known_op, ids(&[4]));
    assert_eq!(protocol.batch_send_queue, vec![(0, ids(&[4]))]);
}

#[test]
fn empty_delivery_announces_nothing() {
    let mut protocol = FakeProtocol::new(2, 10, 200, 1000);
    on_operation_received(0, payloads(&[]), &mut protocol);
    assert!(protocol.batch_send_queue.is_empty());
    assert!(protocol.received.is_empty());
}

#[test]
fn registry_and_store_methods() {
    let mut protocol = FakeProtocol::new(1, 10, 200, 1000);
    protocol.register_peer(5);
    assert!(protocol.node_infos.contains_key(&5));
    protocol.node_infos.get_mut(&5).unwrap().known_op.insert(1);
    protocol.register_peer(5);
    assert_eq!(protocol.node_infos.get(&5).unwrap().known_op, ids(&[1]));
    assert!(!protocol.is_received(3));
    assert!(protocol.record_received(3, "x".to_string()));
    assert!(protocol.is_received(3));
    assert!(!protocol.record_received(3, "y".to_string()));
    assert_eq!(protocol.received, payloads(&[(3, "x")]));
}
