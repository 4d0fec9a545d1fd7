use std::collections::BTreeMap;
use std::collections::BTreeSet;

use op_propagation::more_cpu::on_ask_received;
use op_propagation::more_cpu::on_asking_loop;
use op_propagation::more_cpu::on_batch_received;
use op_propagation::more_cpu::on_operation_received;
use op_propagation::more_cpu::on_send_operation_loop;
use op_propagation::more_cpu::AskedOperations;
use op_propagation::more_cpu::FakeProtocol;
use op_propagation::more_cpu::OperationIds;

fn set_of(members: &[u64]) -> OperationIds {
    let mut set = BTreeSet::new();
    for m in members {
        set.insert(*m);
    }
    set
}

fn answer(entries: &[(u64, Option<&str>)]) -> AskedOperations {
    let mut map = AskedOperations::new();
    for (op, payload) in entries {
        map.insert(*op, payload.map(|p| p.to_string()));
    }
    map
}

fn planned() -> FakeProtocol {
    let mut protocol = FakeProtocol::new(3, 2);
    on_batch_received(set_of(&[1, 2, 3]), 0, &mut protocol);
    on_batch_received(set_of(&[2, 3]), 1, &mut protocol);
    on_asking_loop(&mut protocol);
    protocol
}

#[test]
fn new_engine_is_empty() {
    let protocol = FakeProtocol::new(3, 2);
    let registered: Vec<u64> = protocol.node_infos.keys().copied().collect();
    assert_eq!(registered, vec![0, 1, 2]);
    assert!(protocol.wishlist.is_empty());
    assert!(protocol.wanted.is_empty());
    assert!(protocol.already_asked.is_empty());
    assert!(protocol.received.is_empty());
    assert_eq!(protocol.max_batch_size, 2);
    assert!(protocol.batch_send_queue.is_empty());
    assert!(protocol.ask_batch_queue.is_empty());
    assert!(protocol.send_operation.is_empty());
}

#[test]
fn announcement_is_wished_for_and_not_asked() {
    let mut protocol = FakeProtocol::new(3, 2);
    on_batch_received(set_of(&[1, 2, 3]), 0, &mut protocol);
    assert_eq!(protocol.wishlist, set_of(&[1, 2, 3]));
    assert_eq!(protocol.node_infos.get(&0).unwrap().known_op, set_of(&[1, 2, 3]));
    assert!(protocol.node_infos.get(&1).unwrap().known_op.is_empty());
    assert!(protocol.ask_batch_queue.is_empty());
    assert!(protocol.wanted.is_empty());
}

#[test]
fn announcement_of_received_operations_is_passed_over() {
    let mut protocol = FakeProtocol::new(2, 2);
    on_operation_received(0, answer(&[(1, Some("a"))]), &mut protocol);
    on_batch_received(set_of(&[1, 2]), 1, &mut protocol);
    assert_eq!(protocol.wishlist, set_of(&[2]));
    assert_eq!(protocol.node_infos.get(&1).unwrap().known_op, set_of(&[1, 2]));
    on_batch_received(set_of(&[1]), 5, &mut protocol);
    assert!(!protocol.node_infos.contains_key(&5));
}

#[test]
fn announcement_from_an_unknown_peer_registers_it() {
    let mut protocol = FakeProtocol::new(1, 2);
    on_batch_received(set_of(&[4]), 8, &mut protocol);
    assert_eq!(protocol.node_infos.get(&8).unwrap().known_op, set_of(&[4]));
    assert_eq!(protocol.wishlist, set_of(&[4]));
}

#[test]
fn asking_loop_plans_bounded_asks() {
    let protocol = planned();
    let mut expected = BTreeMap::new();
    expected.insert(0, set_of(&[1, 2]));
    expected.insert(1, set_of(&[3]));
    assert_eq!(protocol.wanted, expected);
    assert_eq!(protocol.ask_batch_queue, vec![(0, set_of(&[1, 2])), (1, set_of(&[3]))]);
    assert_eq!(protocol.already_asked, set_of(&[2]));
    assert_eq!(protocol.wishlist, set_of(&[1, 2, 3]));
}

#[test]
fn second_asking_loop_repeats_the_planned_asks() {
    let mut protocol = planned();
    on_asking_loop(&mut protocol);
    let mut expected = BTreeMap::new();
    expected.insert(0, set_of(&[1, 2]));
    expected.insert(1, set_of(&[3]));
    assert_eq!(protocol.wanted, expected);
    assert_eq!(protocol.already_asked, set_of(&[2, 3]));
    assert_eq!(
        protocol.ask_batch_queue,
        vec![
            (0, set_of(&[1, 2])),
            (1, set_of(&[3])),
            (0, set_of(&[1, 2])),
            (1, set_of(&[3]))
        ]
    );
}

#[test]
fn delivery_clears_wish_and_plan() {
    let mut protocol = planned();
    on_operation_received(0, answer(&[(1, Some("a")), (2, Some("b"))]), &mut protocol);
    assert_eq!(protocol.wishlist, set_of(&[3]));
    assert_eq!(protocol.wanted.get(&0), Some(&set_of(&[])));
    assert_eq!(protocol.wanted.get(&1), Some(&set_of(&[3])));
    let stored: Vec<u64> = protocol.received.keys().copied().collect();
    assert_eq!(stored, vec![1, 2]);
    assert_eq!(protocol.received.get(&1), Some(&"a".to_string()));
    assert_eq!(protocol.received.get(&2), Some(&"b".to_string()));
    assert_eq!(protocol.batch_send_queue, vec![(1, set_of(&[1])), (2, set_of(&[1, 2]))]);
    assert_eq!(protocol.node_infos.get(&1).unwrap().known_op, set_of(&[1, 2, 3]));
}

#[test]
fn delivered_operation_is_never_asked_for_again() {
    let mut protocol = planned();
    on_operation_received(0, answer(&[(1, Some("a")), (2, Some("b"))]), &mut protocol);
    let before = protocol.ask_batch_queue.len();
    on_batch_received(set_of(&[1, 2]), 2, &mut protocol);
    on_asking_loop(&mut protocol);
    on_asking_loop(&mut protocol);
    for (_, asked) in protocol.ask_batch_queue.iter().skip(before) {
        assert!(!asked.contains(&1));
        assert!(!asked.contains(&2));
    }
    assert_eq!(protocol.ask_batch_queue.len(), before + 4);
}

#[test]
fn answer_without_payload_delivers_nothing() {
    let mut protocol = planned();
    on_operation_received(0, answer(&[(1, None), (2, Some("b"))]), &mut protocol);
    assert_eq!(protocol.wishlist, set_of(&[1, 3]));
    assert_eq!(protocol.wanted.get(&0), Some(&set_of(&[1])));
    let stored: Vec<u64> = protocol.received.keys().copied().collect();
    assert_eq!(stored, vec![2]);
    assert_eq!(protocol.batch_send_queue, vec![(2, set_of(&[2]))]);
    assert_eq!(protocol.already_asked, set_of(&[2]));
}

#[test]
fn second_identical_answer_changes_nothing() {
    let mut protocol = planned();
    on_operation_received(0, answer(&[(1, Some("a")), (2, Some("b"))]), &mut protocol);
    let queued = protocol.batch_send_queue.clone();
    let stored = protocol.received.clone();
    let wished = protocol.wishlist.clone();
    let plan = protocol.wanted.clone();
    on_operation_received(0, answer(&[(1, Some("a")), (2, Some("b"))]), &mut protocol);
    assert_eq!(protocol.batch_send_queue, queued);
    assert_eq!(protocol.received, stored);
    assert_eq!(protocol.wishlist, wished);
    assert_eq!(protocol.wanted, plan);
}

#[test]
fn answer_is_never_announced_to_the_peer_it_came_from() {
    let mut protocol = FakeProtocol::new(3, 2);
    on_operation_received(1, answer(&[(9, Some("z"))]), &mut protocol);
    assert_eq!(protocol.batch_send_queue, vec![(0, set_of(&[9])), (2, set_of(&[9]))]);
}

#[test]
fn answer_from_an_unknown_peer_registers_it() {
    let mut protocol = FakeProtocol::new(1, 2);
    on_operation_received(4, answer(&[(9, None)]), &mut protocol);
    assert!(protocol.node_infos.get(&4).unwrap().known_op.is_empty());
    assert!(protocol.batch_send_queue.is_empty());
}

#[test]
fn planned_asks_never_exceed_the_batch_size() {
    let mut protocol = FakeProtocol::new(2, 3);
    on_batch_received(set_of(&[1, 2, 3, 4, 5, 6, 7, 8, 9]), 0, &mut protocol);
    on_batch_received(set_of(&[5, 6, 7, 8, 9]), 1, &mut protocol);
    for _ in 0..4 {
        on_asking_loop(&mut protocol);
        for ops in protocol.wanted.values() {
            assert!(ops.len() <= 3);
        }
    }
    assert_eq!(protocol.wanted.get(&0), Some(&set_of(&[1, 2, 3])));
    assert_eq!(protocol.wanted.get(&1), Some(&set_of(&[5, 6, 7])));
    assert_eq!(protocol.already_asked, set_of(&[2, 3, 6, 7]));
}

#[test]
fn batch_size_zero_plans_no_ask() {
    let mut protocol = FakeProtocol::new(1, 0);
    on_batch_received(set_of(&[1, 2]), 0, &mut protocol);
    on_asking_loop(&mut protocol);
    assert!(protocol.wanted.is_empty());
    assert!(protocol.already_asked.is_empty());
    assert!(protocol.ask_batch_queue.is_empty());
    assert_eq!(protocol.wishlist, set_of(&[1, 2]));
}

#[test]
fn batch_size_one_opens_an_ask_of_one_operation() {
    let mut protocol = FakeProtocol::new(1, 1);
    on_batch_received(set_of(&[1, 2]), 0, &mut protocol);
    on_asking_loop(&mut protocol);
    assert_eq!(protocol.wanted.get(&0), Some(&set_of(&[1])));
    assert!(protocol.already_asked.is_empty());
    assert_eq!(protocol.ask_batch_queue, vec![(0, set_of(&[1]))]);
    on_asking_loop(&mut protocol);
    assert_eq!(protocol.wanted.get(&0), Some(&set_of(&[1])));
}

#[test]
fn delivered_payload_replaces_the_one_the_node_held() {
    let mut protocol = FakeProtocol::new(1, 2);
    on_operation_received(0, answer(&[(1, Some("first")), (2, Some("two"))]), &mut protocol);
    on_operation_received(0, answer(&[(1, Some("second")), (2, None)]), &mut protocol);
    assert_eq!(protocol.received.get(&1), Some(&"second".to_string()));
    assert_eq!(protocol.received.get(&2), Some(&"two".to_string()));
    assert_eq!(protocol.received.len(), 2);
}

#[test]
fn recorded_operation_leaves_wish_and_plan() {
    let mut protocol = planned();
    assert!(protocol.record_received(2, "b".to_string()));
    assert_eq!(protocol.wishlist, set_of(&[1, 3]));
    assert_eq!(protocol.wanted.get(&0), Some(&set_of(&[1])));
    assert_eq!(protocol.wanted.get(&1), Some(&set_of(&[3])));
    let before = protocol.ask_batch_queue.len();
    on_asking_loop(&mut protocol);
    for (_, asked) in protocol.ask_batch_queue.iter().skip(before) {
        assert!(!asked.contains(&2));
    }
    assert_eq!(protocol.ask_batch_queue.len(), before + 2);
    assert!(protocol.batch_send_queue.is_empty());
}

#[test]
fn recording_a_held_operation_changes_nothing() {
    let mut protocol = planned();
    assert!(protocol.record_received(2, "b".to_string()));
    let plan = protocol.wanted.clone();
    assert!(!protocol.record_received(2, "other".to_string()));
    assert_eq!(protocol.received.get(&2), Some(&"b".to_string()));
    assert_eq!(protocol.wishlist, set_of(&[1, 3]));
    assert_eq!(protocol.wanted, plan);
}

#[test]
fn operation_that_no_peer_knows_is_not_planned() {
    let mut protocol = FakeProtocol::new(2, 2);
    protocol.wishlist.insert(5);
    on_asking_loop(&mut protocol);
    assert!(protocol.wanted.is_empty());
    assert!(protocol.ask_batch_queue.is_empty());
}

#[test]
fn asking_loop_on_an_empty_wishlist_does_nothing() {
    let mut protocol = FakeProtocol::new(2, 2);
    on_asking_loop(&mut protocol);
    assert!(protocol.wanted.is_empty());
    assert!(protocol.ask_batch_queue.is_empty());
}

#[test]
fn ask_received_is_remembered_per_peer() {
    let mut protocol = FakeProtocol::new(2, 2);
    on_ask_received(1, set_of(&[3, 4]), &mut protocol);
    on_ask_received(1, set_of(&[4, 5]), &mut protocol);
    on_ask_received(6, set_of(&[1]), &mut protocol);
    assert_eq!(protocol.node_infos.get(&1).unwrap().wishlist, set_of(&[3, 4, 5]));
    assert_eq!(protocol.node_infos.get(&6).unwrap().wishlist, set_of(&[1]));
    assert!(protocol.node_infos.get(&0).unwrap().wishlist.is_empty());
    assert!(protocol.send_operation.is_empty());
}

#[test]
fn send_operation_loop_answers_every_peer() {
    let mut protocol = FakeProtocol::new(3, 2);
    on_operation_received(0, answer(&[(3, Some("c")), (5, Some("e"))]), &mut protocol);
    on_ask_received(1, set_of(&[3, 4, 5]), &mut protocol);
    on_send_operation_loop(&mut protocol);
    assert_eq!(
        protocol.send_operation,
        vec![(0, answer(&[])), (1, answer(&[(3, Some("c")), (4, None)])), (2, answer(&[]))]
    );
    assert_eq!(protocol.node_infos.get(&1).unwrap().wishlist, set_of(&[5]));
    on_send_operation_loop(&mut protocol);
    assert_eq!(protocol.send_operation.len(), 6);
    assert_eq!(protocol.send_operation[4], (1, answer(&[(5, Some("e"))])));
    assert!(protocol.node_infos.get(&1).unwrap().wishlist.is_empty());
}

#[test]
fn send_operation_loop_with_batch_size_zero_serves_nothing() {
    let mut protocol = FakeProtocol::new(1, 0);
    on_ask_received(0, set_of(&[3]), &mut protocol);
    on_send_operation_loop(&mut protocol);
    assert_eq!(protocol.send_operation, vec![(0, answer(&[]))]);
    assert_eq!(protocol.node_infos.get(&0).unwrap().wishlist, set_of(&[3]));
}

#[test]
fn registry_and_store_methods_of_the_planning_engine() {
    let mut protocol = FakeProtocol::new(1, 2);
    protocol.register_peer(5);
    assert!(protocol.node_infos.contains_key(&5));
    assert!(!protocol.is_received(3));
    assert!(protocol.record_received(3, "x".to_string()));
    assert!(protocol.is_received(3));
    assert!(!protocol.record_received(3, "y".to_string()));
    assert_eq!(protocol.received.get(&3), Some(&"x".to_string()));
}
