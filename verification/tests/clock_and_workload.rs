use std::collections::BTreeSet;

use rand::rngs::StdRng;
use rand::SeedableRng;

use op_propagation::clock::after;
use op_propagation::clock::ManualClock;
use op_propagation::less_cpu::on_batch_received;
use op_propagation::less_cpu::on_send_loop;
use op_propagation::less_cpu::FakeProtocol;
use op_propagation::measurements::announce_order;
use op_propagation::measurements::batch_at;
use op_propagation::measurements::tally;

fn ops(members: &[u64]) -> BTreeSet<u64> {
    members.iter().copied().collect()
}

#[test]
fn after_adds_milliseconds() {
    assert_eq!(after(0, 200), Some(200));
    assert_eq!(after(50, 200), Some(250));
    assert_eq!(after(7, 0), Some(7));
    assert_eq!(after(u64::MAX - 1, 1), Some(u64::MAX));
}

#[test]
fn after_refuses_a_time_the_clock_cannot_show() {
    assert_eq!(after(u64::MAX, 1), None);
    assert_eq!(after(1, u64::MAX), None);
}

#[test]
fn manual_clock_moves_only_forward() {
    let mut clock = ManualClock::new(10);
    assert_eq!(clock.now(), 10);
    assert!(clock.advance(40));
    assert_eq!(clock.now(), 50);
    assert!(clock.advance(0));
    assert_eq!(clock.now(), 50);
    assert!(!clock.advance_to(49));
    assert_eq!(clock.now(), 50);
    assert!(clock.advance_to(50));
    assert!(clock.advance_to(260));
    assert_eq!(clock.now(), 260);
}

#[test]
fn manual_clock_stays_put_at_the_end_of_time() {
    let mut clock = ManualClock::new(u64::MAX - 5);
    assert!(!clock.advance(6));
    assert_eq!(clock.now(), u64::MAX - 5);
    assert!(clock.advance(5));
    assert_eq!(clock.now(), u64::MAX);
    assert!(!clock.advance(1));
}

#[test]
fn engine_driven_by_a_manual_clock() {
    let mut clock = ManualClock::new(0);
    let mut protocol = FakeProtocol::new(2, 10, 200, 1000);
    let first = on_batch_received(ops(&[7, 8, 9]), 1, clock.now(), &mut protocol);
    assert_eq!(first, ops(&[7, 8, 9]));
    clock.advance(50);
    let second = on_batch_received(ops(&[8, 9, 10]), 0, clock.now(), &mut protocol);
    assert_eq!(second, ops(&[10]));
    clock.advance_to(260);
    on_send_loop(clock.now(), &mut protocol);
    assert_eq!(protocol.ask_batch_queue.len(), 3);
    assert_eq!(protocol.ask_batch_queue[2], (0, ops(&[8, 9])));
}

#[test]
fn announce_order_holds_every_operation_once() {
    let mut rng = StdRng::seed_from_u64(2024);
    let order = announce_order(1_000, &mut rng);
    assert_eq!(order.len(), 1_000);
    let mut sorted = order.clone();
    sorted.sort();
    let in_turn: Vec<u64> = (0..1_000).collect();
    assert_eq!(sorted, in_turn);
}

#[test]
fn announce_order_is_shuffled() {
    let mut rng = StdRng::seed_from_u64(2024);
    let order = announce_order(1_000, &mut rng);
    let in_turn: Vec<u64> = (0..1_000).collect();
    assert_ne!(order, in_turn);
}

#[test]
fn announce_orders_of_one_generator_differ() {
    let mut rng = StdRng::seed_from_u64(1);
    let first = announce_order(500, &mut rng);
    let second = announce_order(500, &mut rng);
    assert_ne!(first, second);
    let mut sorted = second.clone();
    sorted.sort();
    assert_eq!(sorted, (0..500).collect::<Vec<u64>>());
}

#[test]
fn announce_order_of_nothing_is_empty() {
    let mut rng = StdRng::seed_from_u64(2024);
    assert!(announce_order(0, &mut rng).is_empty());
    assert_eq!(announce_order(1, &mut rng), vec![0]);
}

#[test]
fn batch_at_cuts_windows() {
    let order: Vec<u64> = vec![5, 3, 9, 1, 7];
    assert_eq!(batch_at(&order, 0, 2), ops(&[3, 5]));
    assert_eq!(batch_at(&order, 2, 2), ops(&[1, 9]));
    assert_eq!(batch_at(&order, 4, 2), ops(&[7]));
    assert_eq!(batch_at(&order, 5, 2), ops(&[]));
    assert_eq!(batch_at(&order, 9, 2), ops(&[]));
    assert_eq!(batch_at(&order, 1, 0), ops(&[]));
    assert_eq!(batch_at(&order, 0, 100), ops(&[1, 3, 5, 7, 9]));
    assert_eq!(batch_at(&order, 1, usize::MAX), ops(&[1, 3, 7, 9]));
}

#[test]
fn tally_counts_asks_per_peer() {
    let asks = vec![(1, ops(&[7, 8, 9])), (0, ops(&[10])), (0, ops(&[8, 9])), (2, ops(&[]))];
    let (per_peer, asked) = tally(&asks, 4);
    assert_eq!(per_peer, vec![2, 1, 1, 0]);
    assert_eq!(asked, ops(&[7, 8, 9, 10]));
}

#[test]
fn tally_of_nothing() {
    let (per_peer, asked) = tally(&Vec::new(), 3);
    assert_eq!(per_peer, vec![0, 0, 0]);
    assert!(asked.is_empty());
    let (none, nothing) = tally(&Vec::new(), 0);
    assert!(none.is_empty());
    assert!(nothing.is_empty());
}
