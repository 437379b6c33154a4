use distributed_queue_mini::clock::Snapshot;
use distributed_queue_mini::engine::DistributedQueueSystem;
use distributed_queue_mini::event::{Event, EventOp};
use distributed_queue_mini::ids::Ids;
use distributed_queue_mini::log::State;

fn snapshot(pairs: &[(&str, u64)]) -> Snapshot {
    let mut s = Snapshot::new();
    for (node, time) in pairs {
        s.insert(node.to_string(), *time);
    }
    s
}

#[test]
fn test_duplicate_event_handling() {
    let mut ids = Ids::new();
    let mut node1 = DistributedQueueSystem::new("node1".to_string());
    let mut node2 = DistributedQueueSystem::new("node2".to_string());

    let event = node1.enqueue("item1".to_string(), &mut ids);

    // Apply event once
    assert!(node2.apply_remote_event(event.clone(), &mut ids));
    assert_eq!(node2.queue_state().0, 1);

    // Try to apply same event again
    assert!(!node2.apply_remote_event(event, &mut ids));
    assert_eq!(node2.queue_state().0, 1); // Should remain unchanged
}

#[test]
fn new_node_is_empty() {
    let node: DistributedQueueSystem<String> = DistributedQueueSystem::new("n1".to_string());
    assert_eq!(node.queue_state(), (0, true));
    assert_eq!(node.logs().len(), 0);
    assert_eq!(node.clock(), 0);
    assert_eq!(node.node_id(), "n1");
    assert_eq!(node.pending_events_count(), 0);
}

#[test]
fn local_enqueue_ticks_logs_and_returns_event() {
    let mut ids = Ids::new();
    let mut n1 = DistributedQueueSystem::new_with_nodes("n1".to_string(), &["n2"]);
    let e1 = n1.enqueue("x".to_string(), &mut ids);
    assert_eq!(e1.global_id, 1);
    assert_eq!(e1.origin_node, "n1");
    assert_eq!(e1.op, EventOp::Enqueue);
    assert_eq!(e1.item, Some("x".to_string()));
    assert!(e1.clock.equals(&snapshot(&[("n1", 1), ("n2", 0)])));
    assert_eq!(n1.clock(), 1);
    assert_eq!(n1.queue_state(), (1, false));
    let logs = n1.logs();
    assert_eq!(logs.len(), 1);
    assert_eq!(logs[0].local_log_id, 1);
    assert_eq!(logs[0].local_node, "n1");
    assert_eq!(logs[0].op, "enqueue");
    assert_eq!(logs[0].item, Some("x".to_string()));
    assert_eq!(logs[0].state, State::Committed);
    assert!(logs[0].clock.equals(&snapshot(&[("n1", 1), ("n2", 0)])));
    assert_eq!(logs[0].event_global_id, Some(1));
    let logged = logs[0].event.as_ref().unwrap();
    assert_eq!(logged.global_id, 1);
    assert_eq!(logged.item, Some("x".to_string()));
}

#[test]
fn local_dequeue_returns_head_then_absent() {
    let mut ids = Ids::new();
    let mut n1 = DistributedQueueSystem::new("n1".to_string());
    n1.enqueue("a".to_string(), &mut ids);
    n1.enqueue("b".to_string(), &mut ids);
    let (item, event) = n1.dequeue(&mut ids);
    assert_eq!(item, Some("a".to_string()));
    assert_eq!(event.op, EventOp::Dequeue);
    assert_eq!(event.item, Some("a".to_string()));
    assert_eq!(event.global_id, 3);
    assert!(event.clock.equals(&snapshot(&[("n1", 3)])));
    assert_eq!(n1.queue_state(), (1, false));
    let (item, _) = n1.dequeue(&mut ids);
    assert_eq!(item, Some("b".to_string()));
    let (item, event) = n1.dequeue(&mut ids);
    assert_eq!(item, None);
    assert_eq!(event.item, None);
    assert_eq!(n1.queue_state(), (0, true));
    let logs = n1.logs();
    assert_eq!(logs.len(), 5);
    assert_eq!(logs[4].op, "dequeue");
    assert_eq!(logs[4].state, State::Delivered);
    assert_eq!(logs[4].item, None);
    assert_eq!(logs[2].item, Some("a".to_string()));
    assert_eq!(n1.clock(), 5);
}

#[test]
fn two_node_convergence() {
    let mut ids = Ids::new();
    let mut n1 = DistributedQueueSystem::new_with_nodes("n1".to_string(), &["n2"]);
    let mut n2 = DistributedQueueSystem::new("n2".to_string());
    let e1 = n1.enqueue("x".to_string(), &mut ids);
    assert!(e1.clock.equals(&snapshot(&[("n1", 1), ("n2", 0)])));
    assert!(n2.apply_remote_event(e1.clone(), &mut ids));
    assert_eq!(n2.queue_state(), (1, false));
    assert_eq!(n2.logs().last().unwrap().state, State::Committed);
    // the same event once more
    let logs_before = n2.logs().len();
    assert!(!n2.apply_remote_event(e1, &mut ids));
    assert_eq!(n2.queue_state(), (1, false));
    assert_eq!(n2.logs().len(), logs_before);
}

#[test]
fn two_node_convergence_between_single_node_clocks() {
    let mut ids = Ids::new();
    let mut n1 = DistributedQueueSystem::new("n1".to_string());
    let mut n2 = DistributedQueueSystem::new("n2".to_string());
    let e1 = n1.enqueue("x".to_string(), &mut ids);
    assert!(e1.clock.equals(&snapshot(&[("n1", 1)])));
    assert!(n2.apply_remote_event(e1, &mut ids));
    assert_eq!(n2.queue_state(), (1, false));
    let logs = n2.logs();
    assert_eq!(logs.last().unwrap().state, State::Committed);
    assert_eq!(logs.last().unwrap().item, Some("x".to_string()));
    assert_eq!(logs.last().unwrap().local_node, "n2");
    assert_eq!(n2.clock(), 1);
}

#[test]
fn duplicate_leaves_queue_and_log_and_ticks_clock() {
    let mut ids = Ids::new();
    let mut n1 = DistributedQueueSystem::new("n1".to_string());
    let mut n2 = DistributedQueueSystem::new("n2".to_string());
    let e1 = n1.enqueue("x".to_string(), &mut ids);
    assert!(n2.apply_remote_event(e1.clone(), &mut ids));
    let logs_before = n2.logs().len();
    let clock_before = n2.clock();
    assert!(!n2.apply_remote_event(e1, &mut ids));
    assert_eq!(n2.queue_state(), (1, false));
    assert_eq!(n2.logs().len(), logs_before);
    assert_eq!(n2.pending_events_count(), 0);
    assert_eq!(n2.clock(), clock_before + 1);
}

#[test]
fn event_of_a_known_origin_is_held_back() {
    let mut ids = Ids::new();
    let mut n1 = DistributedQueueSystem::new_with_nodes("n1".to_string(), &["n2"]);
    let mut n2 = DistributedQueueSystem::new_with_nodes("n2".to_string(), &["n1"]);
    let e1 = n1.enqueue("x".to_string(), &mut ids);
    // the merge raises n2's counter for n1 to 1 before the causality gate asks for 1 == 1 + 1
    assert!(!n2.apply_remote_event(e1, &mut ids));
    assert_eq!(n2.pending_events_count(), 1);
    assert_eq!(n2.queue_state(), (0, true));
    assert_eq!(n2.logs().len(), 0);
    assert_eq!(n2.clock(), 1);
}

#[test]
fn out_of_order_event_waits_in_the_buffer() {
    let mut ids = Ids::new();
    let mut n1 = DistributedQueueSystem::new("n1".to_string());
    let mut n2 = DistributedQueueSystem::new("n2".to_string());
    let e1 = n1.enqueue("a".to_string(), &mut ids);
    let e2 = n1.enqueue("b".to_string(), &mut ids);
    assert!(!n2.apply_remote_event(e2, &mut ids));
    assert_eq!(n2.pending_events_count(), 1);
    assert!(n2.apply_remote_event(e1, &mut ids));
    // n2 keeps no counter for n1, so the causality gate goes on asking for the counter 1
    assert_eq!(n2.pending_events_count(), 1);
    assert_eq!(n2.queue_state(), (1, false));
    let logs = n2.logs();
    assert_eq!(logs.len(), 1);
    assert_eq!(logs[0].item, Some("a".to_string()));
}

#[test]
fn concurrent_enqueues_cross_applied() {
    let mut ids = Ids::new();
    let mut n1 = DistributedQueueSystem::new("n1".to_string());
    let mut n2 = DistributedQueueSystem::new("n2".to_string());
    let e1 = n1.enqueue("x".to_string(), &mut ids);
    let e2 = n2.enqueue("y".to_string(), &mut ids);
    assert!(n1.apply_remote_event(e2, &mut ids));
    assert!(n2.apply_remote_event(e1, &mut ids));
    assert_eq!(n1.queue_state(), (2, false));
    assert_eq!(n2.queue_state(), (2, false));
    let (a, _) = n1.dequeue(&mut ids);
    let (b, _) = n1.dequeue(&mut ids);
    assert_eq!((a, b), (Some("x".to_string()), Some("y".to_string())));
    let (a, _) = n2.dequeue(&mut ids);
    let (b, _) = n2.dequeue(&mut ids);
    assert_eq!((a, b), (Some("y".to_string()), Some("x".to_string())));
}

#[test]
fn remote_dequeue_takes_the_local_head() {
    let mut ids = Ids::new();
    let mut n2 = DistributedQueueSystem::new("n2".to_string());
    n2.enqueue("x".to_string(), &mut ids);
    let event = Event::new_dequeue(
        "n1".to_string(),
        Some("other".to_string()),
        snapshot(&[("n1", 1)]),
        &mut ids.events,
    );
    assert!(n2.apply_remote_event(event, &mut ids));
    assert_eq!(n2.queue_state(), (0, true));
    let logs = n2.logs();
    assert_eq!(logs.len(), 2);
    assert_eq!(logs[1].op, "dequeue");
    assert_eq!(logs[1].state, State::Delivered);
    assert_eq!(logs[1].item, Some("x".to_string()));
    assert_eq!(logs[1].event_global_id, Some(2));
    assert_eq!(logs[1].event.as_ref().unwrap().item, Some("other".to_string()));
}

#[test]
fn second_event_of_an_origin_is_buffered() {
    let mut ids = Ids::new();
    let mut n1 = DistributedQueueSystem::new("n1".to_string());
    let mut n2 = DistributedQueueSystem::new("n2".to_string());
    let e1 = n1.enqueue("x".to_string(), &mut ids);
    assert!(n2.apply_remote_event(e1, &mut ids));
    let (item, e2) = n1.dequeue(&mut ids);
    assert_eq!(item, Some("x".to_string()));
    assert!(!n2.apply_remote_event(e2, &mut ids));
    assert_eq!(n2.queue_state(), (1, false));
    assert_eq!(n2.pending_events_count(), 1);
}

#[test]
fn enqueue_event_without_item_is_marked_and_nothing_else() {
    let mut ids = Ids::new();
    let mut n2: DistributedQueueSystem<String> = DistributedQueueSystem::new("n2".to_string());
    let event = Event {
        global_id: 77,
        origin_node: "n1".to_string(),
        op: EventOp::Enqueue,
        item: None,
        clock: snapshot(&[("n1", 1)]),
    };
    assert!(n2.apply_remote_event(event.clone(), &mut ids));
    assert_eq!(n2.queue_state(), (0, true));
    assert_eq!(n2.logs().len(), 0);
    assert!(!n2.apply_remote_event(event, &mut ids));
    assert_eq!(n2.pending_events_count(), 0);
}

#[test]
fn own_enqueue_event_is_a_duplicate_own_dequeue_event_is_buffered() {
    let mut ids = Ids::new();
    let mut n1 = DistributedQueueSystem::new("n1".to_string());
    let e1 = n1.enqueue("x".to_string(), &mut ids);
    assert!(!n1.apply_remote_event(e1, &mut ids));
    assert_eq!(n1.pending_events_count(), 0);
    let (_, e2) = n1.dequeue(&mut ids);
    assert!(!n1.apply_remote_event(e2, &mut ids));
    assert_eq!(n1.pending_events_count(), 1);
}

#[test]
fn log_identifiers_increase_across_nodes() {
    let mut ids = Ids::new();
    let mut n1 = DistributedQueueSystem::new("n1".to_string());
    let mut n2 = DistributedQueueSystem::new("n2".to_string());
    let e1 = n1.enqueue("a".to_string(), &mut ids);
    let e2 = n2.enqueue("b".to_string(), &mut ids);
    n1.apply_remote_event(e2, &mut ids);
    n2.apply_remote_event(e1, &mut ids);
    n1.dequeue(&mut ids);
    let l1: Vec<u64> = n1.logs().iter().map(|e| e.local_log_id).collect();
    let l2: Vec<u64> = n2.logs().iter().map(|e| e.local_log_id).collect();
    assert_eq!(l1, vec![1, 3, 5]);
    assert_eq!(l2, vec![2, 4]);
}

#[test]
fn global_identifiers_are_unique() {
    let mut ids = Ids::new();
    let mut n1 = DistributedQueueSystem::new("n1".to_string());
    let mut n2 = DistributedQueueSystem::new("n2".to_string());
    let mut seen = Vec::new();
    for i in 0..5 {
        seen.push(n1.enqueue(format!("a{}", i), &mut ids).global_id);
        seen.push(n2.enqueue(format!("b{}", i), &mut ids).global_id);
        seen.push(n1.dequeue(&mut ids).1.global_id);
    }
    assert_eq!(seen, (1..=15).collect::<Vec<u64>>());
}

#[test]
fn events_with_origin_time_one_from_one_origin_are_applied_in_arrival_order() {
    let mut ids = Ids::new();
    let mut n2 = DistributedQueueSystem::new("n2".to_string());
    let first = Event::new_enqueue(
        "n1".to_string(),
        "p".to_string(),
        snapshot(&[("n1", 1)]),
        &mut ids.events,
    );
    let second = Event::new_enqueue(
        "n1".to_string(),
        "q".to_string(),
        snapshot(&[("n1", 1)]),
        &mut ids.events,
    );
    assert!(n2.apply_remote_event(second, &mut ids));
    assert!(n2.apply_remote_event(first, &mut ids));
    let logs = n2.logs();
    assert_eq!(logs[0].item, Some("q".to_string()));
    assert_eq!(logs[1].item, Some("p".to_string()));
}
