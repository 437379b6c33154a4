use distributed_queue_mini::clock::Snapshot;
use distributed_queue_mini::event::{compare_text, node_hash_mod, Event, EventOp};
use distributed_queue_mini::ids::IdCounter;
use std::cmp::Ordering;

fn snapshot(pairs: &[(&str, u64)]) -> Snapshot {
    let mut s = Snapshot::new();
    for (node, time) in pairs {
        s.insert(node.to_string(), *time);
    }
    s
}

fn event(id: u64, origin: &str, clock: &[(&str, u64)]) -> Event<String> {
    Event {
        global_id: id,
        origin_node: origin.to_string(),
        op: EventOp::Enqueue,
        item: Some(format!("item{}", id)),
        clock: snapshot(clock),
    }
}

#[test]
fn constructors_take_the_next_identifier() {
    let mut ids = IdCounter::new();
    let e = Event::new_enqueue("n1".to_string(), 7u32, snapshot(&[("n1", 1)]), &mut ids);
    assert_eq!(e.global_id, 1);
    assert_eq!(e.origin_node, "n1");
    assert_eq!(e.op, EventOp::Enqueue);
    assert_eq!(e.item, Some(7));
    assert!(e.clock.equals(&snapshot(&[("n1", 1)])));
    let d = Event::new_dequeue("n2".to_string(), None::<u32>, snapshot(&[("n2", 3)]), &mut ids);
    assert_eq!(d.global_id, 2);
    assert_eq!(d.op, EventOp::Dequeue);
    assert_eq!(d.item, None);
    let d = Event::new_dequeue("n2".to_string(), Some(9u32), snapshot(&[("n2", 4)]), &mut ids);
    assert_eq!(d.global_id, 3);
    assert_eq!(d.item, Some(9));
}

#[test]
fn node_hash_is_the_sum_of_code_points_modulo_1000() {
    assert_eq!(node_hash_mod(""), 0);
    assert_eq!(node_hash_mod("n1"), 159);
    assert_eq!(node_hash_mod("zzzzzzzzz"), 98);
    assert_eq!(node_hash_mod("\u{e9}"), 233);
    assert_eq!(node_hash_mod("\u{20ac}"), 364);
    assert_eq!(node_hash_mod("\u{10ffff}a"), 208);
}

#[test]
fn weight_is_the_sum_of_the_terms() {
    assert_eq!(event(1, "n1", &[]).total_order_value(), 0);
    assert_eq!(event(1, "n1", &[("n1", 1)]).total_order_value(), 1159);
    assert_eq!(event(1, "n1", &[("n1", 1), ("n2", 0)]).total_order_value(), 1319);
    assert_eq!(event(1, "n1", &[("n2", 0), ("n1", 1)]).total_order_value(), 1319);
    assert_eq!(event(1, "n1", &[("zzzzzzzzz", 2)]).total_order_value(), 2098);
}

#[test]
fn weight_saturates() {
    assert_eq!(event(1, "n1", &[("n1", u64::MAX)]).total_order_value(), u64::MAX);
    let limit = u64::MAX / 1000;
    assert_eq!(event(1, "n1", &[("n1", limit)]).total_order_value(), limit * 1000 + 159);
    assert_eq!(event(1, "n1", &[("n1", limit + 1)]).total_order_value(), u64::MAX);
    assert_eq!(
        event(1, "n1", &[("n1", limit), ("n2", limit)]).total_order_value(),
        u64::MAX
    );
    assert_eq!(
        event(1, "n1", &[("n1", u64::MAX), ("n2", 3)]).total_order_value(),
        u64::MAX
    );
}

#[test]
fn origin_timestamp_reads_the_origin_counter() {
    assert_eq!(event(1, "n1", &[("n1", 4), ("n2", 9)]).origin_timestamp(), 4);
    assert_eq!(event(1, "n3", &[("n1", 4), ("n2", 9)]).origin_timestamp(), 0);
}

#[test]
fn texts_compare_by_code_points() {
    assert_eq!(compare_text("", ""), Ordering::Equal);
    assert_eq!(compare_text("", "a"), Ordering::Less);
    assert_eq!(compare_text("a", ""), Ordering::Greater);
    assert_eq!(compare_text("a", "b"), Ordering::Less);
    assert_eq!(compare_text("b", "a"), Ordering::Greater);
    assert_eq!(compare_text("a", "aa"), Ordering::Less);
    assert_eq!(compare_text("node10", "node2"), Ordering::Less);
    assert_eq!(compare_text("node2", "node2"), Ordering::Equal);
    assert_eq!(compare_text("z", "\u{e9}"), Ordering::Less);
    assert_eq!(compare_text("\u{20ac}", "\u{e9}"), Ordering::Greater);
    assert_eq!(compare_text("\u{ffff}", "\u{10000}"), "\u{ffff}".cmp("\u{10000}"));
}

#[test]
fn events_order_by_weight_first() {
    let a = event(1, "a", &[("a", 1)]);
    let b = event(2, "b", &[("b", 1)]);
    assert_eq!(a.total_order_value(), 1097);
    assert_eq!(b.total_order_value(), 1098);
    assert_eq!(a.cmp(&b), Ordering::Less);
    assert_eq!(b.cmp(&a), Ordering::Greater);
    assert!(a < b);
    assert!(b.is_after(&a));
    assert!(!a.is_after(&b));
    // a heavier clock comes later whatever the origin's own counter says
    let heavy = event(3, "a", &[("a", 1), ("b", 9)]);
    let light = event(4, "b", &[("a", 2)]);
    assert_eq!(heavy.cmp(&light), Ordering::Greater);
}

#[test]
fn events_of_equal_weight_order_by_origin_time() {
    let x = event(1, "x", &[("x", 1), ("y", 2)]);
    let y = event(2, "y", &[("x", 1), ("y", 2)]);
    assert_eq!(x.total_order_value(), y.total_order_value());
    assert_eq!(x.cmp(&y), Ordering::Less);
    assert_eq!(y.cmp(&x), Ordering::Greater);
    assert_eq!(x.partial_cmp(&y), Some(Ordering::Less));
}

#[test]
fn events_of_equal_weight_and_time_order_by_origin() {
    let x = event(1, "x", &[("x", 1), ("y", 1)]);
    let y = event(2, "y", &[("x", 1), ("y", 1)]);
    assert_eq!(x.cmp(&y), Ordering::Less);
    assert_eq!(y.cmp(&x), Ordering::Greater);
    let again = event(3, "x", &[("y", 1), ("x", 1)]);
    assert_eq!(x.cmp(&again), Ordering::Equal);
    assert_eq!(x.partial_cmp(&again), Some(Ordering::Equal));
    assert!(!x.is_after(&again));
    let p = event(4, "p", &[("x", 1)]);
    let q = event(5, "q", &[("x", 1)]);
    assert_eq!(p.cmp(&q), Ordering::Less);
}

#[test]
fn events_are_equal_where_clock_and_origin_are() {
    let a = event(1, "n1", &[("n1", 1), ("n2", 0)]);
    let b = event(2, "n1", &[("n2", 0), ("n1", 1)]);
    assert!(a == b);
    let other_origin = event(1, "n2", &[("n1", 1), ("n2", 0)]);
    assert!(a != other_origin);
    let other_clock = event(1, "n1", &[("n1", 1), ("n2", 1)]);
    assert!(a != other_clock);
    let smaller_clock = event(1, "n1", &[("n1", 1)]);
    assert!(a != smaller_clock);
    assert!(smaller_clock != a);
}

#[test]
fn clone_keeps_every_field() {
    let a = event(5, "n1", &[("n1", 1), ("n2", 0)]);
    let b = a.clone();
    assert_eq!(b.global_id, 5);
    assert_eq!(b.origin_node, "n1");
    assert_eq!(b.op, EventOp::Enqueue);
    assert_eq!(b.item, Some("item5".to_string()));
    assert!(b.clock.equals(&a.clock));
}
