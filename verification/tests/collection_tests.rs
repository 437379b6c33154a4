use distributed_queue_mini::applied::AppliedSet;
use distributed_queue_mini::buffer::ReorderBuffer;
use distributed_queue_mini::clock::Snapshot;
use distributed_queue_mini::event::{Event, EventOp};
use distributed_queue_mini::ids::{IdCounter, Ids};
use distributed_queue_mini::node_map::NodeMap;
use distributed_queue_mini::queue::Queue;

fn snapshot(pairs: &[(&str, u64)]) -> Snapshot {
    let mut s = Snapshot::new();
    for (node, time) in pairs {
        s.insert(node.to_string(), *time);
    }
    s
}

fn event(id: u64, origin: &str, clock: &[(&str, u64)]) -> Event<String> {
    Event {
        global_id: id,
        origin_node: origin.to_string(),
        op: EventOp::Enqueue,
        item: None,
        clock: snapshot(clock),
    }
}

#[test]
fn queue_is_first_in_first_out() {
    let mut q: Queue<u32> = Queue::new();
    assert!(q.is_empty());
    assert_eq!(q.len(), 0);
    assert_eq!(q.dequeue(), None);
    assert_eq!(q.len(), 0);
    q.enqueue(1);
    assert_eq!(q.len(), 1);
    assert!(!q.is_empty());
    q.enqueue(2);
    q.enqueue(3);
    assert_eq!(q.len(), 3);
    assert_eq!(q.dequeue(), Some(1));
    assert_eq!(q.len(), 2);
    assert_eq!(q.dequeue(), Some(2));
    assert_eq!(q.dequeue(), Some(3));
    assert_eq!(q.dequeue(), None);
    assert!(q.is_empty());
}

#[test]
fn id_counter_counts_up_from_one() {
    let mut c = IdCounter::new();
    assert_eq!(c.remaining(), u64::MAX - 1);
    assert_eq!(c.next_id(), 1);
    assert_eq!(c.next_id(), 2);
    assert_eq!(c.next_id(), 3);
    assert_eq!(c.remaining(), u64::MAX - 4);
    let mut ids = Ids::new();
    assert_eq!(ids.events.next_id(), 1);
    assert_eq!(ids.events.next_id(), 2);
    assert_eq!(ids.log_entries.next_id(), 1);
}

#[test]
fn node_map_behaves_as_a_map() {
    let mut m: NodeMap<u64> = NodeMap::new();
    assert_eq!(m.len(), 0);
    assert_eq!(m.get(&"a".to_string()), None);
    assert!(!m.contains_key(&"a".to_string()));
    m.insert("a".to_string(), 1);
    m.insert("b".to_string(), 2);
    m.insert("a".to_string(), 3);
    assert_eq!(m.len(), 2);
    assert_eq!(m.get(&"a".to_string()), Some(&3));
    assert_eq!(m.get(&"b".to_string()), Some(&2));
    assert_eq!(m.position(&"b".to_string()), Some(1));
    assert_eq!(m.position(&"c".to_string()), None);
    assert_eq!(m.key(0), "a");
    assert_eq!(*m.value(0), 3);
    m.set_value(1, 20);
    assert_eq!(m.get(&"b".to_string()), Some(&20));
    assert_eq!(m.remove(&"a".to_string()), Some(3));
    assert_eq!(m.remove(&"a".to_string()), None);
    assert_eq!(m.len(), 1);
    assert!(!m.contains_key(&"a".to_string()));
    assert!(m.contains_key(&"b".to_string()));
}

#[test]
fn node_maps_are_equal_whatever_the_order_of_insertion() {
    let a = snapshot(&[("x", 1), ("y", 2)]);
    let b = snapshot(&[("y", 2), ("x", 1)]);
    assert!(a.equals(&b));
    assert!(b.equals(&a));
    assert!(!a.equals(&snapshot(&[("x", 1), ("y", 3)])));
    assert!(!a.equals(&snapshot(&[("x", 1)])));
    assert!(!a.equals(&snapshot(&[("x", 1), ("z", 2)])));
    assert!(!snapshot(&[("x", 1)]).equals(&a));
    assert!(Snapshot::new().equals(&Snapshot::new()));
    let c = a.clone();
    assert!(c.equals(&a));
    assert_eq!(c.key(0), "x");
}

#[test]
fn applied_set_remembers_pairs_of_origin_and_identifier() {
    let mut s = AppliedSet::new();
    assert!(!s.contains(&"n1".to_string(), 1));
    s.insert(&"n1".to_string(), 1);
    s.insert(&"n1".to_string(), 5);
    s.insert(&"n2".to_string(), 2);
    s.insert(&"n1".to_string(), 1);
    assert!(s.contains(&"n1".to_string(), 1));
    assert!(s.contains(&"n1".to_string(), 5));
    assert!(s.contains(&"n2".to_string(), 2));
    assert!(!s.contains(&"n2".to_string(), 1));
    assert!(!s.contains(&"n1".to_string(), 2));
    assert!(!s.contains(&"n3".to_string(), 1));
}

#[test]
fn reorder_buffer_hands_events_out_in_order() {
    let mut b: ReorderBuffer<String> = ReorderBuffer::new();
    assert_eq!(b.len(), 0);
    assert!(b.pop().is_none());
    b.push(event(1, "n1", &[("n1", 3)]));
    b.push(event(2, "n1", &[("n1", 1)]));
    b.push(event(3, "n1", &[("n1", 2)]));
    b.push(event(4, "n0", &[("n1", 2)]));
    assert_eq!(b.len(), 4);
    let order: Vec<u64> = (0..4).map(|_| b.pop().unwrap().global_id).collect();
    assert_eq!(order, vec![2, 4, 3, 1]);
    assert_eq!(b.len(), 0);
    assert!(b.pop().is_none());
}

#[test]
fn reorder_buffer_keeps_equal_events_in_arrival_order() {
    let mut b: ReorderBuffer<String> = ReorderBuffer::new();
    b.push(event(10, "n1", &[("n1", 2)]));
    b.push(event(11, "n1", &[("n1", 2)]));
    b.push(event(12, "n1", &[("n1", 1)]));
    b.push(event(13, "n1", &[("n1", 2)]));
    let all = b.take_all();
    let order: Vec<u64> = all.iter().map(|e| e.global_id).collect();
    assert_eq!(order, vec![12, 10, 11, 13]);
    assert_eq!(b.len(), 0);
    let mut again = ReorderBuffer::from_ordered(all);
    assert_eq!(again.len(), 4);
    assert_eq!(again.pop().unwrap().global_id, 12);
    again.push(event(14, "n1", &[("n1", 1)]));
    assert_eq!(again.pop().unwrap().global_id, 14);
    assert_eq!(again.pop().unwrap().global_id, 10);
}
