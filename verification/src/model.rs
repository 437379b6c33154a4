use crate::buffer::inserted;
use crate::clock::{counter, merged, ticked, Snapshot};
use crate::event::{item_copy, Event, EventOp};
use crate::log::{LogEntry, State};
use vstd::prelude::*;

verus! {

/// What a node holds, as mathematical values.
pub struct EngineView<T> {
    /// The node's identifier.
    pub node: Seq<char>,
    /// The items of the queue, head first.
    pub queue: Seq<T>,
    /// The entries of the log, oldest first.
    pub log: Seq<LogEntry<T>>,
    /// The counters of the vector clock.
    pub clock: Map<Seq<char>, u64>,
    /// The events applied so far, each as its origin and its identifier.
    pub applied: Set<(Seq<char>, u64)>,
    /// The events that wait in the reorder buffer, in the order of events.
    pub buffer: Seq<Event<T>>,
}

/// The causality gate: an event may be applied where its origin's own
/// counter is exactly one above the counter that the clock holds for that
/// origin, a missing counter counting as 0.
pub open spec fn admissible<T>(clock: Map<Seq<char>, u64>, e: Event<T>) -> bool {
    e.origin_time() == counter(clock, e.origin_node@) + 1
}

/// The events that pass the causality gate under `clock`.
pub open spec fn passes<T>(clock: Map<Seq<char>, u64>) -> spec_fn(Event<T>) -> bool {
    |e: Event<T>| admissible(clock, e)
}

/// The events that do not pass the causality gate under `clock`.
pub open spec fn fails<T>(clock: Map<Seq<char>, u64>) -> spec_fn(Event<T>) -> bool {
    |e: Event<T>| !admissible(clock, e)
}

/// Whether `after` is `before` with one more entry at its end, which holds
/// the identifier `id`, the given node, operation and state, a copy of
/// `item`, and `clock`, `event_id` and `event` as they are.
pub open spec fn wrote<T: Clone>(
    before: Seq<LogEntry<T>>,
    after: Seq<LogEntry<T>>,
    id: int,
    node: Seq<char>,
    op: Seq<char>,
    item: Option<T>,
    state: State,
    clock: Snapshot,
    event_id: Option<u64>,
    event: Event<T>,
) -> bool {
    &&& after.len() == before.len() + 1
    &&& after.drop_last() == before
    &&& after.last().local_log_id == id
    &&& after.last().local_node@ == node
    &&& after.last().op@ == op
    &&& item_copy(item, after.last().item)
    &&& after.last().state == state
    &&& after.last().clock == clock
    &&& after.last().event_global_id == event_id
    &&& after.last().event == Some(event)
}

/// Whether `after` is `before` with one more entry at its end, which
/// records under the identifier `id` that the event `e` was applied: the
/// given node, operation and state, a copy of `item`, the event's clock and
/// identifier, and a copy of the event.
pub open spec fn appended<T: Clone>(
    before: Seq<LogEntry<T>>,
    after: Seq<LogEntry<T>>,
    id: int,
    node: Seq<char>,
    op: Seq<char>,
    item: Option<T>,
    state: State,
    e: Event<T>,
) -> bool {
    &&& after.len() == before.len() + 1
    &&& after.drop_last() == before
    &&& after.last().local_log_id == id
    &&& after.last().local_node@ == node
    &&& after.last().op@ == op
    &&& item_copy(item, after.last().item)
    &&& after.last().state == state
    &&& after.last().clock@ == e.clock@
    &&& after.last().event_global_id == Some(e.global_id)
    &&& match after.last().event {
        Some(c) => c.copy_of(&e),
        None => false,
    }
}

/// What putting `item` into the queue for the event `e` does to queue and
/// log: the item goes to the tail, and one entry in state `Committed`
/// follows the log.
pub open spec fn enqueue_applied<T: Clone>(
    pre: EngineView<T>,
    item: T,
    e: Event<T>,
    id: int,
    post: EngineView<T>,
) -> bool {
    &&& post.queue == pre.queue.push(item)
    &&& appended(pre.log, post.log, id, pre.node, "enqueue"@, Some(item), State::Committed, e)
}

/// The head of a queue, if it has one.
pub open spec fn head<T>(queue: Seq<T>) -> Option<T> {
    if queue.len() > 0 {
        Some(queue[0])
    } else {
        None
    }
}

/// A queue without its head, if it has one.
pub open spec fn tail<T>(queue: Seq<T>) -> Seq<T> {
    if queue.len() > 0 {
        queue.drop_first()
    } else {
        queue
    }
}

/// What taking the head out of the queue for the event `e` does to queue
/// and log: the head leaves, if there is one, and one entry in state
/// `Delivered` with what came out follows the log.
pub open spec fn dequeue_applied<T: Clone>(
    pre: EngineView<T>,
    e: Event<T>,
    id: int,
    post: EngineView<T>,
) -> bool {
    &&& post.queue == tail(pre.queue)
    &&& appended(
        pre.log,
        post.log,
        id,
        pre.node,
        "dequeue"@,
        head(pre.queue),
        State::Delivered,
        e,
    )
}

/// What applying the event `e` does to a node, `id` being the identifier of
/// the log entry: the event is marked as applied, queue and log change as
/// the operation says, clock and buffer stay. An enqueue event without an
/// item changes neither queue nor log.
pub open spec fn applied_one<T: Clone>(
    pre: EngineView<T>,
    e: Event<T>,
    id: int,
    post: EngineView<T>,
) -> bool {
    &&& post.node == pre.node
    &&& post.clock == pre.clock
    &&& post.buffer == pre.buffer
    &&& post.applied == pre.applied.insert((e.origin_node@, e.global_id))
    &&& match e.op {
        EventOp::Enqueue => match e.item {
            Some(item) => enqueue_applied(pre, item, e, id, post),
            None => post.queue == pre.queue && post.log == pre.log,
        },
        EventOp::Dequeue => dequeue_applied(pre, e, id, post),
    }
}

/// Whether `states` are the states that a node goes through while the
/// events `events` are applied one after the other, `first_id` being the
/// identifier of the first log entry written and each further entry taking
/// the next identifier.
pub open spec fn applied_trace<T: Clone>(
    states: Seq<EngineView<T>>,
    events: Seq<Event<T>>,
    first_id: int,
) -> bool {
    &&& states.len() == events.len() + 1
    &&& forall|i: int|
        0 <= i < events.len() ==> applied_one(
            #[trigger] states[i],
            events[i],
            first_id + (states[i].log.len() - states[0].log.len()),
            states[i + 1],
        )
}

/// What applying the events `events` one after the other does to a node,
/// `first_id` being the identifier of the first log entry written and each
/// further entry taking the next identifier.
pub open spec fn applied_all<T: Clone>(
    pre: EngineView<T>,
    events: Seq<Event<T>>,
    first_id: int,
    post: EngineView<T>,
) -> bool {
    exists|states: Seq<EngineView<T>>|
        {
            &&& #[trigger] applied_trace(states, events, first_id)
            &&& states[0] == pre
            &&& states.last() == post
        }
}

/// What draining the reorder buffer does to a node: the buffered events
/// that pass the causality gate leave the buffer and are applied in the order of
/// events; the others stay.
pub open spec fn drained<T: Clone>(pre: EngineView<T>, first_id: int, post: EngineView<T>) -> bool {
    applied_all(
        (EngineView { buffer: pre.buffer.filter(fails(pre.clock)), ..pre }),
        pre.buffer.filter(passes(pre.clock)),
        first_id,
        post,
    )
}

/// What a local enqueue of `item` does: the clock ticks, the event that is
/// handed back carries the new clock and a copy of the item, the event is
/// marked as applied, and the item is put into the queue and logged.
pub open spec fn enqueue_step<T: Clone>(
    pre: EngineView<T>,
    item: T,
    event_id: int,
    log_id: int,
    event: Event<T>,
    post: EngineView<T>,
) -> bool {
    &&& post.node == pre.node
    &&& post.clock == ticked(pre.clock, pre.node)
    &&& post.buffer == pre.buffer
    &&& post.applied == pre.applied.insert((pre.node, event.global_id))
    &&& event.global_id == event_id
    &&& event.origin_node@ == pre.node
    &&& event.op == EventOp::Enqueue
    &&& item_copy(Some(item), event.item)
    &&& event.clock@ == post.clock
    &&& enqueue_applied(pre, item, event, log_id, post)
}

/// What a local dequeue does: the clock ticks, the head of the queue comes
/// out as `out`, the event that is handed back carries the new clock and a
/// copy of what came out, and the dequeue is logged. The set of applied
/// events stays.
pub open spec fn dequeue_step<T: Clone>(
    pre: EngineView<T>,
    event_id: int,
    log_id: int,
    out: Option<T>,
    event: Event<T>,
    post: EngineView<T>,
) -> bool {
    &&& post.node == pre.node
    &&& post.clock == ticked(pre.clock, pre.node)
    &&& post.buffer == pre.buffer
    &&& post.applied == pre.applied
    &&& out == head(pre.queue)
    &&& event.global_id == event_id
    &&& event.origin_node@ == pre.node
    &&& event.op == EventOp::Dequeue
    &&& item_copy(out, event.item)
    &&& event.clock@ == post.clock
    &&& dequeue_applied(pre, event, log_id, post)
}

/// What the arrival of the event `e` from another node does. The event's
/// clock is merged into the node's in every case. An event that was applied
/// before changes nothing else. An event that passes the causality gate is applied,
/// and the buffer is drained. Any other event is put into the buffer.
pub open spec fn remote_step<T: Clone>(
    pre: EngineView<T>,
    e: Event<T>,
    first_id: int,
    post: EngineView<T>,
    accepted: bool,
) -> bool {
    let base = EngineView { clock: merged(pre.clock, pre.node, e.clock@), ..pre };
    if pre.applied.contains((e.origin_node@, e.global_id)) {
        !accepted && post == base
    } else if admissible(base.clock, e) {
        accepted && exists|mid: EngineView<T>|
            {
                &&& #[trigger] applied_one(base, e, first_id, mid)
                &&& drained(mid, first_id + (mid.log.len() - base.log.len()), post)
            }
    } else {
        !accepted && inserted(base.buffer, e, post.buffer) && post == (EngineView {
            buffer: post.buffer,
            ..base
        })
    }
}

/// Whether the event `e` can never pass the causality gate at a node whose
/// clock is `clock` now: the clock holds a counter for the event's origin
/// that has reached the event's, or it holds none and the event's is not 1.
pub open spec fn held_back<T>(clock: Map<Seq<char>, u64>, e: Event<T>) -> bool {
    if clock.contains_key(e.origin_node@) {
        e.origin_time() <= clock[e.origin_node@]
    } else {
        e.origin_time() != 1
    }
}

/// Whether every buffered event of a node is held back.
pub open spec fn stalled<T>(v: EngineView<T>) -> bool {
    forall|i: int| 0 <= i < v.buffer.len() ==> held_back(v.clock, #[trigger] v.buffer[i])
}

} // verus!
