use crate::applied::AppliedSet;
use crate::buffer::{lemma_filter_ascending, ReorderBuffer};
use crate::clock::{clock_le, lemma_merge_maximal, Snapshot, VectorClock};
use crate::event::{Event, EventOp};
use crate::ids::{IdCounter, Ids};
use crate::log::{ordered_below, LogEntry, Logger, State};
use crate::model::{
    admissible, applied_one, applied_trace, dequeue_step, drained, enqueue_step, fails, head,
    passes, remote_step, stalled, tail, wrote, EngineView,
};
use crate::queue::Queue;
use crate::theorems::{
    lemma_applied_all_frame, lemma_applied_one_frame, lemma_local_step_stalled,
    lemma_remote_step_stalled,
};
use vstd::prelude::*;

verus! {

/// One node of the replicated queue: its queue, its log, its vector clock,
/// the events it has applied and the events that wait for their
/// predecessors.
pub struct DistributedQueueSystem<T> {
    node_id: String,
    queue: Queue<T>,
    logger: Logger<T>,
    clock: VectorClock,
    applied_events: AppliedSet,
    event_buffer: ReorderBuffer<T>,
}

impl<T: Clone> View for DistributedQueueSystem<T> {
    type V = EngineView<T>;

    closed spec fn view(&self) -> EngineView<T> {
        EngineView {
            node: self.node_id@,
            queue: self.queue@,
            log: self.logger@,
            clock: self.clock@,
            applied: self.applied_events@,
            buffer: self.event_buffer@,
        }
    }
}

impl<T: Clone> DistributedQueueSystem<T> {
    /// Clock and log belong to this node, and the clock knows it.
    pub closed spec fn wf(&self) -> bool {
        &&& self.clock.wf()
        &&& self.clock.local() == self.node_id@
        &&& self.logger.node() == self.node_id@
    }

    /// The clock of a well-formed node holds a counter for the node.
    pub proof fn lemma_wf(&self)
        requires
            self.wf(),
        ensures
            self@.clock.contains_key(self@.node),
    {
        self.clock.lemma_wf();
    }

    /// A node that knows no other node.
    pub fn new(node_id: String) -> (s: Self)
        ensures
            s.wf(),
            s@ == (EngineView {
                node: node_id@,
                queue: Seq::<T>::empty(),
                log: Seq::<LogEntry<T>>::empty(),
                clock: Map::<Seq<char>, u64>::empty().insert(node_id@, 0u64),
                applied: Set::<(Seq<char>, u64)>::empty(),
                buffer: Seq::<Event<T>>::empty(),
            }),
            stalled(s@),
    {
        DistributedQueueSystem {
            queue: Queue::new(),
            logger: Logger::new(node_id.clone()),
            clock: VectorClock::new_single(node_id.as_str()),
            applied_events: AppliedSet::new(),
            event_buffer: ReorderBuffer::new(),
            node_id,
        }
    }

    /// A node that knows the nodes `nodes`, all counters at 0.
    pub fn new_with_nodes(node_id: String, nodes: &[&str]) -> (s: Self)
        ensures
            s.wf(),
            s@.node == node_id@,
            s@.queue == Seq::<T>::empty(),
            s@.log == Seq::<LogEntry<T>>::empty(),
            s@.applied == Set::<(Seq<char>, u64)>::empty(),
            s@.buffer == Seq::<Event<T>>::empty(),
            forall|k: Seq<char>| #[trigger]
                s@.clock.contains_key(k) <==> (k == node_id@ || exists|i: int|
                    0 <= i < nodes@.len() && (#[trigger] nodes@[i])@ == k),
            forall|k: Seq<char>| #[trigger] s@.clock.contains_key(k) ==> s@.clock[k] == 0,
            stalled(s@),
    {
        DistributedQueueSystem {
            queue: Queue::new(),
            logger: Logger::new(node_id.clone()),
            clock: VectorClock::new(node_id.as_str(), nodes),
            applied_events: AppliedSet::new(),
            event_buffer: ReorderBuffer::new(),
            node_id,
        }
    }

    /// Puts `item` into the queue: ticks the clock, makes the event, marks
    /// it as applied, puts the item at the tail and writes the log entry.
    /// Hands back the event to broadcast.
    pub fn enqueue(&mut self, item: T, ids: &mut Ids) -> (event: Event<T>)
        requires
            old(self).wf(),
            old(self)@.clock[old(self)@.node] < u64::MAX,
            old(ids).events.peek() < u64::MAX,
            old(ids).log_entries.peek() < u64::MAX,
        ensures
            final(self).wf(),
            enqueue_step(
                old(self)@,
                item,
                old(ids).events.peek() as int,
                old(ids).log_entries.peek() as int,
                event,
                final(self)@,
            ),
            final(ids).events.peek() == old(ids).events.peek() + 1,
            final(ids).log_entries.peek() == old(ids).log_entries.peek() + 1,
            clock_le(old(self)@.clock, final(self)@.clock),
            ordered_below(old(self)@.log, old(ids).log_entries.peek()) ==> ordered_below(
                final(self)@.log,
                final(ids).log_entries.peek(),
            ),
            stalled(old(self)@) ==> stalled(final(self)@),
    {
        proof {
            self.lemma_wf();
        }
        let vector_time = self.clock.tick_snapshot();
        let event = Event::new_enqueue(
            self.node_id.clone(),
            item.clone(),
            vector_time.clone(),
            &mut ids.events,
        );
        self.applied_events.insert(&self.node_id, event.global_id);
        self.apply_enqueue_op(
            item,
            vector_time,
            Some(event.global_id),
            event.clone(),
            &mut ids.log_entries,
        );
        proof {
            if stalled(old(self)@) {
                lemma_local_step_stalled(old(self)@, self@);
            }
        }
        event
    }

    /// Takes the head out of the queue, if there is one: ticks the clock,
    /// takes the head, makes the event and writes the log entry. Hands back
    /// what came out and the event to broadcast.
    pub fn dequeue(&mut self, ids: &mut Ids) -> (r: (Option<T>, Event<T>))
        requires
            old(self).wf(),
            old(self)@.clock[old(self)@.node] < u64::MAX,
            old(ids).events.peek() < u64::MAX,
            old(ids).log_entries.peek() < u64::MAX,
        ensures
            final(self).wf(),
            dequeue_step(
                old(self)@,
                old(ids).events.peek() as int,
                old(ids).log_entries.peek() as int,
                r.0,
                r.1,
                final(self)@,
            ),
            final(ids).events.peek() == old(ids).events.peek() + 1,
            final(ids).log_entries.peek() == old(ids).log_entries.peek() + 1,
            clock_le(old(self)@.clock, final(self)@.clock),
            ordered_below(old(self)@.log, old(ids).log_entries.peek()) ==> ordered_below(
                final(self)@.log,
                final(ids).log_entries.peek(),
            ),
            stalled(old(self)@) ==> stalled(final(self)@),
    {
        proof {
            self.lemma_wf();
        }
        let vector_time = self.clock.tick_snapshot();
        let item = self.queue.dequeue();
        let event = Event::new_dequeue(
            self.node_id.clone(),
            item.clone(),
            vector_time.clone(),
            &mut ids.events,
        );
        self.logger.log(
            "dequeue",
            item.clone(),
            State::Delivered,
            vector_time,
            Some(event.global_id),
            event.clone(),
            &mut ids.log_entries,
        );
        proof {
            if stalled(old(self)@) {
                lemma_local_step_stalled(old(self)@, self@);
            }
        }
        (item, event)
    }

    /// Takes in an event that another node has sent. Returns `true` where
    /// the event was applied now, and `false` where it was applied before or
    /// has to wait in the buffer. The event's origin is not added to the
    /// clock: a node that does not know the origin goes on counting it as 0.
    pub fn apply_remote_event(&mut self, event: Event<T>, ids: &mut Ids) -> (accepted: bool)
        requires
            old(self).wf(),
            old(self)@.clock[old(self)@.node] < u64::MAX,
            old(ids).log_entries.peek() + old(self)@.buffer.len() + 1 < u64::MAX,
        ensures
            final(self).wf(),
            remote_step(
                old(self)@,
                event,
                old(ids).log_entries.peek() as int,
                final(self)@,
                accepted,
            ),
            final(ids).events.peek() == old(ids).events.peek(),
            final(ids).log_entries.peek() == old(ids).log_entries.peek() + (final(self)@.log.len()
                - old(self)@.log.len()),
            clock_le(old(self)@.clock, final(self)@.clock),
            ordered_below(old(self)@.log, old(ids).log_entries.peek()) ==> ordered_below(
                final(self)@.log,
                final(ids).log_entries.peek(),
            ),
            stalled(old(self)@) ==> stalled(final(self)@),
    {
        proof {
            self.lemma_wf();
            lemma_merge_maximal(self@.clock, self@.node, event.clock@);
        }
        self.clock.update(&event.clock);
        let ghost base = self@;
        if self.applied_events.contains(&event.origin_node, event.global_id) {
            proof {
                if stalled(old(self)@) {
                    lemma_remote_step_stalled(
                        old(self)@,
                        event,
                        old(ids).log_entries.peek() as int,
                        self@,
                        false,
                    );
                }
            }
            return false;
        }
        if self.can_apply_event(&event) {
            self.apply_event_immediately(event, &mut ids.log_entries);
            let ghost mid = self@;
            proof {
                lemma_applied_one_frame(base, event, old(ids).log_entries.peek() as int, mid);
            }
            self.process_buffered_events(&mut ids.log_entries);
            proof {
                mid.buffer.lemma_filter_len(passes(mid.clock));
                lemma_applied_all_frame(
                    (EngineView { buffer: mid.buffer.filter(fails(mid.clock)), ..mid }),
                    mid.buffer.filter(passes(mid.clock)),
                    old(ids).log_entries.peek() + (mid.log.len() - base.log.len()),
                    self@,
                );
                if stalled(old(self)@) {
                    lemma_remote_step_stalled(
                        old(self)@,
                        event,
                        old(ids).log_entries.peek() as int,
                        self@,
                        true,
                    );
                }
            }
            true
        } else {
            self.event_buffer.push(event);
            proof {
                if stalled(old(self)@) {
                    lemma_remote_step_stalled(
                        old(self)@,
                        event,
                        old(ids).log_entries.peek() as int,
                        self@,
                        false,
                    );
                }
            }
            false
        }
    }

    /// Whether `event` passes the causality gate under the node's clock.
    pub fn can_apply_event(&self, event: &Event<T>) -> (b: bool)
        ensures
            b == admissible(self@.clock, *event),
    {
        let my_clock = self.clock.snapshot();
        let event_node_time = event.origin_timestamp();
        let my_node_time = match my_clock.get(&event.origin_node) {
            Some(v) => *v,
            None => 0,
        };
        my_node_time < u64::MAX && event_node_time == my_node_time + 1
    }

    /// Applies `event`: marks it as applied, changes the queue as the
    /// operation says and writes the log entry. An enqueue event without an
    /// item is marked and nothing else.
    fn apply_event_immediately(&mut self, event: Event<T>, ids: &mut IdCounter)
        requires
            old(self).wf(),
            old(ids).peek() < u64::MAX,
        ensures
            final(self).wf(),
            applied_one(old(self)@, event, old(ids).peek() as int, final(self)@),
            final(ids).peek() == old(ids).peek() + (final(self)@.log.len() - old(self)@.log.len()),
            ordered_below(old(self)@.log, old(ids).peek()) ==> ordered_below(
                final(self)@.log,
                final(ids).peek(),
            ),
    {
        self.applied_events.insert(&event.origin_node, event.global_id);
        match event.op {
            EventOp::Enqueue => {
                if event.item.is_some() {
                    let copy = event.clone();
                    let clock = event.clock.clone();
                    let event_id = Some(event.global_id);
                    match event.item {
                        Some(item) => {
                            self.apply_enqueue_op(item, clock, event_id, copy, ids);
                        },
                        None => {},
                    }
                }
            },
            EventOp::Dequeue => {
                let clock = event.clock.clone();
                let event_id = Some(event.global_id);
                self.apply_dequeue_op(clock, event_id, event, ids);
            },
        }
    }

    /// Drains the reorder buffer: the buffered events that pass the causality gate are
    /// taken out and applied in the order of events, the others stay.
    /// Applying an event does not move the clock, so after one pass no
    /// event that is left passes the causality gate.
    fn process_buffered_events(&mut self, ids: &mut IdCounter)
        requires
            old(self).wf(),
            old(ids).peek() + old(self)@.buffer.len() < u64::MAX,
        ensures
            final(self).wf(),
            drained(old(self)@, old(ids).peek() as int, final(self)@),
            final(ids).peek() == old(ids).peek() + (final(self)@.log.len() - old(self)@.log.len()),
            ordered_below(old(self)@.log, old(ids).peek()) ==> ordered_below(
                final(self)@.log,
                final(ids).peek(),
            ),
    {
        let ghost clock = self@.clock;
        let all = self.event_buffer.take_all();
        let ghost waiting = all@;
        let mut to_apply: Vec<Event<T>> = Vec::new();
        let mut remaining: Vec<Event<T>> = Vec::new();
        proof {
            assert(waiting.take(0) =~= Seq::<Event<T>>::empty());
            waiting.take(0).lemma_filter_len(passes(clock));
            waiting.take(0).lemma_filter_len(fails(clock));
        }
        for event in it: all.into_iter()
            invariant
                it.seq() == waiting,
                self@.clock == clock,
                to_apply@ == waiting.take(it.index() as int).filter(passes(clock)),
                remaining@ == waiting.take(it.index() as int).filter(fails(clock)),
        {
            proof {
                let i = it.index() as int;
                assert(waiting.take(i + 1) =~= waiting.take(i).push(event));
                waiting.take(i).lemma_filter_push(event, passes(clock));
                waiting.take(i).lemma_filter_push(event, fails(clock));
            }
            if self.can_apply_event(&event) {
                to_apply.push(event);
            } else {
                remaining.push(event);
            }
        }
        proof {
            assert(waiting.take(waiting.len() as int) =~= waiting);
            lemma_filter_ascending(waiting, fails(clock));
            waiting.lemma_filter_len(passes(clock));
        }
        self.event_buffer = ReorderBuffer::from_ordered(remaining);
        let ghost start = self@;
        let ghost first_id = ids.peek() as int;
        let ghost ready = to_apply@;
        let ghost mut trace = seq![start];
        assert(start == (EngineView { buffer: waiting.filter(fails(clock)), ..old(self)@ }));
        for event in it: to_apply.into_iter()
            invariant
                it.seq() == ready,
                self.wf(),
                applied_trace(trace, ready.take(it.index() as int), first_id),
                trace[0] == start,
                trace.last() == self@,
                ids.peek() == first_id + (self@.log.len() - start.log.len()),
                self@.log.len() - start.log.len() <= it.index(),
                first_id + ready.len() < u64::MAX,
                ordered_below(start.log, old(ids).peek()) ==> ordered_below(self@.log, ids.peek()),
        {
            let ghost mid = self@;
            let ghost next = event;
            self.apply_event_immediately(event, ids);
            proof {
                let i = it.index() as int;
                lemma_applied_one_frame(
                    mid,
                    next,
                    first_id + (mid.log.len() - start.log.len()),
                    self@,
                );
                let longer = trace.push(self@);
                assert forall|j: int| 0 <= j < i + 1 implies applied_one(
                    #[trigger] longer[j],
                    ready.take(i + 1)[j],
                    first_id + (longer[j].log.len() - longer[0].log.len()),
                    longer[j + 1],
                ) by {
                    if j < i {
                        assert(longer[j] == trace[j]);
                        assert(longer[j + 1] == trace[j + 1]);
                        assert(ready.take(i + 1)[j] == ready.take(i)[j]);
                    }
                }
                trace = longer;
            }
        }
        proof {
            assert(ready.take(ready.len() as int) =~= ready);
            assert(applied_trace(trace, ready, first_id));
        }
    }

    /// Puts `item` into the queue and writes the log entry of the enqueue.
    fn apply_enqueue_op(
        &mut self,
        item: T,
        clock: Snapshot,
        event_id: Option<u64>,
        event: Event<T>,
        ids: &mut IdCounter,
    )
        requires
            old(self).wf(),
            old(ids).peek() < u64::MAX,
        ensures
            final(self).wf(),
            final(self)@ == (EngineView {
                queue: old(self)@.queue.push(item),
                log: final(self)@.log,
                ..old(self)@
            }),
            wrote(
                old(self)@.log,
                final(self)@.log,
                old(ids).peek() as int,
                old(self)@.node,
                "enqueue"@,
                Some(item),
                State::Committed,
                clock,
                event_id,
                event,
            ),
            final(ids).peek() == old(ids).peek() + 1,
            ordered_below(old(self)@.log, old(ids).peek()) ==> ordered_below(
                final(self)@.log,
                final(ids).peek(),
            ),
    {
        let copy = item.clone();
        self.queue.enqueue(item);
        self.logger.log("enqueue", Some(copy), State::Committed, clock, event_id, event, ids);
    }

    /// Takes the head out of the queue, if there is one, and writes the log
    /// entry of the dequeue.
    fn apply_dequeue_op(
        &mut self,
        clock: Snapshot,
        event_id: Option<u64>,
        event: Event<T>,
        ids: &mut IdCounter,
    )
        requires
            old(self).wf(),
            old(ids).peek() < u64::MAX,
        ensures
            final(self).wf(),
            final(self)@ == (EngineView {
                queue: tail(old(self)@.queue),
                log: final(self)@.log,
                ..old(self)@
            }),
            wrote(
                old(self)@.log,
                final(self)@.log,
                old(ids).peek() as int,
                old(self)@.node,
                "dequeue"@,
                head(old(self)@.queue),
                State::Delivered,
                clock,
                event_id,
                event,
            ),
            final(ids).peek() == old(ids).peek() + 1,
            ordered_below(old(self)@.log, old(ids).peek()) ==> ordered_below(
                final(self)@.log,
                final(ids).peek(),
            ),
    {
        let item = self.queue.dequeue();
        self.logger.log("dequeue", item, State::Delivered, clock, event_id, event, ids);
    }

    /// The length of the queue, and whether it is empty.
    pub fn queue_state(&self) -> (r: (usize, bool))
        ensures
            r.0 == self@.queue.len(),
            r.1 == (self@.queue.len() == 0),
    {
        (self.queue.len(), self.queue.is_empty())
    }

    /// Copies of the log's entries, oldest first.
    pub fn logs(&self) -> (r: Vec<LogEntry<T>>)
        ensures
            r@.len() == self@.log.len(),
            forall|i: int| 0 <= i < r@.len() ==> (#[trigger] r@[i]).copy_of(&self@.log[i]),
    {
        self.logger.entries()
    }

    /// The node's own counter.
    pub fn clock(&self) -> (t: u64)
        requires
            self.wf(),
        ensures
            t == self@.clock[self@.node],
    {
        self.clock.now()
    }

    /// The node's identifier.
    pub fn node_id(&self) -> (id: &str)
        ensures
            id@ == self@.node,
    {
        self.node_id.as_str()
    }

    /// The number of events that wait in the reorder buffer.
    pub fn pending_events_count(&self) -> (n: usize)
        ensures
            n == self@.buffer.len(),
    {
        self.event_buffer.len()
    }
}

} // verus!
