use crate::buffer::place_of;
use crate::clock::{clock_le, counter, lemma_merge_maximal, lemma_tick_monotone, merged, ticked};
use crate::event::{Event, EventOp};
use crate::model::{
    admissible, applied_all, applied_one, applied_trace, dequeue_step, drained, enqueue_step,
    fails, held_back, passes, remote_step, stalled, EngineView,
};
use vstd::prelude::*;

verus! {

/// Applying one event keeps node, clock and buffer, removes nothing from the
/// log or from the set of applied events, and adds at most one log entry.
pub proof fn lemma_applied_one_frame<T: Clone>(
    pre: EngineView<T>,
    e: Event<T>,
    id: int,
    post: EngineView<T>,
)
    requires
        applied_one(pre, e, id, post),
    ensures
        post.node == pre.node,
        post.clock == pre.clock,
        post.buffer == pre.buffer,
        pre.applied.subset_of(post.applied),
        post.applied.contains((e.origin_node@, e.global_id)),
        pre.log.is_prefix_of(post.log),
        post.log.len() <= pre.log.len() + 1,
{
    if post.log.len() == pre.log.len() + 1 {
        assert(post.log.drop_last() == pre.log ==> pre.log.is_prefix_of(post.log));
    }
}

/// Along a trace node, clock and buffer stay, nothing leaves the log or the
/// set of applied events, and each event adds at most one log entry.
pub proof fn lemma_applied_trace_frame<T: Clone>(
    states: Seq<EngineView<T>>,
    events: Seq<Event<T>>,
    first_id: int,
    k: int,
)
    requires
        applied_trace(states, events, first_id),
        0 <= k <= events.len(),
    ensures
        states[k].node == states[0].node,
        states[k].clock == states[0].clock,
        states[k].buffer == states[0].buffer,
        states[0].applied.subset_of(states[k].applied),
        states[0].log.is_prefix_of(states[k].log),
        states[k].log.len() <= states[0].log.len() + k,
    decreases k,
{
    if k > 0 {
        lemma_applied_trace_frame(states, events, first_id, k - 1);
        lemma_applied_one_frame(
            states[k - 1],
            events[k - 1],
            first_id + (states[k - 1].log.len() - states[0].log.len()),
            states[k],
        );
    }
}

/// Applying events one after the other keeps node, clock and buffer,
/// removes nothing from the log or from the set of applied events, and adds
/// at most one log entry for each event.
pub proof fn lemma_applied_all_frame<T: Clone>(
    pre: EngineView<T>,
    events: Seq<Event<T>>,
    first_id: int,
    post: EngineView<T>,
)
    requires
        applied_all(pre, events, first_id, post),
    ensures
        post.node == pre.node,
        post.clock == pre.clock,
        post.buffer == pre.buffer,
        pre.applied.subset_of(post.applied),
        pre.log.is_prefix_of(post.log),
        post.log.len() <= pre.log.len() + events.len(),
{
    let states = choose|states: Seq<EngineView<T>>|
        {
            &&& #[trigger] applied_trace(states, events, first_id)
            &&& states[0] == pre
            &&& states.last() == post
        };
    lemma_applied_trace_frame(states, events, first_id, events.len() as int);
}

/// An event that is held back does not pass the causality gate.
pub proof fn lemma_held_back_fails<T>(clock: Map<Seq<char>, u64>, e: Event<T>)
    requires
        held_back(clock, e),
    ensures
        !admissible(clock, e),
{
}

/// An event that is held back stays so while the clock keeps its nodes and
/// lowers no counter.
pub proof fn lemma_held_back_stays<T>(
    clock: Map<Seq<char>, u64>,
    later: Map<Seq<char>, u64>,
    e: Event<T>,
)
    requires
        held_back(clock, e),
        clock_le(clock, later),
        later.dom() == clock.dom(),
    ensures
        held_back(later, e),
{
    if clock.contains_key(e.origin_node@) {
        assert(later.contains_key(e.origin_node@));
    } else {
        assert(!later.dom().contains(e.origin_node@));
    }
}

proof fn lemma_filter_all<A>(s: Seq<A>, keep: spec_fn(A) -> bool)
    requires
        forall|i: int| 0 <= i < s.len() ==> keep(#[trigger] s[i]),
    ensures
        s.filter(keep) == s,
    decreases s.len(),
{
    reveal(Seq::filter);
    if s.len() > 0 {
        lemma_filter_all(s.drop_last(), keep);
        assert(s.drop_last().push(s.last()) =~= s);
    }
}

proof fn lemma_filter_none<A>(s: Seq<A>, keep: spec_fn(A) -> bool)
    requires
        forall|i: int| 0 <= i < s.len() ==> !keep(#[trigger] s[i]),
    ensures
        s.filter(keep) == Seq::<A>::empty(),
    decreases s.len(),
{
    reveal(Seq::filter);
    if s.len() > 0 {
        lemma_filter_none(s.drop_last(), keep);
    } else {
        assert(s =~= Seq::<A>::empty());
    }
}

/// After a drain no event that is left in the buffer passes the causality
/// gate, so a second drain would find nothing to apply.
pub proof fn lemma_drained_settled<T: Clone>(
    pre: EngineView<T>,
    first_id: int,
    post: EngineView<T>,
)
    requires
        drained(pre, first_id, post),
    ensures
        post.clock == pre.clock,
        post.buffer == pre.buffer.filter(fails(pre.clock)),
        forall|i: int| 0 <= i < post.buffer.len() ==> !admissible(post.clock, #[trigger] post.buffer[i]),
{
    lemma_applied_all_frame(
        (EngineView { buffer: pre.buffer.filter(fails(pre.clock)), ..pre }),
        pre.buffer.filter(passes(pre.clock)),
        first_id,
        post,
    );
    assert forall|i: int| 0 <= i < post.buffer.len() implies !admissible(
        post.clock,
        #[trigger] post.buffer[i],
    ) by {
        pre.buffer.lemma_filter_pred(fails(pre.clock), i);
    }
}

/// A drain changes nothing at a node whose buffered events are all held
/// back: none of them leaves the buffer.
pub proof fn lemma_drained_stalled<T: Clone>(
    pre: EngineView<T>,
    first_id: int,
    post: EngineView<T>,
)
    requires
        stalled(pre),
        drained(pre, first_id, post),
    ensures
        post == pre,
{
    assert forall|i: int| 0 <= i < pre.buffer.len() implies fails(pre.clock)(
        #[trigger] pre.buffer[i],
    ) by {
        lemma_held_back_fails(pre.clock, pre.buffer[i]);
    }
    assert forall|i: int| 0 <= i < pre.buffer.len() implies !passes(pre.clock)(
        #[trigger] pre.buffer[i],
    ) by {
        lemma_held_back_fails(pre.clock, pre.buffer[i]);
    }
    lemma_filter_all(pre.buffer, fails(pre.clock));
    lemma_filter_none(pre.buffer, passes(pre.clock));
    let kept = EngineView { buffer: pre.buffer.filter(fails(pre.clock)), ..pre };
    assert(kept == pre);
    let states = choose|states: Seq<EngineView<T>>|
        {
            &&& #[trigger] applied_trace(states, Seq::<Event<T>>::empty(), first_id)
            &&& states[0] == kept
            &&& states.last() == post
        };
    assert(states.len() == 1);
}

/// The arrival of an event keeps the node's identifier and the nodes of its
/// clock, lowers no counter, and removes nothing from the log or from the
/// set of applied events. An event that was applied now is in that set.
pub proof fn lemma_remote_step_frame<T: Clone>(
    pre: EngineView<T>,
    e: Event<T>,
    first_id: int,
    post: EngineView<T>,
    accepted: bool,
)
    requires
        pre.clock.contains_key(pre.node),
        pre.clock[pre.node] < u64::MAX,
        remote_step(pre, e, first_id, post, accepted),
    ensures
        post.node == pre.node,
        post.clock == merged(pre.clock, pre.node, e.clock@),
        post.clock.dom() == pre.clock.dom(),
        clock_le(pre.clock, post.clock),
        pre.applied.subset_of(post.applied),
        pre.log.is_prefix_of(post.log),
        accepted ==> post.applied.contains((e.origin_node@, e.global_id)),
        accepted ==> admissible(post.clock, e),
{
    lemma_merge_maximal(pre.clock, pre.node, e.clock@);
    let base = EngineView { clock: merged(pre.clock, pre.node, e.clock@), ..pre };
    if accepted {
        let mid = choose|mid: EngineView<T>|
            {
                &&& #[trigger] applied_one(base, e, first_id, mid)
                &&& drained(mid, first_id + (mid.log.len() - base.log.len()), post)
            };
        lemma_applied_one_frame(base, e, first_id, mid);
        lemma_applied_all_frame(
            (EngineView { buffer: mid.buffer.filter(fails(mid.clock)), ..mid }),
            mid.buffer.filter(passes(mid.clock)),
            first_id + (mid.log.len() - base.log.len()),
            post,
        );
    }
}

/// An event that a node has applied is turned away when it arrives again,
/// also as a copy: the node answers `false`, and queue, log, buffer and the
/// set of applied events stay as they are. Only the clock moves, by the
/// merge that every arrival brings.
pub proof fn lemma_reapplied_event_is_dropped<T: Clone>(
    pre: EngineView<T>,
    e: Event<T>,
    first_id: int,
    mid: EngineView<T>,
    again: Event<T>,
    next_id: int,
    post: EngineView<T>,
    accepted: bool,
)
    requires
        remote_step(pre, e, first_id, mid, true),
        again.global_id == e.global_id,
        again.origin_node@ == e.origin_node@,
        remote_step(mid, again, next_id, post, accepted),
    ensures
        !accepted,
        post.queue == mid.queue,
        post.log == mid.log,
        post.buffer == mid.buffer,
        post.applied == mid.applied,
        post.clock == merged(mid.clock, mid.node, again.clock@),
{
    let base = EngineView { clock: merged(pre.clock, pre.node, e.clock@), ..pre };
    let between = choose|between: EngineView<T>|
        {
            &&& #[trigger] applied_one(base, e, first_id, between)
            &&& drained(between, first_id + (between.log.len() - base.log.len()), mid)
        };
    lemma_applied_one_frame(base, e, first_id, between);
    lemma_applied_all_frame(
        (EngineView { buffer: between.buffer.filter(fails(between.clock)), ..between }),
        between.buffer.filter(passes(between.clock)),
        first_id + (between.log.len() - base.log.len()),
        mid,
    );
}

/// At a node whose buffered events are all held back, an event that is
/// applied on arrival comes from an origin that the node's clock does not
/// know and carries the origin's counter 1; applying it is all that happens
/// besides the merge of the clocks, since the drain releases nothing.
pub proof fn lemma_accepted_when_stalled<T: Clone>(
    pre: EngineView<T>,
    e: Event<T>,
    first_id: int,
    post: EngineView<T>,
)
    requires
        pre.clock.contains_key(pre.node),
        pre.clock[pre.node] < u64::MAX,
        stalled(pre),
        remote_step(pre, e, first_id, post, true),
    ensures
        !pre.clock.contains_key(e.origin_node@),
        e.origin_time() == 1,
        applied_one(
            (EngineView { clock: merged(pre.clock, pre.node, e.clock@), ..pre }),
            e,
            first_id,
            post,
        ),
        stalled(post),
{
    lemma_merge_maximal(pre.clock, pre.node, e.clock@);
    let base = EngineView { clock: merged(pre.clock, pre.node, e.clock@), ..pre };
    let mid = choose|mid: EngineView<T>|
        {
            &&& #[trigger] applied_one(base, e, first_id, mid)
            &&& drained(mid, first_id + (mid.log.len() - base.log.len()), post)
        };
    assert(stalled(mid)) by {
        assert forall|i: int| 0 <= i < mid.buffer.len() implies held_back(
            mid.clock,
            #[trigger] mid.buffer[i],
        ) by {
            assert(held_back(pre.clock, pre.buffer[i]));
            lemma_held_back_stays(pre.clock, base.clock, pre.buffer[i]);
        }
    }
    lemma_drained_stalled(mid, first_id + (mid.log.len() - base.log.len()), post);
    if pre.clock.contains_key(e.origin_node@) {
        assert(base.clock[e.origin_node@] >= counter(e.clock@, e.origin_node@));
    }
}

/// Events that a node applies on arrival, one after the other, are applied
/// in the order of their origins' counters: at a node whose buffered events
/// are all held back, the later one's counter is no smaller.
pub proof fn lemma_applied_in_origin_order<T: Clone>(
    first: EngineView<T>,
    e1: Event<T>,
    id1: int,
    after_first: EngineView<T>,
    second: EngineView<T>,
    e2: Event<T>,
    id2: int,
    after_second: EngineView<T>,
)
    requires
        first.clock.contains_key(first.node),
        first.clock[first.node] < u64::MAX,
        stalled(first),
        remote_step(first, e1, id1, after_first, true),
        second.clock.contains_key(second.node),
        second.clock[second.node] < u64::MAX,
        stalled(second),
        remote_step(second, e2, id2, after_second, true),
    ensures
        e1.origin_time() <= e2.origin_time(),
{
    lemma_accepted_when_stalled(first, e1, id1, after_first);
    lemma_accepted_when_stalled(second, e2, id2, after_second);
}

/// The arrival of an event leaves the buffered events of a node held back
/// where they were before: an event that is put into the buffer is held
/// back from the start.
pub proof fn lemma_remote_step_stalled<T: Clone>(
    pre: EngineView<T>,
    e: Event<T>,
    first_id: int,
    post: EngineView<T>,
    accepted: bool,
)
    requires
        pre.clock.contains_key(pre.node),
        pre.clock[pre.node] < u64::MAX,
        stalled(pre),
        remote_step(pre, e, first_id, post, accepted),
    ensures
        stalled(post),
{
    lemma_merge_maximal(pre.clock, pre.node, e.clock@);
    let base = EngineView { clock: merged(pre.clock, pre.node, e.clock@), ..pre };
    assert(stalled(base)) by {
        assert forall|i: int| 0 <= i < base.buffer.len() implies held_back(
            base.clock,
            #[trigger] base.buffer[i],
        ) by {
            assert(held_back(pre.clock, pre.buffer[i]));
            lemma_held_back_stays(pre.clock, base.clock, pre.buffer[i]);
        }
    }
    if pre.applied.contains((e.origin_node@, e.global_id)) {
    } else if admissible(base.clock, e) {
        lemma_accepted_when_stalled(pre, e, first_id, post);
    } else {
        let p = choose|p: int| #[trigger]
            place_of(base.buffer, e, p) && post.buffer == base.buffer.insert(p, e);
        if pre.clock.contains_key(e.origin_node@) {
            assert(base.clock[e.origin_node@] >= counter(e.clock@, e.origin_node@));
        }
        assert(held_back(base.clock, e));
        assert forall|i: int| 0 <= i < post.buffer.len() implies held_back(
            post.clock,
            #[trigger] post.buffer[i],
        ) by {
            if i < p {
                assert(held_back(base.clock, base.buffer[i]));
            } else if i > p {
                assert(held_back(base.clock, base.buffer[i - 1]));
            }
        }
    }
}

/// A local enqueue or dequeue leaves the buffered events of a node held back
/// where they were before.
pub proof fn lemma_local_step_stalled<T: Clone>(pre: EngineView<T>, post: EngineView<T>)
    requires
        pre.clock.contains_key(pre.node),
        pre.clock[pre.node] < u64::MAX,
        stalled(pre),
        post.clock == ticked(pre.clock, pre.node),
        post.buffer == pre.buffer,
    ensures
        stalled(post),
{
    lemma_tick_monotone(pre.clock, pre.node);
    assert forall|i: int| 0 <= i < post.buffer.len() implies held_back(
        post.clock,
        #[trigger] post.buffer[i],
    ) by {
        assert(held_back(pre.clock, pre.buffer[i]));
        lemma_held_back_stays(pre.clock, post.clock, pre.buffer[i]);
    }
}

/// The event of a local enqueue carries the node's own counter as it is
/// after the tick, one above what it was, so the events that a node makes
/// carry strictly increasing counters of their origin.
pub proof fn lemma_enqueue_event_time<T: Clone>(
    pre: EngineView<T>,
    item: T,
    event_id: int,
    log_id: int,
    event: Event<T>,
    post: EngineView<T>,
)
    requires
        pre.clock.contains_key(pre.node),
        pre.clock[pre.node] < u64::MAX,
        enqueue_step(pre, item, event_id, log_id, event, post),
    ensures
        event.origin_time() == pre.clock[pre.node] + 1,
        event.origin_time() == post.clock[post.node],
{
}

/// The event of a local dequeue carries the node's own counter as it is
/// after the tick, one above what it was.
pub proof fn lemma_dequeue_event_time<T: Clone>(
    pre: EngineView<T>,
    event_id: int,
    log_id: int,
    out: Option<T>,
    event: Event<T>,
    post: EngineView<T>,
)
    requires
        pre.clock.contains_key(pre.node),
        pre.clock[pre.node] < u64::MAX,
        dequeue_step(pre, event_id, log_id, out, event, post),
    ensures
        event.origin_time() == pre.clock[pre.node] + 1,
        event.origin_time() == post.clock[post.node],
{
}

/// A local enqueue adds exactly one entry to the end of the log and leaves
/// the entries before it as they are.
pub proof fn lemma_enqueue_logs_one<T: Clone>(
    pre: EngineView<T>,
    item: T,
    event_id: int,
    log_id: int,
    event: Event<T>,
    post: EngineView<T>,
)
    requires
        enqueue_step(pre, item, event_id, log_id, event, post),
    ensures
        post.log.len() == pre.log.len() + 1,
        post.log.drop_last() == pre.log,
        post.log.last().local_log_id == log_id,
{
}

/// A local dequeue adds exactly one entry to the end of the log and leaves
/// the entries before it as they are, whether or not an item came out.
pub proof fn lemma_dequeue_logs_one<T: Clone>(
    pre: EngineView<T>,
    event_id: int,
    log_id: int,
    out: Option<T>,
    event: Event<T>,
    post: EngineView<T>,
)
    requires
        dequeue_step(pre, event_id, log_id, out, event, post),
    ensures
        post.log.len() == pre.log.len() + 1,
        post.log.drop_last() == pre.log,
        post.log.last().local_log_id == log_id,
{
}

/// At a node whose buffered events are all held back, an event that is
/// applied on arrival adds exactly one entry to the end of the log and
/// leaves the entries before it as they are. The one exception, left out
/// here, is an enqueue event without an item, which adds none.
pub proof fn lemma_accepted_logs_one<T: Clone>(
    pre: EngineView<T>,
    e: Event<T>,
    first_id: int,
    post: EngineView<T>,
)
    requires
        pre.clock.contains_key(pre.node),
        pre.clock[pre.node] < u64::MAX,
        stalled(pre),
        remote_step(pre, e, first_id, post, true),
        e.op == EventOp::Enqueue ==> e.item.is_some(),
    ensures
        post.log.len() == pre.log.len() + 1,
        post.log.drop_last() == pre.log,
        post.log.last().local_log_id == first_id,
{
    lemma_accepted_when_stalled(pre, e, first_id, post);
}

/// An arrival that is not applied adds nothing to the log.
pub proof fn lemma_rejected_logs_none<T: Clone>(
    pre: EngineView<T>,
    e: Event<T>,
    first_id: int,
    post: EngineView<T>,
)
    requires
        remote_step(pre, e, first_id, post, false),
    ensures
        post.log == pre.log,
        post.queue == pre.queue,
        post.applied == pre.applied,
{
}

} // verus!
