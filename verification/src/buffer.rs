use crate::event::{lemma_event_order_total, lemma_event_order_transitive, not_after, Event};
use vstd::prelude::*;

verus! {

/// Whether every event of `s` comes no later than the events behind it.
pub open spec fn ascending<T>(s: Seq<Event<T>>) -> bool {
    forall|i: int, j: int| 0 <= i < j < s.len() ==> not_after(#[trigger] s[i], #[trigger] s[j])
}

/// Whether `p` is the place of `e` among the events `s`: behind every event
/// that comes no later than `e`, and before every event that comes later.
pub open spec fn place_of<T>(s: Seq<Event<T>>, e: Event<T>, p: int) -> bool {
    &&& 0 <= p <= s.len()
    &&& forall|i: int| 0 <= i < p ==> not_after(#[trigger] s[i], e)
    &&& forall|i: int| p <= i < s.len() ==> !not_after(#[trigger] s[i], e)
}

/// Whether `after` is `before` with `e` put at its place.
pub open spec fn inserted<T>(before: Seq<Event<T>>, e: Event<T>, after: Seq<Event<T>>) -> bool {
    exists|p: int| #[trigger] place_of(before, e, p) && after == before.insert(p, e)
}

/// An event has at most one place among given events.
pub proof fn lemma_place_unique<T>(s: Seq<Event<T>>, e: Event<T>, p: int, q: int)
    requires
        place_of(s, e, p),
        place_of(s, e, q),
    ensures
        p == q,
{
    if p < q {
        assert(not_after(s[p], e));
    }
    if q < p {
        assert(not_after(s[q], e));
    }
}

/// Putting an event at its place keeps ascending events ascending.
pub proof fn lemma_insert_ascending<T>(s: Seq<Event<T>>, e: Event<T>, p: int)
    requires
        ascending(s),
        place_of(s, e, p),
    ensures
        ascending(s.insert(p, e)),
{
    let t = s.insert(p, e);
    assert forall|i: int, j: int| 0 <= i < j < t.len() implies not_after(
        #[trigger] t[i],
        #[trigger] t[j],
    ) by {
        if j < p {
            assert(not_after(s[i], s[j]));
        } else if j == p {
            assert(not_after(s[i], e));
        } else if i == p {
            lemma_event_order_total(s[j - 1], e);
        } else if i < p {
            assert(not_after(s[i], s[j - 1]));
        } else {
            assert(not_after(s[i - 1], s[j - 1]));
        }
    }
}

/// The events of `s` that `keep` holds of are ascending where `s` is.
pub proof fn lemma_filter_ascending<T>(s: Seq<Event<T>>, keep: spec_fn(Event<T>) -> bool)
    requires
        ascending(s),
    ensures
        ascending(s.filter(keep)),
    decreases s.len(),
{
    reveal(Seq::filter);
    if s.len() > 0 {
        let t = s.drop_last();
        assert(ascending(t)) by {
            assert forall|i: int, j: int| 0 <= i < j < t.len() implies not_after(
                #[trigger] t[i],
                #[trigger] t[j],
            ) by {
                assert(not_after(s[i], s[j]));
            }
        }
        lemma_filter_ascending(t, keep);
        let f = t.filter(keep);
        if keep(s.last()) {
            let g = f.push(s.last());
            assert forall|i: int, j: int| 0 <= i < j < g.len() implies not_after(
                #[trigger] g[i],
                #[trigger] g[j],
            ) by {
                if j < f.len() {
                    assert(not_after(f[i], f[j]));
                } else {
                    assert(f.contains(f[i]));
                    t.lemma_filter_contains_rev(keep, f[i]);
                    let k = choose|k: int| 0 <= k < t.len() && t[k] == f[i];
                    assert(not_after(s[k], s[s.len() - 1]));
                }
            }
        }
    }
}

/// The events that wait for their predecessors, in the order of events;
/// events that compare as equal stay in the order in which they came.
pub struct ReorderBuffer<T> {
    events: Vec<Event<T>>,
}

impl<T> View for ReorderBuffer<T> {
    type V = Seq<Event<T>>;

    closed spec fn view(&self) -> Seq<Event<T>> {
        self.events@
    }
}

impl<T> ReorderBuffer<T> {
    /// The events are held in ascending order.
    #[verifier::type_invariant]
    pub closed spec fn wf(&self) -> bool {
        ascending(self.events@)
    }

    /// A buffer that holds nothing.
    pub fn new() -> (b: Self)
        ensures
            b@ == Seq::<Event<T>>::empty(),
    {
        ReorderBuffer { events: Vec::new() }
    }

    /// A buffer that holds `events`, which are in ascending order.
    pub fn from_ordered(events: Vec<Event<T>>) -> (b: Self)
        requires
            ascending(events@),
        ensures
            b@ == events@,
    {
        ReorderBuffer { events }
    }

    /// The number of events held.
    pub fn len(&self) -> (n: usize)
        ensures
            n == self@.len(),
    {
        self.events.len()
    }

    /// Puts `event` at its place: behind the events that come no later,
    /// before those that come later.
    pub fn push(&mut self, event: Event<T>)
        ensures
            inserted(old(self)@, event, final(self)@),
    {
        proof {
            use_type_invariant(&*self);
        }
        let ghost before = self.events@;
        let n = self.events.len();
        let mut p: usize = 0;
        while p < n && !self.events[p].is_after(&event)
            invariant
                p <= n,
                n == before.len(),
                self.events@ == before,
                forall|i: int| 0 <= i < p ==> not_after(#[trigger] before[i], event),
            decreases n - p,
        {
            p += 1;
        }
        proof {
            assert forall|i: int| p <= i < before.len() implies !not_after(
                #[trigger] before[i],
                event,
            ) by {
                if not_after(before[i], event) {
                    if i > p {
                        assert(not_after(before[p as int], before[i]));
                    }
                    lemma_event_order_transitive(before[p as int], before[i], event);
                }
            }
            assert(place_of(before, event, p as int));
            lemma_insert_ascending(before, event, p as int);
        }
        let mut events: Vec<Event<T>> = Vec::new();
        core::mem::swap(&mut self.events, &mut events);
        events.insert(p, event);
        self.events = events;
    }

    /// Takes out the first event, which comes no later than any other.
    pub fn pop(&mut self) -> (r: Option<Event<T>>)
        ensures
            old(self)@.len() == 0 ==> r.is_none() && final(self)@ == old(self)@,
            old(self)@.len() > 0 ==> r == Some(old(self)@[0]) && final(self)@ == old(
                self,
            )@.drop_first(),
            forall|i: int| 0 <= i < old(self)@.len() ==> not_after(old(self)@[0], #[trigger] old(self)@[i]),
    {
        proof {
            use_type_invariant(&*self);
            assert forall|i: int| 0 <= i < self@.len() implies not_after(
                self@[0],
                #[trigger] self@[i],
            ) by {
                if i == 0 {
                    lemma_event_order_total(self@[0], self@[0]);
                }
            }
        }
        if self.events.len() == 0 {
            return None;
        }
        let ghost before = self.events@;
        let mut events: Vec<Event<T>> = Vec::new();
        core::mem::swap(&mut self.events, &mut events);
        let first = events.remove(0);
        proof {
            assert(events@ =~= before.drop_first());
            assert forall|i: int, j: int| 0 <= i < j < events@.len() implies not_after(
                #[trigger] events@[i],
                #[trigger] events@[j],
            ) by {
                assert(not_after(before[i + 1], before[j + 1]));
            }
        }
        self.events = events;
        Some(first)
    }

    /// Takes out all events, in ascending order.
    pub fn take_all(&mut self) -> (r: Vec<Event<T>>)
        ensures
            r@ == old(self)@,
            ascending(r@),
            final(self)@ == Seq::<Event<T>>::empty(),
    {
        proof {
            use_type_invariant(&*self);
        }
        let mut events: Vec<Event<T>> = Vec::new();
        core::mem::swap(&mut self.events, &mut events);
        events
    }
}

} // verus!
