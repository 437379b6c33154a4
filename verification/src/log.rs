use crate::clock::{counter, Snapshot};
use crate::event::{item_copy, Event};
use crate::ids::IdCounter;
use vstd::prelude::*;

verus! {

/// How far an operation has come.
#[derive(Clone, Copy, Debug, PartialEq, Eq, Structural)]
pub enum State {
    Pending,
    Committed,
    Delivered,
    Failed,
}

/// The record of one operation that a node applied.
#[derive(Debug)]
pub struct LogEntry<T> {
    pub local_log_id: u64,
    pub local_node: String,
    pub op: String,
    pub item: Option<T>,
    pub state: State,
    pub clock: Snapshot,
    pub event_global_id: Option<u64>,
    pub event: Option<Event<T>>,
}

/// The log of one node: its entries in the order in which they were written.
#[derive(Debug)]
pub struct Logger<T> {
    entries: Vec<LogEntry<T>>,
    local_node: String,
}

/// The operation names that a log accepts, each with the states in which an
/// entry of that operation may be written.
pub open spec fn valid_op_state(op: Seq<char>, state: State) -> bool {
    ||| op == "enqueue"@ && (state == State::Pending || state == State::Committed)
    ||| op == "dequeue"@ && state == State::Delivered
}

/// Some counter of `clock` is above the counter that `baseline` holds for
/// the same node, a node missing in `baseline` counting as 0.
pub open spec fn newer_than(clock: Map<Seq<char>, u64>, baseline: Map<Seq<char>, u64>) -> bool {
    exists|k: Seq<char>| #[trigger] clock.contains_key(k) && clock[k] > counter(baseline, k)
}

/// The entries whose clock is `newer_than` the `baseline`.
pub open spec fn since<T>(baseline: Map<Seq<char>, u64>) -> spec_fn(LogEntry<T>) -> bool {
    |e: LogEntry<T>| newer_than(e.clock@, baseline)
}

/// The entry identifiers of `log` strictly increase and all lie below
/// `bound`.
pub open spec fn ordered_below<T>(log: Seq<LogEntry<T>>, bound: u64) -> bool {
    &&& forall|i: int, j: int|
        0 <= i < j < log.len() ==> (#[trigger] log[i]).local_log_id < (#[trigger] log[j]).local_log_id
    &&& forall|i: int| 0 <= i < log.len() ==> (#[trigger] log[i]).local_log_id < bound
}

/// A log whose identifiers lie below a bound keeps them below any later
/// bound.
pub proof fn lemma_ordered_below_later<T>(log: Seq<LogEntry<T>>, bound: u64, later: u64)
    requires
        ordered_below(log, bound),
        bound <= later,
    ensures
        ordered_below(log, later),
{
}

impl<T> LogEntry<T> {
    /// Whether the entry records the given values under the identifier `id`
    /// at the node `node`.
    pub open spec fn records(
        &self,
        id: u64,
        node: Seq<char>,
        op: Seq<char>,
        item: Option<T>,
        state: State,
        clock: Snapshot,
        event_global_id: Option<u64>,
        event: Event<T>,
    ) -> bool {
        &&& self.local_log_id == id
        &&& self.local_node@ == node
        &&& self.op@ == op
        &&& self.item == item
        &&& self.state == state
        &&& self.clock == clock
        &&& self.event_global_id == event_global_id
        &&& self.event == Some(event)
    }
}

impl<T: Clone> LogEntry<T> {
    /// Whether `self` can be the result of cloning `source`: copies of its
    /// item and of its event's item, and everything else the same.
    pub open spec fn copy_of(&self, source: &Self) -> bool {
        &&& self.local_log_id == source.local_log_id
        &&& self.local_node@ == source.local_node@
        &&& self.op@ == source.op@
        &&& item_copy(source.item, self.item)
        &&& self.state == source.state
        &&& self.clock@ == source.clock@
        &&& self.event_global_id == source.event_global_id
        &&& match (source.event, self.event) {
            (Some(a), Some(b)) => b.copy_of(&a),
            (None, None) => true,
            _ => false,
        }
    }
}

impl<T: Clone> Clone for LogEntry<T> {
    fn clone(&self) -> (e: Self)
        ensures
            e.copy_of(self),
    {
        let event = match &self.event {
            Some(e) => Some(e.clone()),
            None => None,
        };
        LogEntry {
            local_log_id: self.local_log_id,
            local_node: self.local_node.clone(),
            op: self.op.clone(),
            item: self.item.clone(),
            state: self.state,
            clock: self.clock.clone(),
            event_global_id: self.event_global_id,
            event,
        }
    }
}

fn is_newer(clock: &Snapshot, baseline: &Snapshot) -> (r: bool)
    ensures
        r == newer_than(clock@, baseline@),
{
    proof {
        use_type_invariant(clock);
        clock.lemma_wf();
    }
    let ghost pairs = clock.pairs();
    let n = clock.len();
    let mut i: usize = 0;
    while i < n
        invariant
            i <= n,
            n == pairs.len(),
            pairs == clock.pairs(),
            forall|j: int|
                0 <= j < n ==> clock@.contains_key((#[trigger] pairs[j]).0) && clock@[pairs[j].0]
                    == pairs[j].1,
            forall|j: int| 0 <= j < i ==> (#[trigger] pairs[j]).1 <= counter(baseline@, pairs[j].0),
        decreases n - i,
    {
        let other_time = match baseline.get(clock.key(i)) {
            Some(v) => *v,
            None => 0,
        };
        if *clock.value(i) > other_time {
            assert(clock@.contains_key(pairs[i as int].0));
            return true;
        }
        i += 1;
    }
    proof {
        if newer_than(clock@, baseline@) {
            let k = choose|k: Seq<char>| #[trigger]
                clock@.contains_key(k) && clock@[k] > counter(baseline@, k);
            let j = choose|j: int| 0 <= j < n && (#[trigger] pairs[j]).0 == k;
            assert(pairs[j].1 <= counter(baseline@, pairs[j].0));
        }
    }
    false
}

impl<T> View for Logger<T> {
    type V = Seq<LogEntry<T>>;

    closed spec fn view(&self) -> Seq<LogEntry<T>> {
        self.entries@
    }
}

impl<T: Clone> Logger<T> {
    /// The node whose log this is.
    pub closed spec fn node(&self) -> Seq<char> {
        self.local_node@
    }

    /// An empty log for `local_node`.
    pub fn new(local_node: String) -> (l: Self)
        ensures
            l@ == Seq::<LogEntry<T>>::empty(),
            l.node() == local_node@,
    {
        Logger { entries: Vec::new(), local_node }
    }

    /// Appends one entry under the next identifier of `ids`.
    pub fn log(
        &mut self,
        op: &str,
        item: Option<T>,
        state: State,
        clock: Snapshot,
        event_global_id: Option<u64>,
        event: Event<T>,
        ids: &mut IdCounter,
    )
        requires
            valid_op_state(op@, state),
            old(ids).peek() < u64::MAX,
        ensures
            final(self).node() == old(self).node(),
            final(self)@.len() == old(self)@.len() + 1,
            final(self)@.drop_last() == old(self)@,
            final(self)@.last().records(
                old(ids).peek(),
                old(self).node(),
                op@,
                item,
                state,
                clock,
                event_global_id,
                event,
            ),
            final(ids).peek() == old(ids).peek() + 1,
            ordered_below(old(self)@, old(ids).peek()) ==> ordered_below(
                final(self)@,
                final(ids).peek(),
            ),
    {
        let local_log_id = ids.next_id();
        let entry = LogEntry {
            local_log_id,
            local_node: self.local_node.clone(),
            op: op.to_owned(),
            item,
            state,
            clock,
            event_global_id,
            event: Some(event),
        };
        self.entries.push(entry);
        assert(self@.drop_last() =~= old(self)@);
    }

    /// Sets the state of the first entry whose identifier is `log_id`, and
    /// says whether there was one.
    pub fn update_entry_state(&mut self, log_id: u64, new_state: State) -> (found: bool)
        ensures
            final(self).node() == old(self).node(),
            found ==> exists|i: int|
                {
                    &&& 0 <= i < old(self)@.len()
                    &&& (#[trigger] old(self)@[i]).local_log_id == log_id
                    &&& forall|j: int| 0 <= j < i ==> (#[trigger] old(self)@[j]).local_log_id != log_id
                    &&& final(self)@ == old(self)@.update(
                        i,
                        (LogEntry { state: new_state, ..old(self)@[i] }),
                    )
                },
            !found ==> final(self)@ == old(self)@ && forall|i: int|
                0 <= i < old(self)@.len() ==> (#[trigger] old(self)@[i]).local_log_id != log_id,
    {
        let mut i: usize = 0;
        while i < self.entries.len()
            invariant
                i <= self.entries@.len(),
                self.entries@ == old(self).entries@,
                self.local_node == old(self).local_node,
                forall|j: int| 0 <= j < i ==> (#[trigger] self.entries@[j]).local_log_id != log_id,
            decreases self.entries@.len() - i,
        {
            if self.entries[i].local_log_id == log_id {
                self.entries[i].state = new_state;
                proof {
                    let k = i as int;
                    assert(old(self)@[k].local_log_id == log_id);
                    assert(self@ =~= old(self)@.update(
                        k,
                        (LogEntry { state: new_state, ..old(self)@[k] }),
                    ));
                }
                return true;
            }
            i += 1;
        }
        false
    }

    /// Copies of the entries whose clock has some counter above that of
    /// `clock`, in the order of the log.
    pub fn get_entries_since(&self, clock: &Snapshot) -> (r: Vec<LogEntry<T>>)
        ensures
            r@.len() == self@.filter(since(clock@)).len(),
            forall|i: int|
                0 <= i < r@.len() ==> (#[trigger] r@[i]).copy_of(&self@.filter(since(clock@))[i]),
    {
        let mut out: Vec<LogEntry<T>> = Vec::new();
        let mut i: usize = 0;
        proof {
            assert(self@.take(0) =~= Seq::<LogEntry<T>>::empty());
            self@.take(0).lemma_filter_len(since(clock@));
        }
        while i < self.entries.len()
            invariant
                i <= self.entries@.len(),
                out@.len() == self@.take(i as int).filter(since(clock@)).len(),
                forall|j: int|
                    0 <= j < out@.len() ==> (#[trigger] out@[j]).copy_of(
                        &self@.take(i as int).filter(since(clock@))[j],
                    ),
            decreases self.entries@.len() - i,
        {
            proof {
                assert(self@.take(i + 1) =~= self@.take(i as int).push(self@[i as int]));
                self@.take(i as int).lemma_filter_push(self@[i as int], since(clock@));
            }
            if is_newer(&self.entries[i].clock, clock) {
                out.push(self.entries[i].clone());
            }
            i += 1;
        }
        assert(self@.take(self@.len() as int) =~= self@);
        out
    }

    /// Copies of all entries, in the order of the log.
    pub fn entries(&self) -> (r: Vec<LogEntry<T>>)
        ensures
            r@.len() == self@.len(),
            forall|i: int| 0 <= i < r@.len() ==> (#[trigger] r@[i]).copy_of(&self@[i]),
    {
        let mut out: Vec<LogEntry<T>> = Vec::new();
        let mut i: usize = 0;
        while i < self.entries.len()
            invariant
                i <= self.entries@.len(),
                out@.len() == i,
                forall|j: int| 0 <= j < i ==> (#[trigger] out@[j]).copy_of(&self@[j]),
            decreases self.entries@.len() - i,
        {
            out.push(self.entries[i].clone());
            i += 1;
        }
        out
    }

    /// The number of entries.
    pub fn len(&self) -> (n: usize)
        ensures
            n == self@.len(),
    {
        self.entries.len()
    }
}

} // verus!
