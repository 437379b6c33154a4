use crate::clock::{counter, Snapshot};
use crate::ids::IdCounter;
use crate::node_map::{assoc_map, distinct_keys, lemma_assoc_map_dom, lemma_assoc_map_pairs};
use std::cmp::Ordering;
use vstd::prelude::*;
use vstd::std_specs::iter::IteratorSpec;

verus! {

/// The kind of operation that an event records.
#[derive(Clone, Copy, Debug, PartialEq, Eq, Structural)]
pub enum EventOp {
    Enqueue,
    Dequeue,
}

/// The record of one operation: where it came from, what it carried, the
/// clock of its origin right after the operation, and an identifier that no
/// other event of the process has.
#[derive(Debug)]
pub struct Event<T> {
    pub global_id: u64,
    pub origin_node: String,
    pub op: EventOp,
    pub item: Option<T>,
    pub clock: Snapshot,
}

/// The number of a character in the code charts.
pub open spec fn char_code(c: char) -> int {
    c as int
}

/// The sum of the code points of a node identifier.
pub open spec fn node_hash(node: Seq<char>) -> nat
    decreases node.len(),
{
    if node.len() == 0 {
        0
    } else {
        node_hash(node.drop_last()) + node.last() as nat
    }
}

/// `x`, or the largest 64-bit number where `x` is larger.
pub open spec fn saturated(x: nat) -> u64 {
    if x > u64::MAX {
        u64::MAX
    } else {
        x as u64
    }
}

/// What one counter of a clock adds to the clock's weight.
pub open spec fn clock_term(node: Seq<char>, time: u64) -> u64 {
    saturated((saturated((time * 1000) as nat) + node_hash(node) % 1000) as nat)
}

/// The sum of the terms of all counters of a clock.
pub open spec fn total_terms(m: Map<Seq<char>, u64>) -> nat
    decreases m.dom().len(),
    when m.dom().finite()
{
    if m.dom().len() == 0 {
        0
    } else {
        let k = m.dom().choose();
        clock_term(k, m[k]) as nat + total_terms(m.remove(k))
    }
}

/// The weight of a clock: the saturating sum of the terms of its counters.
pub open spec fn clock_weight(m: Map<Seq<char>, u64>) -> u64 {
    saturated(total_terms(m))
}

/// Lexicographic order of two texts by code points.
pub open spec fn text_order(a: Seq<char>, b: Seq<char>) -> Ordering
    decreases a.len(),
{
    if a.len() == 0 {
        if b.len() == 0 {
            Ordering::Equal
        } else {
            Ordering::Less
        }
    } else if b.len() == 0 {
        Ordering::Greater
    } else if a[0] == b[0] {
        text_order(a.drop_first(), b.drop_first())
    } else if char_code(a[0]) < char_code(b[0]) {
        Ordering::Less
    } else {
        Ordering::Greater
    }
}

/// Order of two 64-bit numbers.
pub open spec fn number_order(a: u64, b: u64) -> Ordering {
    if a < b {
        Ordering::Less
    } else if a == b {
        Ordering::Equal
    } else {
        Ordering::Greater
    }
}

/// The total order of events by which buffered events are released: first
/// by the weight of the clock, then by the origin's own counter, then by the
/// origin's identifier.
pub open spec fn event_order<T>(a: Event<T>, b: Event<T>) -> Ordering {
    if a.weight() != b.weight() {
        number_order(a.weight(), b.weight())
    } else if a.origin_time() != b.origin_time() {
        number_order(a.origin_time(), b.origin_time())
    } else {
        text_order(a.origin_node@, b.origin_node@)
    }
}

/// Whether `a` comes no later than `b` in the order of events.
pub open spec fn not_after<T>(a: Event<T>, b: Event<T>) -> bool {
    event_order(a, b) != Ordering::Greater
}

/// Swapping the two texts swaps `Less` and `Greater`.
pub proof fn lemma_text_order_flip(a: Seq<char>, b: Seq<char>)
    ensures
        text_order(a, b) == Ordering::Less <==> text_order(b, a) == Ordering::Greater,
        text_order(a, b) == Ordering::Equal <==> text_order(b, a) == Ordering::Equal,
        text_order(a, b) == Ordering::Greater <==> text_order(b, a) == Ordering::Less,
    decreases a.len(),
{
    if a.len() > 0 && b.len() > 0 && a[0] == b[0] {
        lemma_text_order_flip(a.drop_first(), b.drop_first());
    }
}

/// Only equal texts compare as `Equal`.
pub proof fn lemma_text_order_equal(a: Seq<char>, b: Seq<char>)
    ensures
        text_order(a, b) == Ordering::Equal <==> a == b,
    decreases a.len(),
{
    if a.len() > 0 && b.len() > 0 && a[0] == b[0] {
        lemma_text_order_equal(a.drop_first(), b.drop_first());
        if a.drop_first() == b.drop_first() {
            assert(a =~= seq![a[0]] + a.drop_first());
            assert(b =~= seq![b[0]] + b.drop_first());
        }
    }
    if a.len() == 0 && b.len() == 0 {
        assert(a =~= b);
    }
}

/// The order of texts is transitive.
pub proof fn lemma_text_order_transitive(a: Seq<char>, b: Seq<char>, c: Seq<char>)
    requires
        text_order(a, b) != Ordering::Greater,
        text_order(b, c) != Ordering::Greater,
    ensures
        text_order(a, c) != Ordering::Greater,
    decreases a.len(),
{
    if a.len() > 0 && b.len() > 0 && c.len() > 0 {
        if a[0] == b[0] && b[0] == c[0] {
            lemma_text_order_transitive(a.drop_first(), b.drop_first(), c.drop_first());
        }
    }
}

/// Of two events one comes no later than the other.
pub proof fn lemma_event_order_total<T>(a: Event<T>, b: Event<T>)
    ensures
        not_after(a, b) || not_after(b, a),
        event_order(a, b) == Ordering::Greater <==> event_order(b, a) == Ordering::Less,
{
    lemma_text_order_flip(a.origin_node@, b.origin_node@);
}

/// The order of events is transitive.
pub proof fn lemma_event_order_transitive<T>(a: Event<T>, b: Event<T>, c: Event<T>)
    requires
        not_after(a, b),
        not_after(b, c),
    ensures
        not_after(a, c),
{
    if a.weight() == b.weight() && b.weight() == c.weight() && a.origin_time() == b.origin_time()
        && b.origin_time() == c.origin_time() {
        lemma_text_order_transitive(a.origin_node@, b.origin_node@, c.origin_node@);
    }
}

/// Two events compare as `Equal` exactly where their clocks weigh the same,
/// their origins' own counters agree and their origins are the same node.
/// Events with the same clock and the same origin do.
pub proof fn lemma_event_order_equal<T>(a: Event<T>, b: Event<T>)
    ensures
        event_order(a, b) == Ordering::Equal <==> (a.weight() == b.weight() && a.origin_time()
            == b.origin_time() && a.origin_node@ == b.origin_node@),
        a.clock@ == b.clock@ && a.origin_node@ == b.origin_node@ ==> event_order(a, b)
            == Ordering::Equal,
{
    lemma_text_order_equal(a.origin_node@, b.origin_node@);
}

/// Taking any one counter out of a finite clock lowers the sum of terms by
/// that counter's term.
pub proof fn lemma_total_terms_remove(m: Map<Seq<char>, u64>, k: Seq<char>)
    requires
        m.dom().finite(),
        m.contains_key(k),
    ensures
        total_terms(m) == clock_term(k, m[k]) + total_terms(m.remove(k)),
    decreases m.dom().len(),
{
    let c = m.dom().choose();
    if c != k {
        lemma_total_terms_remove(m.remove(c), k);
        lemma_total_terms_remove(m.remove(k), c);
        assert(m.remove(c).remove(k) =~= m.remove(k).remove(c));
    }
}

spec fn seq_terms(s: Seq<(Seq<char>, u64)>) -> nat
    decreases s.len(),
{
    if s.len() == 0 {
        0
    } else {
        seq_terms(s.drop_last()) + clock_term(s.last().0, s.last().1) as nat
    }
}

proof fn lemma_total_terms_pairs(s: Seq<(Seq<char>, u64)>)
    requires
        distinct_keys(s),
    ensures
        total_terms(assoc_map(s)) == seq_terms(s),
    decreases s.len(),
{
    lemma_assoc_map_dom(s);
    lemma_assoc_map_pairs(s);
    if s.len() > 0 {
        let t = s.drop_last();
        assert(distinct_keys(t)) by {
            assert forall|i: int, j: int| 0 <= i < j < t.len() implies (#[trigger] t[i]).0 != (
            #[trigger] t[j]).0 by {
                assert(s[i].0 != s[j].0);
            }
        }
        lemma_total_terms_pairs(t);
        lemma_assoc_map_dom(t);
        let k = s.last().0;
        assert(!assoc_map(t).contains_key(k)) by {
            if assoc_map(t).contains_key(k) {
                let i = choose|i: int| 0 <= i < t.len() && (#[trigger] t[i]).0 == k;
                assert(s[i].0 != s[s.len() - 1].0);
            }
        }
        assert(assoc_map(s).remove(k) =~= assoc_map(t));
        lemma_total_terms_remove(assoc_map(s), k);
    }
}

fn code_of(c: char) -> (d: u64)
    ensures
        d == char_code(c),
        d <= 0x10FFFF,
{
    c as u64
}

/// The sum of the code points of `node`, modulo 1000.
pub fn node_hash_mod(node: &str) -> (h: u64)
    ensures
        h == node_hash(node@) % 1000,
{
    let mut h: u64 = 0;
    let chars = node.chars();
    for c in it: chars
        invariant
            h < 1000,
            h == node_hash(node@.take(it.index() as int)) % 1000,
            it.seq() == node@,
    {
        proof {
            let i = it.index() as int;
            assert(node@.take(i + 1).drop_last() =~= node@.take(i));
            vstd::arithmetic::div_mod::lemma_add_mod_noop(
                node_hash(node@.take(i)) as int,
                c as int,
                1000,
            );
        }
        let d: u64 = code_of(c);
        h = (h + d % 1000) % 1000;
    }
    assert(node@.take(node@.len() as int) =~= node@);
    h
}

fn compare_numbers(a: u64, b: u64) -> (r: Ordering)
    ensures
        r == number_order(a, b),
{
    if a < b {
        Ordering::Less
    } else if a == b {
        Ordering::Equal
    } else {
        Ordering::Greater
    }
}

/// Compares two texts lexicographically by code points.
pub fn compare_text(a: &str, b: &str) -> (r: Ordering)
    ensures
        r == text_order(a@, b@),
{
    let mut left = a.chars();
    let mut right = b.chars();
    loop
        invariant
            text_order(a@, b@) == text_order(left.remaining(), right.remaining()),
            left.decrease() is Some,
        decreases left.decrease()->0,
    {
        let ghost l0 = left.remaining();
        let ghost r0 = right.remaining();
        let x = left.next();
        let y = right.next();
        match (x, y) {
            (None, None) => {
                return Ordering::Equal;
            },
            (None, Some(_)) => {
                return Ordering::Less;
            },
            (Some(_), None) => {
                return Ordering::Greater;
            },
            (Some(p), Some(q)) => {
                if p != q {
                    let cp = code_of(p);
                    let cq = code_of(q);
                    if cp < cq {
                        return Ordering::Less;
                    } else {
                        return Ordering::Greater;
                    }
                }
            },
        }
    }
}

impl<T> Event<T> {
    /// The counter that the event's clock holds for the event's origin, or 0
    /// where it holds none.
    pub open spec fn origin_time(&self) -> u64 {
        counter(self.clock@, self.origin_node@)
    }

    /// The weight of the event's clock.
    pub open spec fn weight(&self) -> u64 {
        clock_weight(self.clock@)
    }

    /// An event for putting `item` into the queue at `origin_node`.
    pub fn new_enqueue(origin_node: String, item: T, clock: Snapshot, ids: &mut IdCounter) -> (e:
        Self)
        requires
            old(ids).peek() < u64::MAX,
        ensures
            e.global_id == old(ids).peek(),
            final(ids).peek() == old(ids).peek() + 1,
            e.origin_node == origin_node,
            e.op == EventOp::Enqueue,
            e.item == Some(item),
            e.clock == clock,
    {
        Event { global_id: ids.next_id(), origin_node, op: EventOp::Enqueue, item: Some(item), clock }
    }

    /// An event for taking the head out of the queue at `origin_node`;
    /// `item` is what came out, if anything did.
    pub fn new_dequeue(origin_node: String, item: Option<T>, clock: Snapshot, ids: &mut IdCounter)
        -> (e: Self)
        requires
            old(ids).peek() < u64::MAX,
        ensures
            e.global_id == old(ids).peek(),
            final(ids).peek() == old(ids).peek() + 1,
            e.origin_node == origin_node,
            e.op == EventOp::Dequeue,
            e.item == item,
            e.clock == clock,
    {
        Event { global_id: ids.next_id(), origin_node, op: EventOp::Dequeue, item, clock }
    }

    /// The counter that the event's clock holds for the event's origin.
    pub fn origin_timestamp(&self) -> (t: u64)
        ensures
            t == self.origin_time(),
    {
        match self.clock.get(&self.origin_node) {
            Some(v) => *v,
            None => 0,
        }
    }

    /// The weight of the event's clock.
    pub fn total_order_value(&self) -> (w: u64)
        ensures
            w == self.weight(),
    {
        proof {
            use_type_invariant(&self.clock);
            self.clock.lemma_wf();
            lemma_total_terms_pairs(self.clock.pairs());
        }
        let ghost pairs = self.clock.pairs();
        let mut total: u64 = 0;
        let n = self.clock.len();
        let mut i: usize = 0;
        while i < n
            invariant
                i <= n,
                n == pairs.len(),
                pairs == self.clock.pairs(),
                total == saturated(seq_terms(pairs.take(i as int))),
            decreases n - i,
        {
            let hash = node_hash_mod(self.clock.key(i).as_str());
            let time = *self.clock.value(i);
            let scaled = match time.checked_mul(1000) {
                Some(v) => v,
                None => u64::MAX,
            };
            proof {
                assert(pairs.take(i + 1).drop_last() =~= pairs.take(i as int));
            }
            total = total.saturating_add(scaled.saturating_add(hash));
            i += 1;
        }
        assert(pairs.take(n as int) =~= pairs);
        total
    }

    /// Whether `self` comes later than `other` in the order of events.
    pub fn is_after(&self, other: &Self) -> (r: bool)
        ensures
            r == !not_after(*self, *other),
    {
        match self.cmp(other) {
            Ordering::Greater => true,
            _ => false,
        }
    }

    /// Compares two events in the order by which buffered events are
    /// released.
    pub fn cmp(&self, other: &Self) -> (r: Ordering)
        ensures
            r == event_order(*self, *other),
    {
        let mine = self.total_order_value();
        let theirs = other.total_order_value();
        if mine != theirs {
            return compare_numbers(mine, theirs);
        }
        let my_time = self.origin_timestamp();
        let their_time = other.origin_timestamp();
        if my_time != their_time {
            return compare_numbers(my_time, their_time);
        }
        compare_text(self.origin_node.as_str(), other.origin_node.as_str())
    }
}

/// Whether `copy` can be the result of cloning `item`, where there is one.
pub open spec fn item_copy<T: Clone>(item: Option<T>, copy: Option<T>) -> bool {
    match (item, copy) {
        (Some(a), Some(b)) => cloned(a, b),
        (None, None) => true,
        _ => false,
    }
}

impl<T: Clone> Event<T> {
    /// Whether `self` can be the result of cloning `source`: a copy of its
    /// item, and everything else the same.
    pub open spec fn copy_of(&self, source: &Self) -> bool {
        &&& self.global_id == source.global_id
        &&& self.origin_node@ == source.origin_node@
        &&& self.op == source.op
        &&& item_copy(source.item, self.item)
        &&& self.clock@ == source.clock@
    }
}

impl<T: Clone> Clone for Event<T> {
    fn clone(&self) -> (e: Self)
        ensures
            e.copy_of(self),
    {
        Event {
            global_id: self.global_id,
            origin_node: self.origin_node.clone(),
            op: self.op,
            item: self.item.clone(),
            clock: self.clock.clone(),
        }
    }
}

impl<T> PartialEq for Event<T> {
    /// Events are equal where their clocks and their origins are.
    fn eq(&self, other: &Self) -> (r: bool) {
        self.clock.equals(&other.clock) && self.origin_node == other.origin_node
    }
}

impl<T> vstd::std_specs::cmp::PartialEqSpecImpl for Event<T> {
    open spec fn obeys_eq_spec() -> bool {
        true
    }

    open spec fn eq_spec(&self, other: &Self) -> bool {
        self.clock@ == other.clock@ && self.origin_node@ == other.origin_node@
    }
}

impl<T> Eq for Event<T> {

}

impl<T> PartialOrd for Event<T> {
    /// The order by which buffered events are released.
    fn partial_cmp(&self, other: &Self) -> (r: Option<Ordering>) {
        Some(self.cmp(other))
    }
}

impl<T> vstd::std_specs::cmp::PartialOrdSpecImpl for Event<T> {
    open spec fn obeys_partial_cmp_spec() -> bool {
        true
    }

    open spec fn partial_cmp_spec(&self, other: &Self) -> Option<Ordering> {
        Some(event_order(*self, *other))
    }
}

} // verus!
