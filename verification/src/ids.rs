use vstd::prelude::*;

verus! {

/// A source of identifiers: each one handed out is one more than the one
/// before, starting at 1.
#[derive(Debug)]
pub struct IdCounter {
    next: u64,
}

impl IdCounter {
    /// The identifier that will be handed out next.
    pub closed spec fn peek(&self) -> u64 {
        self.next
    }

    /// A counter whose first identifier is 1.
    pub fn new() -> (c: Self)
        ensures
            c.peek() == 1,
    {
        IdCounter { next: 1 }
    }

    /// How many identifiers can still be handed out.
    pub fn remaining(&self) -> (n: u64)
        ensures
            n == u64::MAX - self.peek(),
    {
        u64::MAX - self.next
    }

    /// Hands out the next identifier. Identifiers handed out by one counter
    /// strictly increase, so no two of them are equal.
    pub fn next_id(&mut self) -> (id: u64)
        requires
            old(self).peek() < u64::MAX,
        ensures
            id == old(self).peek(),
            final(self).peek() == id + 1,
            issued(*old(self), id, *final(self)),
    {
        let id = self.next;
        self.next = id + 1;
        id
    }
}

/// Whether the counter `before` handed out `id` and became `after`.
pub open spec fn issued(before: IdCounter, id: u64, after: IdCounter) -> bool {
    id == before.peek() && after.peek() == id + 1
}

/// Identifiers that one counter hands out strictly increase, however many
/// it hands out in between, so no two of them are equal.
pub proof fn lemma_ids_increase(
    c0: IdCounter,
    first: u64,
    c1: IdCounter,
    c2: IdCounter,
    second: u64,
    c3: IdCounter,
)
    requires
        issued(c0, first, c1),
        c1.peek() <= c2.peek(),
        issued(c2, second, c3),
    ensures
        first < second,
        c0.peek() < c1.peek() <= c2.peek() < c3.peek(),
{
}

/// The identifier sources that all nodes of one process share: one for
/// events and one for log entries.
#[derive(Debug)]
pub struct Ids {
    pub events: IdCounter,
    pub log_entries: IdCounter,
}

impl Ids {
    /// Fresh sources, both starting at 1.
    pub fn new() -> (ids: Self)
        ensures
            ids.events.peek() == 1,
            ids.log_entries.peek() == 1,
    {
        Ids { events: IdCounter::new(), log_entries: IdCounter::new() }
    }
}

} // verus!
