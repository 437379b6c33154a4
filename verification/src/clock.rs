use crate::node_map::NodeMap;
use vstd::prelude::*;

verus! {

/// A copy of a vector clock's counters at one moment.
pub type Snapshot = NodeMap<u64>;

/// The counter that `m` holds for `node`; a node that `m` does not know
/// counts as 0.
pub open spec fn counter(m: Map<Seq<char>, u64>, node: Seq<char>) -> u64 {
    if m.contains_key(node) {
        m[node]
    } else {
        0
    }
}

/// Every node of `a` is a node of `b`, with a counter that is no smaller.
pub open spec fn clock_le(a: Map<Seq<char>, u64>, b: Map<Seq<char>, u64>) -> bool {
    forall|k: Seq<char>| #[trigger] a.contains_key(k) ==> b.contains_key(k) && a[k] <= b[k]
}

/// The clock `m` after one tick of the node `local`.
pub open spec fn ticked(m: Map<Seq<char>, u64>, local: Seq<char>) -> Map<Seq<char>, u64> {
    m.insert(local, (m[local] + 1) as u64)
}

/// The larger of two counters.
pub open spec fn larger(a: u64, b: u64) -> u64 {
    if a < b {
        b
    } else {
        a
    }
}

/// The clock `m` of the node `local` after merging `remote` into it: the
/// local counter goes up by one, then every node that both know takes the
/// larger of the two counters. Nodes that only `remote` knows are left out.
pub open spec fn merged(
    m: Map<Seq<char>, u64>,
    local: Seq<char>,
    remote: Map<Seq<char>, u64>,
) -> Map<Seq<char>, u64> {
    Map::new(
        |k: Seq<char>| m.contains_key(k),
        |k: Seq<char>| larger(ticked(m, local)[k], counter(remote, k)),
    )
}

/// The clock `a` is at most `b` at the node `k`, a node missing in `b`
/// counting as 0.
pub open spec fn at_most_at(a: Map<Seq<char>, u64>, b: Map<Seq<char>, u64>, k: Seq<char>) -> bool {
    a.contains_key(k) ==> a[k] <= counter(b, k)
}

/// The clock `a` is behind `b` at the node `k`: either `a` knows `k` with a
/// smaller counter, or only `b` knows it, with a counter above 0.
pub open spec fn behind_at(a: Map<Seq<char>, u64>, b: Map<Seq<char>, u64>, k: Seq<char>) -> bool {
    if a.contains_key(k) {
        a[k] < counter(b, k)
    } else {
        b.contains_key(k) && b[k] > 0
    }
}

/// The clock `a` happened before `b`: no counter of `a` exceeds that of `b`,
/// and `a` is behind `b` at some node.
pub open spec fn happened_before(a: Map<Seq<char>, u64>, b: Map<Seq<char>, u64>) -> bool {
    &&& forall|k: Seq<char>| #[trigger] at_most_at(a, b, k)
    &&& exists|k: Seq<char>| #[trigger] behind_at(a, b, k)
}

/// `clock_le` holds of a clock and itself.
pub proof fn lemma_clock_le_reflexive(a: Map<Seq<char>, u64>)
    ensures
        clock_le(a, a),
{
}

/// Counters that never decrease over two stretches of operations never
/// decrease over both together.
pub proof fn lemma_clock_le_transitive(
    a: Map<Seq<char>, u64>,
    b: Map<Seq<char>, u64>,
    c: Map<Seq<char>, u64>,
)
    requires
        clock_le(a, b),
        clock_le(b, c),
    ensures
        clock_le(a, c),
{
    assert forall|k: Seq<char>| #[trigger] a.contains_key(k) implies c.contains_key(k) && a[k]
        <= c[k] by {
        assert(b.contains_key(k));
    }
}

/// A tick lowers no counter and raises the local one by exactly one.
pub proof fn lemma_tick_monotone(m: Map<Seq<char>, u64>, local: Seq<char>)
    requires
        m.contains_key(local),
        m[local] < u64::MAX,
    ensures
        clock_le(m, ticked(m, local)),
        ticked(m, local).dom() == m.dom(),
        ticked(m, local)[local] == m[local] + 1,
        forall|k: Seq<char>| m.contains_key(k) && k != local ==> ticked(m, local)[k] == m[k],
{
    assert(ticked(m, local).dom() =~= m.dom());
}

/// After a merge every node that both clocks know holds at least the larger
/// of the two counters, the local counter has gone up by at least one, no
/// counter has gone down, and no node was added.
pub proof fn lemma_merge_maximal(
    m: Map<Seq<char>, u64>,
    local: Seq<char>,
    remote: Map<Seq<char>, u64>,
)
    requires
        m.contains_key(local),
        m[local] < u64::MAX,
    ensures
        merged(m, local, remote).dom() == m.dom(),
        forall|k: Seq<char>|
            m.contains_key(k) && remote.contains_key(k) ==> #[trigger] merged(m, local, remote)[k]
                >= larger(m[k], remote[k]),
        merged(m, local, remote)[local] >= m[local] + 1,
        clock_le(m, merged(m, local, remote)),
{
    assert(merged(m, local, remote).dom() =~= m.dom());
}

/// `happened_before` is transitive.
pub proof fn lemma_happened_before_transitive(
    a: Map<Seq<char>, u64>,
    b: Map<Seq<char>, u64>,
    c: Map<Seq<char>, u64>,
)
    requires
        happened_before(a, b),
        happened_before(b, c),
    ensures
        happened_before(a, c),
{
    assert forall|k: Seq<char>| #[trigger] at_most_at(a, c, k) by {
        assert(at_most_at(a, b, k));
        assert(at_most_at(b, c, k));
    }
    let k = choose|k: Seq<char>| #[trigger] behind_at(a, b, k);
    assert(at_most_at(b, c, k));
    assert(behind_at(a, c, k));
}

/// `happened_before` never holds in both directions.
pub proof fn lemma_happened_before_asymmetric(a: Map<Seq<char>, u64>, b: Map<Seq<char>, u64>)
    requires
        happened_before(a, b),
    ensures
        !happened_before(b, a),
{
    let k = choose|k: Seq<char>| #[trigger] behind_at(a, b, k);
    assert(!at_most_at(b, a, k));
}

/// The vector clock of one node: a counter for each node that it knows, its
/// own among them.
#[derive(Debug)]
pub struct VectorClock {
    counters: NodeMap<u64>,
    node_id: String,
}

impl View for VectorClock {
    type V = Map<Seq<char>, u64>;

    closed spec fn view(&self) -> Map<Seq<char>, u64> {
        self.counters@
    }
}

impl VectorClock {
    /// The node whose clock this is.
    pub closed spec fn local(&self) -> Seq<char> {
        self.node_id@
    }

    /// The clock knows its own node.
    pub closed spec fn wf(&self) -> bool {
        self.counters@.contains_key(self.node_id@)
    }

    /// A well-formed clock holds a counter for its own node.
    pub proof fn lemma_wf(&self)
        requires
            self.wf(),
        ensures
            self@.contains_key(self.local()),
    {
    }

    /// The clock of `node_id` that knows `node_id` and every node of `nodes`,
    /// all counters at 0.
    pub fn new(node_id: &str, nodes: &[&str]) -> (c: Self)
        ensures
            c.wf(),
            c.local() == node_id@,
            forall|k: Seq<char>| #[trigger]
                c@.contains_key(k) <==> (k == node_id@ || exists|i: int|
                    0 <= i < nodes@.len() && (#[trigger] nodes@[i])@ == k),
            forall|k: Seq<char>| #[trigger] c@.contains_key(k) ==> c@[k] == 0,
    {
        let mut counters: NodeMap<u64> = NodeMap::new();
        let mut i: usize = 0;
        while i < nodes.len()
            invariant
                i <= nodes@.len(),
                forall|k: Seq<char>| #[trigger]
                    counters@.contains_key(k) <==> exists|j: int|
                        0 <= j < i && (#[trigger] nodes@[j])@ == k,
                forall|k: Seq<char>| #[trigger] counters@.contains_key(k) ==> counters@[k] == 0,
            decreases nodes@.len() - i,
        {
            let ghost before = counters@;
            let id: &str = nodes[i];
            counters.insert(id.to_owned(), 0);
            i += 1;
            assert forall|k: Seq<char>| #[trigger]
                counters@.contains_key(k) <==> exists|j: int|
                    0 <= j < i && (#[trigger] nodes@[j])@ == k by {
                if counters@.contains_key(k) {
                    if k == id@ {
                        assert(nodes@[i - 1]@ == k);
                    } else {
                        assert(before.contains_key(k));
                        let j = choose|j: int| 0 <= j < i - 1 && (#[trigger] nodes@[j])@ == k;
                        assert(nodes@[j]@ == k);
                    }
                }
                if exists|j: int| 0 <= j < i && (#[trigger] nodes@[j])@ == k {
                    let j = choose|j: int| 0 <= j < i && (#[trigger] nodes@[j])@ == k;
                    if j < i - 1 {
                        assert(before.contains_key(k));
                    }
                }
            }
        }
        let own = node_id.to_owned();
        if !counters.contains_key(&own) {
            counters.insert(node_id.to_owned(), 0);
        }
        VectorClock { counters, node_id: own }
    }

    /// The clock of `node_id` that knows no other node, its counter at 0.
    pub fn new_single(node_id: &str) -> (c: Self)
        ensures
            c.wf(),
            c.local() == node_id@,
            c@ == Map::<Seq<char>, u64>::empty().insert(node_id@, 0u64),
    {
        let mut counters: NodeMap<u64> = NodeMap::new();
        counters.insert(node_id.to_owned(), 0);
        VectorClock { counters, node_id: node_id.to_owned() }
    }

    /// The local counter.
    pub fn now(&self) -> (t: u64)
        requires
            self.wf(),
        ensures
            t == self@[self.local()],
    {
        match self.counters.get(&self.node_id) {
            Some(v) => *v,
            None => 0,
        }
    }

    /// A copy of all counters.
    pub fn snapshot(&self) -> (s: Snapshot)
        ensures
            s@ == self@,
    {
        self.counters.clone()
    }

    /// Raises the local counter by one and returns its new value.
    pub fn tick(&mut self) -> (t: u64)
        requires
            old(self).wf(),
            old(self)@[old(self).local()] < u64::MAX,
        ensures
            final(self).wf(),
            final(self).local() == old(self).local(),
            final(self)@ == ticked(old(self)@, old(self).local()),
            t == old(self)@[old(self).local()] + 1,
            clock_le(old(self)@, final(self)@),
    {
        proof {
            lemma_tick_monotone(self@, self.local());
        }
        match self.counters.position(&self.node_id) {
            Some(i) => {
                proof {
                    use_type_invariant(&self.counters);
                    self.counters.lemma_wf();
                }
                let t = *self.counters.value(i) + 1;
                self.counters.set_value(i, t);
                t
            },
            None => {
                proof {
                    assert(false);
                }
                0
            },
        }
    }

    /// Ticks, then returns a copy of all counters.
    pub fn tick_snapshot(&mut self) -> (s: Snapshot)
        requires
            old(self).wf(),
            old(self)@[old(self).local()] < u64::MAX,
        ensures
            final(self).wf(),
            final(self).local() == old(self).local(),
            final(self)@ == ticked(old(self)@, old(self).local()),
            s@ == final(self)@,
            clock_le(old(self)@, final(self)@),
    {
        self.tick();
        self.snapshot()
    }

    /// Adds `node_id` with a counter of 0 unless the clock knows it already.
    pub fn add_node(&mut self, node_id: &str)
        requires
            old(self).wf(),
        ensures
            final(self).wf(),
            final(self).local() == old(self).local(),
            old(self)@.contains_key(node_id@) ==> final(self)@ == old(self)@,
            !old(self)@.contains_key(node_id@) ==> final(self)@ == old(self)@.insert(
                node_id@,
                0u64,
            ),
            clock_le(old(self)@, final(self)@),
    {
        let id = node_id.to_owned();
        if !self.counters.contains_key(&id) {
            self.counters.insert(id, 0);
        }
    }

    /// Merges `remote` into this clock: the local counter goes up by one,
    /// then every node that both clocks know takes the larger counter.
    pub fn update(&mut self, remote: &Snapshot)
        requires
            old(self).wf(),
            old(self)@[old(self).local()] < u64::MAX,
        ensures
            final(self).wf(),
            final(self).local() == old(self).local(),
            final(self)@ == merged(old(self)@, old(self).local(), remote@),
            clock_le(old(self)@, final(self)@),
    {
        self.tick();
        let ghost base = self.counters.pairs();
        proof {
            use_type_invariant(&self.counters);
            self.counters.lemma_wf();
        }
        let n = self.counters.len();
        let mut i: usize = 0;
        while i < n
            invariant
                i <= n,
                n == base.len(),
                self.counters.pairs().len() == n,
                self.local() == old(self).local(),
                forall|j: int| 0 <= j < n ==> (#[trigger] self.counters.pairs()[j]).0 == base[j].0,
                forall|j: int|
                    0 <= j < i ==> (#[trigger] self.counters.pairs()[j]).1 == larger(
                        base[j].1,
                        counter(remote@, base[j].0),
                    ),
                forall|j: int| i <= j < n ==> (#[trigger] self.counters.pairs()[j]).1 == base[j].1,
            decreases n - i,
        {
            let mine = *self.counters.value(i);
            let theirs = match remote.get(self.counters.key(i)) {
                Some(v) => *v,
                None => 0,
            };
            if mine < theirs {
                self.counters.set_value(i, theirs);
            }
            i += 1;
        }
        proof {
            use_type_invariant(&self.counters);
            self.counters.lemma_wf();
            let goal = merged(old(self)@, old(self).local(), remote@);
            let t = ticked(old(self)@, old(self).local());
            lemma_merge_maximal(old(self)@, old(self).local(), remote@);
            crate::node_map::lemma_assoc_map_pairs(base);
            crate::node_map::lemma_assoc_map_dom(base);
            assert forall|k: Seq<char>| self@.contains_key(k) <==> goal.contains_key(k) by {
                if self@.contains_key(k) {
                    let j = choose|j: int|
                        0 <= j < n && (#[trigger] self.counters.pairs()[j]).0 == k;
                    assert(base[j].0 == k);
                }
                if goal.contains_key(k) {
                    assert(t.contains_key(k));
                    let j = choose|j: int| 0 <= j < n && (#[trigger] base[j]).0 == k;
                    assert(self.counters.pairs()[j].0 == k);
                }
            }
            assert forall|k: Seq<char>| self@.contains_key(k) implies self@[k] == goal[k] by {
                let j = choose|j: int| 0 <= j < n && (#[trigger] self.counters.pairs()[j]).0 == k;
                assert(base[j].0 == k);
                assert(t[k] == base[j].1);
            }
            assert(self@ =~= goal);
        }
    }

    /// Whether this clock happened before `other`.
    pub fn happened_before(&self, other: &Snapshot) -> (r: bool)
        ensures
            r == happened_before(self@, other@),
    {
        proof {
            use_type_invariant(&self.counters);
            self.counters.lemma_wf();
            use_type_invariant(other);
            other.lemma_wf();
        }
        let ghost mine = self.counters.pairs();
        let ghost theirs = other.pairs();
        let mut strictly_less = false;
        let n = self.counters.len();
        let mut i: usize = 0;
        while i < n
            invariant
                i <= n,
                n == mine.len(),
                mine == self.counters.pairs(),
                forall|j: int| 0 <= j < i ==> at_most_at(self@, other@, (#[trigger] mine[j]).0),
                strictly_less <==> exists|j: int|
                    0 <= j < i && behind_at(self@, other@, (#[trigger] mine[j]).0),
                forall|j: int|
                    0 <= j < n ==> self@.contains_key((#[trigger] mine[j]).0) && self@[mine[j].0]
                        == mine[j].1,
            decreases n - i,
        {
            let my_val = *self.counters.value(i);
            let other_val = match other.get(self.counters.key(i)) {
                Some(v) => *v,
                None => 0,
            };
            if my_val > other_val {
                proof {
                    assert(!at_most_at(self@, other@, mine[i as int].0));
                }
                return false;
            } else if my_val < other_val {
                strictly_less = true;
                assert(behind_at(self@, other@, mine[i as int].0));
            }
            i += 1;
        }
        let ghost first = strictly_less;
        let m = other.len();
        let mut j: usize = 0;
        while j < m
            invariant
                j <= m,
                m == theirs.len(),
                theirs == other.pairs(),
                strictly_less <==> (first || exists|t: int|
                    0 <= t < j && !self@.contains_key((#[trigger] theirs[t]).0) && behind_at(
                        self@,
                        other@,
                        theirs[t].0,
                    )),
                forall|t: int|
                    0 <= t < m ==> other@.contains_key((#[trigger] theirs[t]).0) && other@[theirs[t].0]
                        == theirs[t].1,
            decreases m - j,
        {
            if !self.counters.contains_key(other.key(j)) && *other.value(j) > 0 {
                strictly_less = true;
                assert(behind_at(self@, other@, theirs[j as int].0));
            }
            j += 1;
        }
        proof {
            assert forall|k: Seq<char>| #[trigger] at_most_at(self@, other@, k) by {
                if self@.contains_key(k) {
                    let t = choose|t: int| 0 <= t < n && (#[trigger] mine[t]).0 == k;
                    assert(at_most_at(self@, other@, mine[t].0));
                }
            }
            if exists|k: Seq<char>| #[trigger] behind_at(self@, other@, k) {
                let k = choose|k: Seq<char>| #[trigger] behind_at(self@, other@, k);
                if self@.contains_key(k) {
                    let t = choose|t: int| 0 <= t < n && (#[trigger] mine[t]).0 == k;
                    assert(behind_at(self@, other@, mine[t].0));
                } else {
                    let t = choose|t: int| 0 <= t < m && (#[trigger] theirs[t]).0 == k;
                    assert(!self@.contains_key(theirs[t].0) && behind_at(
                        self@,
                        other@,
                        theirs[t].0,
                    ));
                }
            }
        }
        strictly_less
    }
}

} // verus!
