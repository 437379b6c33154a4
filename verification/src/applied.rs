use crate::node_map::NodeMap;
use std::collections::HashSet;
use vstd::prelude::*;

verus! {

broadcast use vstd::std_specs::hash::group_hash_axioms;

/// The pairs of an origin and an identifier that `m` holds.
pub open spec fn pairs_in(m: Map<Seq<char>, HashSet<u64>>) -> Set<(Seq<char>, u64)> {
    Set::new(|p: (Seq<char>, u64)| m.contains_key(p.0) && m[p.0]@.contains(p.1))
}

/// The events that a node has applied: for each origin the identifiers of
/// its events.
pub struct AppliedSet {
    by_origin: NodeMap<HashSet<u64>>,
}

impl View for AppliedSet {
    type V = Set<(Seq<char>, u64)>;

    closed spec fn view(&self) -> Set<(Seq<char>, u64)> {
        pairs_in(self.by_origin@)
    }
}

impl AppliedSet {
    /// The set that holds nothing.
    pub fn new() -> (s: Self)
        ensures
            s@ == Set::<(Seq<char>, u64)>::empty(),
    {
        let s = AppliedSet { by_origin: NodeMap::new() };
        assert(s@ =~= Set::<(Seq<char>, u64)>::empty());
        s
    }

    /// Whether the event `id` of `origin` is in the set.
    pub fn contains(&self, origin: &String, id: u64) -> (b: bool)
        ensures
            b == self@.contains((origin@, id)),
    {
        match self.by_origin.get(origin) {
            Some(ids) => ids.contains(&id),
            None => false,
        }
    }

    /// Puts the event `id` of `origin` into the set.
    pub fn insert(&mut self, origin: &String, id: u64)
        ensures
            final(self)@ == old(self)@.insert((origin@, id)),
    {
        let mut ids = match self.by_origin.remove(origin) {
            Some(ids) => ids,
            None => HashSet::new(),
        };
        ids.insert(id);
        self.by_origin.insert(origin.clone(), ids);
        assert(self@ =~= old(self)@.insert((origin@, id)));
    }
}

} // verus!
