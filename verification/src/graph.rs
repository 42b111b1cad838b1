//! The recorded dependency graph, as far as the walk reads it.
use crate::id::{DatabaseKeyIndex, DependencyIndex};
use crate::traversal::Origins;
use std::collections::HashMap;
use vstd::prelude::*;

verus! {

broadcast use vstd::std_specs::hash::group_hash_axioms;

/// What the last execution of a computation read, edge by edge.
pub struct QueryOrigin {
    inputs: Vec<DependencyIndex>,
}

impl View for QueryOrigin {
    type V = Seq<DependencyIndex>;

    closed spec fn view(&self) -> Seq<DependencyIndex> {
        self.inputs@
    }
}

impl QueryOrigin {
    /// An origin with the given edges, in the order in which they were read.
    pub fn new(inputs: Vec<DependencyIndex>) -> (origin: QueryOrigin)
        ensures
            origin@ == inputs@,
    {
        QueryOrigin { inputs }
    }

    /// The recorded edges, in the order in which they were read.
    pub fn inputs(&self) -> (inputs: &Vec<DependencyIndex>)
        ensures
            inputs@ == self@,
    {
        &self.inputs
    }
}

/// The origins of the computations that have one.
///
/// A computation without an entry is an input, or has not been computed; the
/// walk treats it as reading nothing.
pub struct DependencyGraph {
    origins: HashMap<u64, QueryOrigin>,
}

impl View for DependencyGraph {
    type V = Origins;

    closed spec fn view(&self) -> Origins {
        Map::new(
            |key: DatabaseKeyIndex| self.origins@.contains_key(key.packed()),
            |key: DatabaseKeyIndex| self.origins@[key.packed()]@,
        )
    }
}

impl DependencyGraph {
    /// A graph in which no computation has an origin.
    pub fn new() -> (graph: DependencyGraph)
        ensures
            graph@ == Origins::empty(),
    {
        let graph = DependencyGraph { origins: HashMap::new() };
        assert(graph@ =~= Origins::empty());
        graph
    }

    /// Records `origin` for `key`, in place of what was recorded for it.
    pub fn set_origin(&mut self, key: DatabaseKeyIndex, origin: QueryOrigin)
        ensures
            final(self)@ == old(self)@.insert(key, origin@),
    {
        let ghost edges = origin@;
        self.origins.insert(key.pack(), origin);
        assert(self@ =~= old(self)@.insert(key, edges)) by {
            assert forall|other: DatabaseKeyIndex|
                other.packed() == key.packed() <==> other == key by {
                other.lemma_packed_injective(key);
            }
        }
    }

    /// The origin recorded for `key`, if there is one.
    pub fn origin(&self, key: DatabaseKeyIndex) -> (origin: Option<&QueryOrigin>)
        ensures
            match origin {
                Some(origin) => self@.contains_key(key) && self@[key] == origin@,
                None => !self@.contains_key(key),
            },
    {
        self.origins.get(&key.pack())
    }
}

} // verus!
