//! Collecting what a computation and everything it read have emitted.
use super::IngredientImpl;
use crate::accumulator;
use crate::accumulator::{clones_of, emitted_at, lemma_clones_of_concat, Emitted};
use crate::graph::DependencyGraph;
use crate::id::{key_space, DatabaseKeyIndex, DependencyIndex, Id};
use crate::traversal::{
    bfs_order, discover, inputs_of, lemma_discover, lemma_distinct_keys_bounded, traverse, visit,
    Origins,
};
use std::collections::{HashSet, VecDeque};
use vstd::prelude::*;

verus! {

broadcast use vstd::std_specs::hash::group_hash_axioms;

/// What the computations of `order` emitted, one computation after the other:
/// the values of one computation stand together, in the order of emission.
pub open spec fn emitted_along<A>(emitted: Emitted<A>, order: Seq<DatabaseKeyIndex>) -> Seq<A>
    decreases order.len(),
{
    if order.len() == 0 {
        Seq::empty()
    } else {
        emitted_along(emitted, order.drop_last()) + emitted_at(emitted, order.last())
    }
}

/// Collecting twice from an unchanged graph gives the same values: two lists
/// that both hold the clones of what was emitted along the walk from `start`
/// are equal, where a clone of an emitted value is equal to the value.
pub proof fn lemma_accumulated_by_is_deterministic<A: Clone>(
    origins: Origins,
    emitted: Emitted<A>,
    start: DatabaseKeyIndex,
    first: Seq<A>,
    second: Seq<A>,
)
    requires
        clones_of(first, emitted_along(emitted, bfs_order(origins, start))),
        clones_of(second, emitted_along(emitted, bfs_order(origins, start))),
        forall|i: int, copy: A|
            0 <= i < emitted_along(emitted, bfs_order(origins, start)).len() && #[trigger] cloned(
                emitted_along(emitted, bfs_order(origins, start))[i],
                copy,
            ) ==> copy == emitted_along(emitted, bfs_order(origins, start))[i],
    ensures
        first == second,
{
    let values = emitted_along(emitted, bfs_order(origins, start));
    assert forall|i: int| 0 <= i < values.len() implies first[i] == second[i] by {
        assert(cloned(values[i], first[i]));
        assert(cloned(values[i], second[i]));
    }
    assert(first =~= second);
}

/// `visited` holds the packed form of exactly the keys of `order`.
spec fn marks(visited: Set<u64>, order: Seq<DatabaseKeyIndex>) -> bool {
    forall|key: DatabaseKeyIndex| visited.contains(#[trigger] key.packed()) <==> order.contains(key)
}

/// Marks and enqueues the computations that `inputs` lead to and that are
/// not marked yet. `order` is what has been discovered so far, of which the
/// queue holds the part from `head` on.
fn enqueue_inputs(
    inputs: &Vec<DependencyIndex>,
    visited: &mut HashSet<u64>,
    queue: &mut VecDeque<DatabaseKeyIndex>,
    Ghost(order): Ghost<Seq<DatabaseKeyIndex>>,
    Ghost(head): Ghost<nat>,
)
    requires
        head <= order.len(),
        old(queue)@ == order.skip(head as int),
        marks(old(visited)@, order),
    ensures
        final(queue)@ == discover(order, inputs@).skip(head as int),
        marks(final(visited)@, discover(order, inputs@)),
{
    let mut i: usize = 0;
    proof {
        assert(inputs@.take(0) =~= Seq::empty());
    }
    while i < inputs.len()
        invariant
            i <= inputs.len(),
            head <= order.len(),
            queue@ == discover(order, inputs@.take(i as int)).skip(head as int),
            marks(visited@, discover(order, inputs@.take(i as int))),
        decreases inputs.len() - i,
    {
        let ghost found = discover(order, inputs@.take(i as int));
        proof {
            lemma_discover(order, inputs@.take(i as int));
            assert(inputs@.take(i + 1).drop_last() =~= inputs@.take(i as int));
            assert(inputs@.take(i + 1).last() == inputs@[i as int]);
            assert(discover(order, inputs@.take(i + 1)) == visit(found, inputs@[i as int]));
        }
        match DatabaseKeyIndex::try_from_dependency(inputs[i]) {
            Ok(input) => {
                if visited.insert(input.pack()) {
                    queue.push_back(input);
                    proof {
                        let next = found.push(input);
                        assert(queue@ =~= next.skip(head as int));
                        assert forall|key: DatabaseKeyIndex|
                            visited@.contains(#[trigger] key.packed()) <==> next.contains(key) by {
                            key.lemma_packed_injective(input);
                            if found.contains(key) {
                                let j = choose|j: int| 0 <= j < found.len() && found[j] == key;
                                assert(next[j] == key);
                            }
                            if next.contains(key) && key != input {
                                let j = choose|j: int| 0 <= j < next.len() && next[j] == key;
                                assert(found[j] == key);
                            }
                            assert(next[found.len() as int] == input);
                        }
                    }
                }
            },
            Err(_) => {},
        }
        i += 1;
    }
    proof {
        assert(inputs@.take(i as int) =~= inputs@);
    }
}

impl IngredientImpl {
    /// The values that the call with argument `key`, and every computation
    /// that recorded edges lead to from it, have emitted into `accumulator`.
    ///
    /// The computations are walked breadth first from the call, each once;
    /// the values of one computation stand together, in the order of
    /// emission. Without an accumulator nothing has been emitted. The graph
    /// is read as it stands: bringing the call up to date comes before.
    pub fn accumulated_by<A: Clone>(
        &self,
        db: &DependencyGraph,
        accumulator: Option<&accumulator::IngredientImpl<A>>,
        key: Id,
    ) -> (output: Vec<A>)
        ensures
            match accumulator {
                Some(accumulator) => clones_of(
                    output@,
                    emitted_along(accumulator@, bfs_order(db@, self.key_of(key))),
                ),
                None => output@.len() == 0,
            },
    {
        let accumulator = match accumulator {
            Some(accumulator) => accumulator,
            None => {
                return Vec::new();
            },
        };
        let mut output: Vec<A> = Vec::new();
        let db_key = self.database_key_index(key);
        let mut visited: HashSet<u64> = HashSet::new();
        visited.insert(db_key.pack());
        let mut queue: VecDeque<DatabaseKeyIndex> = VecDeque::new();
        queue.push_back(db_key);
        let ghost mut order = seq![db_key];
        let ghost mut head = 0nat;
        proof {
            assert(queue@ =~= order.skip(0));
            assert forall|other: DatabaseKeyIndex|
                visited@.contains(#[trigger] other.packed()) <==> order.contains(other) by {
                other.lemma_packed_injective(db_key);
                assert(order[0] == db_key);
            }
            assert(order.take(0) =~= Seq::empty());
        }
        while queue.len() > 0
            invariant
                head <= order.len(),
                order.no_duplicates(),
                queue@ == order.skip(head as int),
                marks(visited@, order),
                traverse(db@, order, head) == bfs_order(db@, self.key_of(key)),
                clones_of(output@, emitted_along(accumulator@, order.take(head as int))),
            decreases key_space() - order.len(), queue@.len(),
        {
            let ghost copied = output@;
            let k = queue.pop_front().unwrap();
            assert(k == order[head as int]);
            accumulator.produced_by(k, &mut output);
            proof {
                let taken = order.take(head as int + 1);
                assert(taken.drop_last() =~= order.take(head as int));
                assert(taken.last() == k);
                assert(output@ =~= copied + output@.skip(copied.len() as int));
                lemma_clones_of_concat(
                    copied,
                    emitted_along(accumulator@, order.take(head as int)),
                    output@.skip(copied.len() as int),
                    emitted_at(accumulator@, k),
                );
                assert(queue@ =~= order.skip(head as int + 1));
            }
            let ghost edges = inputs_of(db@, k);
            match db.origin(k) {
                Some(origin) => {
                    enqueue_inputs(
                        origin.inputs(),
                        &mut visited,
                        &mut queue,
                        Ghost(order),
                        Ghost((head + 1) as nat),
                    );
                },
                None => {},
            }
            proof {
                let next = discover(order, edges);
                lemma_discover(order, edges);
                lemma_distinct_keys_bounded(next);
                assert(next.take(head as int + 1) =~= next.take(order.len() as int).take(head as int + 1));
                order = next;
                head = (head + 1) as nat;
            }
        }
        proof {
            assert(order.take(head as int) =~= order);
        }
        output
    }
}

} // verus!
