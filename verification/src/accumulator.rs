//! The side channel into which computations emit values while they run.
use crate::id::DatabaseKeyIndex;
use std::collections::HashMap;
use vstd::prelude::*;

verus! {

broadcast use vstd::std_specs::hash::group_hash_axioms;

/// What each computation emitted, in the order in which it emitted it.
pub type Emitted<A> = Map<DatabaseKeyIndex, Seq<A>>;

/// What `key` itself emitted; nothing where no value is recorded for it.
pub open spec fn emitted_at<A>(emitted: Emitted<A>, key: DatabaseKeyIndex) -> Seq<A> {
    if emitted.contains_key(key) {
        emitted[key]
    } else {
        Seq::empty()
    }
}

/// `copies` holds one clone of each entry of `sources`, in the same order.
pub open spec fn clones_of<A: Clone>(copies: Seq<A>, sources: Seq<A>) -> bool {
    &&& copies.len() == sources.len()
    &&& forall|i: int| 0 <= i < sources.len() ==> #[trigger] cloned(sources[i], copies[i])
}

/// Clones of two lists, one after the other, are clones of the joined list.
pub proof fn lemma_clones_of_concat<A: Clone>(
    copies: Seq<A>,
    sources: Seq<A>,
    more_copies: Seq<A>,
    more_sources: Seq<A>,
)
    requires
        clones_of(copies, sources),
        clones_of(more_copies, more_sources),
    ensures
        clones_of(copies + more_copies, sources + more_sources),
{
    let joined = sources + more_sources;
    let joined_copies = copies + more_copies;
    assert forall|i: int| 0 <= i < joined.len() implies #[trigger] cloned(
        joined[i],
        joined_copies[i],
    ) by {
        if i < sources.len() {
            assert(cloned(sources[i], copies[i]));
        } else {
            let j = i - sources.len();
            assert(cloned(more_sources[j], more_copies[j]));
        }
    }
}

/// The values of one kind that computations have emitted, by the computation
/// that emitted them.
pub struct IngredientImpl<A> {
    map: HashMap<u64, Vec<A>>,
}

impl<A> View for IngredientImpl<A> {
    type V = Emitted<A>;

    closed spec fn view(&self) -> Emitted<A> {
        Map::new(
            |key: DatabaseKeyIndex| self.map@.contains_key(key.packed()),
            |key: DatabaseKeyIndex| self.map@[key.packed()]@,
        )
    }
}

impl<A: Clone> IngredientImpl<A> {
    /// An accumulator that holds no value.
    pub fn new() -> (accumulator: IngredientImpl<A>)
        ensures
            accumulator@ == Emitted::<A>::empty(),
    {
        let accumulator = IngredientImpl { map: HashMap::new() };
        assert(accumulator@ =~= Emitted::<A>::empty());
        accumulator
    }

    /// Records that `key` emitted `value`, after what it emitted before.
    pub fn accumulate(&mut self, key: DatabaseKeyIndex, value: A)
        ensures
            final(self)@ == old(self)@.insert(key, emitted_at(old(self)@, key).push(value)),
    {
        let packed = key.pack();
        let mut values = match self.map.remove(&packed) {
            Some(values) => values,
            None => Vec::new(),
        };
        assert(values@ == emitted_at(old(self)@, key));
        values.push(value);
        let ghost recorded = values@;
        self.map.insert(packed, values);
        assert(self@ =~= old(self)@.insert(key, recorded)) by {
            assert forall|other: DatabaseKeyIndex|
                other.packed() == key.packed() <==> other == key by {
                other.lemma_packed_injective(key);
            }
        }
    }

    /// Appends to `output` a clone of each value that `key` itself emitted,
    /// in the order of emission. What `key` read contributes nothing.
    pub fn produced_by(&self, key: DatabaseKeyIndex, output: &mut Vec<A>)
        ensures
            final(output)@.len() == old(output)@.len() + emitted_at(self@, key).len(),
            final(output)@.take(old(output)@.len() as int) == old(output)@,
            clones_of(final(output)@.skip(old(output)@.len() as int), emitted_at(self@, key)),
    {
        match self.map.get(&key.pack()) {
            Some(values) => {
                let ghost before = output@;
                let mut i: usize = 0;
                while i < values.len()
                    invariant
                        i <= values.len(),
                        output@.len() == before.len() + i,
                        output@.take(before.len() as int) == before,
                        clones_of(output@.skip(before.len() as int), values@.take(i as int)),
                    decreases values.len() - i,
                {
                    let ghost previous = output@;
                    let copy = values[i].clone();
                    output.push(copy);
                    proof {
                        assert(output@.take(before.len() as int) =~= previous.take(
                            before.len() as int,
                        ));
                        let copies = output@.skip(before.len() as int);
                        let sources = values@.take(i + 1);
                        assert forall|j: int| 0 <= j < sources.len() implies #[trigger] cloned(
                            sources[j],
                            copies[j],
                        ) by {
                            if j < i {
                                assert(cloned(
                                    values@.take(i as int)[j],
                                    previous.skip(before.len() as int)[j],
                                ));
                            }
                        }
                    }
                    i += 1;
                }
                assert(values@.take(i as int) =~= values@);
            },
            None => {
                assert(output@.take(output@.len() as int) =~= output@);
            },
        }
    }
}

} // verus!
