//! The policies by which memoized results are chosen for eviction.
//!
//! A policy is shared by the threads that use the memoized function. Its set
//! of tracked identifiers sits behind a lock and its capacity in an atomic
//! cell, so a method of a policy cannot say what it found there. What each
//! policy does with a set and a capacity once it has them in hand is stated,
//! and proved, on the functions whose names end in `_locked`.
use super::eviction_set::{lemma_moved_to_back, moved_to_back, EvictionSet};
use super::sealed::Sealed;
use crate::id::Id;
use crate::sync::{lock_set, locked_set, new_set_mutex};
use crossbeam::atomic::AtomicCell;
use parking_lot::Mutex;
use vstd::prelude::*;

verus! {

/// A policy that decides which memoized results to evict.
pub trait LruChoice: Sealed + Default {
    /// Records a use of `index`, returning the identifier to evict, if any.
    /// The identifier just used is never the one to evict.
    fn record_use(&self, index: Id) -> (evicted: Option<Id>)
        ensures
            evicted != Some(index),
    ;

    /// Hands to `cb` each identifier that should be evicted now.
    fn to_be_evicted<F: FnMut(Id)>(&self, cb: F)
        requires
            forall|id: Id| call_requires(cb, (id,)),
    ;

    /// Sets the number of identifiers to keep. Zero turns eviction off.
    fn set_capacity(&self, capacity: usize)
    ;
}

/// The tracked identifiers after the policies were given `capacity`: with
/// zero tracking starts afresh, otherwise nothing changes until the next use.
pub open spec fn after_set_capacity(order: Seq<Id>, capacity: usize) -> Seq<Id> {
    if capacity == 0 {
        Seq::empty()
    } else {
        order
    }
}

/// Applies a new capacity to the set of a policy: see [`after_set_capacity`].
/// Where the capacity is not zero, room is made for one identifier more than
/// it, as far as that number can be counted and memory allows, since a use
/// adds one before it evicts. Nothing is evicted here.
pub fn set_capacity_locked(set: &mut EvictionSet, capacity: usize)
    ensures
        final(set)@ == after_set_capacity(old(set)@, capacity),
{
    if capacity == 0 {
        set.clear();
    } else if capacity < usize::MAX {
        set.reserve(capacity + 1);
    }
}

/// A policy that tracks nothing and evicts nothing.
pub struct NoLru;

impl Sealed for NoLru {

}

impl Default for NoLru {
    fn default() -> (lru: NoLru) {
        NoLru
    }
}

impl LruChoice for NoLru {
    fn record_use(&self, index: Id) -> (evicted: Option<Id>)
        ensures
            evicted is None,
    {
        None
    }

    fn to_be_evicted<F: FnMut(Id)>(&self, cb: F) {
    }

    fn set_capacity(&self, capacity: usize) {
    }
}

/// The identifiers that the manual policy evicts from `order`: the least
/// recently used ones beyond `capacity`, or none with capacity zero.
pub open spec fn evictable(order: Seq<Id>, capacity: usize) -> Seq<Id> {
    if capacity == 0 || order.len() <= capacity {
        Seq::empty()
    } else {
        order.take(order.len() - capacity)
    }
}

/// A policy that tracks uses and evicts only when asked to.
pub struct ManualLru {
    capacity: AtomicCell<usize>,
    set: Mutex<EvictionSet>,
}

impl Sealed for ManualLru {

}

impl Default for ManualLru {
    fn default() -> (lru: ManualLru) {
        ManualLru { capacity: AtomicCell::new(0), set: new_set_mutex(EvictionSet::new()) }
    }
}

impl ManualLru {
    /// Takes from `set` what the policy evicts at `capacity`, least recently
    /// used first: as many identifiers as `set` tracks beyond `capacity`, and
    /// none with capacity zero.
    pub fn to_be_evicted_locked(set: &mut EvictionSet, capacity: usize) -> (evicted: Vec<Id>)
        ensures
            evicted@ == evictable(old(set)@, capacity),
            final(set)@ == old(set)@.skip(evicted@.len() as int),
            final(set)@.no_duplicates(),
            capacity > 0 ==> final(set)@.len() <= capacity,
            capacity == 0 ==> final(set)@ == old(set)@,
    {
        let mut evicted: Vec<Id> = Vec::new();
        let held = set.len();
        if held <= capacity || capacity == 0 {
            assert(set@.skip(0) =~= set@);
            return evicted;
        }
        let excess = held - capacity;
        assert(old(set)@.take(0) =~= Seq::<Id>::empty());
        while evicted.len() < excess
            invariant
                excess == old(set)@.len() - capacity,
                0 < capacity,
                evicted@.len() <= excess,
                evicted@ == old(set)@.take(evicted@.len() as int),
                set@ == old(set)@.skip(evicted@.len() as int),
                set@.no_duplicates(),
            decreases excess - evicted@.len(),
        {
            let ghost taken = evicted@.len() as int;
            match set.pop_front() {
                Some(id) => {
                    evicted.push(id);
                    assert(evicted@ =~= old(set)@.take(taken + 1));
                    assert(set@ =~= old(set)@.skip(taken + 1));
                },
                None => {},
            }
        }
        evicted
    }
}

impl LruChoice for ManualLru {
    fn record_use(&self, index: Id) -> (evicted: Option<Id>)
        ensures
            evicted is None,
    {
        let mut locked = lock_set(&self.set);
        locked_set(&mut locked).insert(index);
        None
    }

    fn to_be_evicted<F: FnMut(Id)>(&self, cb: F) {
        let mut cb = cb;
        let evicted = {
            let mut locked = lock_set(&self.set);
            let capacity = self.capacity.load();
            ManualLru::to_be_evicted_locked(locked_set(&mut locked), capacity)
        };
        let mut i: usize = 0;
        while i < evicted.len()
            invariant
                forall|id: Id| call_requires(cb, (id,)),
            decreases evicted.len() - i,
        {
            cb(evicted[i]);
            i += 1;
        }
    }

    fn set_capacity(&self, capacity: usize) {
        self.capacity.store(capacity);
        let mut locked = lock_set(&self.set);
        set_capacity_locked(locked_set(&mut locked), capacity);
    }
}

/// The tracked identifiers after the automatic policy recorded a use of
/// `index` at `capacity`.
pub open spec fn after_use(order: Seq<Id>, capacity: usize, index: Id) -> Seq<Id> {
    if capacity == 0 {
        order
    } else if moved_to_back(order, index).len() > capacity {
        moved_to_back(order, index).drop_first()
    } else {
        moved_to_back(order, index)
    }
}

/// The identifier that the automatic policy evicts on a use of `index` at
/// `capacity`: the least recently used one, where the use brought the
/// tracked identifiers beyond the capacity.
pub open spec fn evicted_by_use(order: Seq<Id>, capacity: usize, index: Id) -> Option<Id> {
    if capacity != 0 && moved_to_back(order, index).len() > capacity {
        Some(moved_to_back(order, index).first())
    } else {
        None
    }
}

/// The tracked identifiers after the automatic policy recorded the uses of
/// `uses`, one after the other, at `capacity`.
pub open spec fn after_uses(order: Seq<Id>, capacity: usize, uses: Seq<Id>) -> Seq<Id>
    decreases uses.len(),
{
    if uses.len() == 0 {
        order
    } else {
        after_use(after_uses(order, capacity, uses.drop_last()), capacity, uses.last())
    }
}

/// Under the automatic policy with a capacity that is not zero, a set that
/// is within the capacity stays within it through any sequence of uses.
pub proof fn lemma_automatic_stays_within_capacity(order: Seq<Id>, capacity: usize, uses: Seq<Id>)
    requires
        order.no_duplicates(),
        order.len() <= capacity,
        capacity > 0,
    ensures
        after_uses(order, capacity, uses).no_duplicates(),
        after_uses(order, capacity, uses).len() <= capacity,
    decreases uses.len(),
{
    if uses.len() > 0 {
        lemma_automatic_stays_within_capacity(order, capacity, uses.drop_last());
        let before = after_uses(order, capacity, uses.drop_last());
        lemma_moved_to_back(before, uses.last());
        let moved = moved_to_back(before, uses.last());
        assert forall|i: int, j: int|
            0 <= i < moved.drop_first().len() && 0 <= j < moved.drop_first().len() && i
                != j implies moved.drop_first()[i] != moved.drop_first()[j] by {
            assert(moved[i + 1] != moved[j + 1]);
        }
    }
}

/// With capacity zero the automatic policy evicts nothing and tracks nothing
/// new, whatever is used.
pub proof fn lemma_capacity_zero_disables_eviction(order: Seq<Id>, uses: Seq<Id>)
    ensures
        after_uses(order, 0, uses) == order,
        forall|i: int|
            0 <= i < uses.len() ==> evicted_by_use(
                after_uses(order, 0, uses.take(i)),
                0,
                #[trigger] uses[i],
            ) is None,
        after_set_capacity(order, 0) == Seq::<Id>::empty(),
    decreases uses.len(),
{
    if uses.len() > 0 {
        lemma_capacity_zero_disables_eviction(order, uses.drop_last());
    }
}

/// A policy that tracks uses and evicts the least recently used identifier as
/// soon as a use brings the tracked identifiers beyond the capacity.
pub struct AutomaticLru {
    capacity: AtomicCell<usize>,
    set: Mutex<EvictionSet>,
}

impl Sealed for AutomaticLru {

}

impl Default for AutomaticLru {
    fn default() -> (lru: AutomaticLru) {
        AutomaticLru { capacity: AtomicCell::new(0), set: new_set_mutex(EvictionSet::new()) }
    }
}

impl AutomaticLru {
    /// Records a use of `index` in `set` and evicts at most one identifier:
    /// see [`after_use`] and [`evicted_by_use`]. With capacity zero the set
    /// is left alone.
    pub fn record_use_locked(set: &mut EvictionSet, capacity: usize, index: Id) -> (evicted:
        Option<Id>)
        ensures
            final(set)@ == after_use(old(set)@, capacity, index),
            evicted == evicted_by_use(old(set)@, capacity, index),
            final(set)@.no_duplicates(),
            evicted != Some(index),
            capacity > 0 && old(set)@.len() <= capacity ==> final(set)@.len() <= capacity,
            capacity == 0 ==> evicted is None && final(set)@ == old(set)@,
    {
        proof {
            use_type_invariant(&*set);
            lemma_moved_to_back(set@, index);
        }
        if capacity == 0 {
            return None;
        }
        set.insert(index);
        if set.len() > capacity {
            let ghost moved = set@;
            assert(moved[0] != moved[moved.len() - 1]);
            return set.pop_front();
        }
        None
    }
}

impl LruChoice for AutomaticLru {
    /// Records a use of `index` under the lock, at the capacity that the
    /// policy holds at the time. What is evicted is what
    /// [`AutomaticLru::record_use_locked`] evicts from the set found there.
    fn record_use(&self, index: Id) -> (evicted: Option<Id>)
        ensures
            exists|order: Seq<Id>, capacity: usize|
                order.no_duplicates() && evicted == #[trigger] evicted_by_use(
                    order,
                    capacity,
                    index,
                ),
    {
        let capacity = self.capacity.load();
        if capacity == 0 {
            assert(evicted_by_use(Seq::empty(), 0, index) is None);
            return None;
        }
        let mut locked = lock_set(&self.set);
        let set = locked_set(&mut locked);
        let ghost order = set@;
        proof {
            use_type_invariant(&*set);
        }
        let evicted = AutomaticLru::record_use_locked(set, capacity, index);
        assert(evicted == evicted_by_use(order, capacity, index));
        evicted
    }

    fn to_be_evicted<F: FnMut(Id)>(&self, cb: F) {
    }

    fn set_capacity(&self, capacity: usize) {
        self.capacity.store(capacity);
        let mut locked = lock_set(&self.set);
        set_capacity_locked(locked_set(&mut locked), capacity);
    }
}

} // verus!
