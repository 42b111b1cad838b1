//! The identifiers that an eviction policy tracks, by recency of use.
use crate::id::Id;
use vstd::prelude::*;

verus! {

/// `order` after a use of `id`: `id` stands last, the others keep their order.
pub open spec fn moved_to_back(order: Seq<Id>, id: Id) -> Seq<Id> {
    if order.contains(id) {
        order.remove(order.index_of(id)).push(id)
    } else {
        order.push(id)
    }
}

/// A use keeps the list free of repetition, and lengthens it by one exactly
/// when `id` was not listed.
pub proof fn lemma_moved_to_back(order: Seq<Id>, id: Id)
    requires
        order.no_duplicates(),
    ensures
        moved_to_back(order, id).no_duplicates(),
        moved_to_back(order, id).len() == if order.contains(id) {
            order.len()
        } else {
            order.len() + 1
        },
        moved_to_back(order, id).len() > 0,
        moved_to_back(order, id).last() == id,
        forall|other: Id| #[trigger]
            moved_to_back(order, id).contains(other) <==> other == id || order.contains(other),
{
    let moved = moved_to_back(order, id);
    if order.contains(id) {
        let at = order.index_of(id);
        let rest = order.remove(at);
        assert forall|i: int| 0 <= i < rest.len() implies rest[i] == order[if i < at {
            i
        } else {
            i + 1
        }] by {}
        assert(moved[rest.len() as int] == id);
        assert forall|other: Id| #[trigger]
            moved.contains(other) <==> other == id || order.contains(other) by {
            if moved.contains(other) && other != id {
                let i = choose|i: int| 0 <= i < moved.len() && moved[i] == other;
                assert(rest[i] == other);
            }
            if order.contains(other) && other != id {
                let i = choose|i: int| 0 <= i < order.len() && order[i] == other;
                let j = if i < at {
                    i
                } else {
                    i - 1
                };
                assert(moved[j] == other);
            }
        }
    } else {
        assert(moved[order.len() as int] == id);
        assert forall|other: Id| #[trigger]
            moved.contains(other) <==> other == id || order.contains(other) by {
            if moved.contains(other) && other != id {
                let i = choose|i: int| 0 <= i < moved.len() && moved[i] == other;
                assert(order[i] == other);
            }
            if order.contains(other) {
                let i = choose|i: int| 0 <= i < order.len() && order[i] == other;
                assert(moved[i] == other);
            }
        }
    }
}

/// A set of identifiers in the order of their last use, the least recently
/// used first. No identifier is listed twice.
pub struct EvictionSet {
    order: Vec<Id>,
}

impl View for EvictionSet {
    type V = Seq<Id>;

    closed spec fn view(&self) -> Seq<Id> {
        self.order@
    }
}

impl EvictionSet {
    /// No identifier is listed twice. This holds of every set at all times.
    #[verifier::type_invariant]
    pub open spec fn well_formed(&self) -> bool {
        self@.no_duplicates()
    }

    /// A set that tracks nothing.
    pub fn new() -> (set: EvictionSet)
        ensures
            set@ == Seq::<Id>::empty(),
    {
        EvictionSet { order: Vec::new() }
    }

    /// The number of identifiers tracked.
    pub fn len(&self) -> (len: usize)
        ensures
            len == self@.len(),
            self@.no_duplicates(),
    {
        proof {
            use_type_invariant(self);
        }
        self.order.len()
    }

    /// Whether `id` is tracked.
    pub fn contains(&self, id: Id) -> (found: bool)
        ensures
            found == self@.contains(id),
    {
        let mut at: usize = 0;
        while at < self.order.len()
            invariant
                at <= self.order.len(),
                forall|i: int| 0 <= i < at ==> self.order@[i] != id,
            decreases self.order.len() - at,
        {
            if self.order[at] == id {
                return true;
            }
            at += 1;
        }
        false
    }

    /// The tracked identifiers, the least recently used first.
    pub fn to_vec(&self) -> (order: Vec<Id>)
        ensures
            order@ == self@,
    {
        let mut order: Vec<Id> = Vec::new();
        let mut at: usize = 0;
        while at < self.order.len()
            invariant
                at <= self.order.len(),
                order@ == self.order@.take(at as int),
            decreases self.order.len() - at,
        {
            order.push(self.order[at]);
            assert(order@ =~= self.order@.take(at + 1));
            at += 1;
        }
        assert(self.order@.take(at as int) =~= self.order@);
        order
    }

    /// Records a use of `id`: it becomes the most recently used, tracked from
    /// now on if it was not. Returns whether it was not.
    pub fn insert(&mut self, id: Id) -> (fresh: bool)
        ensures
            final(self)@ == moved_to_back(old(self)@, id),
            final(self)@.no_duplicates(),
            fresh == !old(self)@.contains(id),
    {
        proof {
            use_type_invariant(&*self);
            lemma_moved_to_back(self@, id);
        }
        let mut order: Vec<Id> = Vec::new();
        std::mem::swap(&mut order, &mut self.order);
        let ghost before = order@;
        let mut at: usize = 0;
        while at < order.len() && order[at] != id
            invariant
                order@ == before,
                at <= order.len(),
                forall|i: int| 0 <= i < at ==> before[i] != id,
            decreases order.len() - at,
        {
            at += 1;
        }
        let fresh = at == order.len();
        if !fresh {
            assert(before.contains(id));
            assert(before.index_of(id) == at);
            order.remove(at);
        }
        order.push(id);
        self.order = order;
        fresh
    }

    /// Takes out the least recently used identifier, if any is tracked.
    pub fn pop_front(&mut self) -> (front: Option<Id>)
        ensures
            final(self)@.no_duplicates(),
            match front {
                Some(id) => old(self)@.len() > 0 && id == old(self)@[0] && final(self)@ == old(
                    self,
                )@.drop_first(),
                None => old(self)@.len() == 0 && final(self)@ == old(self)@,
            },
    {
        proof {
            use_type_invariant(&*self);
        }
        let mut order: Vec<Id> = Vec::new();
        std::mem::swap(&mut order, &mut self.order);
        let front = if order.len() > 0 {
            let ghost before = order@;
            let id = order.remove(0);
            assert(order@ =~= before.drop_first());
            Some(id)
        } else {
            None
        };
        self.order = order;
        front
    }

    /// Stops tracking every identifier.
    pub fn clear(&mut self)
        ensures
            final(self)@ == Seq::<Id>::empty(),
    {
        self.order = Vec::new();
    }

    /// Makes room for `additional` more identifiers where memory allows.
    /// What is tracked stays as it is.
    pub fn reserve(&mut self, additional: usize)
        ensures
            final(self)@ == old(self)@,
    {
        proof {
            use_type_invariant(&*self);
        }
        let mut order: Vec<Id> = Vec::new();
        std::mem::swap(&mut order, &mut self.order);
        let _ = order.try_reserve(additional);
        self.order = order;
    }
}

} // verus!
