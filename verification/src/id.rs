//! Identifiers of computations.
//!
//! A computation instance is addressed by a pair: the ingredient (the kind of
//! computation, as registered with the engine) and the index of the instance
//! within that ingredient.
use vstd::prelude::*;

verus! {

/// Index of one instance within its ingredient.
#[derive(Clone, Copy, Debug, PartialEq, Eq, Hash, Structural)]
pub struct Id {
    pub index: u32,
}

impl Id {
    pub fn from_u32(index: u32) -> (id: Id)
        ensures
            id.index == index,
    {
        Id { index }
    }

    pub fn as_u32(self) -> (index: u32)
        ensures
            index == self.index,
    {
        self.index
    }
}

/// Selects one ingredient of the engine.
#[derive(Clone, Copy, Debug, PartialEq, Eq, Hash, Structural)]
pub struct IngredientIndex {
    pub index: u32,
}

impl IngredientIndex {
    pub fn from_u32(index: u32) -> (ingredient: IngredientIndex)
        ensures
            ingredient.index == index,
    {
        IngredientIndex { index }
    }

    pub fn as_u32(self) -> (index: u32)
        ensures
            index == self.index,
    {
        self.index
    }
}

/// Identifies one instance of one kind of computation.
#[derive(Clone, Copy, Debug, PartialEq, Eq, Hash, Structural)]
pub struct DatabaseKeyIndex {
    pub ingredient_index: IngredientIndex,
    pub key_index: Id,
}

/// Number of distinct values of [`DatabaseKeyIndex`].
pub open spec fn key_space() -> nat {
    0x1_0000_0000_0000_0000
}

impl DatabaseKeyIndex {
    pub fn new(ingredient_index: IngredientIndex, key_index: Id) -> (key: DatabaseKeyIndex)
        ensures
            key.ingredient_index == ingredient_index,
            key.key_index == key_index,
    {
        DatabaseKeyIndex { ingredient_index, key_index }
    }

    /// The key as one number: the ingredient in the upper half, the instance
    /// in the lower half.
    pub open spec fn packed(self) -> u64 {
        (self.ingredient_index.index * 0x1_0000_0000 + self.key_index.index) as u64
    }

    /// Computes [`Self::packed`], under which keys are hashed.
    pub fn pack(self) -> (packed: u64)
        ensures
            packed == self.packed(),
    {
        let upper: u64 = self.ingredient_index.index as u64;
        let lower: u64 = self.key_index.index as u64;
        upper * 0x1_0000_0000 + lower
    }

    /// Distinct keys have distinct packed forms.
    pub proof fn lemma_packed_injective(self, other: DatabaseKeyIndex)
        ensures
            self.packed() == other.packed() <==> self == other,
    {
    }
}

/// One recorded input edge of a computation.
///
/// The edge always names the ingredient that was read; it names an instance
/// only where the read was of one instance.
#[derive(Clone, Copy, Debug, PartialEq, Eq, Hash, Structural)]
pub struct DependencyIndex {
    pub ingredient_index: IngredientIndex,
    pub key_index: Option<Id>,
}

impl DependencyIndex {
    pub fn new(ingredient_index: IngredientIndex, key_index: Option<Id>) -> (edge: DependencyIndex)
        ensures
            edge.ingredient_index == ingredient_index,
            edge.key_index == key_index,
    {
        DependencyIndex { ingredient_index, key_index }
    }

    /// The computation that the edge leads to, if it names one.
    pub open spec fn target(self) -> Option<DatabaseKeyIndex> {
        match self.key_index {
            Some(key_index) => Some(
                DatabaseKeyIndex { ingredient_index: self.ingredient_index, key_index },
            ),
            None => None,
        }
    }
}

impl DatabaseKeyIndex {
    /// Reads an edge as the key of a computation. An edge that names no
    /// instance is not the key of any computation.
    pub fn try_from_dependency(edge: DependencyIndex) -> (key: Result<DatabaseKeyIndex, ()>)
        ensures
            key.ok() == edge.target(),
    {
        match edge.key_index {
            Some(key_index) => Ok(
                DatabaseKeyIndex { ingredient_index: edge.ingredient_index, key_index },
            ),
            None => Err(()),
        }
    }

    /// The edge that leads to this computation.
    pub fn into_dependency(self) -> (edge: DependencyIndex)
        ensures
            edge.target() == Some(self),
            edge.ingredient_index == self.ingredient_index,
    {
        DependencyIndex { ingredient_index: self.ingredient_index, key_index: Some(self.key_index) }
    }
}

} // verus!
