//! The ingredient of one memoized function.
use crate::id::{DatabaseKeyIndex, Id, IngredientIndex};
use vstd::prelude::*;

pub mod accumulated;
pub mod eviction_set;
pub mod lru;
mod sealed;

verus! {

/// One memoized function of the engine: it owns the computations that are
/// calls of that function, one for each argument key.
pub struct IngredientImpl {
    index: IngredientIndex,
}

impl IngredientImpl {
    /// The function that the engine has registered under `index`.
    pub fn new(index: IngredientIndex) -> (ingredient: IngredientImpl)
        ensures
            ingredient.ingredient_index() == index,
    {
        IngredientImpl { index }
    }

    /// The index under which the engine has registered this function.
    pub closed spec fn ingredient_index(&self) -> IngredientIndex {
        self.index
    }

    /// The computation that is the call of this function with argument `key`.
    pub open spec fn key_of(&self, key: Id) -> DatabaseKeyIndex {
        DatabaseKeyIndex { ingredient_index: self.ingredient_index(), key_index: key }
    }

    /// Computes [`Self::key_of`].
    pub fn database_key_index(&self, key: Id) -> (db_key: DatabaseKeyIndex)
        ensures
            db_key == self.key_of(key),
    {
        DatabaseKeyIndex::new(self.index, key)
    }
}

} // verus!
