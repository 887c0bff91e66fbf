use vstd::prelude::*;
use crate::libs::storage::{id_pos, value_pos, ItemRegistry};
use crate::structs::item::Item;
use crate::structs::token::Token;

verus! {

/// Membership tests on a two-way registry of ids and values.
pub trait ContainsUtils<K, V> {
    /// Whether `id` is registered.
    fn contains_id(&self, id: &K) -> bool;

    /// Whether `value` is registered.
    fn contains_value(&self, value: &V) -> bool;
}

impl ContainsUtils<Item, Token> for ItemRegistry {
    fn contains_id(&self, id: &Item) -> (r: bool)
        ensures
            r == (id_pos(self@, id@) >= 0),
    {
        self.has_item(id)
    }

    fn contains_value(&self, value: &Token) -> (r: bool)
        ensures
            r == (value_pos(self@, value@) >= 0),
    {
        self.has_token(value)
    }
}

} // verus!
