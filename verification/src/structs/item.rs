use vstd::prelude::*;
use crate::structs::equippable_attributes::copy_bytes;
use crate::utils::managed_buffer_utils::bytes_eq;

verus! {

/// An item as a plain value: its name and its slot.
pub type ItemV = (Seq<u8>, Seq<u8>);

/// An item that can be equipped: its name and the slot it goes on.
pub struct Item {
    pub name: Vec<u8>,
    pub slot: Vec<u8>,
}

impl View for Item {
    type V = ItemV;

    open spec fn view(&self) -> ItemV {
        (self.name@, self.slot@)
    }
}

impl Item {
    /// A copy of the item.
    pub fn copy(&self) -> (r: Self)
        ensures
            r@ == self@,
    {
        Item { name: copy_bytes(&self.name), slot: copy_bytes(&self.slot) }
    }

    /// Whether both are the same item.
    pub fn same_as(&self, other: &Self) -> (r: bool)
        ensures
            r == (self@ == other@),
    {
        bytes_eq(&self.name, &other.name) && bytes_eq(&self.slot, &other.slot)
    }
}

impl Default for Item {
    /// The item read where none is stored: empty name and slot.
    fn default() -> (r: Self)
        ensures
            r@ == (Seq::<u8>::empty(), Seq::<u8>::empty()),
    {
        let r = Item { name: Vec::new(), slot: Vec::new() };
        assert(r.name@ =~= Seq::<u8>::empty());
        assert(r.slot@ =~= Seq::<u8>::empty());
        r
    }
}

impl PartialEq for Item {
    fn eq(&self, other: &Self) -> (r: bool) {
        self.same_as(other)
    }
}

impl vstd::std_specs::cmp::PartialEqSpecImpl for Item {
    open spec fn obeys_eq_spec() -> bool {
        true
    }

    open spec fn eq_spec(&self, other: &Self) -> bool {
        self@ == other@
    }
}

} // verus!
