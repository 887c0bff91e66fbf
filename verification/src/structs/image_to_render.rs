use vstd::prelude::*;
use crate::structs::attribute_spec::Attr;
use crate::structs::equippable_attributes::{copy_bytes, EquippableAttributes};
use crate::utils::managed_buffer_utils::bytes_eq;

verus! {

/// An image to render as a plain value: the attributes and the name.
pub type ImageV = (Seq<Attr>, Seq<u8>);

/// The picture of an equippable to render: its attributes and its name.
pub struct ImageToRender {
    pub attributes: EquippableAttributes,
    pub name: Vec<u8>,
}

impl View for ImageToRender {
    type V = ImageV;

    open spec fn view(&self) -> ImageV {
        (self.attributes@, self.name@)
    }
}

impl ImageToRender {
    /// The attributes and the name, as a pair.
    pub fn to_multi_value_encoded(&self) -> (r: (EquippableAttributes, Vec<u8>))
        ensures
            r.0@ == self.attributes@,
            r.1@ == self.name@,
    {
        (self.attributes.copy(), copy_bytes(&self.name))
    }

    /// A copy of the image.
    pub fn copy(&self) -> (r: Self)
        ensures
            r@ == self@,
    {
        ImageToRender { attributes: self.attributes.copy(), name: copy_bytes(&self.name) }
    }

    /// Whether both stand for the same stored image: the same attributes in
    /// the same order, and the same name.
    pub fn same_as(&self, other: &Self) -> (r: bool)
        ensures
            r == (self@ == other@),
    {
        self.attributes.same_as(&other.attributes) && bytes_eq(&self.name, &other.name)
    }
}

impl PartialEq for ImageToRender {
    /// Equal attributes (in any order) and equal names.
    fn eq(&self, other: &Self) -> (r: bool) {
        self.attributes == other.attributes && bytes_eq(&self.name, &other.name)
    }
}

impl vstd::std_specs::cmp::PartialEqSpecImpl for ImageToRender {
    open spec fn obeys_eq_spec() -> bool {
        true
    }

    open spec fn eq_spec(&self, other: &Self) -> bool {
        self.attributes@.to_multiset() == other.attributes@.to_multiset() && self.name@ == other.name@
    }
}

} // verus!
