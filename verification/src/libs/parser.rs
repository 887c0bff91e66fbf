use vstd::prelude::*;
use crate::equip::Equip;
use crate::structs::attribute_spec::{Attr, DecodeError};
use crate::structs::equippable_nft_attributes::{decode_nft_attrs, EquippableNftAttributes};

verus! {

/// Reading the attributes of an equippable NFT from the bytes stored on it.
pub trait ParserModule {
    fn parse_equippable_attributes(&self, raw_attributes: &Vec<u8>) -> (r: Result<EquippableNftAttributes, DecodeError>)
        ensures
            match r {
                Ok(a) => decode_nft_attrs(raw_attributes@) == Ok::<Seq<Attr>, DecodeError>(a@) && a.wf(),
                Err(e) => decode_nft_attrs(raw_attributes@) == Err::<Seq<Attr>, DecodeError>(e),
            },
    ;
}

impl ParserModule for Equip {
    fn parse_equippable_attributes(&self, raw_attributes: &Vec<u8>) -> (r: Result<EquippableNftAttributes, DecodeError>) {
        EquippableNftAttributes::top_decode(raw_attributes)
    }
}

} // verus!
