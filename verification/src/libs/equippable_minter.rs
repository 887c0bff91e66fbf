use vstd::prelude::*;
use crate::utils::byte_spec::{pad, replace_all, replace_scan};
use crate::utils::digit_spec::ascii_text;
use crate::utils::{ManagedBufferUtils, UtilsU64};

verus! {

/// The placeholder of a name format that the number replaces: `{number}`.
pub open spec fn number_placeholder() -> Seq<u8> {
    seq![123u8, 110u8, 117u8, 109u8, 98u8, 101u8, 114u8, 125u8]
}

/// Whether the name of the equippable after `current_nonce` can be made
/// from `name_format`: the next nonce exists and the replacement of the
/// placeholder stays within the 512-byte scratch buffer.
pub open spec fn next_name_defined(current_nonce: u64, name_format: Seq<u8>) -> bool {
    &&& current_nonce < u64::MAX
    &&& name_format.len() <= 512
    &&& replace_scan(pad(name_format, 512), name_format.len() as int, number_placeholder(), ascii_text((current_nonce + 1) as nat), 0) is Some
}

/// The name of the next equippable: every `{number}` of the format replaced
/// by the decimal number that follows the current nonce.
pub fn get_next_equippable_name(current_nonce: u64, name_format: &Vec<u8>) -> (r: Vec<u8>)
    requires
        next_name_defined(current_nonce, name_format@),
    ensures
        r@ == replace_scan(pad(name_format@, 512), name_format@.len() as int, number_placeholder(), ascii_text((current_nonce + 1) as nat), 0)->Some_0,
        name_format@.len() + 8 <= 512 ==> r@ == replace_all(name_format@, number_placeholder(), ascii_text((current_nonce + 1) as nat)),
{
    proof {
        assert(!number_placeholder().contains(0u8)) by {
            if number_placeholder().contains(0u8) {
                let k = choose|k: int| 0 <= k < 8 && number_placeholder()[k] == 0u8;
            }
        }
        if name_format@.len() + 8 <= 512 {
            crate::utils::byte_spec::lemma_replace_scan_all(name_format@, number_placeholder(), ascii_text((current_nonce + 1) as nat), 0);
            assert(name_format@.skip(0) =~= name_format@);
        }
    }
    let index = current_nonce + 1;
    let token_index = index.to_ascii();
    let placeholder: [u8; 8] = [123u8, 110u8, 117u8, 109u8, 98u8, 101u8, 114u8, 125u8];
    assert(placeholder@ =~= number_placeholder());
    name_format.replace(&placeholder, &token_index)
}

/// The hash given to a minted equippable: none, left empty.
pub fn calculate_hash() -> (r: Vec<u8>)
    ensures
        r@ == Seq::<u8>::empty(),
{
    let r: Vec<u8> = Vec::new();
    assert(r@ =~= Seq::<u8>::empty());
    r
}

} // verus!
