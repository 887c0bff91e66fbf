use vstd::prelude::*;
use crate::structs::equippable_attributes::copy_bytes;
use crate::utils::byte_spec::last_occurrence;
use crate::utils::digit_spec::hex_text;
use crate::utils::managed_buffer_utils::bytes_eq;
use crate::utils::UtilsU64;

verus! {

/// A penguin item as a plain value: token identifier, nonce and name.
pub type PenguinItemV = (Seq<u8>, u64, Seq<u8>);

/// An item worn by a penguin: its token, its nonce and its name.
pub struct Item {
    pub token: Vec<u8>,
    pub nonce: u64,
    pub name: Vec<u8>,
}

impl View for Item {
    type V = PenguinItemV;

    open spec fn view(&self) -> PenguinItemV {
        (self.token@, self.nonce, self.name@)
    }
}

pub open spec fn opt_item_view(o: Option<Item>) -> Option<PenguinItemV> {
    match o {
        Some(i) => Some(i@),
        None => None,
    }
}

impl Item {
    /// A copy of the item.
    pub fn copy(&self) -> (r: Self)
        ensures
            r@ == self@,
    {
        Item { token: copy_bytes(&self.token), nonce: self.nonce, name: copy_bytes(&self.name) }
    }

    /// Whether both are the same item.
    pub fn same_as(&self, other: &Self) -> (r: bool)
        ensures
            r == (self@ == other@),
    {
        self.nonce == other.nonce && bytes_eq(&self.token, &other.token) && bytes_eq(&self.name, &other.name)
    }

    /// Splits `bytes` at the last `char` before the final byte: what comes
    /// before it, and the rest starting with that `char`.
    pub fn split_last_occurence(bytes: &[u8], char: u8) -> (r: (Vec<u8>, Vec<u8>))
        requires
            bytes@.len() >= 1,
            last_occurrence(bytes@, char, bytes@.len() - 1) >= 0,
        ensures
            r.0@ == bytes@.take(last_occurrence(bytes@, char, bytes@.len() - 1)),
            r.1@ == bytes@.skip(last_occurrence(bytes@, char, bytes@.len() - 1)),
    {
        let n = bytes.len();
        let mut i = n - 1;
        while i > 0
            invariant
                i < n,
                n == bytes@.len(),
                last_occurrence(bytes@, char, n - 1) == last_occurrence(bytes@, char, i as int),
                last_occurrence(bytes@, char, i as int) >= 0,
            decreases i,
        {
            if bytes[i - 1] == char {
                let k = i - 1;
                let mut first: Vec<u8> = Vec::new();
                let mut j: usize = 0;
                while j < k
                    invariant
                        j <= k,
                        k < bytes@.len(),
                        first@ =~= bytes@.take(j as int),
                    decreases k - j,
                {
                    first.push(bytes[j]);
                    j += 1;
                }
                let mut second: Vec<u8> = Vec::new();
                let mut m: usize = k;
                while m < n
                    invariant
                        k <= m <= n,
                        n == bytes@.len(),
                        second@ =~= bytes@.subrange(k as int, m as int),
                    decreases n - m,
                {
                    second.push(bytes[m]);
                    m += 1;
                }
                assert(second@ =~= bytes@.skip(k as int));
                return (first, second);
            }
            i -= 1;
        }
        (Vec::new(), Vec::new())
    }

    /// Lower-case hexadecimal digits of `val`, with a leading `0` when their
    /// number is odd.
    pub fn u64_to_hex(val: &u64) -> (r: Vec<u8>)
        ensures
            r@ == hex_text(*val as nat),
    {
        val.to_hex()
    }
}

} // verus!
