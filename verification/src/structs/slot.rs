use vstd::prelude::*;
use core::cmp::Ordering;
use crate::structs::attribute_spec::{colon, semicolon, valid_slot};
use crate::utils::byte_spec::{capitalized, key_order, lowercase};
use crate::utils::managed_buffer_utils::ManagedBufferUtils;

verus! {

/// A slot name as a slot accepts it: no separator, lower case, and small
/// enough for the 512-byte scratch buffer.
pub open spec fn valid_slot_name(s: Seq<u8>) -> bool {
    valid_slot(s) && s == lowercase(s)
}

/// Why a slot name is refused.
#[derive(PartialEq, Eq, Structural, Clone, Copy, Debug)]
pub enum SlotError {
    /// The name is longer than the scratch buffer.
    BufferTooBig,
    /// The name holds `:` or `;`.
    UnsupportedCharacters,
    /// The name is not in lower case.
    MustBeLowercase,
}

/// The checks a slot name passes, in the order they are made.
pub open spec fn slot_check(s: Seq<u8>) -> Result<(), SlotError> {
    if s.len() > 512 {
        Err(SlotError::BufferTooBig)
    } else if s.contains(semicolon()) || s.contains(colon()) {
        Err(SlotError::UnsupportedCharacters)
    } else if s != lowercase(s) {
        Err(SlotError::MustBeLowercase)
    } else {
        Ok(())
    }
}

/// A slot of an equippable, such as `hat`.
pub struct Slot {
    slot: Vec<u8>,
}

impl View for Slot {
    type V = Seq<u8>;

    closed spec fn view(&self) -> Seq<u8> {
        self.slot@
    }
}

impl Default for Slot {
    /// The empty slot name.
    fn default() -> (r: Self)
        ensures
            r@ == Seq::<u8>::empty(),
    {
        let r = Slot { slot: Vec::new() };
        assert(r@ =~= Seq::<u8>::empty());
        r
    }
}

impl PartialEq for Slot {
    fn eq(&self, other: &Self) -> (r: bool) {
        crate::utils::managed_buffer_utils::bytes_eq(&self.slot, &other.slot)
    }
}

impl vstd::std_specs::cmp::PartialEqSpecImpl for Slot {
    open spec fn obeys_eq_spec() -> bool {
        true
    }

    open spec fn eq_spec(&self, other: &Self) -> bool {
        self@ == other@
    }
}

/// Checks a slot name: refused when too long, holding `:` or `;`, or not in
/// lower case.
pub fn check_slot_name(slot: &Vec<u8>) -> (r: Result<(), SlotError>)
    ensures
        r == slot_check(slot@),
        r is Ok <==> valid_slot_name(slot@),
{
    if slot.len() > 512 {
        return Err(SlotError::BufferTooBig);
    }
    if slot.contains_char(59u8) || slot.contains_char(58u8) {
        return Err(SlotError::UnsupportedCharacters);
    }
    if !slot.is_lowercase() {
        return Err(SlotError::MustBeLowercase);
    }
    Ok(())
}

impl Slot {
    /// The invariant of a slot: a valid slot name.
    pub open spec fn wf(&self) -> bool {
        valid_slot_name(self@)
    }

    /// A slot from its name, which must pass the checks.
    pub fn new_from_buffer(slot: Vec<u8>) -> (r: Self)
        requires
            valid_slot_name(slot@),
        ensures
            r@ == slot@,
            r.wf(),
    {
        Slot { slot: slot.to_lowercase() }
    }

    /// A slot from the bytes of its name, which must pass the checks.
    pub fn new_from_bytes(bytes: &[u8]) -> (r: Self)
        requires
            valid_slot_name(bytes@),
        ensures
            r@ == bytes@,
            r.wf(),
    {
        let mut v: Vec<u8> = Vec::new();
        let mut i: usize = 0;
        while i < bytes.len()
            invariant
                i <= bytes@.len(),
                v@ =~= bytes@.take(i as int),
            decreases bytes.len() - i,
        {
            v.push(bytes[i]);
            i += 1;
        }
        assert(bytes@.take(bytes@.len() as int) =~= bytes@);
        Self::new_from_buffer(v)
    }

    /// Alphabetical order of the two slot names.
    pub fn compare(&self, other: &Self) -> (r: Ordering)
        requires
            self.wf(),
            other.wf(),
        ensures
            (r == Ordering::Less) == (key_order(self@, other@) < 0),
            (r == Ordering::Equal) == (key_order(self@, other@) == 0),
            (r == Ordering::Greater) == (key_order(self@, other@) > 0),
    {
        self.slot.compare(&other.slot)
    }

    /// The bytes of the slot name, borrowed.
    pub fn as_bytes(&self) -> (r: &Vec<u8>)
        ensures
            r@ == self@,
    {
        &self.slot
    }

    /// The slot name.
    pub fn get(&self) -> (r: Vec<u8>)
        ensures
            r@ == self@,
    {
        crate::structs::equippable_attributes::copy_bytes(&self.slot)
    }

    /// A copy of the slot.
    pub fn copy(&self) -> (r: Self)
        ensures
            r@ == self@,
    {
        Slot { slot: crate::structs::equippable_attributes::copy_bytes(&self.slot) }
    }

    /// The slot name with its first letter upper-cased, as it is shown.
    pub fn capitalized(&self) -> (r: Vec<u8>)
        requires
            self.wf(),
            self@.len() >= 1,
        ensures
            r@ == capitalized(self@),
    {
        crate::utils::ManagedBufferUtils::capitalize(&self.slot)
    }

    /// The encoded slot: its name in lower case.
    pub fn top_encode(&self) -> (r: Vec<u8>)
        requires
            self.wf(),
        ensures
            r@ == lowercase(self@),
            r@ == self@,
    {
        self.slot.to_lowercase()
    }

    /// A slot read from its encoding; refused as `new_from_buffer` refuses.
    pub fn top_decode(input: &Vec<u8>) -> (r: Result<Self, SlotError>)
        ensures
            match r {
                Ok(s) => slot_check(input@) is Ok && s@ == input@ && s.wf(),
                Err(e) => slot_check(input@) == Err::<(), SlotError>(e),
            },
    {
        match check_slot_name(input) {
            Ok(()) => Ok(Self::new_from_buffer(crate::structs::equippable_attributes::copy_bytes(input))),
            Err(e) => Err(e),
        }
    }
}

} // verus!
