use vstd::prelude::*;
use crate::utils::byte_spec::capitalized;

verus! {

/// The fixed slots of a penguin; `NoSlot` stands for no slot.
#[derive(PartialEq, Eq, Structural, Clone, Copy, Debug)]
pub enum ItemSlot {
    NoSlot,
    Hat,
    Background,
    Skin,
    Beak,
    Weapon,
    Clothes,
    Eye,
}

/// The slots an item can go on, in the order the penguin's picture lists them.
pub open spec fn slot_values() -> Seq<ItemSlot> {
    seq![
        ItemSlot::Hat,
        ItemSlot::Background,
        ItemSlot::Skin,
        ItemSlot::Beak,
        ItemSlot::Weapon,
        ItemSlot::Clothes,
        ItemSlot::Eye,
    ]
}

impl ItemSlot {
    /// The name of the slot in lower case.
    pub open spec fn bytes_of(self) -> Seq<u8> {
        match self {
            ItemSlot::Hat => seq![104u8, 97u8, 116u8],
            ItemSlot::Background => seq![98u8, 97u8, 99u8, 107u8, 103u8, 114u8, 111u8, 117u8, 110u8, 100u8],
            ItemSlot::Skin => seq![115u8, 107u8, 105u8, 110u8],
            ItemSlot::Beak => seq![98u8, 101u8, 97u8, 107u8],
            ItemSlot::Weapon => seq![119u8, 101u8, 97u8, 112u8, 111u8, 110u8],
            ItemSlot::Clothes => seq![99u8, 108u8, 111u8, 116u8, 104u8, 101u8, 115u8],
            ItemSlot::Eye => seq![101u8, 121u8, 101u8, 115u8],
            ItemSlot::NoSlot => seq![110u8, 111u8, 110u8, 101u8],
        }
    }

    /// The name of the slot with its first letter upper-cased.
    pub open spec fn title_bytes_of(self) -> Seq<u8> {
        seq![(self.bytes_of()[0] - 32) as u8] + self.bytes_of().skip(1)
    }

    /// The slots an item can go on, in order.
    pub fn values() -> (r: Vec<ItemSlot>)
        ensures
            r@ == slot_values(),
    {
        let r = vec![
            ItemSlot::Hat,
            ItemSlot::Background,
            ItemSlot::Skin,
            ItemSlot::Beak,
            ItemSlot::Weapon,
            ItemSlot::Clothes,
            ItemSlot::Eye,
        ];
        assert(r@ =~= slot_values());
        r
    }

    /// The name of the slot in lower case (`eyes` for the eye slot).
    pub fn to_bytes(&self) -> (r: Vec<u8>)
        ensures
            r@ == self.bytes_of(),
    {
        let r = match self {
            ItemSlot::Hat => vec![104u8, 97u8, 116u8],
            ItemSlot::Background => vec![98u8, 97u8, 99u8, 107u8, 103u8, 114u8, 111u8, 117u8, 110u8, 100u8],
            ItemSlot::Skin => vec![115u8, 107u8, 105u8, 110u8],
            ItemSlot::Beak => vec![98u8, 101u8, 97u8, 107u8],
            ItemSlot::Weapon => vec![119u8, 101u8, 97u8, 112u8, 111u8, 110u8],
            ItemSlot::Clothes => vec![99u8, 108u8, 111u8, 116u8, 104u8, 101u8, 115u8],
            ItemSlot::Eye => vec![101u8, 121u8, 101u8, 115u8],
            ItemSlot::NoSlot => vec![110u8, 111u8, 110u8, 101u8],
        };
        assert(r@ =~= self.bytes_of());
        r
    }

    /// The name of the slot with its first letter upper-cased.
    pub fn to_title_bytes(&self) -> (r: Vec<u8>)
        ensures
            r@ == self.title_bytes_of(),
    {
        let r = match self {
            ItemSlot::Hat => vec![72u8, 97u8, 116u8],
            ItemSlot::Background => vec![66u8, 97u8, 99u8, 107u8, 103u8, 114u8, 111u8, 117u8, 110u8, 100u8],
            ItemSlot::Skin => vec![83u8, 107u8, 105u8, 110u8],
            ItemSlot::Beak => vec![66u8, 101u8, 97u8, 107u8],
            ItemSlot::Weapon => vec![87u8, 101u8, 97u8, 112u8, 111u8, 110u8],
            ItemSlot::Clothes => vec![67u8, 108u8, 111u8, 116u8, 104u8, 101u8, 115u8],
            ItemSlot::Eye => vec![69u8, 121u8, 101u8, 115u8],
            ItemSlot::NoSlot => vec![78u8, 111u8, 110u8, 101u8],
        };
        assert(r@ =~= self.title_bytes_of());
        r
    }
}

/// Law: the title of a slot is its name with the first letter upper-cased.
pub proof fn law_title_is_capitalized_name(slot: ItemSlot)
    ensures
        slot.title_bytes_of() == capitalized(slot.bytes_of()),
{
    assert(slot.title_bytes_of() =~= capitalized(slot.bytes_of()));
}

/// The bytes of an ASCII text.
pub open spec fn ascii_bytes(s: Seq<char>) -> Seq<u8> {
    Seq::new(s.len(), |i: int| s[i] as u8)
}

/// Law: each slot is named by its own word, as the picture's URL spells it:
/// `hat`, `background`, `skin`, `beak`, `weapon`, `clothes`, `eyes` (and
/// `none` for no slot); its title is the same word capitalized.
pub proof fn law_slot_names()
    ensures
        ItemSlot::Hat.bytes_of() == ascii_bytes("hat"@),
        ItemSlot::Background.bytes_of() == ascii_bytes("background"@),
        ItemSlot::Skin.bytes_of() == ascii_bytes("skin"@),
        ItemSlot::Beak.bytes_of() == ascii_bytes("beak"@),
        ItemSlot::Weapon.bytes_of() == ascii_bytes("weapon"@),
        ItemSlot::Clothes.bytes_of() == ascii_bytes("clothes"@),
        ItemSlot::Eye.bytes_of() == ascii_bytes("eyes"@),
        ItemSlot::NoSlot.bytes_of() == ascii_bytes("none"@),
        ItemSlot::Weapon.title_bytes_of() == ascii_bytes("Weapon"@),
        ItemSlot::Clothes.title_bytes_of() == ascii_bytes("Clothes"@),
{
    reveal_strlit("hat");
    reveal_strlit("background");
    reveal_strlit("skin");
    reveal_strlit("beak");
    reveal_strlit("weapon");
    reveal_strlit("clothes");
    reveal_strlit("eyes");
    reveal_strlit("none");
    reveal_strlit("Weapon");
    reveal_strlit("Clothes");
    assert(ItemSlot::Hat.bytes_of() =~= ascii_bytes("hat"@));
    assert(ItemSlot::Background.bytes_of() =~= ascii_bytes("background"@));
    assert(ItemSlot::Skin.bytes_of() =~= ascii_bytes("skin"@));
    assert(ItemSlot::Beak.bytes_of() =~= ascii_bytes("beak"@));
    assert(ItemSlot::Weapon.bytes_of() =~= ascii_bytes("weapon"@));
    assert(ItemSlot::Clothes.bytes_of() =~= ascii_bytes("clothes"@));
    assert(ItemSlot::Eye.bytes_of() =~= ascii_bytes("eyes"@));
    assert(ItemSlot::NoSlot.bytes_of() =~= ascii_bytes("none"@));
    assert(ItemSlot::Weapon.title_bytes_of() =~= ascii_bytes("Weapon"@));
    assert(ItemSlot::Clothes.title_bytes_of() =~= ascii_bytes("Clothes"@));
}

/// Law: different slots have different names, each a non-empty word of
/// lower-case letters, so the part of a picture's URL for an item names the
/// item's own slot.
pub proof fn law_slot_names_distinct(a: ItemSlot, b: ItemSlot)
    ensures
        a != b ==> a.bytes_of() != b.bytes_of(),
        a.bytes_of().len() >= 3,
        forall|i: int| 0 <= i < a.bytes_of().len() ==> 97 <= #[trigger] a.bytes_of()[i] <= 122,
{
    if a != b && a.bytes_of() == b.bytes_of() {
        assert(a.bytes_of().len() == b.bytes_of().len());
        assert(a.bytes_of()[0] == b.bytes_of()[0]);
        assert(a.bytes_of()[1] == b.bytes_of()[1]);
        assert(a.bytes_of()[2] == b.bytes_of()[2]);
    }
}

} // verus!