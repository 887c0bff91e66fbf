use vstd::prelude::*;
use crate::penguin::item::{opt_item_view, Item, PenguinItemV};
use crate::penguin::item_slot::{slot_values, ItemSlot};

verus! {

/// Why a slot of a penguin cannot be set.
#[derive(PartialEq, Eq, Structural, Clone, Copy, Debug)]
pub enum PenguinAttributeError {
    /// The slot already holds an item; it must be emptied first.
    SlotNotEmpty,
}

/// The items a penguin wears, one optional item per slot.
pub struct PenguinAttributes {
    pub hat: Option<Item>,
    pub background: Option<Item>,
    pub skin: Option<Item>,
    pub beak: Option<Item>,
    pub weapon: Option<Item>,
    pub clothes: Option<Item>,
    pub eye: Option<Item>,
}

/// The items of a penguin as a plain value: the item on each slot of
/// `slot_values()`, in that order.
pub type PenguinV = Seq<Option<PenguinItemV>>;

/// The position of a slot in `slot_values()`.
pub open spec fn slot_index(slot: ItemSlot) -> int {
    match slot {
        ItemSlot::Hat => 0,
        ItemSlot::Background => 1,
        ItemSlot::Skin => 2,
        ItemSlot::Beak => 3,
        ItemSlot::Weapon => 4,
        ItemSlot::Clothes => 5,
        ItemSlot::Eye => 6,
        ItemSlot::NoSlot => -1,
    }
}

impl View for PenguinAttributes {
    type V = PenguinV;

    open spec fn view(&self) -> PenguinV {
        Seq::new(7, |i: int| self.item_on(slot_values()[i]))
    }
}

/// How many items a penguin wears.
pub open spec fn fill_count(v: PenguinV) -> nat
    decreases v.len(),
{
    if v.len() == 0 {
        0
    } else {
        fill_count(v.drop_last()) + if v.last() is Some { 1nat } else { 0nat }
    }
}

/// Changing one slot changes one entry of the view.
pub proof fn lemma_view_update(a: PenguinAttributes, b: PenguinAttributes, slot: ItemSlot)
    requires
        slot != ItemSlot::NoSlot,
        a.same_except(b, slot),
    ensures
        b@ == a@.update(slot_index(slot), b.item_on(slot)),
        0 <= slot_index(slot) < 7,
        slot_values()[slot_index(slot)] == slot,
        a@[slot_index(slot)] == a.item_on(slot),
{
    assert forall|i: int| 0 <= i < 7 implies #[trigger] b@[i] == a@.update(slot_index(slot), b.item_on(slot))[i] by {
        if i != slot_index(slot) {
            assert(slot_values()[i] != slot);
            assert(b.item_on(slot_values()[i]) == a.item_on(slot_values()[i]));
        }
    }
    assert(b@ =~= a@.update(slot_index(slot), b.item_on(slot)));
}

/// The view reads the item of each slot.
pub proof fn lemma_view_item_on(a: PenguinAttributes, slot: ItemSlot)
    requires
        slot != ItemSlot::NoSlot,
    ensures
        0 <= slot_index(slot) < 7,
        a@[slot_index(slot)] == a.item_on(slot),
        a@.len() == 7,
{
}

/// How many slots among the first `n` of `slot_values()` hold an item.
pub open spec fn filled_among(a: PenguinAttributes, n: nat) -> nat
    decreases n,
{
    if n == 0 {
        0
    } else {
        filled_among(a, (n - 1) as nat) + if a.item_on(slot_values()[n - 1]) is Some { 1nat } else { 0nat }
    }
}

impl PenguinAttributes {
    /// The item on `slot`, as a plain value; no slot holds nothing.
    pub open spec fn item_on(self, slot: ItemSlot) -> Option<PenguinItemV> {
        match slot {
            ItemSlot::Hat => opt_item_view(self.hat),
            ItemSlot::Background => opt_item_view(self.background),
            ItemSlot::Skin => opt_item_view(self.skin),
            ItemSlot::Beak => opt_item_view(self.beak),
            ItemSlot::Weapon => opt_item_view(self.weapon),
            ItemSlot::Clothes => opt_item_view(self.clothes),
            ItemSlot::Eye => opt_item_view(self.eye),
            ItemSlot::NoSlot => None,
        }
    }

    /// Whether `other` holds the same items as `self` on every slot but `slot`.
    pub open spec fn same_except(self, other: PenguinAttributes, slot: ItemSlot) -> bool {
        forall|s: ItemSlot| s != slot ==> #[trigger] other.item_on(s) == self.item_on(s)
    }

    /// No item on any slot.
    pub fn empty() -> (r: Self)
        ensures
            forall|s: ItemSlot| #[trigger] r.item_on(s) is None,
    {
        PenguinAttributes {
            hat: None,
            background: None,
            skin: None,
            beak: None,
            weapon: None,
            clothes: None,
            eye: None,
        }
    }

    /// A penguin wearing the given items; each slot may be given once.
    pub fn new(args: &Vec<(ItemSlot, Item)>) -> (r: Self)
        requires
            forall|i: int| 0 <= i < args@.len() ==> (#[trigger] args@[i]).0 != ItemSlot::NoSlot,
            forall|i: int, j: int| 0 <= i < j < args@.len() ==> args@[i].0 != args@[j].0,
        ensures
            forall|i: int| 0 <= i < args@.len() ==> r.item_on((#[trigger] args@[i]).0) == Some(args@[i].1@),
            forall|s: ItemSlot| (forall|i: int| 0 <= i < args@.len() ==> (#[trigger] args@[i]).0 != s) ==> #[trigger] r.item_on(s) is None,
    {
        let mut attributes = Self::empty();
        let mut k: usize = 0;
        while k < args.len()
            invariant
                k <= args.len(),
                forall|i: int| 0 <= i < args@.len() ==> (#[trigger] args@[i]).0 != ItemSlot::NoSlot,
                forall|i: int, j: int| 0 <= i < j < args@.len() ==> args@[i].0 != args@[j].0,
                forall|i: int| 0 <= i < k ==> attributes.item_on((#[trigger] args@[i]).0) == Some(args@[i].1@),
                forall|s: ItemSlot| (forall|i: int| 0 <= i < k ==> (#[trigger] args@[i]).0 != s) ==> #[trigger] attributes.item_on(s) is None,
            decreases args.len() - k,
        {
            let slot = args[k].0;
            let ghost before = attributes;
            assert(attributes.item_on(slot) is None) by {
                assert forall|i: int| 0 <= i < k implies (#[trigger] args@[i]).0 != slot by {
                    assert(args@[i].0 != args@[k as int].0);
                }
            }
            let result = attributes.set_item(&slot, Some(args[k].1.copy()));
            assert(result is Ok);
            assert forall|s: ItemSlot| (forall|i: int| 0 <= i < k + 1 ==> (#[trigger] args@[i]).0 != s) implies #[trigger] attributes.item_on(s) is None by {
                assert(args@[k as int].0 != s);
                assert(before.item_on(s) is None);
            }
            assert forall|i: int| 0 <= i < k + 1 implies attributes.item_on((#[trigger] args@[i]).0) == Some(args@[i].1@) by {
                if i < k {
                    assert(args@[i].0 != args@[k as int].0);
                }
            }
            k += 1;
        }
        attributes
    }

    /// Sets `slot`, which must hold no item yet.
    pub fn set_item(&mut self, slot: &ItemSlot, item: Option<Item>) -> (r: Result<(), PenguinAttributeError>)
        requires
            *slot != ItemSlot::NoSlot,
        ensures
            old(self).item_on(*slot) is Some ==> r == Err::<(), PenguinAttributeError>(PenguinAttributeError::SlotNotEmpty)
                && old(self).same_except(*final(self), ItemSlot::NoSlot),
            old(self).item_on(*slot) is None ==> r is Ok && final(self).item_on(*slot) == opt_item_view(item)
                && old(self).same_except(*final(self), *slot),
    {
        if !self.is_slot_empty(slot) {
            return Err(PenguinAttributeError::SlotNotEmpty);
        }
        self.set_item_no_check(slot, item)
    }

    /// How many slots hold an item.
    pub fn get_fill_count(&self) -> (r: usize)
        ensures
            r == filled_among(*self, 7),
            r == fill_count(self@),
    {
        proof {
            lemma_filled_among(*self, 7);
            assert(self@.take(7) =~= self@);
        }
        let values = ItemSlot::values();
        let mut size: usize = 0;
        let mut i: usize = 0;
        while i < values.len()
            invariant
                values@ == slot_values(),
                i <= values.len(),
                size == filled_among(*self, i as nat),
                size <= i,
            decreases values.len() - i,
        {
            if !self.is_slot_empty(&values[i]) {
                size += 1;
            }
            i += 1;
        }
        size
    }

    /// The item on `slot`, if any.
    pub fn get_item(&self, slot: &ItemSlot) -> (r: Option<Item>)
        requires
            *slot != ItemSlot::NoSlot,
        ensures
            opt_item_view(r) == self.item_on(*slot),
    {
        let o = match slot {
            ItemSlot::Hat => &self.hat,
            ItemSlot::Background => &self.background,
            ItemSlot::Skin => &self.skin,
            ItemSlot::Beak => &self.beak,
            ItemSlot::Weapon => &self.weapon,
            ItemSlot::Clothes => &self.clothes,
            ItemSlot::Eye => &self.eye,
            ItemSlot::NoSlot => &self.eye,
        };
        match o {
            Some(i) => Some(i.copy()),
            None => None,
        }
    }

    /// Whether `slot` holds no item.
    pub fn is_slot_empty(&self, slot: &ItemSlot) -> (r: bool)
        requires
            *slot != ItemSlot::NoSlot,
        ensures
            r == (self.item_on(*slot) is None),
    {
        match self.get_item(slot) {
            Some(_) => false,
            None => true,
        }
    }

    /// Takes the item off `slot`.
    pub fn set_empty_slot(&mut self, slot: &ItemSlot) -> (r: Result<(), PenguinAttributeError>)
        requires
            *slot != ItemSlot::NoSlot,
        ensures
            r is Ok,
            final(self).item_on(*slot) is None,
            old(self).same_except(*final(self), *slot),
    {
        self.set_item_no_check(slot, None)
    }

    /// Sets `slot` to `item` whatever it held.
    fn set_item_no_check(&mut self, slot: &ItemSlot, item: Option<Item>) -> (r: Result<(), PenguinAttributeError>)
        requires
            *slot != ItemSlot::NoSlot,
        ensures
            r is Ok,
            final(self).item_on(*slot) == opt_item_view(item),
            old(self).same_except(*final(self), *slot),
    {
        match slot {
            ItemSlot::Hat => self.hat = item,
            ItemSlot::Background => self.background = item,
            ItemSlot::Skin => self.skin = item,
            ItemSlot::Beak => self.beak = item,
            ItemSlot::Weapon => self.weapon = item,
            ItemSlot::Clothes => self.clothes = item,
            ItemSlot::Eye => self.eye = item,
            ItemSlot::NoSlot => {},
        }
        Ok(())
    }
}

proof fn lemma_filled_among(a: PenguinAttributes, n: nat)
    requires
        n <= 7,
    ensures
        filled_among(a, n) == fill_count(a@.take(n as int)),
    decreases n,
{
    if n > 0 {
        lemma_filled_among(a, (n - 1) as nat);
        assert(a@.take(n as int).drop_last() =~= a@.take(n - 1));
        assert(a@.take(n as int).last() == a.item_on(slot_values()[n - 1]));
    }
}

} // verus!
