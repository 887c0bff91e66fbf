use vstd::prelude::*;
use crate::structs::equippable_attributes::copy_bytes;
use crate::structs::item::{Item, ItemV};
use crate::utils::managed_buffer_utils::bytes_eq;

verus! {

/// The items of a penguin keyed by slot name, as a plain value: each slot
/// with the item on it, in the order the slots were first filled.
pub type SlotItemsV = Seq<(Seq<u8>, ItemV)>;

/// The first position of `slot`, or -1.
pub open spec fn slot_pos(s: SlotItemsV, slot: Seq<u8>) -> int
    decreases s.len(),
{
    if s.len() == 0 {
        -1
    } else {
        let p = slot_pos(s.drop_last(), slot);
        if p >= 0 {
            p
        } else if s.last().0 == slot {
            s.len() - 1
        } else {
            -1
        }
    }
}

/// The item on `slot`, if any.
pub open spec fn item_at(s: SlotItemsV, slot: Seq<u8>) -> Option<ItemV> {
    if slot_pos(s, slot) >= 0 {
        Some(s[slot_pos(s, slot)].1)
    } else {
        None
    }
}

/// Setting `slot` whatever it held: replaced in place, removed for `None`,
/// appended when new.
pub open spec fn set_no_check(s: SlotItemsV, slot: Seq<u8>, item: Option<ItemV>) -> SlotItemsV {
    let p = slot_pos(s, slot);
    if p >= 0 {
        match item {
            Some(i) => s.update(p, (slot, i)),
            None => s.remove(p),
        }
    } else {
        match item {
            Some(i) => s.push((slot, i)),
            None => s,
        }
    }
}

/// The plain value of an optional item.
pub open spec fn opt_item_view(o: Option<Item>) -> Option<ItemV> {
    match o {
        Some(i) => Some(i@),
        None => None,
    }
}

/// Each slot at most once.
pub open spec fn slot_items_wf(s: SlotItemsV) -> bool {
    forall|i: int, j: int| 0 <= i < j < s.len() ==> s[i].0 != s[j].0
}

pub proof fn lemma_slot_pos(s: SlotItemsV, slot: Seq<u8>)
    ensures
        -1 <= slot_pos(s, slot) < s.len(),
        slot_pos(s, slot) >= 0 ==> s[slot_pos(s, slot)].0 == slot,
        forall|j: int| 0 <= j < s.len() && (slot_pos(s, slot) < 0 || j < slot_pos(s, slot)) ==> s[j].0 != slot,
    decreases s.len(),
{
    if s.len() > 0 {
        let t = s.drop_last();
        lemma_slot_pos(t, slot);
        assert forall|j: int| 0 <= j < s.len() && (slot_pos(s, slot) < 0 || j < slot_pos(s, slot)) implies s[j].0 != slot by {
            if j < s.len() - 1 {
                assert(s[j] == t[j]);
            }
        }
    }
}

/// What setting `slot` to `item` does, as read back: the slot holds `item`
/// (none after emptying it), every other slot holds what it held, and the
/// count of filled slots grows by one for an item on a new slot, drops by
/// one when an occupied slot is emptied, and stays otherwise.
pub open spec fn sets_slot(before: SlotItemsV, after: SlotItemsV, slot: Seq<u8>, item: Option<ItemV>) -> bool {
    &&& slot_items_wf(after)
    &&& item_at(after, slot) == item
    &&& forall|other: Seq<u8>| other != slot ==> #[trigger] item_at(after, other) == item_at(before, other)
    &&& after.len() == (match item {
        Some(_) => if item_at(before, slot) is Some { before.len() } else { before.len() + 1 },
        None => if item_at(before, slot) is Some { (before.len() - 1) as nat } else { before.len() },
    })
}

proof fn lemma_sets_slot(s: SlotItemsV, slot: Seq<u8>, item: Option<ItemV>)
    requires
        slot_items_wf(s),
    ensures
        sets_slot(s, set_no_check(s, slot, item), slot, item),
{
    law_slot_items_set_then_get(s, slot, item, slot);
    assert forall|other: Seq<u8>| other != slot implies #[trigger] item_at(set_no_check(s, slot, item), other) == item_at(s, other) by {
        law_slot_items_set_then_get(s, slot, item, other);
    }
}

/// Law: setting a slot, whether it is occupied or not, keeps each slot
/// once, gives that slot its new item (none after emptying it) and leaves the
/// other slots as they were; the count of filled slots grows by one for an
/// item on a new slot, drops by one when an occupied slot is emptied, and
/// stays otherwise.
pub proof fn law_slot_items_set_then_get(s: SlotItemsV, slot: Seq<u8>, item: Option<ItemV>, other: Seq<u8>)
    requires
        slot_items_wf(s),
    ensures
        slot_items_wf(set_no_check(s, slot, item)),
        set_no_check(s, slot, item).len() == (match item {
            Some(_) => if item_at(s, slot) is Some { s.len() } else { s.len() + 1 },
            None => if item_at(s, slot) is Some { (s.len() - 1) as nat } else { s.len() },
        }),
        item_at(set_no_check(s, slot, item), slot) == item,
        other != slot ==> item_at(set_no_check(s, slot, item), other) == item_at(s, other),
{
    lemma_slot_pos(s, slot);
    lemma_slot_pos(s, other);
    let r = set_no_check(s, slot, item);
    let p = slot_pos(s, slot);
    assert forall|i: int, j: int| 0 <= i < j < r.len() implies r[i].0 != r[j].0 by {
        if p >= 0 && item is None {
            let i2 = if i < p { i } else { i + 1 };
            let j2 = if j < p { j } else { j + 1 };
            assert(r[i] == s[i2] && r[j] == s[j2]);
        } else if p >= 0 {
            if i == p {
                assert(r[j] == s[j]);
            } else if j == p {
                assert(r[i] == s[i]);
            } else {
                assert(r[i] == s[i] && r[j] == s[j]);
            }
        } else if item is Some && j == s.len() {
            assert(r[i] == s[i]);
        } else {
            assert(r[i] == s[i] && r[j] == s[j]);
        }
    }
    lemma_slot_pos(r, slot);
    lemma_slot_pos(r, other);
    let q = slot_pos(r, slot);
    if item is Some {
        let k = if p >= 0 { p } else { s.len() as int };
        assert(r[k].0 == slot);
        if q != k {
            if q >= 0 && q < k {
                assert(r[q] == s[q]);
            }
        }
    } else {
        if q >= 0 {
            if p >= 0 {
                let q2 = if q < p { q } else { q + 1 };
                assert(r[q] == s[q2]);
            } else {
                assert(r[q] == s[q]);
            }
        }
    }
    if other != slot {
        let po = slot_pos(s, other);
        let qo = slot_pos(r, other);
        if po >= 0 {
            let k2 = if p >= 0 && item is None && po > p { po - 1 } else { po };
            assert(r[k2] == s[po]);
            if qo != k2 {
                if qo >= 0 && qo < k2 {
                    let q2 = if p >= 0 && item is None && qo >= p { qo + 1 } else { qo };
                    assert(r[qo] == s[q2] || r[qo].0 == slot);
                }
            }
        } else {
            if qo >= 0 {
                if p >= 0 && item is None {
                    let q2 = if qo < p { qo } else { qo + 1 };
                    assert(r[qo] == s[q2]);
                } else if p >= 0 && qo == p {
                    assert(r[qo].0 == slot);
                } else if p < 0 && item is Some && qo == s.len() {
                    assert(r[qo].0 == slot);
                } else {
                    assert(r[qo] == s[qo]);
                }
            }
        }
    }
}

/// The items of a penguin keyed by the name of their slot.
pub struct PenguinAttributes {
    slots: Vec<Vec<u8>>,
    items: Vec<Item>,
}

impl View for PenguinAttributes {
    type V = SlotItemsV;

    closed spec fn view(&self) -> SlotItemsV {
        Seq::new(self.slots@.len(), |i: int| (self.slots@[i]@, self.items@[i]@))
    }
}

impl PenguinAttributes {
    /// The invariant: one item per slot name, each slot once.
    pub closed spec fn wf(&self) -> bool {
        &&& self.slots@.len() == self.items@.len()
        &&& slot_items_wf(self@)
    }

    /// No item on any slot.
    pub fn empty() -> (r: Self)
        ensures
            r@ == Seq::<(Seq<u8>, ItemV)>::empty(),
            r.wf(),
    {
        let r = PenguinAttributes { slots: Vec::new(), items: Vec::new() };
        assert(r@ =~= Seq::<(Seq<u8>, ItemV)>::empty());
        r
    }

    /// A penguin wearing the given items; each slot may be given once.
    pub fn new(items_by_slot: &Vec<(Vec<u8>, Item)>) -> (r: Self)
        requires
            forall|i: int, j: int| 0 <= i < j < items_by_slot@.len() ==> items_by_slot@[i].0@ != items_by_slot@[j].0@,
        ensures
            r.wf(),
            forall|i: int| 0 <= i < items_by_slot@.len() ==> item_at(r@, (#[trigger] items_by_slot@[i]).0@) == Some(items_by_slot@[i].1@),
            r@.len() == items_by_slot@.len(),
    {
        let mut attributes = Self::empty();
        let mut k: usize = 0;
        while k < items_by_slot.len()
            invariant
                k <= items_by_slot.len(),
                attributes.wf(),
                attributes@.len() == k,
                forall|i: int, j: int| 0 <= i < j < items_by_slot@.len() ==> items_by_slot@[i].0@ != items_by_slot@[j].0@,
                forall|i: int| 0 <= i < k ==> item_at(attributes@, (#[trigger] items_by_slot@[i]).0@) == Some(items_by_slot@[i].1@),
                forall|s: Seq<u8>| (forall|i: int| 0 <= i < k ==> (#[trigger] items_by_slot@[i]).0@ != s) ==> #[trigger] item_at(attributes@, s) is None,
            decreases items_by_slot.len() - k,
        {
            let ghost before = attributes@;
            let slot = &items_by_slot[k].0;
            assert(item_at(before, slot@) is None) by {
                assert forall|i: int| 0 <= i < k implies (#[trigger] items_by_slot@[i]).0@ != slot@ by {
                    assert(items_by_slot@[i].0@ != items_by_slot@[k as int].0@);
                }
            }
            proof {
                lemma_slot_pos(before, slot@);
            }
            attributes.set_item(slot, Some(items_by_slot[k].1.copy()));
            proof {
                assert forall|i: int| 0 <= i < k + 1 implies item_at(attributes@, (#[trigger] items_by_slot@[i]).0@) == Some(items_by_slot@[i].1@) by {
                    if i < k {
                        assert(items_by_slot@[i].0@ != items_by_slot@[k as int].0@);
                        law_slot_items_set_then_get(before, slot@, Some(items_by_slot@[k as int].1@), items_by_slot@[i].0@);
                    } else {
                        law_slot_items_set_then_get(before, slot@, Some(items_by_slot@[k as int].1@), slot@);
                    }
                }
                assert forall|s: Seq<u8>| (forall|i: int| 0 <= i < k + 1 ==> (#[trigger] items_by_slot@[i]).0@ != s) implies #[trigger] item_at(attributes@, s) is None by {
                    assert(items_by_slot@[k as int].0@ != s);
                    law_slot_items_set_then_get(before, slot@, Some(items_by_slot@[k as int].1@), s);
                }
            }
            k += 1;
        }
        attributes
    }

    fn get_index(&self, slot: &Vec<u8>) -> (r: Option<usize>)
        requires
            self.wf(),
        ensures
            match r {
                Some(i) => slot_pos(self@, slot@) == i && i < self@.len(),
                None => slot_pos(self@, slot@) < 0,
            },
    {
        let ghost s = self@;
        let mut i: usize = 0;
        while i < self.slots.len()
            invariant
                s == self@,
                self.wf(),
                i <= self.slots.len(),
                forall|j: int| 0 <= j < i ==> s[j].0 != slot@,
            decreases self.slots.len() - i,
        {
            assert(s[i as int].0 == self.slots@[i as int]@);
            if bytes_eq(&self.slots[i], slot) {
                proof {
                    lemma_slot_pos(s, slot@);
                    let p = slot_pos(s, slot@);
                    if p < 0 || p > i {
                        assert(s[i as int].0 != slot@);
                    } else if p < i {
                        assert(s[p].0 != slot@);
                    }
                }
                return Some(i);
            }
            i += 1;
        }
        proof {
            lemma_slot_pos(s, slot@);
        }
        None
    }

    /// The item on `slot`, if any.
    pub fn get_item(&self, slot: &Vec<u8>) -> (r: Option<Item>)
        requires
            self.wf(),
        ensures
            match r {
                Some(item) => item_at(self@, slot@) == Some(item@),
                None => item_at(self@, slot@) is None,
            },
    {
        match self.get_index(slot) {
            Some(index) => {
                assert(self@[index as int].1 == self.items@[index as int]@);
                Some(self.items[index].copy())
            },
            None => None,
        }
    }

    /// Sets `slot`, which must hold no item yet.
    pub fn set_item(&mut self, slot: &Vec<u8>, item: Option<Item>)
        requires
            old(self).wf(),
            item_at(old(self)@, slot@) is None,
        ensures
            final(self).wf(),
            final(self)@ == set_no_check(old(self)@, slot@, opt_item_view(item)),
            sets_slot(old(self)@, final(self)@, slot@, opt_item_view(item)),
    {
        self.set_item_no_check(slot, item)
    }

    /// How many slots hold an item.
    pub fn get_count(&self) -> (r: usize)
        requires
            self.wf(),
        ensures
            r == self@.len(),
    {
        self.items.len()
    }

    /// Whether `slot` holds no item.
    pub fn is_slot_empty(&self, slot: &Vec<u8>) -> (r: bool)
        requires
            self.wf(),
        ensures
            r == (item_at(self@, slot@) is None),
    {
        match self.get_item(slot) {
            Some(_) => false,
            None => true,
        }
    }

    /// Takes the item off `slot`; the slot disappears.
    pub fn empty_slot(&mut self, slot: &Vec<u8>)
        requires
            old(self).wf(),
        ensures
            final(self).wf(),
            final(self)@ == set_no_check(old(self)@, slot@, None),
            sets_slot(old(self)@, final(self)@, slot@, None),
    {
        self.set_item_no_check(slot, None)
    }

    /// Sets `slot` to `item` whatever it held.
    fn set_item_no_check(&mut self, slot: &Vec<u8>, item: Option<Item>)
        requires
            old(self).wf(),
        ensures
            final(self).wf(),
            final(self)@ == set_no_check(old(self)@, slot@, opt_item_view(item)),
            sets_slot(old(self)@, final(self)@, slot@, opt_item_view(item)),
    {
        let ghost s = self@;
        let ghost iv: Option<ItemV> = opt_item_view(item);
        proof {
            law_slot_items_set_then_get(s, slot@, iv, slot@);
            lemma_sets_slot(s, slot@, iv);
            lemma_slot_pos(s, slot@);
        }
        let index = self.get_index(slot);
        match index {
            Some(index) => {
                match item {
                    Some(item) => {
                        self.items.set(index, item);
                        assert(self@ =~= s.update(index as int, (slot@, iv->Some_0)));
                    },
                    None => {
                        self.items.remove(index);
                        self.slots.remove(index);
                        assert(self@ =~= s.remove(index as int));
                    },
                }
            },
            None => {
                match item {
                    Some(item) => {
                        self.slots.push(copy_bytes(slot));
                        self.items.push(item);
                        assert(self@ =~= s.push((slot@, iv->Some_0)));
                    },
                    None => {},
                }
            },
        }
    }
}

} // verus!
