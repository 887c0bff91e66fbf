use vstd::prelude::*;
use vstd::multiset::Multiset;
use crate::structs::attribute_spec::{
    lemma_decode_parts_err_prefix, lemma_name_at_absent, updated, parts_fit, lemma_decode_parts_sets_every_part, lemma_put_with, lemma_name_at_member,
    attr_text, attr_texts, attrs_wf, colon, decode_attrs, decode_name, decode_parts,
    encode_attrs, index_of, lemma_index_of, lemma_put, lemma_split_capped_segments,
    lemma_sort_attrs, last_min_index, lemma_last_min_index_range, name_at, name_text, put,
    semicolon, sort_attrs, unequipped, valid_name, valid_opt_name, valid_slot, Attr,
    DecodeError,
};
use crate::utils::byte_spec::{join, key_order, opt_view, pad, split_capped, views};
use crate::utils::managed_buffer_utils::{bytes_eq, ManagedBufferUtils};
use crate::utils::managed_vec_utils::{item_views, EqUtils, ItemEq};

verus! {

/// Why a name or a slot is refused.
#[derive(PartialEq, Eq, Structural, Clone, Copy, Debug)]
pub enum AttributeError {
    /// The buffer is longer than the 512-byte scratch buffer.
    BufferTooBig,
    /// A name holds `:` or `;`.
    NameContainsUnsupportedCharacters,
    /// A name is `unequipped`, the text that stands for an empty slot.
    NameCannotBeUnequipped,
    /// A slot holds `:` or `;`.
    SlotContainsUnsupportedCharacters,
}

/// The text that stands for an empty slot.
pub fn unequipped_item_name() -> (r: Vec<u8>)
    ensures
        r@ == unequipped(),
{
    let r = vec![117u8, 110u8, 101u8, 113u8, 117u8, 105u8, 112u8, 112u8, 101u8, 100u8];
    assert(r@ =~= unequipped());
    r
}

/// A copy of a byte buffer.
pub fn copy_bytes(v: &Vec<u8>) -> (r: Vec<u8>)
    ensures
        r@ == v@,
{
    let mut r: Vec<u8> = Vec::new();
    let mut i: usize = 0;
    while i < v.len()
        invariant
            i <= v.len(),
            r@ =~= v@.take(i as int),
        decreases v.len() - i,
    {
        r.push(v[i]);
        i += 1;
    }
    r
}

/// A copy of an optional byte buffer.
pub fn copy_opt_bytes(o: &Option<Vec<u8>>) -> (r: Option<Vec<u8>>)
    ensures
        opt_view(r) == opt_view(*o),
{
    match o {
        Some(v) => Some(copy_bytes(v)),
        None => None,
    }
}

fn opt_bytes_eq(a: &Option<Vec<u8>>, b: &Option<Vec<u8>>) -> (r: bool)
    ensures
        r == (opt_view(*a) == opt_view(*b)),
{
    match (a, b) {
        (Some(x), Some(y)) => bytes_eq(x, y),
        (None, None) => true,
        _ => false,
    }
}

/// The checks an item name passes, in the order they are made.
pub open spec fn name_check(name: Seq<u8>) -> Result<(), AttributeError> {
    if name.len() > 512 {
        Err(AttributeError::BufferTooBig)
    } else if name.contains(semicolon()) || name.contains(colon()) {
        Err(AttributeError::NameContainsUnsupportedCharacters)
    } else if name == unequipped() {
        Err(AttributeError::NameCannotBeUnequipped)
    } else {
        Ok(())
    }
}

/// The checks a slot passes, in the order they are made.
pub open spec fn slot_separator_check(slot: Seq<u8>) -> Result<(), AttributeError> {
    if slot.len() > 512 {
        Err(AttributeError::BufferTooBig)
    } else if slot.contains(semicolon()) || slot.contains(colon()) {
        Err(AttributeError::SlotContainsUnsupportedCharacters)
    } else {
        Ok(())
    }
}

/// Checks a name before it is stored: refused when it holds a separator
/// or is the text of an empty slot.
pub fn panic_if_name_contains_unsupported_characters(opt_name: &Option<Vec<u8>>) -> (r: Result<(), AttributeError>)
    ensures
        match *opt_name {
            None => r is Ok,
            Some(name) => r == name_check(name@),
        },
        r is Ok <==> valid_opt_name(opt_view(*opt_name)),
{
    match opt_name {
        None => Ok(()),
        Some(name) => {
            if name.len() > 512 {
                return Err(AttributeError::BufferTooBig);
            }
            if name.contains_char(59) || name.contains_char(58) {
                return Err(AttributeError::NameContainsUnsupportedCharacters);
            }
            let unequipped_name = unequipped_item_name();
            if bytes_eq(name, &unequipped_name) {
                return Err(AttributeError::NameCannotBeUnequipped);
            }
            Ok(())
        },
    }
}

/// Checks a slot before it is stored: refused when it holds a separator.
pub fn panic_if_slot_contains_unsupported_characters(slot: &Vec<u8>) -> (r: Result<(), AttributeError>)
    ensures
        r == slot_separator_check(slot@),
        r is Ok <==> valid_slot(slot@),
{
    if slot.len() > 512 {
        return Err(AttributeError::BufferTooBig);
    }
    if slot.contains_char(59) || slot.contains_char(58) {
        return Err(AttributeError::SlotContainsUnsupportedCharacters);
    }
    Ok(())
}

/// One slot and the name of the item on it, if any.
pub struct EquippableAttribute {
    pub slot: Vec<u8>,
    pub name: Option<Vec<u8>>,
}

impl View for EquippableAttribute {
    type V = Attr;

    open spec fn view(&self) -> Attr {
        (self.slot@, opt_view(self.name))
    }
}

/// The plain values of a vector of attributes.
pub open spec fn attr_views(v: Seq<EquippableAttribute>) -> Seq<Attr> {
    Seq::new(v.len(), |i: int| v[i]@)
}

impl EquippableAttribute {
    /// `slot:name`, with `unequipped` for an empty slot.
    pub fn to_buffer(&self) -> (r: Vec<u8>)
        ensures
            r@ == attr_text(self@),
    {
        let item_name = match &self.name {
            Some(name) => copy_bytes(name),
            None => unequipped_item_name(),
        };
        let mut output = copy_bytes(&self.slot);
        output.push(58u8);
        let mut i: usize = 0;
        while i < item_name.len()
            invariant
                i <= item_name.len(),
                output@ =~= self.slot@.push(colon()) + item_name@.take(i as int),
            decreases item_name.len() - i,
        {
            output.push(item_name[i]);
            i += 1;
        }
        assert(item_name@.take(item_name@.len() as int) =~= item_name@);
        output
    }

    /// Reads `slot:name` back; `unequipped` stands for an empty slot.
    pub fn from_buffer(input: Vec<u8>) -> (r: Self)
        requires
            input@.len() <= 512,
            split_capped(input@, colon(), 512).len() == 2,
        ensures
            r@ == (split_capped(input@, colon(), 512)[0], decode_name(
                split_capped(input@, colon(), 512)[1],
            )),
    {
        let parts = input.split(58u8);
        assert(views(parts@)[1] == parts@[1]@);
        assert(views(parts@)[0] == parts@[0]@);
        let name = copy_bytes(&parts[1]);
        let unequipped_name = unequipped_item_name();
        let opt_name = if bytes_eq(&name, &unequipped_name) {
            None
        } else {
            Some(name)
        };
        EquippableAttribute { slot: copy_bytes(&parts[0]), name: opt_name }
    }

    /// A copy of the attribute.
    pub fn copy(&self) -> (r: Self)
        ensures
            r@ == self@,
    {
        EquippableAttribute { slot: copy_bytes(&self.slot), name: copy_opt_bytes(&self.name) }
    }

    fn same_as(&self, other: &Self) -> (r: bool)
        ensures
            r == (self@ == other@),
    {
        bytes_eq(&self.slot, &other.slot) && opt_bytes_eq(&self.name, &other.name)
    }
}

/// The items of an equippable, each slot once, kept in alphabetical order
/// of slots.
pub struct EquippableAttributes {
    items: Vec<EquippableAttribute>,
}

impl View for EquippableAttributes {
    type V = Seq<Attr>;

    closed spec fn view(&self) -> Seq<Attr> {
        attr_views(self.items@)
    }
}

/// Sorting of attributes by slot.
pub trait SortUtils: Sized {
    /// Whether every key fits the scratch buffer the comparison uses.
    spec fn sortable(&self) -> bool;

    fn sort_alphabetically(&self) -> Self
        requires
            self.sortable(),
    ;
}

impl SortUtils for Vec<EquippableAttribute> {
    open spec fn sortable(&self) -> bool {
        forall|j: int| 0 <= j < self.len() ==> (#[trigger] self@[j]).slot@.len() <= 512
    }

    /// Selection sort by slot: each round takes the smallest remaining slot
    /// (the last of equal ones).
    fn sort_alphabetically(&self) -> (r: Self)
        ensures
            attr_views(r@) == sort_attrs(attr_views(self@)),
    {
        let mut remaining_items: Vec<EquippableAttribute> = Vec::new();
        let mut i: usize = 0;
        while i < self.len()
            invariant
                i <= self.len(),
                attr_views(remaining_items@) =~= attr_views(self@).take(i as int),
                forall|j: int| 0 <= j < remaining_items.len() ==> (#[trigger] remaining_items@[j]).slot@.len() <= 512,
                self.sortable(),
            decreases self.len() - i,
        {
            let item = self[i].copy();
            let ghost before = remaining_items@;
            remaining_items.push(item);
            assert(remaining_items@ == before.push(item));
            assert(item@ == attr_views(self@)[i as int]);
            assert(attr_views(remaining_items@) =~= attr_views(before).push(item@));
            assert(attr_views(self@).take(i + 1) =~= attr_views(self@).take(i as int).push(attr_views(self@)[i as int]));
            i += 1;
        }
        assert(attr_views(self@).take(self.len() as int) =~= attr_views(self@));
        let mut output: Vec<EquippableAttribute> = Vec::new();
        assert(attr_views(output@) + sort_attrs(attr_views(remaining_items@)) =~= sort_attrs(attr_views(self@)));
        while remaining_items.len() > 0
            invariant
                attr_views(output@) + sort_attrs(attr_views(remaining_items@)) == sort_attrs(attr_views(self@)),
                forall|j: int| 0 <= j < remaining_items.len() ==> (#[trigger] remaining_items@[j]).slot@.len() <= 512,
            decreases remaining_items.len(),
        {
            let ghost rem = attr_views(remaining_items@);
            let smallest_item_index = last_min_position(&remaining_items);
            proof {
                lemma_last_min_index_range(rem, rem.len());
            }
            let smallest_item = remaining_items.remove(smallest_item_index);
            assert(attr_views(remaining_items@) =~= rem.remove(smallest_item_index as int));
            output.push(smallest_item);
            assert(attr_views(output@) + sort_attrs(attr_views(remaining_items@)) =~= sort_attrs(attr_views(self@)));
        }
        assert(sort_attrs(attr_views(remaining_items@)) =~= Seq::<Attr>::empty());
        assert(attr_views(output@) =~= sort_attrs(attr_views(self@)));
        output
    }
}

/// The position the sort takes next: the last one whose slot is no larger
/// than the smallest slot seen before it.
fn last_min_position(items: &Vec<EquippableAttribute>) -> (r: usize)
    requires
        items.len() > 0,
        forall|j: int| 0 <= j < items.len() ==> (#[trigger] items@[j]).slot@.len() <= 512,
    ensures
        r == last_min_index(attr_views(items@), items.len() as nat),
{
    let mut smallest_item_index: usize = 0;
    let mut index: usize = 0;
    while index < items.len()
        invariant
            index <= items.len(),
            items.len() > 0,
            forall|j: int| 0 <= j < items.len() ==> (#[trigger] items@[j]).slot@.len() <= 512,
            smallest_item_index == last_min_index(attr_views(items@), index as nat),
            index > 0 ==> smallest_item_index < index,
        decreases items.len() - index,
    {
        proof {
            lemma_last_min_index_range(attr_views(items@), index as nat);
        }
        let c = crate::utils::managed_buffer_utils::compare_padded(
            &items[index].slot,
            &items[smallest_item_index].slot,
        );
        if c <= 0 {
            smallest_item_index = index;
        }
        index += 1;
    }
    smallest_item_index
}

impl EquippableAttributes {
    /// The invariant: valid slots and names, each slot once, sorted by slot.
    pub open spec fn wf(&self) -> bool {
        attrs_wf(self@)
    }

    /// No item on any slot.
    pub fn empty() -> (r: Self)
        ensures
            r@ == Seq::<Attr>::empty(),
            r.wf(),
    {
        let r = EquippableAttributes { items: Vec::new() };
        assert(r@ =~= Seq::<Attr>::empty());
        r
    }

    /// A copy of the attributes.
    pub fn copy(&self) -> (r: Self)
        ensures
            r@ == self@,
    {
        let mut items: Vec<EquippableAttribute> = Vec::new();
        let mut i: usize = 0;
        while i < self.items.len()
            invariant
                i <= self.items.len(),
                attr_views(items@) =~= attr_views(self.items@).take(i as int),
            decreases self.items.len() - i,
        {
            let item = self.items[i].copy();
            let ghost before = items@;
            items.push(item);
            assert(attr_views(items@) =~= attr_views(before).push(item@));
            i += 1;
        }
        assert(attr_views(self.items@).take(self.items.len() as int) =~= attr_views(self.items@));
        EquippableAttributes { items }
    }

    /// Whether the two hold the same attributes in the same order.
    pub fn same_as(&self, other: &Self) -> (r: bool)
        ensures
            r == (self@ == other@),
    {
        if self.items.len() != other.items.len() {
            assert(self@.len() != other@.len());
            return false;
        }
        let mut i: usize = 0;
        while i < self.items.len()
            invariant
                i <= self.items.len(),
                self.items.len() == other.items.len(),
                forall|j: int| 0 <= j < i ==> self@[j] == other@[j],
            decreases self.items.len() - i,
        {
            if !self.items[i].same_as(&other.items[i]) {
                assert(self@[i as int] != other@[i as int]);
                return false;
            }
            i += 1;
        }
        assert(self@ =~= other@);
        true
    }

    fn get_index(&self, slot: &Vec<u8>) -> (r: Option<usize>)
        ensures
            match r {
                Some(i) => index_of(self@, slot@) == i && i < self@.len(),
                None => index_of(self@, slot@) == -1,
            },
    {
        proof {
            lemma_index_of(self@, slot@);
        }
        assert(self@.len() == self.items.len());
        let mut i: usize = 0;
        while i < self.items.len()
            invariant
                i <= self.items.len(),
                self@.len() == self.items.len(),
                forall|j: int| 0 <= j < i ==> self@[j].0 != slot@,
            decreases self.items.len() - i,
        {
            if bytes_eq(&self.items[i].slot, slot) {
                assert(self@[i as int].0 == slot@);
                proof {
                    lemma_index_of(self@, slot@);
                    let k = index_of(self@, slot@);
                    if k < 0 {
                        assert(self@[i as int].0 != slot@);
                    } else if k < i {
                        assert(self@[k].0 != slot@);
                    } else if k > i {
                        assert(self@[i as int].0 != slot@);
                    }
                }
                return Some(i);
            }
            i += 1;
        }
        None
    }

    /// The name of the item on `slot`; `None` when the slot is empty or unknown.
    pub fn get_name(&self, slot: &Vec<u8>) -> (r: Option<Vec<u8>>)
        ensures
            opt_view(r) == name_at(self@, slot@),
    {
        match self.get_index(slot) {
            Some(index) => {
                assert(self@[index as int] == self.items@[index as int]@);
                copy_opt_bytes(&self.items[index].name)
            },
            None => None,
        }
    }

    /// Sets `slot`, which must hold no item yet.
    pub fn set_item_if_empty(&mut self, slot: &Vec<u8>, name: Option<Vec<u8>>)
        requires
            old(self).wf(),
            valid_slot(slot@),
            valid_opt_name(opt_view(name)),
            name_at(old(self)@, slot@) is None,
        ensures
            final(self)@ == put(old(self)@, slot@, opt_view(name)),
            final(self).wf(),
    {
        self.set_item(slot, name)
    }

    /// Sets `slot` to `opt_name` (an empty slot for `None`), replacing what
    /// it held, and sorts the slots again.
    pub fn set_item(&mut self, slot: &Vec<u8>, opt_name: Option<Vec<u8>>)
        requires
            old(self).wf(),
            valid_slot(slot@),
            valid_opt_name(opt_view(opt_name)),
        ensures
            final(self)@ == put(old(self)@, slot@, opt_view(opt_name)),
            final(self).wf(),
    {
        let ghost s = self@;
        let index = self.get_index(slot);
        assert(s.len() == self.items.len());
        let new_equippable_attribute = EquippableAttribute { slot: copy_bytes(slot), name: opt_name };
        match index {
            Some(index) => {
                self.items.set(index, new_equippable_attribute);
            },
            None => {
                self.items.push(new_equippable_attribute);
            },
        }
        assert(attr_views(self.items@) =~= updated(s, slot@, opt_view(opt_name)));
        assert forall|j: int| 0 <= j < self.items.len() implies (#[trigger] self.items@[j]).slot@.len() <= 512 by {
            assert(attr_views(self.items@)[j] == self.items@[j]@);
            if index.is_some() && j == index.unwrap() as int || index.is_none() && j == s.len() {
            } else {
                assert(self.items@[j]@ == s[j]);
            }
        }
        self.items = self.items.sort_alphabetically();
        proof {
            lemma_put(s, slot@, opt_view(opt_name));
        }
    }

    /// Whether `slot` holds no item.
    pub fn is_slot_empty(&self, slot: &Vec<u8>) -> (r: bool)
        ensures
            r == (name_at(self@, slot@) is None),
    {
        match self.get_name(slot) {
            Some(_) => false,
            None => true,
        }
    }

    /// Takes the item off `slot`; the slot stays, as `unequipped`.
    pub fn empty_slot(&mut self, slot: &Vec<u8>)
        requires
            old(self).wf(),
            valid_slot(slot@),
        ensures
            final(self)@ == put(old(self)@, slot@, None),
            final(self).wf(),
    {
        self.set_item(slot, None)
    }

    /// The text form: `slot:name` parts joined with `;`, of any length.
    pub fn text(&self) -> (r: Vec<u8>)
        ensures
            r@ == encode_attrs(self@),
    {
        let ghost texts = attr_texts(self@);
        let mut managed_buffer: Vec<u8> = Vec::new();
        let n = self.items.len();
        let mut i: usize = 0;
        while i < n
            invariant
                n == self.items.len(),
                texts == attr_texts(self@),
                i <= n,
                i == 0 ==> managed_buffer@ == Seq::<u8>::empty(),
                0 < i < n ==> managed_buffer@ == join(texts.take(i as int), semicolon()).push(semicolon()),
                i == n && n > 0 ==> managed_buffer@ == join(texts.take(i as int), semicolon()),
            decreases n - i,
        {
            let part = self.items[i].to_buffer();
            assert(part@ == texts[i as int]);
            let ghost before = managed_buffer@;
            let mut k: usize = 0;
            while k < part.len()
                invariant
                    k <= part.len(),
                    managed_buffer@ =~= before + part@.take(k as int),
                decreases part.len() - k,
            {
                managed_buffer.push(part[k]);
                k += 1;
            }
            assert(part@.take(part.len() as int) =~= part@);
            let ghost t1 = texts.take(i + 1);
            assert(t1.drop_last() =~= texts.take(i as int));
            if i == 0 {
                assert(t1 =~= seq![texts[0]]);
                assert(managed_buffer@ =~= join(t1, semicolon()));
            } else {
                assert(managed_buffer@ =~= join(t1, semicolon()));
            }
            if i + 1 < n {
                managed_buffer.push(59u8);
            }
            i += 1;
        }
        assert(texts.take(n as int) =~= texts);
        if n == 0 {
            assert(managed_buffer@ =~= encode_attrs(self@));
        }
        managed_buffer
    }

    /// The text form, through the 512-byte scratch buffer.
    pub fn top_encode(&self) -> (r: Vec<u8>)
        requires
            encode_attrs(self@).len() <= 512,
        ensures
            r@ == encode_attrs(self@),
    {
        let managed_buffer = self.text();
        let bytes = managed_buffer.load_512_bytes();
        let mut output: Vec<u8> = Vec::new();
        let mut j: usize = 0;
        while j < managed_buffer.len()
            invariant
                j <= managed_buffer.len(),
                managed_buffer.len() <= 512,
                bytes@ == pad(managed_buffer@, 512),
                output@ =~= managed_buffer@.take(j as int),
            decreases managed_buffer.len() - j,
        {
            output.push(bytes[j]);
            j += 1;
        }
        assert(managed_buffer@.take(managed_buffer.len() as int) =~= managed_buffer@);
        output
    }

    /// Reads the text form back: each `;`-separated part is `slot:name`,
    /// `unequipped` stands for an empty slot, and a slot that already holds an
    /// item may not be set again.
    pub fn top_decode(input: &Vec<u8>) -> (r: Result<Self, DecodeError>)
        ensures
            match r {
                Ok(a) => decode_attrs(input@) == Ok::<Seq<Attr>, DecodeError>(a@) && a.wf(),
                Err(e) => decode_attrs(input@) == Err::<Seq<Attr>, DecodeError>(e),
            },
    {
        if input.len() > 512 {
            return Err(DecodeError::BufferTooBig);
        }
        let mut equippable_attributes = EquippableAttributes::empty();
        let items_raw = input.split(59u8);
        let ghost parts = views(items_raw@);
        proof {
            lemma_split_capped_segments(input@, semicolon(), 512);
        }
        assert(parts.take(0) =~= Seq::<Seq<u8>>::empty());
        let mut i: usize = 0;
        while i < items_raw.len()
            invariant
                input.len() <= 512,
                parts == views(items_raw@),
                parts == split_capped(input@, semicolon(), 512),
                forall|m: int| 0 <= m < parts.len() ==> !(#[trigger] parts[m]).contains(semicolon()) && parts[m].len() <= 512,
                i <= items_raw.len(),
                decode_parts(parts.take(i as int)) == Ok::<Seq<Attr>, DecodeError>(equippable_attributes@),
                equippable_attributes.wf(),
            decreases items_raw.len() - i,
        {
            let item_raw = &items_raw[i];
            assert(item_raw@ == parts[i as int]);
            let ghost next = parts.take(i + 1);
            assert(next.drop_last() =~= parts.take(i as int));
            assert(next.last() == item_raw@);
            let sub = item_raw.split(58u8);
            if sub.len() != 2 {
                proof {
                    lemma_decode_parts_err_prefix(parts, i + 1);
                }
                return Err(DecodeError::CannotDecodeAttribute);
            }
            let attribute = EquippableAttribute::from_buffer(copy_bytes(item_raw));
            let ghost sub_v = split_capped(item_raw@, colon(), 512);
            proof {
                lemma_split_capped_segments(item_raw@, colon(), 512);
                assert(!sub_v[0].contains(colon()));
                assert(!sub_v[1].contains(colon()));
                assert(!sub_v[0].contains(semicolon()));
                assert(!sub_v[1].contains(semicolon()));
            }
            if !equippable_attributes.is_slot_empty(&attribute.slot) {
                proof {
                    lemma_decode_parts_err_prefix(parts, i + 1);
                }
                return Err(DecodeError::SlotNotEmpty);
            }
            equippable_attributes.set_item_if_empty(&attribute.slot, attribute.name);
            i += 1;
        }
        assert(parts.take(items_raw.len() as int) =~= parts);
        Ok(equippable_attributes)
    }
}

impl ItemEq for EquippableAttribute {
    fn same_as(&self, other: &Self) -> (r: bool) {
        EquippableAttribute::same_as(self, other)
    }

    fn copy(&self) -> (r: Self) {
        EquippableAttribute::copy(self)
    }
}

impl PartialEq for EquippableAttributes {
    /// Two sets of attributes are equal when they hold the same attributes,
    /// whatever their order.
    fn eq(&self, other: &Self) -> (r: bool) {
        assert(self@ =~= item_views(self.items@));
        assert(other@ =~= item_views(other.items@));
        self.items.eq_unorder(&other.items)
    }
}

impl vstd::std_specs::cmp::PartialEqSpecImpl for EquippableAttributes {
    open spec fn obeys_eq_spec() -> bool {
        true
    }

    open spec fn eq_spec(&self, other: &Self) -> bool {
        self@.to_multiset() == other@.to_multiset()
    }
}

/// Law: the text of well-formed attributes shorter than the scratch buffer
/// decodes to the same attributes, as `==` on attributes compares them
/// (the same attributes, in any order).
pub proof fn law_decode_encode_roundtrip(a: Seq<Attr>)
    requires
        attrs_wf(a),
        encode_attrs(a).len() < 512,
    ensures
        decode_attrs(encode_attrs(a)) is Ok,
        attrs_wf(decode_attrs(encode_attrs(a))->Ok_0),
        decode_attrs(encode_attrs(a))->Ok_0.to_multiset() == a.to_multiset(),
{
    crate::structs::attribute_spec::lemma_decode_encode(a);
}

/// Law: setting a slot keeps the attributes well formed, gives that slot the
/// new name, and leaves every other slot as it was.
pub proof fn law_set_item_get_name(a: Seq<Attr>, slot: Seq<u8>, name: Option<Seq<u8>>, other: Seq<u8>)
    requires
        attrs_wf(a),
        valid_slot(slot),
        valid_opt_name(name),
    ensures
        attrs_wf(put(a, slot, name)),
        name_at(put(a, slot, name), slot) == name,
        other != slot ==> name_at(put(a, slot, name), other) == name_at(a, other),
{
    lemma_put(a, slot, name);
}

/// The attributes after the settings `ops` (slot and name, `None` to empty
/// the slot), made one after the other from `a`.
pub open spec fn put_all(a: Seq<Attr>, ops: Seq<Attr>) -> Seq<Attr>
    decreases ops.len(),
{
    if ops.len() == 0 {
        a
    } else {
        put(put_all(a, ops.drop_last()), ops.last().0, ops.last().1)
    }
}

/// The name that the last setting of `slot` in `ops` gave it, or the name
/// it had in `a` when `ops` never sets it.
pub open spec fn last_set(a: Seq<Attr>, ops: Seq<Attr>, slot: Seq<u8>) -> Option<Seq<u8>>
    decreases ops.len(),
{
    if ops.len() == 0 {
        name_at(a, slot)
    } else if ops.last().0 == slot {
        ops.last().1
    } else {
        last_set(a, ops.drop_last(), slot)
    }
}

/// Law: after any sequence of settings (`set_item`, `set_item_if_empty` and
/// `empty_slot` each set one slot), the attributes are well formed and each
/// slot reads the name its last setting gave it, or what it read before
/// when no setting touched it; from empty attributes, `None`.
pub proof fn law_set_sequence_get_name(a: Seq<Attr>, ops: Seq<Attr>, slot: Seq<u8>)
    requires
        attrs_wf(a),
        forall|i: int| 0 <= i < ops.len() ==> valid_slot(#[trigger] ops[i].0) && valid_opt_name(ops[i].1),
    ensures
        attrs_wf(put_all(a, ops)),
        name_at(put_all(a, ops), slot) == last_set(a, ops, slot),
        a.len() == 0 ==> name_at(a, slot) is None,
    decreases ops.len(),
{
    if a.len() == 0 {
        lemma_index_of(a, slot);
    }
    if ops.len() > 0 {
        let init = ops.drop_last();
        assert forall|i: int| 0 <= i < init.len() implies valid_slot(#[trigger] init[i].0) && valid_opt_name(init[i].1) by {
            assert(init[i] == ops[i]);
        }
        law_set_sequence_get_name(a, init, slot);
        assert(ops.last() == ops[ops.len() - 1]);
        lemma_put(put_all(a, init), ops.last().0, ops.last().1);
    }
}

/// Law: setting two different slots gives the same attributes, as every
/// slot reads them, in either order.
pub proof fn law_set_items_commute(
    a: Seq<Attr>,
    s1: Seq<u8>,
    n1: Option<Seq<u8>>,
    s2: Seq<u8>,
    n2: Option<Seq<u8>>,
    slot: Seq<u8>,
)
    requires
        attrs_wf(a),
        valid_slot(s1),
        valid_opt_name(n1),
        valid_slot(s2),
        valid_opt_name(n2),
        s1 != s2,
    ensures
        attrs_wf(put(put(a, s1, n1), s2, n2)),
        attrs_wf(put(put(a, s2, n2), s1, n1)),
        name_at(put(put(a, s1, n1), s2, n2), slot) == name_at(put(put(a, s2, n2), s1, n1), slot),
{
    lemma_put(a, s1, n1);
    lemma_put(a, s2, n2);
    lemma_put(put(a, s1, n1), s2, n2);
    lemma_put(put(a, s2, n2), s1, n1);
    let u1 = put(put(a, s1, n1), s2, n2);
    let u2 = put(put(a, s2, n2), s1, n1);
    if slot == s1 {
        assert(name_at(u1, slot) == name_at(put(a, s1, n1), slot));
        assert(name_at(u1, slot) == n1);
    } else if slot == s2 {
        assert(name_at(u2, slot) == name_at(put(a, s2, n2), slot));
        assert(name_at(u2, slot) == n2);
    } else {
        assert(name_at(u1, slot) == name_at(put(a, s1, n1), slot));
        assert(name_at(put(a, s1, n1), slot) == name_at(a, slot));
        assert(name_at(u2, slot) == name_at(put(a, s2, n2), slot));
        assert(name_at(put(a, s2, n2), slot) == name_at(a, slot));
    }
}

/// The multiset of the attributes without the one on `slot`, if any.
pub open spec fn without_slot(s: Seq<Attr>, slot: Seq<u8>) -> Multiset<Attr> {
    if index_of(s, slot) >= 0 {
        s.to_multiset().remove(s[index_of(s, slot)])
    } else {
        s.to_multiset()
    }
}

/// Setting a slot removes the attribute that was on it and adds the new one.
proof fn lemma_put_multiset(s: Seq<Attr>, slot: Seq<u8>, name: Option<Seq<u8>>)
    requires
        attrs_wf(s),
        valid_slot(slot),
        valid_opt_name(name),
    ensures
        put(s, slot, name).to_multiset() == without_slot(s, slot).insert((slot, name)),
{
    broadcast use vstd::seq_lib::group_to_multiset_ensures;
    broadcast use vstd::multiset::group_multiset_axioms;

    lemma_put(s, slot, name);
    lemma_index_of(s, slot);
    let i = index_of(s, slot);
    if i >= 0 {
        vstd::seq_lib::to_multiset_update(s, i, (slot, name));
        assert(s.to_multiset().count(s[i]) > 0);
        assert(s.to_multiset().insert((slot, name)).remove(s[i]) =~= s.to_multiset().remove(s[i]).insert((slot, name)));
    } else {
        vstd::seq_lib::to_multiset_build(s, (slot, name));
    }
}

/// Setting a slot keeps every other slot present or absent as it was.
proof fn lemma_put_presence(s: Seq<Attr>, slot: Seq<u8>, name: Option<Seq<u8>>, other: Seq<u8>)
    requires
        attrs_wf(s),
        valid_slot(slot),
        valid_opt_name(name),
        other != slot,
    ensures
        (index_of(put(s, slot, name), other) >= 0) == (index_of(s, other) >= 0),
        index_of(s, other) >= 0 ==> put(s, slot, name)[index_of(put(s, slot, name), other)] == s[index_of(s, other)],
{
    broadcast use vstd::seq_lib::group_to_multiset_ensures;

    let r = put(s, slot, name);
    lemma_put_with(s, slot, name, true);
    lemma_index_of(s, other);
    lemma_index_of(r, other);
    lemma_index_of(s, slot);
    let i = index_of(s, slot);
    let u = updated(s, slot, name);
    if index_of(s, other) >= 0 {
        let k = index_of(s, other);
        assert(k != i);
        let e = s[k];
        assert(u[k] == e);
        assert(u.contains(e));
        assert(u.to_multiset().count(e) > 0);
        assert(r.to_multiset().count(e) > 0);
        assert(r.contains(e));
        let j = choose|j: int| 0 <= j < r.len() && r[j] == e;
        assert(r[j].0 == other);
        assert(index_of(r, other) >= 0);
        lemma_name_at_member(r, index_of(r, other));
        lemma_name_at_member(s, k);
        assert(name_at(r, other) == name_at(s, other));
    }
    if index_of(r, other) >= 0 {
        let j = index_of(r, other);
        assert(r[j] == (slot, name) || s.contains(r[j]));
        assert(r[j].0 == other);
        if s.contains(r[j]) {
            let k = choose|k: int| 0 <= k < s.len() && s[k] == r[j];
            assert(s[k].0 == other);
        }
    }
}

/// Law: setting two different slots gives equal attributes (as `==` on
/// attributes compares them: the same attributes, in any order) whichever
/// is set first.
pub proof fn law_set_items_commute_equal(
    a: Seq<Attr>,
    s1: Seq<u8>,
    n1: Option<Seq<u8>>,
    s2: Seq<u8>,
    n2: Option<Seq<u8>>,
)
    requires
        attrs_wf(a),
        valid_slot(s1),
        valid_opt_name(n1),
        valid_slot(s2),
        valid_opt_name(n2),
        s1 != s2,
    ensures
        put(put(a, s1, n1), s2, n2).to_multiset() == put(put(a, s2, n2), s1, n1).to_multiset(),
{
    broadcast use vstd::multiset::group_multiset_axioms;

    let p1 = put(a, s1, n1);
    let p2 = put(a, s2, n2);
    lemma_put(a, s1, n1);
    lemma_put(a, s2, n2);
    lemma_put_multiset(a, s1, n1);
    lemma_put_multiset(a, s2, n2);
    lemma_put_multiset(p1, s2, n2);
    lemma_put_multiset(p2, s1, n1);
    lemma_put_presence(a, s1, n1, s2);
    lemma_put_presence(a, s2, n2, s1);
    lemma_index_of(a, s1);
    lemma_index_of(a, s2);
    assert(put(p1, s2, n2).to_multiset() =~= put(p2, s1, n1).to_multiset());
}

/// Whether no slot of the attributes holds a zero byte (which the slot
/// order, reading slots as zero-padded arrays, could not tell from the end).
pub open spec fn slots_without_nul(a: Seq<Attr>) -> bool {
    forall|i: int| 0 <= i < a.len() ==> !(#[trigger] a[i].0).contains(0u8)
}

/// Two slots without zero bytes, small enough for the array, that the slot
/// order finds equal are the same slot.
proof fn lemma_key_order_zero_same(x: Seq<u8>, y: Seq<u8>)
    requires
        x.len() <= 512,
        y.len() <= 512,
        !x.contains(0u8),
        !y.contains(0u8),
        key_order(x, y) == 0,
    ensures
        x == y,
{
    crate::utils::byte_spec::lemma_lex_order_antisym(pad(x, 512), pad(y, 512));
    assert(pad(x, 512) == pad(y, 512));
    if x.len() < y.len() {
        let i = x.len() as int;
        assert(pad(x, 512)[i] == 0u8);
        assert(pad(y, 512)[i] == y[i]);
        assert(y.contains(y[i]));
    } else if y.len() < x.len() {
        let i = y.len() as int;
        assert(pad(y, 512)[i] == 0u8);
        assert(pad(x, 512)[i] == x[i]);
        assert(x.contains(x[i]));
    }
    assert forall|i: int| 0 <= i < x.len() implies x[i] == y[i] by {
        assert(pad(x, 512)[i] == pad(y, 512)[i]);
    }
    assert(x =~= y);
}

/// Well-formed attributes without zero bytes in their slots are fixed by
/// the attributes they hold: the order is the slot order.
proof fn lemma_sorted_unique(s: Seq<Attr>, t: Seq<Attr>)
    requires
        attrs_wf(s),
        attrs_wf(t),
        slots_without_nul(s),
        slots_without_nul(t),
        s.to_multiset() == t.to_multiset(),
    ensures
        s == t,
    decreases s.len(),
{
    broadcast use vstd::seq_lib::group_to_multiset_ensures;

    vstd::seq_lib::to_multiset_len(s);
    vstd::seq_lib::to_multiset_len(t);
    if s.len() == 0 {
        assert(t.len() == 0);
        assert(s =~= t);
    } else {
        assert(t.len() == s.len());
        assert(s.to_multiset().count(s[0]) > 0);
        assert(t.contains(s[0]));
        let k = choose|k: int| 0 <= k < t.len() && t[k] == s[0];
        assert(t.to_multiset().count(t[0]) > 0);
        assert(s.contains(t[0]));
        let m = choose|m: int| 0 <= m < s.len() && s[m] == t[0];
        if m > 0 {
            assert(key_order(s[0].0, s[m].0) <= 0);
        } else {
            crate::structs::attribute_spec::lemma_key_order_refl(s[0].0);
        }
        if k > 0 {
            assert(key_order(t[0].0, t[k].0) <= 0);
        } else {
            crate::structs::attribute_spec::lemma_key_order_refl(t[0].0);
        }
        crate::utils::byte_spec::lemma_key_order_total(s[0].0, t[0].0);
        assert(valid_slot(s[0].0) && valid_slot(t[0].0));
        lemma_key_order_zero_same(s[0].0, t[0].0);
        if k != 0 {
            assert(t[k].0 == t[0].0);
        }
        assert(t[0] == s[0]);
        let s1 = s.drop_first();
        let t1 = t.drop_first();
        vstd::seq_lib::to_multiset_remove(s, 0);
        vstd::seq_lib::to_multiset_remove(t, 0);
        assert(s.remove(0) =~= s1);
        assert(t.remove(0) =~= t1);
        assert(attrs_wf(s1)) by {
            assert forall|i: int| 0 <= i < s1.len() implies valid_slot(#[trigger] s1[i].0) && valid_opt_name(s1[i].1) by {
                assert(s1[i] == s[i + 1]);
            }
            assert forall|i: int, j: int| 0 <= i < j < s1.len() implies s1[i].0 != s1[j].0 && key_order(s1[i].0, s1[j].0) <= 0 by {
                assert(s1[i] == s[i + 1] && s1[j] == s[j + 1]);
            }
        }
        assert(attrs_wf(t1)) by {
            assert forall|i: int| 0 <= i < t1.len() implies valid_slot(#[trigger] t1[i].0) && valid_opt_name(t1[i].1) by {
                assert(t1[i] == t[i + 1]);
            }
            assert forall|i: int, j: int| 0 <= i < j < t1.len() implies t1[i].0 != t1[j].0 && key_order(t1[i].0, t1[j].0) <= 0 by {
                assert(t1[i] == t[i + 1] && t1[j] == t[j + 1]);
            }
        }
        assert(slots_without_nul(s1)) by {
            assert forall|i: int| 0 <= i < s1.len() implies !(#[trigger] s1[i].0).contains(0u8) by {
                assert(s1[i] == s[i + 1]);
            }
        }
        assert(slots_without_nul(t1)) by {
            assert forall|i: int| 0 <= i < t1.len() implies !(#[trigger] t1[i].0).contains(0u8) by {
                assert(t1[i] == t[i + 1]);
            }
        }
        lemma_sorted_unique(s1, t1);
        assert(s =~= seq![s[0]] + s1);
        assert(t =~= seq![t[0]] + t1);
    }
}

/// Setting a slot without a zero byte keeps the slots free of zero bytes.
proof fn lemma_put_without_nul(a: Seq<Attr>, slot: Seq<u8>, name: Option<Seq<u8>>)
    requires
        attrs_wf(a),
        valid_slot(slot),
        valid_opt_name(name),
        slots_without_nul(a),
        !slot.contains(0u8),
    ensures
        slots_without_nul(put(a, slot, name)),
{
    lemma_put_with(a, slot, name, true);
    let r = put(a, slot, name);
    assert forall|j: int| 0 <= j < r.len() implies !(#[trigger] r[j].0).contains(0u8) by {
        if r[j] != (slot, name) {
            assert(a.contains(r[j]));
            let k = choose|k: int| 0 <= k < a.len() && a[k] == r[j];
            assert(!a[k].0.contains(0u8));
        }
    }
}

/// Law: equal attributes (as `==` compares them) whose slots hold no zero
/// byte, set on two different slots in the two orders, give the very same
/// attributes in the same order, and so the same text.
pub proof fn law_set_items_commute_exactly(
    a: Seq<Attr>,
    b: Seq<Attr>,
    s1: Seq<u8>,
    n1: Option<Seq<u8>>,
    s2: Seq<u8>,
    n2: Option<Seq<u8>>,
)
    requires
        attrs_wf(a),
        attrs_wf(b),
        a.to_multiset() == b.to_multiset(),
        slots_without_nul(a),
        slots_without_nul(b),
        valid_slot(s1),
        valid_opt_name(n1),
        valid_slot(s2),
        valid_opt_name(n2),
        !s1.contains(0u8),
        !s2.contains(0u8),
        s1 != s2,
    ensures
        a == b,
        put(put(a, s1, n1), s2, n2) == put(put(b, s2, n2), s1, n1),
        encode_attrs(put(put(a, s1, n1), s2, n2)) == encode_attrs(put(put(b, s2, n2), s1, n1)),
{
    lemma_sorted_unique(a, b);
    law_set_items_commute_equal(a, s1, n1, s2, n2);
    lemma_put(a, s1, n1);
    lemma_put(a, s2, n2);
    lemma_put(put(a, s1, n1), s2, n2);
    lemma_put(put(a, s2, n2), s1, n1);
    lemma_put_without_nul(a, s1, n1);
    lemma_put_without_nul(a, s2, n2);
    lemma_put_without_nul(put(a, s1, n1), s2, n2);
    lemma_put_without_nul(put(a, s2, n2), s1, n1);
    lemma_sorted_unique(put(put(a, s1, n1), s2, n2), put(put(a, s2, n2), s1, n1));
}

/// Law: decoding reads every `;`-separated part, whatever their order: each
/// part is `slot:name`, a slot that no later part sets again reads the name
/// of its part (none for `unequipped`), and the attributes hold no slot
/// that no part names.
pub proof fn law_decode_sets_every_part(t: Seq<u8>)
    ensures
        decode_attrs(t) is Ok ==> ({
            let r = decode_attrs(t)->Ok_0;
            let parts = split_capped(t, semicolon(), 512);
            &&& attrs_wf(r)
            &&& forall|i: int| 0 <= i < parts.len() ==> (#[trigger] split_capped(parts[i], colon(), 512)).len() == 2
            &&& forall|i: int| 0 <= i < parts.len()
                && (forall|j: int| i < j < parts.len() ==> (#[trigger] split_capped(parts[j], colon(), 512))[0] != split_capped(parts[i], colon(), 512)[0])
                ==> name_at(r, (#[trigger] split_capped(parts[i], colon(), 512))[0]) == decode_name(split_capped(parts[i], colon(), 512)[1])
            &&& forall|k: int| 0 <= k < r.len() ==> exists|i: int| 0 <= i < parts.len() && (#[trigger] r[k]).0 == (#[trigger] split_capped(parts[i], colon(), 512))[0]
        }),
{
    if decode_attrs(t) is Ok {
        let parts = split_capped(t, semicolon(), 512);
        lemma_split_capped_segments(t, semicolon(), 512);
        assert(parts_fit(parts));
        lemma_decode_parts_sets_every_part(parts);
    }
}

/// Law: after a slot is emptied it reads as empty.
pub proof fn law_empty_slot_is_empty(a: Seq<Attr>, slot: Seq<u8>)
    requires
        attrs_wf(a),
        valid_slot(slot),
    ensures
        name_at(put(a, slot, None), slot) is None,
{
    lemma_put(a, slot, None);
}

/// Law: the attributes are always in alphabetical order of slots and each
/// slot appears once.
pub proof fn law_attributes_sorted(a: Seq<Attr>)
    requires
        attrs_wf(a),
    ensures
        forall|i: int, j: int| 0 <= i < j < a.len() ==> key_order(a[i].0, a[j].0) <= 0 && a[i].0 != a[j].0,
{
}

} // verus!
