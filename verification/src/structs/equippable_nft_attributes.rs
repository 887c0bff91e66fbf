use vstd::prelude::*;
use crate::structs::attribute_spec::{
    attr_text,
    attrs_wf_with, colon, decode_name, index_of, last_min_index, lemma_index_of,
    lemma_last_min_index_range, lemma_put_with, lemma_split_capped_segments, name_at, name_text,
    put, semicolon, sort_attrs, updated, valid_opt_name_with, valid_slot, Attr, DecodeError,
    attrs_wf, lemma_attr_text_split, lemma_name_at_absent, lemma_put, valid_opt_name,
    lemma_part_segments, parts_fit,
};
use crate::structs::equippable_attributes::{copy_bytes, copy_opt_bytes, unequipped_item_name};
use crate::structs::slot::{valid_slot_name, Slot};
use crate::utils::byte_spec::{
    capitalized, join, lemma_contains_scan_byte, lower, lowercase, opt_view, pad,
    split_capped, upper, views,
};
use crate::utils::managed_buffer_utils::ascii_lower;
use crate::utils::managed_buffer_utils::bytes_eq;
use crate::utils::managed_vec_utils::{item_views, EqUtils, ItemEq};
use crate::utils::ManagedBufferUtils;

verus! {

/// The invariant of equippable NFT attributes: valid lower-case slots, names
/// without separators, each slot once, sorted by slot.
pub open spec fn nft_attrs_wf(s: Seq<Attr>) -> bool {
    &&& attrs_wf_with(s, false)
    &&& forall|i: int| 0 <= i < s.len() ==> valid_slot_name(#[trigger] s[i].0)
}

/// `Slot:name` with the slot's first letter upper-cased.
pub open spec fn nft_attr_text(a: Attr) -> Seq<u8> {
    capitalized(a.0).push(colon()) + name_text(a.1)
}

pub open spec fn nft_attr_texts(s: Seq<Attr>) -> Seq<Seq<u8>> {
    Seq::new(s.len(), |i: int| nft_attr_text(s[i]))
}

/// The text form of equippable NFT attributes.
pub open spec fn encode_nft_attrs(s: Seq<Attr>) -> Seq<u8> {
    join(nft_attr_texts(s), semicolon())
}

/// The slot a text shows: its first letter, which the text writes
/// upper-cased, read back in lower case.
pub open spec fn uncapitalized(s: Seq<u8>) -> Seq<u8> {
    if s.len() == 0 {
        s
    } else {
        seq![lower(s[0])] + s.skip(1)
    }
}

/// Decoding of the parts: the slot of each is read with its first letter in
/// lower case, and must then be in lower case.
pub open spec fn decode_nft_parts(parts: Seq<Seq<u8>>) -> Result<Seq<Attr>, DecodeError>
    decreases parts.len(),
{
    if parts.len() == 0 {
        Ok(Seq::empty())
    } else {
        match decode_nft_parts(parts.drop_last()) {
            Err(e) => Err(e),
            Ok(acc) => {
                let sub = split_capped(parts.last(), colon(), 512);
                if sub.len() != 2 {
                    Err(DecodeError::CannotDecodeAttribute)
                } else if uncapitalized(sub[0]) != lowercase(uncapitalized(sub[0])) {
                    Err(DecodeError::SlotMustBeLowercase)
                } else if name_at(acc, uncapitalized(sub[0])) is Some {
                    Err(DecodeError::SlotNotEmpty)
                } else {
                    Ok(put(acc, uncapitalized(sub[0]), decode_name(sub[1])))
                }
            },
        }
    }
}

/// What a text decodes to as equippable NFT attributes.
pub open spec fn decode_nft_attrs(input: Seq<u8>) -> Result<Seq<Attr>, DecodeError> {
    if input.len() > 512 {
        Err(DecodeError::BufferTooBig)
    } else {
        decode_nft_parts(split_capped(input, semicolon(), 512))
    }
}

/// Why a name is refused.
#[derive(PartialEq, Eq, Structural, Clone, Copy, Debug)]
pub enum NftNameError {
    /// The name is longer than the scratch buffer.
    BufferTooBig,
    /// The name holds `:` or `;`.
    NameContainsUnsupportedCharacters,
}

/// Checks a name before it is stored: refused when it holds a separator.
pub fn panic_if_name_contains_unsupported_characters(opt_name: &Option<Vec<u8>>) -> (r: Result<(), NftNameError>)
    ensures
        match *opt_name {
            None => r is Ok,
            Some(name) => r == (if name@.len() > 512 {
                Err(NftNameError::BufferTooBig)
            } else if name@.contains(semicolon()) || name@.contains(colon()) {
                Err(NftNameError::NameContainsUnsupportedCharacters)
            } else {
                Ok(())
            }),
        },
        r is Ok <==> valid_opt_name_with(opt_view(*opt_name), false),
{
    match opt_name {
        None => Ok(()),
        Some(name) => {
            if name.len() > 512 {
                return Err(NftNameError::BufferTooBig);
            }
            let semicolon_text: [u8; 1] = [59u8];
            let colon_text: [u8; 1] = [58u8];
            proof {
                lemma_contains_scan_byte(name@, 59u8, 0);
                lemma_contains_scan_byte(name@, 58u8, 0);
                assert(semicolon_text@ =~= seq![59u8]);
                assert(colon_text@ =~= seq![58u8]);
                assert(name@.skip(0) =~= name@);
            }
            if name.contains(&semicolon_text) || name.contains(&colon_text) {
                return Err(NftNameError::NameContainsUnsupportedCharacters);
            }
            Ok(())
        },
    }
}

/// One slot of an equippable NFT and the name of the item on it, if any.
pub struct EquippableNftAttribute {
    pub slot: Slot,
    pub name: Option<Vec<u8>>,
}

impl View for EquippableNftAttribute {
    type V = Attr;

    open spec fn view(&self) -> Attr {
        (self.slot@, opt_view(self.name))
    }
}

pub open spec fn nft_attr_views(v: Seq<EquippableNftAttribute>) -> Seq<Attr> {
    Seq::new(v.len(), |i: int| v[i]@)
}

impl EquippableNftAttribute {
    /// `Slot:name`, the slot with its first letter upper-cased and
    /// `unequipped` for an empty slot.
    pub fn to_buffer(&self) -> (r: Vec<u8>)
        requires
            self.slot.wf(),
            self.slot@.len() >= 1,
        ensures
            r@ == nft_attr_text(self@),
    {
        let item_name = match &self.name {
            Some(name) => copy_bytes(name),
            None => unequipped_item_name(),
        };
        let mut output = self.slot.capitalized();
        output.push(58u8);
        let r = crate::utils::concat(output, &item_name);
        r
    }

    /// Reads `slot:name` back, the slot's first letter in either case (the
    /// text writes it upper-cased); the slot read must be a valid slot name.
    pub fn from_buffer(input: Vec<u8>) -> (r: Self)
        requires
            input@.len() <= 512,
            split_capped(input@, colon(), 512).len() == 2,
            valid_slot_name(uncapitalized(split_capped(input@, colon(), 512)[0])),
        ensures
            r@ == (uncapitalized(split_capped(input@, colon(), 512)[0]), decode_name(
                split_capped(input@, colon(), 512)[1],
            )),
            r.slot.wf(),
    {
        let parts = input.split(58u8);
        assert(views(parts@)[1] == parts@[1]@);
        assert(views(parts@)[0] == parts@[0]@);
        let name = copy_bytes(&parts[1]);
        let unequipped_name = unequipped_item_name();
        let opt_name = if bytes_eq(&name, &unequipped_name) {
            None
        } else {
            Some(name)
        };
        EquippableNftAttribute { slot: Slot::new_from_buffer(uncapitalize(&parts[0])), name: opt_name }
    }

    /// A copy of the attribute.
    pub fn copy(&self) -> (r: Self)
        ensures
            r@ == self@,
    {
        EquippableNftAttribute { slot: self.slot.copy(), name: copy_opt_bytes(&self.name) }
    }

    fn same_as(&self, other: &Self) -> (r: bool)
        ensures
            r == (self@ == other@),
    {
        self.slot == other.slot && match (&self.name, &other.name) {
            (Some(x), Some(y)) => bytes_eq(x, y),
            (None, None) => true,
            _ => false,
        }
    }
}

/// The text of a slot with its first letter in lower case.
fn uncapitalize(s: &Vec<u8>) -> (r: Vec<u8>)
    ensures
        r@ == uncapitalized(s@),
{
    let mut r: Vec<u8> = Vec::new();
    let mut i: usize = 0;
    while i < s.len()
        invariant
            i <= s.len(),
            r@.len() == i,
            forall|k: int| 0 < k < i ==> r@[k] == s@[k],
            i > 0 ==> r@[0] == lower(s@[0]),
        decreases s.len() - i,
    {
        if i == 0 {
            r.push(ascii_lower(s[i]));
        } else {
            r.push(s[i]);
        }
        i += 1;
    }
    if s.len() > 0 {
        assert(r@ =~= uncapitalized(s@));
    } else {
        assert(r@ =~= s@);
    }
    r
}

/// Reading the first letter in lower case keeps a slot free of separators.
proof fn lemma_uncapitalized_valid(s: Seq<u8>)
    requires
        valid_slot(s),
    ensures
        valid_slot(uncapitalized(s)),
        uncapitalized(s).len() == s.len(),
{
    let u = uncapitalized(s);
    if s.len() > 0 {
        assert forall|m: int| 0 <= m < u.len() implies u[m] != colon() && u[m] != semicolon() by {
            if m > 0 {
                assert(u[m] == s[m]);
                assert(s.contains(s[m]));
            } else {
                assert(s.contains(s[0]));
            }
        }
    }
}

/// A capitalized lower-case slot reads back as itself.
proof fn lemma_uncapitalized_capitalized(s: Seq<u8>)
    requires
        s.len() >= 1,
        s == lowercase(s),
    ensures
        uncapitalized(capitalized(s)) == s,
{
    assert(s[0] == lowercase(s)[0]);
    assert(lower(upper(s[0])) == s[0]);
    assert(uncapitalized(capitalized(s)) =~= s);
}

/// Setting a slot keeps the NFT invariant.
pub proof fn lemma_nft_put(s: Seq<Attr>, slot: Seq<u8>, name: Option<Seq<u8>>)
    requires
        nft_attrs_wf(s),
        valid_slot_name(slot),
        valid_opt_name_with(name, false),
    ensures
        nft_attrs_wf(put(s, slot, name)),
{
    lemma_put_with(s, slot, name, false);
    let r = put(s, slot, name);
    assert forall|i: int| 0 <= i < r.len() implies valid_slot_name(#[trigger] r[i].0) by {
        if r[i] != (slot, name) {
            let m = choose|m: int| 0 <= m < s.len() && s[m] == r[i];
            assert(valid_slot_name(s[m].0));
        }
    }
}

/// The slots of an equippable NFT, each once, kept in alphabetical order.
pub struct EquippableNftAttributes {
    items: Vec<EquippableNftAttribute>,
}

impl View for EquippableNftAttributes {
    type V = Seq<Attr>;

    closed spec fn view(&self) -> Seq<Attr> {
        nft_attr_views(self.items@)
    }
}

/// Sorting of NFT attributes by slot.
pub trait SortUtils: Sized {
    /// Whether every slot is a valid slot name.
    spec fn sortable(&self) -> bool;

    fn sort_alphabetically(&self) -> Self
        requires
            self.sortable(),
    ;
}

impl SortUtils for Vec<EquippableNftAttribute> {
    open spec fn sortable(&self) -> bool {
        forall|j: int| 0 <= j < self.len() ==> (#[trigger] self@[j]).slot.wf()
    }

    /// Selection sort by slot: each round takes the smallest remaining slot
    /// (the last of equal ones).
    fn sort_alphabetically(&self) -> (r: Self)
        ensures
            nft_attr_views(r@) == sort_attrs(nft_attr_views(self@)),
    {
        let mut remaining_items: Vec<EquippableNftAttribute> = Vec::new();
        let mut i: usize = 0;
        while i < self.len()
            invariant
                i <= self.len(),
                nft_attr_views(remaining_items@) =~= nft_attr_views(self@).take(i as int),
                forall|j: int| 0 <= j < remaining_items.len() ==> (#[trigger] remaining_items@[j]).slot.wf(),
                self.sortable(),
            decreases self.len() - i,
        {
            let item = self[i].copy();
            let ghost before = remaining_items@;
            remaining_items.push(item);
            assert(remaining_items@ == before.push(item));
            assert(item@ == nft_attr_views(self@)[i as int]);
            assert(nft_attr_views(remaining_items@) =~= nft_attr_views(before).push(item@));
            assert(nft_attr_views(self@).take(i + 1) =~= nft_attr_views(self@).take(i as int).push(
                nft_attr_views(self@)[i as int],
            ));
            i += 1;
        }
        assert(nft_attr_views(self@).take(self.len() as int) =~= nft_attr_views(self@));
        let mut output: Vec<EquippableNftAttribute> = Vec::new();
        assert(nft_attr_views(output@) + sort_attrs(nft_attr_views(remaining_items@)) =~= sort_attrs(
            nft_attr_views(self@),
        ));
        while remaining_items.len() > 0
            invariant
                nft_attr_views(output@) + sort_attrs(nft_attr_views(remaining_items@)) == sort_attrs(
                    nft_attr_views(self@),
                ),
                forall|j: int| 0 <= j < remaining_items.len() ==> (#[trigger] remaining_items@[j]).slot.wf(),
            decreases remaining_items.len(),
        {
            let ghost rem = nft_attr_views(remaining_items@);
            let smallest_item_index = last_min_position(&remaining_items);
            proof {
                lemma_last_min_index_range(rem, rem.len());
            }
            let smallest_item = remaining_items.remove(smallest_item_index);
            assert(nft_attr_views(remaining_items@) =~= rem.remove(smallest_item_index as int));
            output.push(smallest_item);
            assert(nft_attr_views(output@) + sort_attrs(nft_attr_views(remaining_items@)) =~= sort_attrs(
                nft_attr_views(self@),
            ));
        }
        assert(sort_attrs(nft_attr_views(remaining_items@)) =~= Seq::<Attr>::empty());
        assert(nft_attr_views(output@) =~= sort_attrs(nft_attr_views(self@)));
        output
    }
}

fn last_min_position(items: &Vec<EquippableNftAttribute>) -> (r: usize)
    requires
        items.len() > 0,
        forall|j: int| 0 <= j < items.len() ==> (#[trigger] items@[j]).slot.wf(),
    ensures
        r == last_min_index(nft_attr_views(items@), items.len() as nat),
{
    let mut smallest_item_index: usize = 0;
    let mut index: usize = 0;
    while index < items.len()
        invariant
            index <= items.len(),
            items.len() > 0,
            forall|j: int| 0 <= j < items.len() ==> (#[trigger] items@[j]).slot.wf(),
            smallest_item_index == last_min_index(nft_attr_views(items@), index as nat),
            index > 0 ==> smallest_item_index < index,
        decreases items.len() - index,
    {
        proof {
            lemma_last_min_index_range(nft_attr_views(items@), index as nat);
        }
        let c = crate::utils::managed_buffer_utils::compare_padded(
            items[index].slot.as_bytes(),
            items[smallest_item_index].slot.as_bytes(),
        );
        if c <= 0 {
            smallest_item_index = index;
        }
        index += 1;
    }
    smallest_item_index
}

impl EquippableNftAttributes {
    /// The invariant: valid lower-case slots, each once, in alphabetical
    /// order, and names without separators.
    pub open spec fn wf(&self) -> bool {
        nft_attrs_wf(self@)
    }

    /// No item on any slot.
    pub fn empty() -> (r: Self)
        ensures
            r@ == Seq::<Attr>::empty(),
            r.wf(),
    {
        let r = EquippableNftAttributes { items: Vec::new() };
        assert(r@ =~= Seq::<Attr>::empty());
        r
    }

    fn get_index(&self, slot: &Slot) -> (r: Option<usize>)
        ensures
            match r {
                Some(i) => index_of(self@, slot@) == i && i < self@.len(),
                None => index_of(self@, slot@) == -1,
            },
    {
        proof {
            lemma_index_of(self@, slot@);
        }
        assert(self@.len() == self.items.len());
        let mut i: usize = 0;
        while i < self.items.len()
            invariant
                i <= self.items.len(),
                self@.len() == self.items.len(),
                forall|j: int| 0 <= j < i ==> self@[j].0 != slot@,
            decreases self.items.len() - i,
        {
            if self.items[i].slot == *slot {
                assert(self@[i as int].0 == slot@);
                proof {
                    lemma_index_of(self@, slot@);
                    let k = index_of(self@, slot@);
                    if k < 0 {
                        assert(self@[i as int].0 != slot@);
                    } else if k < i {
                        assert(self@[k].0 != slot@);
                    } else if k > i {
                        assert(self@[i as int].0 != slot@);
                    }
                }
                return Some(i);
            }
            assert(self@[i as int].0 == self.items@[i as int].slot@);
            i += 1;
        }
        None
    }

    /// The name of the item on `slot`; `None` when the slot is empty or unknown.
    pub fn get_name(&self, slot: &Slot) -> (r: Option<Vec<u8>>)
        ensures
            opt_view(r) == name_at(self@, slot@),
    {
        match self.get_index(slot) {
            Some(index) => {
                assert(self@[index as int] == self.items@[index as int]@);
                copy_opt_bytes(&self.items[index].name)
            },
            None => None,
        }
    }

    /// Sets `slot`, which must hold no item yet.
    pub fn set_item_if_empty(&mut self, slot: &Slot, name: Option<Vec<u8>>)
        requires
            old(self).wf(),
            slot.wf(),
            valid_opt_name_with(opt_view(name), false),
            name_at(old(self)@, slot@) is None,
        ensures
            final(self)@ == put(old(self)@, slot@, opt_view(name)),
            final(self).wf(),
    {
        self.set_item(slot, name)
    }

    /// Sets `slot` to `opt_name` (an empty slot for `None`), replacing what
    /// it held, and sorts the slots again.
    pub fn set_item(&mut self, slot: &Slot, opt_name: Option<Vec<u8>>)
        requires
            old(self).wf(),
            slot.wf(),
            valid_opt_name_with(opt_view(opt_name), false),
        ensures
            final(self)@ == put(old(self)@, slot@, opt_view(opt_name)),
            final(self).wf(),
            name_at(final(self)@, slot@) == opt_view(opt_name),
            forall|other: Seq<u8>| other != slot@ ==> #[trigger] name_at(final(self)@, other) == name_at(old(self)@, other),
    {
        let ghost s = self@;
        let index = self.get_index(slot);
        assert(s.len() == self.items.len());
        let new_equippable_attribute = EquippableNftAttribute { slot: slot.copy(), name: opt_name };
        match index {
            Some(index) => {
                self.items.set(index, new_equippable_attribute);
            },
            None => {
                self.items.push(new_equippable_attribute);
            },
        }
        assert(nft_attr_views(self.items@) =~= updated(s, slot@, opt_view(opt_name)));
        assert forall|j: int| 0 <= j < self.items.len() implies (#[trigger] self.items@[j]).slot.wf() by {
            assert(nft_attr_views(self.items@)[j] == self.items@[j]@);
            if index.is_some() && j == index.unwrap() as int || index.is_none() && j == s.len() {
            } else {
                assert(self.items@[j]@ == s[j]);
                assert(valid_slot_name(s[j].0));
            }
        }
        self.items = self.items.sort_alphabetically();
        proof {
            lemma_nft_put(s, slot@, opt_view(opt_name));
            lemma_put_with(s, slot@, opt_view(opt_name), false);
        }
    }

    /// Whether `slot` holds no item.
    pub fn is_slot_empty(&self, slot: &Slot) -> (r: bool)
        ensures
            r == (name_at(self@, slot@) is None),
    {
        match self.get_name(slot) {
            Some(_) => false,
            None => true,
        }
    }

    /// Takes the item off `slot`; the slot stays, as `unequipped`.
    pub fn empty_slot(&mut self, slot: &Slot)
        requires
            old(self).wf(),
            slot.wf(),
        ensures
            final(self)@ == put(old(self)@, slot@, None),
            final(self).wf(),
    {
        self.set_item(slot, None)
    }

    /// The text form: `Slot:name` parts, slots capitalized, joined with `;`.
    pub fn top_encode(&self) -> (r: Vec<u8>)
        requires
            self.wf(),
            forall|i: int| 0 <= i < self@.len() ==> (#[trigger] self@[i]).0.len() >= 1,
            encode_nft_attrs(self@).len() <= 512,
        ensures
            r@ == encode_nft_attrs(self@),
    {
        let ghost texts = nft_attr_texts(self@);
        let mut managed_buffer: Vec<u8> = Vec::new();
        let n = self.items.len();
        let mut i: usize = 0;
        while i < n
            invariant
                n == self.items.len(),
                texts == nft_attr_texts(self@),
                self.wf(),
                forall|m: int| 0 <= m < self@.len() ==> (#[trigger] self@[m]).0.len() >= 1,
                i <= n,
                i == 0 ==> managed_buffer@ == Seq::<u8>::empty(),
                0 < i < n ==> managed_buffer@ == join(texts.take(i as int), semicolon()).push(semicolon()),
                i == n && n > 0 ==> managed_buffer@ == join(texts.take(i as int), semicolon()),
            decreases n - i,
        {
            assert(self@[i as int] == self.items@[i as int]@);
            assert(valid_slot_name(self@[i as int].0));
            let part = self.items[i].to_buffer();
            assert(part@ == texts[i as int]);
            let ghost before = managed_buffer@;
            let mut k: usize = 0;
            while k < part.len()
                invariant
                    k <= part.len(),
                    managed_buffer@ =~= before + part@.take(k as int),
                decreases part.len() - k,
            {
                managed_buffer.push(part[k]);
                k += 1;
            }
            assert(part@.take(part.len() as int) =~= part@);
            let ghost t1 = texts.take(i + 1);
            assert(t1.drop_last() =~= texts.take(i as int));
            if i == 0 {
                assert(t1 =~= seq![texts[0]]);
                assert(managed_buffer@ =~= join(t1, semicolon()));
            } else {
                assert(managed_buffer@ =~= join(t1, semicolon()));
            }
            if i + 1 < n {
                managed_buffer.push(59u8);
            }
            i += 1;
        }
        assert(texts.take(n as int) =~= texts);
        if n == 0 {
            assert(managed_buffer@ =~= encode_nft_attrs(self@));
        }
        let bytes = managed_buffer.load_512_bytes();
        let mut output: Vec<u8> = Vec::new();
        let mut j: usize = 0;
        while j < managed_buffer.len()
            invariant
                j <= managed_buffer.len(),
                managed_buffer.len() <= 512,
                bytes@ == pad(managed_buffer@, 512),
                output@ =~= managed_buffer@.take(j as int),
            decreases managed_buffer.len() - j,
        {
            output.push(bytes[j]);
            j += 1;
        }
        assert(managed_buffer@.take(managed_buffer.len() as int) =~= managed_buffer@);
        output
    }

    /// Reads the text form back: each `;`-separated part is `slot:name` with
    /// the slot in lower case but for its first letter, which may be
    /// upper-cased as the text form writes it, `unequipped` stands for an empty slot, and a
    /// slot that already holds an item may not be set again.
    pub fn top_decode(input: &Vec<u8>) -> (r: Result<Self, DecodeError>)
        ensures
            match r {
                Ok(a) => decode_nft_attrs(input@) == Ok::<Seq<Attr>, DecodeError>(a@) && a.wf(),
                Err(e) => decode_nft_attrs(input@) == Err::<Seq<Attr>, DecodeError>(e),
            },
    {
        if input.len() > 512 {
            return Err(DecodeError::BufferTooBig);
        }
        let mut equippable_attributes = EquippableNftAttributes::empty();
        let items_raw = input.split(59u8);
        let ghost parts = views(items_raw@);
        proof {
            lemma_split_capped_segments(input@, semicolon(), 512);
        }
        assert(parts.take(0) =~= Seq::<Seq<u8>>::empty());
        let mut i: usize = 0;
        while i < items_raw.len()
            invariant
                input.len() <= 512,
                parts == views(items_raw@),
                parts == split_capped(input@, semicolon(), 512),
                forall|m: int| 0 <= m < parts.len() ==> !(#[trigger] parts[m]).contains(semicolon()) && parts[m].len() <= 512,
                i <= items_raw.len(),
                decode_nft_parts(parts.take(i as int)) == Ok::<Seq<Attr>, DecodeError>(equippable_attributes@),
                equippable_attributes.wf(),
            decreases items_raw.len() - i,
        {
            let item_raw = &items_raw[i];
            assert(item_raw@ == parts[i as int]);
            let ghost next = parts.take(i + 1);
            assert(next.drop_last() =~= parts.take(i as int));
            assert(next.last() == item_raw@);
            let sub = item_raw.split(58u8);
            if sub.len() != 2 {
                proof {
                    lemma_nft_decode_err_prefix(parts, i + 1);
                }
                return Err(DecodeError::CannotDecodeAttribute);
            }
            let ghost sub_v = split_capped(item_raw@, colon(), 512);
            proof {
                lemma_split_capped_segments(item_raw@, colon(), 512);
                assert(!sub_v[0].contains(colon()));
                assert(!sub_v[1].contains(colon()));
                assert(!sub_v[0].contains(semicolon()));
                assert(!sub_v[1].contains(semicolon()));
            }
            assert(views(sub@)[0] == sub@[0]@);
            proof {
                lemma_split_capped_segments(input@, semicolon(), 512);
                assert(sub_v[0].len() <= item_raw@.len());
                lemma_uncapitalized_valid(sub_v[0]);
            }
            let slot_text = uncapitalize(&sub[0]);
            if !crate::utils::managed_buffer_utils::ManagedBufferUtils::is_lowercase(&slot_text) {
                proof {
                    lemma_nft_decode_err_prefix(parts, i + 1);
                }
                return Err(DecodeError::SlotMustBeLowercase);
            }
            let attribute = EquippableNftAttribute::from_buffer(copy_bytes(item_raw));
            if !equippable_attributes.is_slot_empty(&attribute.slot) {
                proof {
                    lemma_nft_decode_err_prefix(parts, i + 1);
                }
                return Err(DecodeError::SlotNotEmpty);
            }
            equippable_attributes.set_item_if_empty(&attribute.slot, attribute.name);
            i += 1;
        }
        assert(parts.take(items_raw.len() as int) =~= parts);
        Ok(equippable_attributes)
    }
}

/// Once a prefix of the parts fails to decode, all of them do, with the same
/// error.
proof fn lemma_nft_decode_err_prefix(parts: Seq<Seq<u8>>, k: int)
    requires
        0 <= k <= parts.len(),
        decode_nft_parts(parts.take(k)) is Err,
    ensures
        decode_nft_parts(parts) == decode_nft_parts(parts.take(k)),
    decreases parts.len() - k,
{
    if k < parts.len() {
        assert(parts.take(k + 1).drop_last() =~= parts.take(k));
        lemma_nft_decode_err_prefix(parts, k + 1);
    } else {
        assert(parts.take(k) =~= parts);
    }
}

impl ItemEq for EquippableNftAttribute {
    fn same_as(&self, other: &Self) -> (r: bool) {
        EquippableNftAttribute::same_as(self, other)
    }

    fn copy(&self) -> (r: Self) {
        EquippableNftAttribute::copy(self)
    }
}

impl PartialEq for EquippableNftAttributes {
    /// Two sets of NFT attributes are equal when they hold the same
    /// attributes, whatever their order.
    fn eq(&self, other: &Self) -> (r: bool) {
        assert(self@ =~= item_views(self.items@));
        assert(other@ =~= item_views(other.items@));
        self.items.eq_unorder(&other.items)
    }
}

impl vstd::std_specs::cmp::PartialEqSpecImpl for EquippableNftAttributes {
    open spec fn obeys_eq_spec() -> bool {
        true
    }

    open spec fn eq_spec(&self, other: &Self) -> bool {
        self@.to_multiset() == other@.to_multiset()
    }
}

/// The text of one NFT attribute is that of the attribute with its slot
/// capitalized; it splits into that slot and the name's text.
proof fn lemma_nft_attr_text_split(x: Attr)
    requires
        valid_slot_name(x.0),
        x.0.len() >= 1,
        valid_opt_name(x.1),
        nft_attr_text(x).len() < 512,
    ensures
        split_capped(nft_attr_text(x), colon(), 512) == seq![capitalized(x.0), name_text(x.1)],
        uncapitalized(capitalized(x.0)) == x.0,
        decode_name(name_text(x.1)) == x.1,
        !nft_attr_text(x).contains(semicolon()),
{
    let c = capitalized(x.0);
    assert(valid_slot(c)) by {
        assert forall|m: int| 0 <= m < c.len() implies c[m] != colon() && c[m] != semicolon() by {
            if m > 0 {
                assert(c[m] == x.0[m]);
                assert(x.0.contains(x.0[m]));
            }
        }
    }
    assert(nft_attr_text(x) == attr_text((c, x.1)));
    lemma_attr_text_split((c, x.1));
    lemma_uncapitalized_capitalized(x.0);
}

/// Law: the text `to_buffer` writes for one attribute is read back by
/// `from_buffer` as the same attribute: the slot, shown capitalized, read in
/// lower case, and the name (not `unequipped`, the text of an empty slot).
pub proof fn law_nft_attribute_buffer_roundtrip(x: Attr)
    requires
        valid_slot_name(x.0),
        x.0.len() >= 1,
        valid_opt_name(x.1),
        nft_attr_text(x).len() < 512,
    ensures
        split_capped(nft_attr_text(x), colon(), 512).len() == 2,
        valid_slot_name(uncapitalized(split_capped(nft_attr_text(x), colon(), 512)[0])),
        (uncapitalized(split_capped(nft_attr_text(x), colon(), 512)[0]), decode_name(
            split_capped(nft_attr_text(x), colon(), 512)[1],
        )) == x,
{
    lemma_nft_attr_text_split(x);
}

proof fn lemma_nft_decode_parts_texts(a: Seq<Attr>, k: nat)
    requires
        attrs_wf(a),
        nft_attrs_wf(a),
        k <= a.len(),
        forall|i: int| 0 <= i < a.len() ==> (#[trigger] a[i].0).len() >= 1,
        forall|i: int| 0 <= i < a.len() ==> (#[trigger] nft_attr_text(a[i])).len() < 512,
    ensures
        decode_nft_parts(nft_attr_texts(a).take(k as int)) is Ok,
        attrs_wf(decode_nft_parts(nft_attr_texts(a).take(k as int))->Ok_0),
        decode_nft_parts(nft_attr_texts(a).take(k as int))->Ok_0.to_multiset() == a.take(k as int).to_multiset(),
    decreases k,
{
    broadcast use vstd::seq_lib::group_to_multiset_ensures;

    let texts = nft_attr_texts(a);
    if k == 0 {
        assert(texts.take(0) =~= Seq::<Seq<u8>>::empty());
        assert(a.take(0) =~= Seq::<Attr>::empty());
    } else {
        let j = (k - 1) as int;
        lemma_nft_decode_parts_texts(a, (k - 1) as nat);
        assert(texts.take(k as int).drop_last() =~= texts.take(j));
        assert(texts.take(k as int).last() == nft_attr_text(a[j]));
        let acc = decode_nft_parts(texts.take(j))->Ok_0;
        let x = a[j];
        assert(valid_slot_name(x.0));
        assert(x.0.len() >= 1);
        assert(nft_attr_text(x).len() < 512);
        lemma_nft_attr_text_split(x);
        assert forall|m: int| 0 <= m < acc.len() implies acc[m].0 != x.0 by {
            assert(acc.to_multiset().count(acc[m]) > 0);
            assert(a.take(j).contains(acc[m]));
            let q = choose|q: int| 0 <= q < a.take(j).len() && a.take(j)[q] == acc[m];
            assert(a[q] == acc[m]);
        }
        lemma_name_at_absent(acc, x.0);
        lemma_put(acc, x.0, x.1);
        assert(a.take(k as int) =~= a.take(j).push(x));
        vstd::seq_lib::to_multiset_build(acc, x);
        vstd::seq_lib::to_multiset_build(a.take(j), x);
    }
}

/// Law: the text of NFT attributes decodes to the same attributes (in any
/// order): the slots, which the text shows with their first letter
/// upper-cased, read back in lower case, provided no item is named
/// `unequipped` (the text of an empty slot).
pub proof fn law_nft_decode_encode_roundtrip(a: Seq<Attr>)
    requires
        nft_attrs_wf(a),
        forall|i: int| 0 <= i < a.len() ==> (#[trigger] a[i].0).len() >= 1,
        forall|i: int| 0 <= i < a.len() ==> valid_opt_name_with(#[trigger] a[i].1, true),
        encode_nft_attrs(a).len() < 512,
    ensures
        decode_nft_attrs(encode_nft_attrs(a)) is Ok,
        decode_nft_attrs(encode_nft_attrs(a))->Ok_0.to_multiset() == a.to_multiset(),
{
    assert(attrs_wf(a)) by {
        assert forall|i: int| 0 <= i < a.len() implies valid_slot(#[trigger] a[i].0) && valid_opt_name_with(a[i].1, true) by {
            assert(valid_slot_name(a[i].0));
        }
    }
    let texts = nft_attr_texts(a);
    if a.len() == 0 {
        assert(encode_nft_attrs(a) =~= Seq::<u8>::empty());
        assert(a =~= Seq::<Attr>::empty());
        assert(split_capped(Seq::<u8>::empty(), semicolon(), 512) =~= Seq::<Seq<u8>>::empty()) by {
            assert(decode_nft_attrs(encode_nft_attrs(a)) == decode_nft_parts(split_capped(Seq::<u8>::empty(), semicolon(), 512)));
        }
    } else {
        assert forall|i: int| 0 <= i < texts.len() implies !(#[trigger] texts[i]).contains(semicolon()) && texts[i].len() < 512 by {
            crate::structs::attribute_spec::lemma_join_part_len(texts, semicolon(), i);
            assert(texts[i] == nft_attr_text(a[i]));
            lemma_nft_attr_text_split(a[i]);
        }
        assert forall|i: int| 0 <= i < a.len() implies (#[trigger] nft_attr_text(a[i])).len() < 512 by {
            assert(texts[i] == nft_attr_text(a[i]));
        }
        crate::utils::byte_spec::lemma_split_join(texts, semicolon());
        assert(split_capped(encode_nft_attrs(a), semicolon(), 512) == texts);
        lemma_nft_decode_parts_texts(a, a.len());
        assert(texts.take(a.len() as int) =~= texts);
        assert(a.take(a.len() as int) =~= a);
    }
}

/// Decoding NFT attributes sets every part: each part is `Slot:name`, the
/// slot (its first letter read in lower case) of a part that no later part
/// sets again reads that part's name (none for `unequipped`), and the result
/// holds no slot that no part names; the result is well formed.
proof fn lemma_decode_nft_parts_sets_every_part(parts: Seq<Seq<u8>>)
    requires
        parts_fit(parts),
    ensures
        decode_nft_parts(parts) is Ok ==> ({
            let r = decode_nft_parts(parts)->Ok_0;
            &&& nft_attrs_wf(r)
            &&& forall|i: int| 0 <= i < parts.len() ==> (#[trigger] split_capped(parts[i], colon(), 512)).len() == 2
            &&& forall|i: int| 0 <= i < parts.len()
                && (forall|j: int| i < j < parts.len() ==> uncapitalized((#[trigger] split_capped(parts[j], colon(), 512))[0]) != uncapitalized(split_capped(parts[i], colon(), 512)[0]))
                ==> name_at(r, uncapitalized((#[trigger] split_capped(parts[i], colon(), 512))[0])) == decode_name(split_capped(parts[i], colon(), 512)[1])
            &&& forall|k: int| 0 <= k < r.len() ==> exists|i: int| 0 <= i < parts.len() && (#[trigger] r[k]).0 == uncapitalized((#[trigger] split_capped(parts[i], colon(), 512))[0])
        }),
    decreases parts.len(),
{
    if parts.len() > 0 {
        let init = parts.drop_last();
        assert forall|i: int| 0 <= i < init.len() implies !(#[trigger] init[i]).contains(semicolon()) && init[i].len() <= 512 by {
            assert(init[i] == parts[i]);
        }
        lemma_decode_nft_parts_sets_every_part(init);
        if decode_nft_parts(parts) is Ok {
            let acc = decode_nft_parts(init)->Ok_0;
            let n = parts.len() - 1;
            let last = parts.last();
            assert(last == parts[n]);
            let sub = split_capped(last, colon(), 512);
            lemma_part_segments(last);
            lemma_uncapitalized_valid(sub[0]);
            let u = uncapitalized(sub[0]);
            let name = decode_name(sub[1]);
            assert(valid_slot_name(u));
            assert(valid_opt_name_with(name, false));
            lemma_nft_put(acc, u, name);
            lemma_put_with(acc, u, name, false);
            let r = put(acc, u, name);
            assert(decode_nft_parts(parts)->Ok_0 == r);
            assert forall|i: int| 0 <= i < parts.len() implies (#[trigger] split_capped(parts[i], colon(), 512)).len() == 2 by {
                if i < n {
                    assert(init[i] == parts[i]);
                    assert(split_capped(init[i], colon(), 512).len() == 2);
                }
            }
            assert forall|i: int| 0 <= i < parts.len()
                && (forall|j: int| i < j < parts.len() ==> uncapitalized((#[trigger] split_capped(parts[j], colon(), 512))[0]) != uncapitalized(split_capped(parts[i], colon(), 512)[0]))
                implies name_at(r, uncapitalized((#[trigger] split_capped(parts[i], colon(), 512))[0])) == decode_name(split_capped(parts[i], colon(), 512)[1]) by {
                if i < n {
                    assert(init[i] == parts[i]);
                    assert forall|j: int| i < j < init.len() implies uncapitalized((#[trigger] split_capped(init[j], colon(), 512))[0]) != uncapitalized(split_capped(init[i], colon(), 512)[0]) by {
                        assert(init[j] == parts[j]);
                        assert(uncapitalized(split_capped(parts[j], colon(), 512)[0]) != uncapitalized(split_capped(parts[i], colon(), 512)[0]));
                    }
                    assert(uncapitalized(split_capped(parts[n], colon(), 512)[0]) != uncapitalized(split_capped(parts[i], colon(), 512)[0]));
                    assert(name_at(acc, uncapitalized(split_capped(init[i], colon(), 512)[0])) == decode_name(split_capped(init[i], colon(), 512)[1]));
                }
            }
            assert forall|k: int| 0 <= k < r.len() implies exists|i: int| 0 <= i < parts.len() && (#[trigger] r[k]).0 == uncapitalized((#[trigger] split_capped(parts[i], colon(), 512))[0]) by {
                if r[k] == (u, name) {
                    assert(r[k].0 == uncapitalized(split_capped(parts[n], colon(), 512)[0]));
                } else {
                    assert(acc.contains(r[k]));
                    let m = choose|m: int| 0 <= m < acc.len() && acc[m] == r[k];
                    assert(acc[m].0 == r[k].0);
                    let i = choose|i: int| 0 <= i < init.len() && (#[trigger] acc[m]).0 == uncapitalized((#[trigger] split_capped(init[i], colon(), 512))[0]);
                    assert(init[i] == parts[i]);
                    assert(r[k].0 == uncapitalized(split_capped(parts[i], colon(), 512)[0]));
                }
            }
        }
    }
}

/// Law: decoding NFT attributes reads every `;`-separated part, whatever
/// their order: each part is `Slot:name`, the slot (its first letter read in
/// lower case) of a part that no later part sets again reads the name of
/// its part (none for `unequipped`), and the attributes hold no slot that
/// no part names.
pub proof fn law_nft_decode_sets_every_part(t: Seq<u8>)
    ensures
        decode_nft_attrs(t) is Ok ==> ({
            let r = decode_nft_attrs(t)->Ok_0;
            let parts = split_capped(t, semicolon(), 512);
            &&& nft_attrs_wf(r)
            &&& forall|i: int| 0 <= i < parts.len() ==> (#[trigger] split_capped(parts[i], colon(), 512)).len() == 2
            &&& forall|i: int| 0 <= i < parts.len()
                && (forall|j: int| i < j < parts.len() ==> uncapitalized((#[trigger] split_capped(parts[j], colon(), 512))[0]) != uncapitalized(split_capped(parts[i], colon(), 512)[0]))
                ==> name_at(r, uncapitalized((#[trigger] split_capped(parts[i], colon(), 512))[0])) == decode_name(split_capped(parts[i], colon(), 512)[1])
            &&& forall|k: int| 0 <= k < r.len() ==> exists|i: int| 0 <= i < parts.len() && (#[trigger] r[k]).0 == uncapitalized((#[trigger] split_capped(parts[i], colon(), 512))[0])
        }),
{
    if decode_nft_attrs(t) is Ok {
        let parts = split_capped(t, semicolon(), 512);
        lemma_split_capped_segments(t, semicolon(), 512);
        assert(parts_fit(parts));
        lemma_decode_nft_parts_sets_every_part(parts);
    }
}

/// Law: setting a slot of NFT attributes keeps them well formed, gives that
/// slot the new name, and leaves every other slot as it was; an emptied slot
/// reads as empty.
pub proof fn law_nft_set_item_get_name(a: Seq<Attr>, slot: Seq<u8>, name: Option<Seq<u8>>, other: Seq<u8>)
    requires
        nft_attrs_wf(a),
        valid_slot_name(slot),
        valid_opt_name_with(name, false),
    ensures
        nft_attrs_wf(put(a, slot, name)),
        name_at(put(a, slot, name), slot) == name,
        other != slot ==> name_at(put(a, slot, name), other) == name_at(a, other),
        name_at(put(a, slot, None), slot) is None,
{
    lemma_nft_put(a, slot, name);
    lemma_put_with(a, slot, name, false);
    lemma_put_with(a, slot, None, false);
}

} // verus!
