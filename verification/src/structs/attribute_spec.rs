use vstd::prelude::*;
use crate::utils::byte_spec::{
    join, key_order, lemma_key_order_total, lemma_key_order_trans, lemma_split_join, split_all,
    split_capped,
};

verus! {

/// One attribute as a plain value: the slot and the name of the item
/// equipped on it, if any.
pub type Attr = (Seq<u8>, Option<Seq<u8>>);

/// The byte that separates a slot from its item name.
pub open spec fn colon() -> u8 {
    58u8
}

/// The byte that separates two attributes.
pub open spec fn semicolon() -> u8 {
    59u8
}

/// The text that stands for an empty slot: `unequipped`.
pub open spec fn unequipped() -> Seq<u8> {
    seq![117u8, 110u8, 101u8, 113u8, 117u8, 105u8, 112u8, 112u8, 101u8, 100u8]
}

/// A slot the attributes accept: no separator, and small enough for the
/// 512-byte scratch buffer.
pub open spec fn valid_slot(s: Seq<u8>) -> bool {
    &&& s.len() <= 512
    &&& !s.contains(colon())
    &&& !s.contains(semicolon())
}

/// An item name the attributes accept: no separator, small enough for the
/// scratch buffer, and, when `strict`, not the text of an empty slot.
pub open spec fn valid_name_with(n: Seq<u8>, strict: bool) -> bool {
    &&& n.len() <= 512
    &&& !n.contains(colon())
    &&& !n.contains(semicolon())
    &&& strict ==> n != unequipped()
}

pub open spec fn valid_opt_name_with(o: Option<Seq<u8>>, strict: bool) -> bool {
    match o {
        Some(n) => valid_name_with(n, strict),
        None => true,
    }
}

/// An item name the attributes accept.
pub open spec fn valid_name(n: Seq<u8>) -> bool {
    valid_name_with(n, true)
}

pub open spec fn valid_opt_name(o: Option<Seq<u8>>) -> bool {
    valid_opt_name_with(o, true)
}

pub open spec fn slots_distinct(s: Seq<Attr>) -> bool {
    forall|i: int, j: int| 0 <= i < j < s.len() ==> s[i].0 != s[j].0
}

pub open spec fn slots_sorted(s: Seq<Attr>) -> bool {
    forall|i: int, j: int| 0 <= i < j < s.len() ==> key_order(s[i].0, s[j].0) <= 0
}

/// The invariant of a set of attributes: valid slots and names, each slot
/// once, in alphabetical order.
pub open spec fn attrs_wf_with(s: Seq<Attr>, strict: bool) -> bool {
    &&& forall|i: int| 0 <= i < s.len() ==> valid_slot(#[trigger] s[i].0) && valid_opt_name_with(s[i].1, strict)
    &&& slots_distinct(s)
    &&& slots_sorted(s)
}

pub open spec fn attrs_wf(s: Seq<Attr>) -> bool {
    attrs_wf_with(s, true)
}

/// The first position of `slot`, or -1.
pub open spec fn index_of(s: Seq<Attr>, slot: Seq<u8>) -> int
    decreases s.len(),
{
    if s.len() == 0 {
        -1
    } else {
        let r = index_of(s.drop_last(), slot);
        if r >= 0 {
            r
        } else if s.last().0 == slot {
            s.len() - 1
        } else {
            -1
        }
    }
}

/// The name on `slot`; `None` for an empty or unknown slot.
pub open spec fn name_at(s: Seq<Attr>, slot: Seq<u8>) -> Option<Seq<u8>> {
    let i = index_of(s, slot);
    if i >= 0 {
        s[i].1
    } else {
        None
    }
}

/// The position a scan of `s[0..n]` keeps as its smallest slot: a later
/// position replaces it whenever its slot is smaller or equal.
pub open spec fn last_min_index(s: Seq<Attr>, n: nat) -> int
    decreases n,
{
    if n == 0 {
        0
    } else {
        let k = last_min_index(s, (n - 1) as nat);
        if key_order(s[n - 1].0, s[k].0) <= 0 {
            n - 1
        } else {
            k
        }
    }
}

pub proof fn lemma_last_min_index_range(s: Seq<Attr>, n: nat)
    requires
        n <= s.len(),
    ensures
        0 <= last_min_index(s, n) < (if n == 0 { 1 } else { n as int }),
    decreases n,
{
    if n > 0 {
        lemma_last_min_index_range(s, (n - 1) as nat);
    }
}

/// Selection sort: the smallest slot first (the last of equal ones), then
/// the rest sorted the same way.
pub open spec fn sort_attrs(s: Seq<Attr>) -> Seq<Attr>
    decreases s.len(),
{
    if s.len() == 0 {
        s
    } else {
        let k = last_min_index(s, s.len());
        proof {
            lemma_last_min_index_range(s, s.len());
        }
        seq![s[k]] + sort_attrs(s.remove(k))
    }
}

/// `slot` set to `name`: replaced in place if present, appended otherwise,
/// and the whole sorted again.
pub open spec fn put(s: Seq<Attr>, slot: Seq<u8>, name: Option<Seq<u8>>) -> Seq<Attr> {
    let i = index_of(s, slot);
    sort_attrs(
        if i >= 0 {
            s.update(i, (slot, name))
        } else {
            s.push((slot, name))
        },
    )
}

pub proof fn lemma_index_of(s: Seq<Attr>, slot: Seq<u8>)
    ensures
        -1 <= index_of(s, slot) < s.len(),
        index_of(s, slot) >= 0 ==> s[index_of(s, slot)].0 == slot,
        forall|j: int| 0 <= j < s.len() && (index_of(s, slot) < 0 || j < index_of(s, slot)) ==> s[j].0 != slot,
    decreases s.len(),
{
    if s.len() > 0 {
        let t = s.drop_last();
        lemma_index_of(t, slot);
        assert forall|j: int| 0 <= j < s.len() && (index_of(s, slot) < 0 || j < index_of(s, slot)) implies s[j].0 != slot by {
            if j < s.len() - 1 {
                assert(s[j] == t[j]);
            }
        }
    }
}

/// With distinct slots, the name of a slot is that of the attribute that holds it.
pub proof fn lemma_name_at_member(s: Seq<Attr>, i: int)
    requires
        slots_distinct(s),
        0 <= i < s.len(),
    ensures
        index_of(s, s[i].0) == i,
        name_at(s, s[i].0) == s[i].1,
{
    lemma_index_of(s, s[i].0);
    let k = index_of(s, s[i].0);
    if k != i {
        assert(k >= 0);
        if k < i {
            assert(s[k].0 == s[i].0);
        }
    }
}

pub proof fn lemma_name_at_absent(s: Seq<Attr>, slot: Seq<u8>)
    requires
        forall|j: int| 0 <= j < s.len() ==> s[j].0 != slot,
    ensures
        index_of(s, slot) == -1,
        name_at(s, slot) == None::<Seq<u8>>,
{
    lemma_index_of(s, slot);
}

pub proof fn lemma_key_order_refl(a: Seq<u8>)
    ensures
        key_order(a, a) == 0,
{
    lemma_key_order_total(a, a);
}

/// The scan keeps a position whose slot is no larger than any slot it saw.
pub proof fn lemma_last_min_index_min(s: Seq<Attr>, n: nat)
    requires
        0 < n <= s.len(),
    ensures
        forall|j: int| 0 <= j < n ==> key_order(s[last_min_index(s, n)].0, #[trigger] s[j].0) <= 0,
    decreases n,
{
    lemma_last_min_index_range(s, n);
    if n == 1 {
        lemma_key_order_refl(s[0].0);
    } else {
        let k = last_min_index(s, (n - 1) as nat);
        lemma_last_min_index_min(s, (n - 1) as nat);
        lemma_last_min_index_range(s, (n - 1) as nat);
        if key_order(s[n - 1].0, s[k].0) <= 0 {
            assert forall|j: int| 0 <= j < n implies key_order(s[n - 1].0, #[trigger] s[j].0) <= 0 by {
                if j < n - 1 {
                    lemma_key_order_trans(s[n - 1].0, s[k].0, s[j].0);
                } else {
                    lemma_key_order_refl(s[j].0);
                }
            }
        } else {
            lemma_key_order_total(s[n - 1].0, s[k].0);
        }
    }
}

/// Sorting permutes the attributes, orders them, and keeps slots distinct.
pub proof fn lemma_sort_attrs(s: Seq<Attr>)
    ensures
        sort_attrs(s).len() == s.len(),
        sort_attrs(s).to_multiset() == s.to_multiset(),
        forall|i: int| 0 <= i < s.len() ==> s.contains(#[trigger] sort_attrs(s)[i]),
        slots_sorted(sort_attrs(s)),
        slots_distinct(s) ==> slots_distinct(sort_attrs(s)),
    decreases s.len(),
{
    broadcast use vstd::seq_lib::group_to_multiset_ensures;

    if s.len() == 0 {
    } else {
        let k = last_min_index(s, s.len());
        lemma_last_min_index_range(s, s.len());
        lemma_last_min_index_min(s, s.len());
        let t = s.remove(k);
        lemma_sort_attrs(t);
        let r = sort_attrs(s);
        assert(r == seq![s[k]] + sort_attrs(t));
        vstd::seq_lib::to_multiset_remove(s, k);
        vstd::seq_lib::lemma_multiset_commutative(seq![s[k]], sort_attrs(t));
        assert(seq![s[k]].to_multiset() =~= vstd::multiset::Multiset::<Attr>::empty().insert(s[k])) by {
            assert(seq![s[k]] =~= Seq::<Attr>::empty().push(s[k]));
            vstd::seq_lib::to_multiset_build(Seq::<Attr>::empty(), s[k]);
        }
        assert(r.to_multiset() =~= s.to_multiset());
        assert forall|i: int| 0 <= i < s.len() implies s.contains(#[trigger] r[i]) by {
            if i == 0 {
                assert(s[k] == r[0]);
            } else {
                assert(r[i] == sort_attrs(t)[i - 1]);
                assert(t.contains(sort_attrs(t)[i - 1]));
                let m = choose|m: int| 0 <= m < t.len() && t[m] == sort_attrs(t)[i - 1];
                if m < k {
                    assert(t[m] == s[m]);
                } else {
                    assert(t[m] == s[m + 1]);
                }
            }
        }
        assert forall|i: int, j: int| 0 <= i < j < r.len() implies key_order(r[i].0, r[j].0) <= 0 by {
            if i == 0 {
                let m = choose|m: int| 0 <= m < s.len() && s[m] == r[j];
                assert(key_order(s[k].0, s[m].0) <= 0);
            } else {
                assert(r[i] == sort_attrs(t)[i - 1]);
                assert(r[j] == sort_attrs(t)[j - 1]);
            }
        }
        if slots_distinct(s) {
            assert(slots_distinct(t)) by {
                assert forall|i: int, j: int| 0 <= i < j < t.len() implies t[i].0 != t[j].0 by {
                    let i2 = if i < k { i } else { i + 1 };
                    let j2 = if j < k { j } else { j + 1 };
                    assert(t[i] == s[i2]);
                    assert(t[j] == s[j2]);
                }
            }
            assert forall|i: int, j: int| 0 <= i < j < r.len() implies r[i].0 != r[j].0 by {
                if i == 0 {
                    assert(r[j] == sort_attrs(t)[j - 1]);
                    assert(t.contains(sort_attrs(t)[j - 1]));
                    let m = choose|m: int| 0 <= m < t.len() && t[m] == sort_attrs(t)[j - 1];
                    let m2 = if m < k { m } else { m + 1 };
                    assert(t[m] == s[m2]);
                    assert(m2 != k);
                } else {
                    assert(r[i] == sort_attrs(t)[i - 1]);
                    assert(r[j] == sort_attrs(t)[j - 1]);
                }
            }
        }
    }
}

} // verus!

verus! {

pub open spec fn updated(s: Seq<Attr>, slot: Seq<u8>, name: Option<Seq<u8>>) -> Seq<Attr> {
    let i = index_of(s, slot);
    if i >= 0 {
        s.update(i, (slot, name))
    } else {
        s.push((slot, name))
    }
}

/// Setting a slot keeps the invariant, gives the slot its new name and
/// leaves every other slot as it was.
pub proof fn lemma_put(s: Seq<Attr>, slot: Seq<u8>, name: Option<Seq<u8>>)
    requires
        attrs_wf(s),
        valid_slot(slot),
        valid_opt_name(name),
    ensures
        attrs_wf(put(s, slot, name)),
        name_at(put(s, slot, name), slot) == name,
        forall|other: Seq<u8>| other != slot ==> name_at(put(s, slot, name), other) == name_at(s, other),
        put(s, slot, name).to_multiset() == updated(s, slot, name).to_multiset(),
        put(s, slot, name).len() == (if index_of(s, slot) >= 0 { s.len() } else { s.len() + 1 }),
{
    lemma_put_with(s, slot, name, true);
}

/// The same, for either strictness of names; every attribute of the result
/// is the new one or one of the old ones.
pub proof fn lemma_put_with(s: Seq<Attr>, slot: Seq<u8>, name: Option<Seq<u8>>, strict: bool)
    requires
        attrs_wf_with(s, strict),
        valid_slot(slot),
        valid_opt_name_with(name, strict),
    ensures
        attrs_wf_with(put(s, slot, name), strict),
        forall|j: int| 0 <= j < put(s, slot, name).len() ==> #[trigger] put(s, slot, name)[j] == (slot, name) || s.contains(put(s, slot, name)[j]),
        name_at(put(s, slot, name), slot) == name,
        forall|other: Seq<u8>| other != slot ==> name_at(put(s, slot, name), other) == name_at(s, other),
        put(s, slot, name).to_multiset() == updated(s, slot, name).to_multiset(),
        put(s, slot, name).len() == (if index_of(s, slot) >= 0 { s.len() } else { s.len() + 1 }),
{
    broadcast use vstd::seq_lib::group_to_multiset_ensures;

    lemma_index_of(s, slot);
    let i = index_of(s, slot);
    let u = updated(s, slot, name);
    let r = put(s, slot, name);
    assert(r == sort_attrs(u));
    let k: int = if i >= 0 { i } else { s.len() as int };
    assert(u[k] == (slot, name));
    assert forall|j: int| 0 <= j < u.len() && j != k implies u[j] == s[j] && u[j].0 != slot by {
        if i >= 0 {
            assert(s[j].0 != s[i].0);
        }
    }
    assert(slots_distinct(u)) by {
        assert forall|a: int, b: int| 0 <= a < b < u.len() implies u[a].0 != u[b].0 by {
            if a != k && b != k {
                assert(u[a] == s[a] && u[b] == s[b]);
            }
        }
    }
    assert forall|j: int| 0 <= j < u.len() implies valid_slot(#[trigger] u[j].0) && valid_opt_name_with(u[j].1, strict) by {
        if j != k {
            assert(u[j] == s[j]);
        }
    }
    lemma_sort_attrs(u);
    assert forall|j: int| 0 <= j < r.len() implies valid_slot(#[trigger] r[j].0) && valid_opt_name_with(r[j].1, strict)
        && (r[j] == (slot, name) || s.contains(r[j])) by {
        assert(u.contains(r[j]));
        let m = choose|m: int| 0 <= m < u.len() && u[m] == r[j];
        assert(valid_slot(u[m].0));
        if m != k {
            assert(u[m] == s[m]);
        }
    }
    // the new attribute is in the result
    assert(u.contains(u[k]));
    assert(r.to_multiset().count(u[k]) > 0);
    assert(r.contains(u[k]));
    let p = choose|p: int| 0 <= p < r.len() && r[p] == u[k];
    lemma_name_at_member(r, p);
    assert forall|other: Seq<u8>| other != slot implies name_at(r, other) == name_at(s, other) by {
        lemma_index_of(s, other);
        let m = index_of(s, other);
        if m >= 0 {
            assert(m != k);
            assert(u[m] == s[m]);
            assert(u.contains(u[m]));
            assert(r.to_multiset().count(u[m]) > 0);
            assert(r.contains(u[m]));
            let q = choose|q: int| 0 <= q < r.len() && r[q] == u[m];
            lemma_name_at_member(r, q);
            lemma_name_at_member(s, m);
        } else {
            assert forall|j: int| 0 <= j < r.len() implies r[j].0 != other by {
                assert(u.contains(r[j]));
                let m2 = choose|m2: int| 0 <= m2 < u.len() && u[m2] == r[j];
                if m2 != k {
                    assert(u[m2] == s[m2]);
                }
            }
            lemma_name_at_absent(r, other);
        }
    }
}

} // verus!

verus! {

/// Why a text does not decode into attributes.
#[derive(PartialEq, Eq, Structural, Clone, Copy, Debug)]
pub enum DecodeError {
    /// The text is longer than the 512-byte scratch buffer.
    BufferTooBig,
    /// A part is not made of exactly one slot and one name.
    CannotDecodeAttribute,
    /// A slot that already holds an item is set again.
    SlotNotEmpty,
    /// A slot is not in lower case.
    SlotMustBeLowercase,
}

/// The text of an optional name: the name, or `unequipped`.
pub open spec fn name_text(o: Option<Seq<u8>>) -> Seq<u8> {
    match o {
        Some(n) => n,
        None => unequipped(),
    }
}

/// The name a text stands for: none for `unequipped`.
pub open spec fn decode_name(n: Seq<u8>) -> Option<Seq<u8>> {
    if n == unequipped() {
        None
    } else {
        Some(n)
    }
}

/// `slot:name` for one attribute.
pub open spec fn attr_text(a: Attr) -> Seq<u8> {
    a.0.push(colon()) + name_text(a.1)
}

pub open spec fn attr_texts(s: Seq<Attr>) -> Seq<Seq<u8>> {
    Seq::new(s.len(), |i: int| attr_text(s[i]))
}

/// The text form of attributes: their `slot:name` parts joined with `;`.
pub open spec fn encode_attrs(s: Seq<Attr>) -> Seq<u8> {
    join(attr_texts(s), semicolon())
}

/// Decoding of the `;`-separated parts one after the other, each part
/// setting a slot that must not hold an item yet.
pub open spec fn decode_parts(parts: Seq<Seq<u8>>) -> Result<Seq<Attr>, DecodeError>
    decreases parts.len(),
{
    if parts.len() == 0 {
        Ok(Seq::empty())
    } else {
        match decode_parts(parts.drop_last()) {
            Err(e) => Err(e),
            Ok(acc) => {
                let sub = split_capped(parts.last(), colon(), 512);
                if sub.len() != 2 {
                    Err(DecodeError::CannotDecodeAttribute)
                } else if name_at(acc, sub[0]) is Some {
                    Err(DecodeError::SlotNotEmpty)
                } else {
                    Ok(put(acc, sub[0], decode_name(sub[1])))
                }
            },
        }
    }
}

/// What a text decodes to.
pub open spec fn decode_attrs(input: Seq<u8>) -> Result<Seq<Attr>, DecodeError> {
    if input.len() > 512 {
        Err(DecodeError::BufferTooBig)
    } else {
        decode_parts(split_capped(input, semicolon(), 512))
    }
}

/// Every segment of a split is free of the separator, made of bytes of the
/// buffer, and no longer than it.
pub proof fn lemma_split_all_segments(s: Seq<u8>, c: u8)
    ensures
        forall|i: int| 0 <= i < split_all(s, c).len() ==> !(#[trigger] split_all(s, c)[i]).contains(c),
        forall|i: int, b: u8| 0 <= i < split_all(s, c).len() && #[trigger] split_all(s, c)[i].contains(b) ==> s.contains(b),
        forall|i: int| 0 <= i < split_all(s, c).len() ==> (#[trigger] split_all(s, c)[i]).len() <= s.len(),
    decreases s.len(),
{
    if s.len() > 0 {
        let t = s.drop_last();
        lemma_split_all_segments(t, c);
        crate::utils::byte_spec::lemma_split_all_nonempty(t, c);
        let prev = split_all(t, c);
        let r = split_all(s, c);
        assert forall|i: int| 0 <= i < r.len() implies !(#[trigger] r[i]).contains(c) && r[i].len() <= s.len() && (forall|b: u8| r[i].contains(b) ==> s.contains(b)) by {
            if s.last() == c {
                if i < prev.len() {
                    assert(r[i] == prev[i]);
                    assert forall|b: u8| r[i].contains(b) implies s.contains(b) by {
                        assert(t.contains(b));
                        let m = choose|m: int| 0 <= m < t.len() && t[m] == b;
                        assert(s[m] == b);
                    }
                } else {
                    assert(r[i] =~= Seq::<u8>::empty());
                }
            } else {
                if i < prev.len() - 1 {
                    assert(r[i] == prev[i]);
                    assert forall|b: u8| r[i].contains(b) implies s.contains(b) by {
                        assert(t.contains(b));
                        let m = choose|m: int| 0 <= m < t.len() && t[m] == b;
                        assert(s[m] == b);
                    }
                } else {
                    let seg = prev.last();
                    assert(r[i] == seg.push(s.last()));
                    assert(seg == prev[prev.len() - 1]);
                    assert(!r[i].contains(c)) by {
                        if r[i].contains(c) {
                            let m = choose|m: int| 0 <= m < r[i].len() && r[i][m] == c;
                            if m < seg.len() {
                                assert(seg[m] == c);
                            } else {
                                assert(s.last() == c);
                            }
                        }
                    }
                    assert forall|b: u8| r[i].contains(b) implies s.contains(b) by {
                        let m = choose|m: int| 0 <= m < r[i].len() && r[i][m] == b;
                        if m < seg.len() {
                            assert(seg.contains(b));
                            assert(t.contains(b));
                            let m2 = choose|m2: int| 0 <= m2 < t.len() && t[m2] == b;
                            assert(s[m2] == b);
                        } else {
                            assert(s[s.len() - 1] == b);
                        }
                    }
                }
            }
        }
    }
}

/// The same facts for the capped split.
pub proof fn lemma_split_capped_segments(s: Seq<u8>, c: u8, cap: nat)
    ensures
        forall|i: int| 0 <= i < split_capped(s, c, cap).len() ==> !(#[trigger] split_capped(s, c, cap)[i]).contains(c),
        forall|i: int, b: u8| 0 <= i < split_capped(s, c, cap).len() && #[trigger] split_capped(s, c, cap)[i].contains(b) ==> s.contains(b),
        forall|i: int| 0 <= i < split_capped(s, c, cap).len() ==> (#[trigger] split_capped(s, c, cap)[i]).len() <= s.len(),
{
    lemma_split_all_segments(s, c);
    crate::utils::byte_spec::lemma_split_all_nonempty(s, c);
    let r = split_capped(s, c, cap);
    assert forall|i: int| 0 <= i < r.len() implies r[i] == split_all(s, c)[i] && i < split_all(s, c).len() by {}
}

/// A part of a join is no longer than the join.
pub proof fn lemma_join_part_len(parts: Seq<Seq<u8>>, c: u8, i: int)
    requires
        0 <= i < parts.len(),
    ensures
        parts[i].len() <= join(parts, c).len(),
    decreases parts.len(),
{
    if parts.len() > 1 && i < parts.len() - 1 {
        lemma_join_part_len(parts.drop_last(), c, i);
    }
}

pub proof fn lemma_unequipped_no_separator()
    ensures
        !unequipped().contains(colon()),
        !unequipped().contains(semicolon()),
        unequipped().len() == 10,
{
    assert forall|m: int| 0 <= m < 10 implies unequipped()[m] != colon() && unequipped()[m] != semicolon() by {}
}

/// The parts of one attribute's text.
pub proof fn lemma_attr_text_split(a: Attr)
    requires
        valid_slot(a.0),
        valid_opt_name(a.1),
        attr_text(a).len() < 512,
    ensures
        split_capped(attr_text(a), colon(), 512) == seq![a.0, name_text(a.1)],
        decode_name(name_text(a.1)) == a.1,
        !attr_text(a).contains(semicolon()),
{
    lemma_unequipped_no_separator();
    let parts = seq![a.0, name_text(a.1)];
    assert(join(parts, colon()) =~= attr_text(a)) by {
        assert(parts.drop_last() =~= seq![a.0]);
        assert(join(parts.drop_last(), colon()) == a.0);
        assert(parts.last() == name_text(a.1));
        assert(join(parts, colon()) == join(parts.drop_last(), colon()).push(colon()) + parts.last());
    }
    lemma_split_join(parts, colon());
    assert(!attr_text(a).contains(semicolon())) by {
        if attr_text(a).contains(semicolon()) {
            let m = choose|m: int| 0 <= m < attr_text(a).len() && attr_text(a)[m] == semicolon();
            if m < a.0.len() {
                assert(a.0[m] == semicolon());
            } else if m > a.0.len() {
                assert(name_text(a.1)[m - a.0.len() - 1] == semicolon());
            }
        }
    }
}

/// Decoding the text of attributes gives the same attributes back, as a
/// multiset (the order among slots that compare equal may change).
pub proof fn lemma_decode_encode(a: Seq<Attr>)
    requires
        attrs_wf(a),
        encode_attrs(a).len() < 512,
    ensures
        decode_attrs(encode_attrs(a)) is Ok,
        attrs_wf(decode_attrs(encode_attrs(a))->Ok_0),
        decode_attrs(encode_attrs(a))->Ok_0.to_multiset() == a.to_multiset(),
{
    let texts = attr_texts(a);
    if a.len() == 0 {
        assert(encode_attrs(a) =~= Seq::<u8>::empty());
        assert(a =~= Seq::<Attr>::empty());
        assert(decode_attrs(encode_attrs(a)) == Ok::<Seq<Attr>, DecodeError>(Seq::empty()));
    } else {
        assert forall|i: int| 0 <= i < texts.len() implies !(#[trigger] texts[i]).contains(semicolon()) && texts[i].len() < 512 by {
            lemma_join_part_len(texts, semicolon(), i);
            assert(texts[i] == attr_text(a[i]));
            lemma_attr_text_split(a[i]);
        }
        assert forall|i: int| 0 <= i < a.len() implies (#[trigger] attr_text(a[i])).len() < 512 by {
            assert(texts[i] == attr_text(a[i]));
        }
        lemma_split_join(texts, semicolon());
        assert(split_capped(encode_attrs(a), semicolon(), 512) == texts);
        lemma_decode_parts_texts(a, a.len());
        assert(texts.take(a.len() as int) =~= texts);
        assert(a.take(a.len() as int) =~= a);
    }
}

proof fn lemma_decode_parts_texts(a: Seq<Attr>, k: nat)
    requires
        attrs_wf(a),
        k <= a.len(),
        forall|i: int| 0 <= i < a.len() ==> (#[trigger] attr_text(a[i])).len() < 512,
    ensures
        decode_parts(attr_texts(a).take(k as int)) is Ok,
        attrs_wf(decode_parts(attr_texts(a).take(k as int))->Ok_0),
        decode_parts(attr_texts(a).take(k as int))->Ok_0.to_multiset() == a.take(k as int).to_multiset(),
    decreases k,
{
    broadcast use vstd::seq_lib::group_to_multiset_ensures;

    let texts = attr_texts(a);
    if k == 0 {
        assert(texts.take(0) =~= Seq::<Seq<u8>>::empty());
        assert(a.take(0) =~= Seq::<Attr>::empty());
    } else {
        let j = (k - 1) as int;
        lemma_decode_parts_texts(a, (k - 1) as nat);
        assert(texts.take(k as int).drop_last() =~= texts.take(j));
        assert(texts.take(k as int).last() == attr_text(a[j]));
        let acc = decode_parts(texts.take(j))->Ok_0;
        lemma_attr_text_split(a[j]);
        let x = a[j];
        // the slot is new
        assert forall|m: int| 0 <= m < acc.len() implies acc[m].0 != x.0 by {
            assert(acc.to_multiset().count(acc[m]) > 0);
            assert(a.take(j).contains(acc[m]));
            let q = choose|q: int| 0 <= q < a.take(j).len() && a.take(j)[q] == acc[m];
            assert(a[q] == acc[m]);
        }
        lemma_name_at_absent(acc, x.0);
        lemma_put(acc, x.0, x.1);
        assert(a.take(k as int) =~= a.take(j).push(x));
        vstd::seq_lib::to_multiset_build(acc, x);
        vstd::seq_lib::to_multiset_build(a.take(j), x);
    }
}

} // verus!

verus! {

/// Once a prefix of the parts fails, decoding all of them fails the same way.
pub proof fn lemma_decode_parts_err_prefix(parts: Seq<Seq<u8>>, k: int)
    requires
        0 <= k <= parts.len(),
        decode_parts(parts.take(k)) is Err,
    ensures
        decode_parts(parts) == decode_parts(parts.take(k)),
    decreases parts.len() - k,
{
    if k < parts.len() {
        let next = parts.take(k + 1);
        assert(next.drop_last() =~= parts.take(k));
        lemma_decode_parts_err_prefix(parts, k + 1);
    } else {
        assert(parts.take(k) =~= parts);
    }
}

} // verus!

verus! {

/// Parts that hold no `;` and fit the scratch buffer, as a split of a text
/// of at most 512 bytes gives them.
pub open spec fn parts_fit(parts: Seq<Seq<u8>>) -> bool {
    forall|i: int| 0 <= i < parts.len() ==> !(#[trigger] parts[i]).contains(semicolon()) && parts[i].len() <= 512
}

/// The two segments of a part split at `:` are valid as a slot and as the
/// text of a name.
pub proof fn lemma_part_segments(part: Seq<u8>)
    requires
        !part.contains(semicolon()),
        part.len() <= 512,
        split_capped(part, colon(), 512).len() == 2,
    ensures
        valid_slot(split_capped(part, colon(), 512)[0]),
        valid_name_with(split_capped(part, colon(), 512)[1], false),
        valid_opt_name(decode_name(split_capped(part, colon(), 512)[1])),
{
    let sub = split_capped(part, colon(), 512);
    lemma_split_capped_segments(part, colon(), 512);
    assert(!sub[0].contains(semicolon())) by {
        if sub[0].contains(semicolon()) {
            assert(part.contains(semicolon()));
        }
    }
    assert(!sub[1].contains(semicolon())) by {
        if sub[1].contains(semicolon()) {
            assert(part.contains(semicolon()));
        }
    }
}

/// Decoding sets every part: each part is `slot:name`, the slot of a part
/// that no later part sets again reads that part's name (none for
/// `unequipped`), and the result holds no slot that no part names; the
/// result is well formed.
pub proof fn lemma_decode_parts_sets_every_part(parts: Seq<Seq<u8>>)
    requires
        parts_fit(parts),
    ensures
        decode_parts(parts) is Ok ==> ({
            let r = decode_parts(parts)->Ok_0;
            &&& attrs_wf(r)
            &&& forall|i: int| 0 <= i < parts.len() ==> (#[trigger] split_capped(parts[i], colon(), 512)).len() == 2
            &&& forall|i: int| 0 <= i < parts.len()
                && (forall|j: int| i < j < parts.len() ==> (#[trigger] split_capped(parts[j], colon(), 512))[0] != split_capped(parts[i], colon(), 512)[0])
                ==> name_at(r, (#[trigger] split_capped(parts[i], colon(), 512))[0]) == decode_name(split_capped(parts[i], colon(), 512)[1])
            &&& forall|k: int| 0 <= k < r.len() ==> exists|i: int| 0 <= i < parts.len() && (#[trigger] r[k]).0 == (#[trigger] split_capped(parts[i], colon(), 512))[0]
        }),
    decreases parts.len(),
{
    if parts.len() > 0 {
        let init = parts.drop_last();
        assert forall|i: int| 0 <= i < init.len() implies !(#[trigger] init[i]).contains(semicolon()) && init[i].len() <= 512 by {
            assert(init[i] == parts[i]);
        }
        lemma_decode_parts_sets_every_part(init);
        if decode_parts(parts) is Ok {
            let acc = decode_parts(init)->Ok_0;
            let n = parts.len() - 1;
            let last = parts.last();
            assert(last == parts[n]);
            let sub = split_capped(last, colon(), 512);
            lemma_part_segments(last);
            let name = decode_name(sub[1]);
            lemma_put(acc, sub[0], name);
            lemma_put_with(acc, sub[0], name, true);
            let r = put(acc, sub[0], name);
            assert(decode_parts(parts)->Ok_0 == r);
            assert forall|i: int| 0 <= i < parts.len() implies (#[trigger] split_capped(parts[i], colon(), 512)).len() == 2 by {
                if i < n {
                    assert(init[i] == parts[i]);
                    assert(split_capped(init[i], colon(), 512).len() == 2);
                }
            }
            assert forall|i: int| 0 <= i < parts.len()
                && (forall|j: int| i < j < parts.len() ==> (#[trigger] split_capped(parts[j], colon(), 512))[0] != split_capped(parts[i], colon(), 512)[0])
                implies name_at(r, (#[trigger] split_capped(parts[i], colon(), 512))[0]) == decode_name(split_capped(parts[i], colon(), 512)[1]) by {
                if i < n {
                    assert(init[i] == parts[i]);
                    assert forall|j: int| i < j < init.len() implies (#[trigger] split_capped(init[j], colon(), 512))[0] != split_capped(init[i], colon(), 512)[0] by {
                        assert(init[j] == parts[j]);
                        assert(split_capped(parts[j], colon(), 512)[0] != split_capped(parts[i], colon(), 512)[0]);
                    }
                    assert(split_capped(parts[n], colon(), 512)[0] != split_capped(parts[i], colon(), 512)[0]);
                    assert(name_at(acc, split_capped(init[i], colon(), 512)[0]) == decode_name(split_capped(init[i], colon(), 512)[1]));
                }
            }
            assert forall|k: int| 0 <= k < r.len() implies exists|i: int| 0 <= i < parts.len() && (#[trigger] r[k]).0 == (#[trigger] split_capped(parts[i], colon(), 512))[0] by {
                if r[k] == (sub[0], name) {
                    assert(r[k].0 == split_capped(parts[n], colon(), 512)[0]);
                } else {
                    assert(acc.contains(r[k]));
                    let m = choose|m: int| 0 <= m < acc.len() && acc[m] == r[k];
                    assert(acc[m].0 == r[k].0);
                    let i = choose|i: int| 0 <= i < init.len() && (#[trigger] acc[m]).0 == (#[trigger] split_capped(init[i], colon(), 512))[0];
                    assert(init[i] == parts[i]);
                    assert(r[k].0 == split_capped(parts[i], colon(), 512)[0]);
                }
            }
        }
    }
}

} // verus!
