use vstd::prelude::*;
use crate::structs::attribute_spec::{valid_name, valid_slot};
use crate::structs::item::{Item, ItemV};
use crate::structs::token::{Token, TokenV};

verus! {

/// One registered pair: an item and the token that stands for it.
pub type EntryV = (ItemV, TokenV);

/// An item the contract accepts: a valid slot and a valid name.
pub open spec fn valid_item(item: ItemV) -> bool {
    valid_slot(item.1) && valid_name(item.0)
}

/// The first position holding the item `id`, or -1.
pub open spec fn id_pos(s: Seq<EntryV>, id: ItemV) -> int
    decreases s.len(),
{
    if s.len() == 0 {
        -1
    } else {
        let p = id_pos(s.drop_last(), id);
        if p >= 0 {
            p
        } else if s.last().0 == id {
            s.len() - 1
        } else {
            -1
        }
    }
}

/// The first position holding the token `value`, or -1.
pub open spec fn value_pos(s: Seq<EntryV>, value: TokenV) -> int
    decreases s.len(),
{
    if s.len() == 0 {
        -1
    } else {
        let p = value_pos(s.drop_last(), value);
        if p >= 0 {
            p
        } else if s.last().1 == value {
            s.len() - 1
        } else {
            -1
        }
    }
}

/// `s` with position `i` taken out and its place filled by the last entry.
pub open spec fn swap_removed(s: Seq<EntryV>, i: int) -> Seq<EntryV> {
    s.update(i, s.last()).drop_last()
}

/// The invariant of the registry: each item once, each token once, and
/// every item valid.
pub open spec fn registry_wf(s: Seq<EntryV>) -> bool {
    &&& forall|i: int, j: int| 0 <= i < j < s.len() ==> s[i].0 != s[j].0 && s[i].1 != s[j].1
    &&& forall|i: int| 0 <= i < s.len() ==> valid_item(#[trigger] s[i].0)
}

/// The item of `value`, or the empty item where none is registered.
pub open spec fn id_of(s: Seq<EntryV>, value: TokenV) -> ItemV {
    let p = value_pos(s, value);
    if p >= 0 {
        s[p].0
    } else {
        (Seq::empty(), Seq::empty())
    }
}

/// The token of `id`, or the empty token where none is registered.
pub open spec fn value_of(s: Seq<EntryV>, id: ItemV) -> TokenV {
    let p = id_pos(s, id);
    if p >= 0 {
        s[p].1
    } else {
        (Seq::empty(), 0u64)
    }
}

/// Inserts the pair unless the item or the token is already registered.
pub open spec fn inserted(s: Seq<EntryV>, id: ItemV, value: TokenV) -> Seq<EntryV> {
    if id_pos(s, id) < 0 && value_pos(s, value) < 0 {
        s.push((id, value))
    } else {
        s
    }
}

pub open spec fn removed_by_id(s: Seq<EntryV>, id: ItemV) -> Seq<EntryV> {
    if id_pos(s, id) >= 0 {
        swap_removed(s, id_pos(s, id))
    } else {
        s
    }
}

pub open spec fn removed_by_value(s: Seq<EntryV>, value: TokenV) -> Seq<EntryV> {
    if value_pos(s, value) >= 0 {
        swap_removed(s, value_pos(s, value))
    } else {
        s
    }
}

/// The pair registered, replacing any pair that held the item or the token.
pub open spec fn replaced(s: Seq<EntryV>, id: ItemV, value: TokenV) -> Seq<EntryV> {
    inserted(removed_by_value(removed_by_id(s, id), value), id, value)
}

pub proof fn lemma_id_pos(s: Seq<EntryV>, id: ItemV)
    ensures
        -1 <= id_pos(s, id) < s.len(),
        id_pos(s, id) >= 0 ==> s[id_pos(s, id)].0 == id,
        forall|j: int| 0 <= j < s.len() && (id_pos(s, id) < 0 || j < id_pos(s, id)) ==> s[j].0 != id,
    decreases s.len(),
{
    if s.len() > 0 {
        let t = s.drop_last();
        lemma_id_pos(t, id);
        assert forall|j: int| 0 <= j < s.len() && (id_pos(s, id) < 0 || j < id_pos(s, id)) implies s[j].0 != id by {
            if j < s.len() - 1 {
                assert(s[j] == t[j]);
            }
        }
    }
}

pub proof fn lemma_value_pos(s: Seq<EntryV>, value: TokenV)
    ensures
        -1 <= value_pos(s, value) < s.len(),
        value_pos(s, value) >= 0 ==> s[value_pos(s, value)].1 == value,
        forall|j: int| 0 <= j < s.len() && (value_pos(s, value) < 0 || j < value_pos(s, value)) ==> s[j].1 != value,
    decreases s.len(),
{
    if s.len() > 0 {
        let t = s.drop_last();
        lemma_value_pos(t, value);
        assert forall|j: int| 0 <= j < s.len() && (value_pos(s, value) < 0 || j < value_pos(s, value)) implies s[j].1 != value by {
            if j < s.len() - 1 {
                assert(s[j] == t[j]);
            }
        }
    }
}

/// In a well-formed registry the entry at `i` is found again by its item
/// and by its token.
pub proof fn lemma_member(s: Seq<EntryV>, i: int)
    requires
        registry_wf(s),
        0 <= i < s.len(),
    ensures
        id_pos(s, s[i].0) == i,
        value_pos(s, s[i].1) == i,
{
    lemma_id_pos(s, s[i].0);
    lemma_value_pos(s, s[i].1);
    let p = id_pos(s, s[i].0);
    let q = value_pos(s, s[i].1);
    if p != i {
        if p < i {
            assert(s[p].0 == s[i].0);
        }
    }
    if q != i {
        if q < i {
            assert(s[q].1 == s[i].1);
        }
    }
}

/// Every operation keeps the registry well formed.
pub proof fn lemma_ops_wf(s: Seq<EntryV>, id: ItemV, value: TokenV)
    requires
        registry_wf(s),
    ensures
        registry_wf(removed_by_id(s, id)),
        registry_wf(removed_by_value(s, value)),
        valid_item(id) ==> registry_wf(inserted(s, id, value)),
{
    lemma_id_pos(s, id);
    lemma_value_pos(s, value);
    lemma_swap_removed_wf(s, id_pos(s, id));
    lemma_swap_removed_wf(s, value_pos(s, value));
    if valid_item(id) && id_pos(s, id) < 0 && value_pos(s, value) < 0 {
        let r = s.push((id, value));
        assert forall|i: int, j: int| 0 <= i < j < r.len() implies r[i].0 != r[j].0 && r[i].1 != r[j].1 by {
            if j == s.len() {
                assert(r[i] == s[i]);
            } else {
                assert(r[i] == s[i] && r[j] == s[j]);
            }
        }
        assert forall|i: int| 0 <= i < r.len() implies valid_item(#[trigger] r[i].0) by {
            if i < s.len() {
                assert(r[i] == s[i]);
            }
        }
    }
}

proof fn lemma_swap_removed_wf(s: Seq<EntryV>, k: int)
    requires
        registry_wf(s),
    ensures
        0 <= k < s.len() ==> registry_wf(swap_removed(s, k)),
{
    if 0 <= k < s.len() {
        let r = swap_removed(s, k);
        let last = s.len() - 1;
        assert forall|i: int, j: int| 0 <= i < j < r.len() implies r[i].0 != r[j].0 && r[i].1 != r[j].1 by {
            let i2 = if i == k { last } else { i };
            let j2 = if j == k { last } else { j };
            assert(r[i] == s[i2]);
            assert(r[j] == s[j2]);
            assert(i2 != j2);
            if i2 < j2 {
            } else {
            }
        }
        assert forall|i: int| 0 <= i < r.len() implies valid_item(#[trigger] r[i].0) by {
            let i2 = if i == k { last } else { i };
            assert(r[i] == s[i2]);
        }
    }
}

/// Items registered with the token that stands for each, both ways
/// unique, kept in the order of registration (a removal moves the last
/// pair into the freed place).
pub struct ItemRegistry {
    entries: Vec<(Item, Token)>,
}

pub open spec fn entry_views(v: Seq<(Item, Token)>) -> Seq<EntryV> {
    Seq::new(v.len(), |i: int| (v[i].0@, v[i].1@))
}

impl View for ItemRegistry {
    type V = Seq<EntryV>;

    closed spec fn view(&self) -> Seq<EntryV> {
        entry_views(self.entries@)
    }
}

impl ItemRegistry {
    pub open spec fn wf(&self) -> bool {
        registry_wf(self@)
    }

    /// No item registered.
    pub fn new() -> (r: Self)
        ensures
            r@ == Seq::<EntryV>::empty(),
            r.wf(),
    {
        let r = ItemRegistry { entries: Vec::new() };
        assert(r@ =~= Seq::<EntryV>::empty());
        r
    }

    /// The number of registered pairs.
    pub fn len(&self) -> (r: usize)
        ensures
            r == self@.len(),
    {
        self.entries.len()
    }

    fn find_id(&self, id: &Item) -> (r: Option<usize>)
        ensures
            match r {
                Some(i) => id_pos(self@, id@) == i && i < self@.len(),
                None => id_pos(self@, id@) < 0,
            },
    {
        let mut i: usize = 0;
        while i < self.entries.len()
            invariant
                i <= self.entries.len(),
                self@.len() == self.entries.len(),
                forall|j: int| 0 <= j < i ==> self@[j].0 != id@,
            decreases self.entries.len() - i,
        {
            assert(self@[i as int] == (self.entries@[i as int].0@, self.entries@[i as int].1@));
            if self.entries[i].0.same_as(id) {
                proof {
                    lemma_id_pos(self@, id@);
                    let p = id_pos(self@, id@);
                    if p < 0 || p > i {
                        assert(self@[i as int].0 != id@);
                    } else if p < i {
                        assert(self@[p].0 != id@);
                    }
                }
                return Some(i);
            }
            i += 1;
        }
        proof {
            lemma_id_pos(self@, id@);
        }
        None
    }

    fn find_value(&self, value: &Token) -> (r: Option<usize>)
        ensures
            match r {
                Some(i) => value_pos(self@, value@) == i && i < self@.len(),
                None => value_pos(self@, value@) < 0,
            },
    {
        let mut i: usize = 0;
        while i < self.entries.len()
            invariant
                i <= self.entries.len(),
                self@.len() == self.entries.len(),
                forall|j: int| 0 <= j < i ==> self@[j].1 != value@,
            decreases self.entries.len() - i,
        {
            assert(self@[i as int] == (self.entries@[i as int].0@, self.entries@[i as int].1@));
            if self.entries[i].1.same_as(value) {
                proof {
                    lemma_value_pos(self@, value@);
                    let p = value_pos(self@, value@);
                    if p < 0 || p > i {
                        assert(self@[i as int].1 != value@);
                    } else if p < i {
                        assert(self@[p].1 != value@);
                    }
                }
                return Some(i);
            }
            i += 1;
        }
        proof {
            lemma_value_pos(self@, value@);
        }
        None
    }

    /// Registers the pair; refused (returns `false`, nothing changes) when
    /// the item or the token is already registered.
    pub fn insert(&mut self, id: Item, value: Token) -> (r: bool)
        requires
            old(self).wf(),
            valid_item(id@),
        ensures
            r == (id_pos(old(self)@, id@) < 0 && value_pos(old(self)@, value@) < 0),
            final(self)@ == inserted(old(self)@, id@, value@),
            final(self).wf(),
    {
        proof {
            lemma_ops_wf(self@, id@, value@);
        }
        if self.find_id(&id).is_some() || self.find_value(&value).is_some() {
            return false;
        }
        let ghost s = self@;
        let ghost e = (id@, value@);
        self.entries.push((id, value));
        assert(self@ =~= s.push(e));
        true
    }

    fn swap_remove_at(&mut self, i: usize)
        requires
            i < old(self)@.len(),
        ensures
            final(self)@ == swap_removed(old(self)@, i as int),
    {
        let ghost s = self@;
        let _ = self.entries.swap_remove(i);
        assert(self@ =~= swap_removed(s, i as int));
    }

    /// Unregisters the item and its token; `false` when the item is not
    /// registered.
    pub fn remove_by_id(&mut self, id: &Item) -> (r: bool)
        requires
            old(self).wf(),
        ensures
            r == (id_pos(old(self)@, id@) >= 0),
            final(self)@ == removed_by_id(old(self)@, id@),
            final(self).wf(),
    {
        proof {
            lemma_ops_wf(self@, id@, (Seq::empty(), 0u64));
        }
        match self.find_id(id) {
            Some(i) => {
                self.swap_remove_at(i);
                true
            },
            None => false,
        }
    }

    /// Unregisters the token and its item; `false` when the token is not
    /// registered.
    pub fn remove_by_value(&mut self, value: &Token) -> (r: bool)
        requires
            old(self).wf(),
        ensures
            r == (value_pos(old(self)@, value@) >= 0),
            final(self)@ == removed_by_value(old(self)@, value@),
            final(self).wf(),
    {
        proof {
            lemma_ops_wf(self@, (Seq::empty(), Seq::empty()), value@);
        }
        match self.find_value(value) {
            Some(i) => {
                self.swap_remove_at(i);
                true
            },
            None => false,
        }
    }

    /// The item of a token; the empty item when the token is not registered.
    pub fn get_id(&self, value: &Token) -> (r: Item)
        ensures
            r@ == id_of(self@, value@),
    {
        match self.find_value(value) {
            Some(i) => {
                assert(self@[i as int].0 == self.entries@[i as int].0@);
                self.entries[i].0.copy()
            },
            None => Item::default(),
        }
    }

    /// The token of an item; the empty token when the item is not registered.
    pub fn get_value(&self, id: &Item) -> (r: Token)
        ensures
            r@ == value_of(self@, id@),
    {
        match self.find_id(id) {
            Some(i) => {
                assert(self@[i as int].1 == self.entries@[i as int].1@);
                self.entries[i].1.copy()
            },
            None => Token::default(),
        }
    }

    /// Whether the item is registered.
    pub fn has_item(&self, item: &Item) -> (r: bool)
        ensures
            r == (id_pos(self@, item@) >= 0),
    {
        self.find_id(item).is_some()
    }

    /// Whether the token is registered.
    pub fn has_token(&self, token: &Token) -> (r: bool)
        ensures
            r == (value_pos(self@, token@) >= 0),
    {
        self.find_value(token).is_some()
    }

    /// The item a token stands for, if it is registered.
    pub fn get_item(&self, token: &Token) -> (r: Option<Item>)
        ensures
            match r {
                Some(item) => value_pos(self@, token@) >= 0 && item@ == id_of(self@, token@),
                None => value_pos(self@, token@) < 0,
            },
    {
        if !self.has_token(token) {
            None
        } else {
            Some(self.get_id(token))
        }
    }

    /// The token that stands for an item, if it is registered.
    pub fn get_token(&self, item: &Item) -> (r: Option<Token>)
        ensures
            match r {
                Some(token) => id_pos(self@, item@) >= 0 && token@ == value_of(self@, item@),
                None => id_pos(self@, item@) < 0,
            },
    {
        if !self.has_item(item) {
            None
        } else {
            Some(self.get_value(item))
        }
    }

    /// Registers the pair, first unregistering whatever pair held the item
    /// and whatever pair held the token.
    pub fn insert_or_replace_item_token(&mut self, item: Item, token: Token)
        requires
            old(self).wf(),
            valid_item(item@),
        ensures
            final(self)@ == replaced(old(self)@, item@, token@),
            final(self).wf(),
    {
        if self.has_item(&item) {
            self.remove_by_id(&item);
        }
        if self.has_token(&token) {
            self.remove_by_value(&token);
        }
        let _ = self.insert(item, token);
    }

    /// A registry holding `entries` in that order; `None` when an item or a
    /// token occurs twice or an item is not valid.
    pub fn from_entries(entries: Vec<(Item, Token)>) -> (r: Option<Self>)
        ensures
            match r {
                Some(reg) => reg@ == entry_views(entries@) && reg.wf(),
                None => !registry_wf(entry_views(entries@)),
            },
    {
        let mut reg = ItemRegistry::new();
        let ghost ev = entry_views(entries@);
        let mut i: usize = 0;
        assert(ev.take(0) =~= Seq::<EntryV>::empty());
        while i < entries.len()
            invariant
                ev == entry_views(entries@),
                i <= entries.len(),
                reg@ == ev.take(i as int),
                reg.wf(),
            decreases entries.len() - i,
        {
            let item = entries[i].0.copy();
            let token = entries[i].1.copy();
            assert(ev[i as int] == (item@, token@));
            assert(ev.take(i + 1) =~= ev.take(i as int).push((item@, token@)));
            let slot_ok = crate::structs::equippable_attributes::panic_if_slot_contains_unsupported_characters(&item.slot);
            let name_ok = crate::structs::equippable_attributes::panic_if_name_contains_unsupported_characters(&Some(crate::structs::equippable_attributes::copy_bytes(&item.name)));
            if slot_ok.is_err() || name_ok.is_err() {
                proof {
                    assert(!valid_item(ev[i as int].0));
                }
                return None;
            }
            let ghost before = reg@;
            if !reg.insert(item, token) {
                proof {
                    lemma_id_pos(before, ev[i as int].0);
                    lemma_value_pos(before, ev[i as int].1);
                    if id_pos(before, ev[i as int].0) >= 0 {
                        let k = id_pos(before, ev[i as int].0);
                        assert(ev[k] == before[k]);
                    } else {
                        let k = value_pos(before, ev[i as int].1);
                        assert(ev[k] == before[k]);
                    }
                }
                return None;
            }
            i += 1;
        }
        assert(ev.take(entries.len() as int) =~= ev);
        Some(reg)
    }

    /// A copy of the registry.
    pub fn copy(&self) -> (r: Self)
        ensures
            r@ == self@,
    {
        ItemRegistry { entries: self.entries() }
    }

    /// A copy of every registered pair, in order.
    pub fn entries(&self) -> (r: Vec<(Item, Token)>)
        ensures
            entry_views(r@) == self@,
    {
        let mut out: Vec<(Item, Token)> = Vec::new();
        let mut i: usize = 0;
        while i < self.entries.len()
            invariant
                i <= self.entries.len(),
                entry_views(out@) =~= self@.take(i as int),
            decreases self.entries.len() - i,
        {
            let e = (self.entries[i].0.copy(), self.entries[i].1.copy());
            let ghost before = out@;
            out.push(e);
            assert(entry_views(out@) =~= entry_views(before).push((e.0@, e.1@)));
            i += 1;
        }
        assert(self@.take(self.entries.len() as int) =~= self@);
        out
    }
}

/// Law: once a pair is registered, replacing what held the item or the
/// token, each of the two finds the other.
pub proof fn law_replace_then_get(s: Seq<EntryV>, id: ItemV, value: TokenV)
    requires
        registry_wf(s),
        valid_item(id),
    ensures
        registry_wf(replaced(s, id, value)),
        id_pos(replaced(s, id, value), id) >= 0,
        value_pos(replaced(s, id, value), value) >= 0,
        value_of(replaced(s, id, value), id) == value,
        id_of(replaced(s, id, value), value) == id,
{
    let s1 = removed_by_id(s, id);
    lemma_ops_wf(s, id, value);
    lemma_id_pos(s, id);
    lemma_ops_wf(s1, id, value);
    let s2 = removed_by_value(s1, value);
    lemma_ops_wf(s2, id, value);
    lemma_id_pos(s1, id);
    lemma_value_pos(s1, value);
    lemma_id_pos(s2, id);
    lemma_value_pos(s2, value);
    // the item is gone after the first removal
    assert(id_pos(s1, id) < 0) by {
        if id_pos(s, id) >= 0 {
            let k = id_pos(s, id);
            assert forall|j: int| 0 <= j < s1.len() implies s1[j].0 != id by {
                if j == k {
                    assert(s1[j] == s[s.len() - 1]);
                    if s.len() - 1 != k {
                        assert(s[s.len() - 1].0 != s[k].0);
                    }
                } else {
                    assert(s1[j] == s[j]);
                    if j < k {
                    } else {
                        assert(s[j].0 != s[k].0);
                    }
                }
            }
        }
    }
    assert(id_pos(s2, id) < 0) by {
        if value_pos(s1, value) >= 0 {
            let k = value_pos(s1, value);
            assert forall|j: int| 0 <= j < s2.len() implies s2[j].0 != id by {
                if j == k {
                    assert(s2[j] == s1[s1.len() - 1]);
                } else {
                    assert(s2[j] == s1[j]);
                }
            }
        }
    }
    assert(value_pos(s2, value) < 0) by {
        if value_pos(s1, value) >= 0 {
            let k = value_pos(s1, value);
            assert forall|j: int| 0 <= j < s2.len() implies s2[j].1 != value by {
                if j == k {
                    assert(s2[j] == s1[s1.len() - 1]);
                    if s1.len() - 1 != k {
                        assert(s1[s1.len() - 1].1 != s1[k].1);
                    }
                } else {
                    assert(s2[j] == s1[j]);
                    if j < k {
                    } else {
                        assert(s1[j].1 != s1[k].1);
                    }
                }
            }
        }
    }
    let r = replaced(s, id, value);
    assert(r == s2.push((id, value)));
    lemma_member(r, s2.len() as int);
}

} // verus!
