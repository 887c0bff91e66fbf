use vstd::prelude::*;
use crate::libs::customize::{balance_of, balance_views, payment_views, sent_count, token_views, BalanceV, Payment, PaymentV};
use crate::penguin::item::{opt_item_view, Item, PenguinItemV};
use crate::penguin::item_slot::{slot_values, ItemSlot};
use crate::penguin::penguin_attributes::{
    fill_count, lemma_view_item_on, lemma_view_update, slot_index, PenguinAttributes, PenguinV,
};
use crate::structs::equippable_attributes::copy_bytes;
use crate::structs::token::{Token, TokenV};
use crate::utils::big_uint::{be_to_u128_saturating, be_value, saturated};
use crate::utils::managed_buffer_utils::bytes_eq;
use crate::utils::digit_spec::ascii_text;
use crate::utils::UtilsU64;
use crate::utils::byte_spec::join;

verus! {

/// Why an endpoint of the penguin contract is refused.
#[derive(PartialEq, Eq, Structural, Clone, Copy, Debug)]
pub enum PenguinError {
    /// Only the owner may call this endpoint.
    OnlyOwner,
    /// A penguin cannot be registered as an item.
    CannotRegisterPenguinAsItem,
    /// The contract lacks the create role on the penguins.
    LocalCreateRoleNotSet,
    /// The contract lacks the burn role on the penguins.
    LocalBurnRoleNotSet,
    /// No penguin was sent.
    NeedPenguin,
    /// Neither an item nor a slot to take off was given.
    NeedItemOrSlotToDesequip,
    /// The first transfer is not a penguin.
    FirstPaymentMustBePenguin,
    /// More than one penguin was sent.
    OnlyOnePenguin,
    /// More than one of an item was sent.
    OnlyOneItem,
    /// The token sent is not registered as an item.
    NotAnItem,
    /// A penguin cannot be equipped as an item.
    CannotEquipPenguin,
    /// No slot was named.
    SlotMustNotBeNone,
    /// The slot to take off holds no item.
    CannotSendItemFromEmptySlot,
    /// The item to take off is no longer registered.
    ItemToDesequipNotAnItem,
    /// The contract does not hold enough of the item to send one back.
    NoTokenOnContract,
}

/// The registered slot of each item collection.
pub type SlotMapV = Seq<(Seq<u8>, ItemSlot)>;

/// The slot registered for a collection; no slot when none is.
pub open spec fn slot_of(m: SlotMapV, id: Seq<u8>) -> ItemSlot
    decreases m.len(),
{
    if m.len() == 0 {
        ItemSlot::NoSlot
    } else if m.last().0 == id {
        m.last().1
    } else {
        slot_of(m.drop_last(), id)
    }
}

/// The bytes given for a token (its name, or its attributes); empty when
/// none are given.
pub open spec fn token_bytes(list: Seq<(TokenV, Seq<u8>)>, t: TokenV) -> Seq<u8>
    decreases list.len(),
{
    if list.len() == 0 {
        Seq::empty()
    } else if list[0].0 == t {
        list[0].1
    } else {
        token_bytes(list.drop_first(), t)
    }
}

pub open spec fn token_bytes_views(v: Seq<(Token, Vec<u8>)>) -> Seq<(TokenV, Seq<u8>)> {
    Seq::new(v.len(), |i: int| (v[i].0@, v[i].1@))
}

/// The penguin being built and the items sent back so far.
pub type PenguinProgress = (PenguinV, Seq<TokenV>);

/// Taking the item off a slot: a slot must be named and hold an item that is
/// still registered, and the contract must hold more than one of it; the
/// item is sent back and the slot emptied.
pub open spec fn desequip_spec(m: SlotMapV, bal: Seq<BalanceV>, p: PenguinProgress, slot: ItemSlot) -> Result<PenguinProgress, PenguinError> {
    if slot == ItemSlot::NoSlot {
        Err(PenguinError::SlotMustNotBeNone)
    } else {
        match p.0[slot_index(slot)] {
            None => Err(PenguinError::CannotSendItemFromEmptySlot),
            Some(item) => {
                let t = (item.0, item.1);
                if slot_of(m, item.0) == ItemSlot::NoSlot {
                    Err(PenguinError::ItemToDesequipNotAnItem)
                } else if balance_of(bal, t) <= sent_count(p.1, t) + 1 {
                    Err(PenguinError::NoTokenOnContract)
                } else {
                    Ok((p.0.update(slot_index(slot), None), p.1.push(t)))
                }
            },
        }
    }
}

/// Taking the items off the slots one after the other.
pub open spec fn desequip_all(m: SlotMapV, bal: Seq<BalanceV>, p: PenguinProgress, slots: Seq<ItemSlot>) -> Result<PenguinProgress, PenguinError>
    decreases slots.len(),
{
    if slots.len() == 0 {
        Ok(p)
    } else {
        match desequip_all(m, bal, p, slots.drop_last()) {
            Err(e) => Err(e),
            Ok(q) => desequip_spec(m, bal, q, slots.last()),
        }
    }
}

/// Putting an item on the slot registered for its collection, which must not
/// be the penguins'; an item already there is taken off first.
pub open spec fn equip_spec(m: SlotMapV, penguin_id: Seq<u8>, bal: Seq<BalanceV>, p: PenguinProgress, item: PenguinItemV) -> Result<PenguinProgress, PenguinError> {
    let s = slot_of(m, item.0);
    if s == ItemSlot::NoSlot {
        Err(PenguinError::NotAnItem)
    } else if item.0 == penguin_id {
        Err(PenguinError::CannotEquipPenguin)
    } else {
        let emptied = if p.0[slot_index(s)] is Some {
            desequip_spec(m, bal, p, s)
        } else {
            Ok(p)
        };
        match emptied {
            Err(e) => Err(e),
            Ok(q) => Ok((q.0.update(slot_index(s), Some(item)), q.1)),
        }
    }
}

/// Equipping the item of a payment: exactly one must be sent; its name is
/// the one given for its token.
pub open spec fn payment_spec(
    m: SlotMapV,
    penguin_id: Seq<u8>,
    bal: Seq<BalanceV>,
    names: Seq<(TokenV, Seq<u8>)>,
    p: PenguinProgress,
    pay: PaymentV,
) -> Result<PenguinProgress, PenguinError> {
    if pay.2 != 1 {
        Err(PenguinError::OnlyOneItem)
    } else {
        equip_spec(m, penguin_id, bal, p, (pay.0, pay.1, token_bytes(names, (pay.0, pay.1))))
    }
}

pub open spec fn equip_all(
    m: SlotMapV,
    penguin_id: Seq<u8>,
    bal: Seq<BalanceV>,
    names: Seq<(TokenV, Seq<u8>)>,
    p: PenguinProgress,
    payments: Seq<PaymentV>,
) -> Result<PenguinProgress, PenguinError>
    decreases payments.len(),
{
    if payments.len() == 0 {
        Ok(p)
    } else {
        match equip_all(m, penguin_id, bal, names, p, payments.drop_last()) {
            Err(e) => Err(e),
            Ok(q) => payment_spec(m, penguin_id, bal, names, q, payments.last()),
        }
    }
}

/// The checks of a penguin customization and the penguin it leads to, with
/// the items to send back.
pub open spec fn penguin_customize_spec(
    m: SlotMapV,
    penguin_id: Seq<u8>,
    can_create: bool,
    can_burn: bool,
    payments: Seq<PaymentV>,
    slots: Seq<ItemSlot>,
    attributes: PenguinV,
    bal: Seq<BalanceV>,
    names: Seq<(TokenV, Seq<u8>)>,
) -> Result<PenguinProgress, PenguinError> {
    if !can_create {
        Err(PenguinError::LocalCreateRoleNotSet)
    } else if !can_burn {
        Err(PenguinError::LocalBurnRoleNotSet)
    } else if payments.len() < 1 {
        Err(PenguinError::NeedPenguin)
    } else if !(payments.len() >= 2 || slots.len() >= 1) {
        Err(PenguinError::NeedItemOrSlotToDesequip)
    } else if payments[0].0 != penguin_id {
        Err(PenguinError::FirstPaymentMustBePenguin)
    } else if payments[0].2 != 1 {
        Err(PenguinError::OnlyOnePenguin)
    } else {
        match desequip_all(m, bal, (attributes, Seq::empty()), slots) {
            Err(e) => Err(e),
            Ok(q) => equip_all(m, penguin_id, bal, names, q, payments.skip(1)),
        }
    }
}

/// `empty/image.png`
pub open spec fn empty_image() -> Seq<u8> {
    seq![101u8, 109u8, 112u8, 116u8, 121u8, 47u8, 105u8, 109u8, 97u8, 103u8, 101u8, 46u8, 112u8, 110u8, 103u8]
}

/// `/image.png`
pub open spec fn image_suffix() -> Seq<u8> {
    seq![47u8, 105u8, 109u8, 97u8, 103u8, 101u8, 46u8, 112u8, 110u8, 103u8]
}

/// The parts of the picture's address for the first `n` slots: `slot_id`
/// for each slot that holds an item, with the id given for the item's token.
pub open spec fn url_parts(v: PenguinV, ids: Seq<(TokenV, Seq<u8>)>, n: nat) -> Seq<Seq<u8>>
    decreases n,
{
    if n == 0 {
        Seq::empty()
    } else {
        let prev = url_parts(v, ids, (n - 1) as nat);
        match v[n - 1] {
            Some(item) => prev.push(slot_values()[n - 1].bytes_of().push(95u8) + token_bytes(ids, (item.0, item.1))),
            None => prev,
        }
    }
}

/// The address of the picture of a penguin: the picture of a penguin with
/// nothing on it, or its parts joined with `+` and followed by `/image.png`.
pub open spec fn url_spec(uri: Seq<u8>, v: PenguinV, ids: Seq<(TokenV, Seq<u8>)>) -> Seq<u8> {
    if fill_count(v) == 0 {
        uri + empty_image()
    } else {
        uri + crate::utils::byte_spec::join(url_parts(v, ids, 7), 43u8) + image_suffix()
    }
}

/// The bytes given for a token; empty when none are given.
fn lookup_token_bytes(list: &Vec<(Token, Vec<u8>)>, t: &Token) -> (r: Vec<u8>)
    ensures
        r@ == token_bytes(token_bytes_views(list@), t@),
{
    let ghost v = token_bytes_views(list@);
    let mut i: usize = 0;
    assert(v.skip(0) =~= v);
    while i < list.len()
        invariant
            v == token_bytes_views(list@),
            i <= list.len(),
            token_bytes(v, t@) == token_bytes(v.skip(i as int), t@),
        decreases list.len() - i,
    {
        assert(v.skip(i as int)[0] == v[i as int]);
        assert(v.skip(i as int).drop_first() =~= v.skip(i + 1));
        if list[i].0.same_as(t) {
            return copy_bytes(&list[i].1);
        }
        i += 1;
    }
    assert(v.skip(i as int) =~= Seq::<(TokenV, Seq<u8>)>::empty());
    let r: Vec<u8> = Vec::new();
    assert(r@ =~= Seq::<u8>::empty());
    r
}

/// How many of the token the contract held when the call began.
fn held(balances: &Vec<(Token, Vec<u8>)>, t: &Token) -> (r: u128)
    ensures
        r == saturated(balance_of(balance_views(balances@), t@)),
{
    let ghost b = balance_views(balances@);
    let mut i: usize = 0;
    assert(b.skip(0) =~= b);
    while i < balances.len()
        invariant
            b == balance_views(balances@),
            i <= balances.len(),
            balance_of(b, t@) == balance_of(b.skip(i as int), t@),
        decreases balances.len() - i,
    {
        assert(b.skip(i as int)[0] == b[i as int]);
        assert(b.skip(i as int).drop_first() =~= b.skip(i + 1));
        if balances[i].0.same_as(t) {
            return be_to_u128_saturating(&balances[i].1);
        }
        i += 1;
    }
    assert(b.skip(i as int) =~= Seq::<BalanceV>::empty());
    0
}

/// How many times the token was already sent back.
fn times_sent(sent: &Vec<Token>, t: &Token) -> (r: usize)
    ensures
        r == sent_count(token_views(sent@), t@),
        r <= sent@.len(),
{
    let ghost v = token_views(sent@);
    let mut c: usize = 0;
    let mut i: usize = 0;
    assert(v.take(0) =~= Seq::<TokenV>::empty());
    while i < sent.len()
        invariant
            v == token_views(sent@),
            i <= sent.len(),
            c <= i,
            c == sent_count(v.take(i as int), t@),
        decreases sent.len() - i,
    {
        assert(v.take(i + 1).drop_last() =~= v.take(i as int));
        assert(v.take(i + 1).last() == sent@[i as int]@);
        if sent[i].same_as(t) {
            c += 1;
        }
        i += 1;
    }
    assert(v.take(sent.len() as int) =~= v);
    c
}

/// The state of the penguin contract: the penguins collection, the address
/// of the picture generator and the slot registered for each item collection.
pub struct PenguinEquip {
    pub penguins_identifier: Vec<u8>,
    pub uri: Vec<u8>,
    pub items_slot: Vec<(Vec<u8>, ItemSlot)>,
}

pub open spec fn slot_map_views(v: Seq<(Vec<u8>, ItemSlot)>) -> SlotMapV {
    Seq::new(v.len(), |i: int| (v[i].0@, v[i].1))
}

/// The outcome of a penguin customization: the items to send back to the
/// caller, in order, and the new penguin to mint with its picture's address.
pub struct PenguinPlan {
    pub items_to_send: Vec<Token>,
    pub attributes: PenguinAttributes,
    pub url: Vec<u8>,
}

impl PenguinEquip {
    /// The slot registered for each item collection, as a plain value.
    pub open spec fn slots(&self) -> SlotMapV {
        slot_map_views(self.items_slot@)
    }

    /// A contract for the penguins `penguins_identifier`, with the default
    /// picture generator and no item registered.
    pub fn init(penguins_identifier: Vec<u8>) -> (r: Self)
        ensures
            r.penguins_identifier@ == penguins_identifier@,
            r.uri@ == seq![104u8, 116u8, 116u8, 112u8, 115u8, 58u8, 47u8, 47u8, 112u8, 101u8, 110u8, 103u8, 117u8, 105u8, 110u8,
                115u8, 45u8, 103u8, 101u8, 110u8, 101u8, 114u8, 97u8, 116u8, 111u8, 114u8, 46u8, 104u8, 101u8, 114u8, 111u8,
                107u8, 117u8, 97u8, 112u8, 112u8, 46u8, 99u8, 111u8, 109u8, 47u8],
            r.slots() == Seq::<(Seq<u8>, ItemSlot)>::empty(),
    {
        let uri = vec![104u8, 116u8, 116u8, 112u8, 115u8, 58u8, 47u8, 47u8, 112u8, 101u8, 110u8, 103u8, 117u8, 105u8, 110u8,
            115u8, 45u8, 103u8, 101u8, 110u8, 101u8, 114u8, 97u8, 116u8, 111u8, 114u8, 46u8, 104u8, 101u8, 114u8, 111u8,
            107u8, 117u8, 97u8, 112u8, 112u8, 46u8, 99u8, 111u8, 109u8, 47u8];
        let r = PenguinEquip { penguins_identifier, uri, items_slot: Vec::new() };
        assert(r.slots() =~= Seq::<(Seq<u8>, ItemSlot)>::empty());
        r
    }

    /// Registers the collections `items_id_to_add` on `item_slot`; only the
    /// owner may call it, the penguins cannot be registered, and nothing is
    /// registered when one is refused.
    #[verifier::loop_isolation(false)]
    pub fn register_item(&mut self, caller: &Vec<u8>, owner: &Vec<u8>, item_slot: ItemSlot, items_id_to_add: &Vec<Vec<u8>>) -> (r: Result<(), PenguinError>)
        ensures
            final(self).penguins_identifier@ == old(self).penguins_identifier@,
            final(self).uri@ == old(self).uri@,
            caller@ != owner@ ==> r == Err::<(), PenguinError>(PenguinError::OnlyOwner),
            caller@ == owner@ && crate::utils::byte_spec::views(items_id_to_add@).contains(old(self).penguins_identifier@)
                ==> r == Err::<(), PenguinError>(PenguinError::CannotRegisterPenguinAsItem),
            r is Ok <==> caller@ == owner@ && !crate::utils::byte_spec::views(items_id_to_add@).contains(old(self).penguins_identifier@),
            r is Err ==> final(self).slots() == old(self).slots(),
            r is Ok ==> forall|id: Seq<u8>| #[trigger] slot_of(final(self).slots(), id) == if crate::utils::byte_spec::views(items_id_to_add@).contains(id) {
                item_slot
            } else {
                slot_of(old(self).slots(), id)
            },
    {
        let ghost ids = crate::utils::byte_spec::views(items_id_to_add@);
        if !bytes_eq(caller, owner) {
            return Err(PenguinError::OnlyOwner);
        }
        let mut i: usize = 0;
        while i < items_id_to_add.len()
            invariant
                ids == crate::utils::byte_spec::views(items_id_to_add@),
                i <= items_id_to_add.len(),
                forall|j: int| 0 <= j < i ==> ids[j] != self.penguins_identifier@,
            decreases items_id_to_add.len() - i,
        {
            assert(ids[i as int] == items_id_to_add@[i as int]@);
            if bytes_eq(&items_id_to_add[i], &self.penguins_identifier) {
                assert(ids.contains(self.penguins_identifier@));
                return Err(PenguinError::CannotRegisterPenguinAsItem);
            }
            i += 1;
        }
        assert(!ids.contains(self.penguins_identifier@));
        let ghost m0 = self.slots();
        let mut k: usize = 0;
        while k < items_id_to_add.len()
            invariant
                ids == crate::utils::byte_spec::views(items_id_to_add@),
                k <= items_id_to_add.len(),
                self.penguins_identifier@ == old(self).penguins_identifier@,
                self.uri@ == old(self).uri@,
                forall|id: Seq<u8>| #[trigger] slot_of(self.slots(), id) == if ids.take(k as int).contains(id) {
                    item_slot
                } else {
                    slot_of(m0, id)
                },
            decreases items_id_to_add.len() - k,
        {
            let ghost before = self.slots();
            assert(forall|x: Seq<u8>| #[trigger] slot_of(before, x) == if ids.take(k as int).contains(x) {
                item_slot
            } else {
                slot_of(m0, x)
            });
            let id = copy_bytes(&items_id_to_add[k]);
            let ghost idv = id@;
            self.items_slot.push((id, item_slot));
            assert(self.slots() =~= before.push((idv, item_slot)));
            assert(ids[k as int] == idv);
            assert forall|x: Seq<u8>| #[trigger] slot_of(self.slots(), x) == if ids.take(k + 1).contains(x) {
                item_slot
            } else {
                slot_of(m0, x)
            } by {
                assert(self.slots().drop_last() =~= before);
                assert(self.slots().last() == (idv, item_slot));
                assert(self.slots().len() > 0);
                assert(slot_of(self.slots(), x) == if x == idv { item_slot } else { slot_of(before, x) });
                assert(ids.take(k + 1) =~= ids.take(k as int).push(idv));
                if x == idv {
                    assert(ids.take(k + 1)[k as int] == x);
                } else {
                    let t1 = ids.take(k + 1);
                    let t0 = ids.take(k as int);
                    if t1.contains(x) {
                        let q = choose|q: int| 0 <= q < t1.len() && #[trigger] t1[q] == x;
                        assert(t0[q] == x);
                    }
                    if t0.contains(x) {
                        let q = choose|q: int| 0 <= q < t0.len() && #[trigger] t0[q] == x;
                        assert(t1[q] == x);
                    }
                }
            }
            k += 1;
        }
        assert(ids.take(items_id_to_add.len() as int) =~= ids);
        Ok(())
    }

    /// The slot registered for a collection, if any.
    pub fn get_item_slot(&self, item_id: &Vec<u8>) -> (r: Option<ItemSlot>)
        ensures
            match r {
                Some(s) => s == slot_of(self.slots(), item_id@) && s != ItemSlot::NoSlot,
                None => slot_of(self.slots(), item_id@) == ItemSlot::NoSlot,
            },
    {
        let ghost m = self.slots();
        let mut i = self.items_slot.len();
        assert(m.take(i as int) =~= m);
        while i > 0
            invariant
                m == self.slots(),
                i <= self.items_slot.len(),
                slot_of(m, item_id@) == slot_of(m.take(i as int), item_id@),
            decreases i,
        {
            let ghost t = m.take(i as int);
            assert(t.drop_last() =~= m.take(i - 1));
            assert(t.last() == (self.items_slot@[i - 1].0@, self.items_slot@[i - 1].1));
            if bytes_eq(&self.items_slot[i - 1].0, item_id) {
                let s = self.items_slot[i - 1].1;
                return match s {
                    ItemSlot::NoSlot => None,
                    _ => Some(s),
                };
            }
            i -= 1;
        }
        None
    }

    /// Makes sure the contract can create and burn penguins.
    pub fn require_penguin_roles_set(can_create: bool, can_burn: bool) -> (r: Result<(), PenguinError>)
        ensures
            !can_create ==> r == Err::<(), PenguinError>(PenguinError::LocalCreateRoleNotSet),
            can_create && !can_burn ==> r == Err::<(), PenguinError>(PenguinError::LocalBurnRoleNotSet),
            can_create && can_burn ==> r is Ok,
    {
        if !can_create {
            return Err(PenguinError::LocalCreateRoleNotSet);
        }
        if !can_burn {
            return Err(PenguinError::LocalBurnRoleNotSet);
        }
        Ok(())
    }

    /// Accepts tokens sent by the owner; only the owner may call it.
    pub fn fill(&self, caller: &Vec<u8>, owner: &Vec<u8>) -> (r: Result<(), PenguinError>)
        ensures
            r is Ok <==> caller@ == owner@,
            r is Err ==> r == Err::<(), PenguinError>(PenguinError::OnlyOwner),
    {
        if !bytes_eq(caller, owner) {
            return Err(PenguinError::OnlyOwner);
        }
        Ok(())
    }
}

/// The number of parts is the number of slots that hold an item.
proof fn lemma_url_parts_len(v: PenguinV, ids: Seq<(TokenV, Seq<u8>)>, n: nat)
    requires
        n <= v.len(),
    ensures
        url_parts(v, ids, n).len() == fill_count(v.take(n as int)),
    decreases n,
{
    if n > 0 {
        lemma_url_parts_len(v, ids, (n - 1) as nat);
        assert(v.take(n as int).drop_last() =~= v.take(n - 1));
    }
}

/// `Penguin #`
pub open spec fn penguin_name_prefix() -> Seq<u8> {
    seq![80u8, 101u8, 110u8, 103u8, 117u8, 105u8, 110u8, 32u8, 35u8]
}

impl PenguinEquip {
    /// Takes the item off `slot` and sends it back, as `desequip_spec` says;
    /// nothing changes when it is refused.
    pub fn desequip_slot(
        &self,
        balances: &Vec<(Token, Vec<u8>)>,
        attributes: &mut PenguinAttributes,
        sent: &mut Vec<Token>,
        slot: &ItemSlot,
    ) -> (r: Result<(), PenguinError>)
        ensures
            match desequip_spec(self.slots(), balance_views(balances@), (old(attributes)@, token_views(old(sent)@)), *slot) {
                Ok(q) => r is Ok && final(attributes)@ == q.0 && token_views(final(sent)@) == q.1,
                Err(e) => r == Err::<(), PenguinError>(e) && final(attributes)@ == old(attributes)@
                    && final(sent)@ == old(sent)@,
            },
    {
        if *slot == ItemSlot::NoSlot {
            return Err(PenguinError::SlotMustNotBeNone);
        }
        proof {
            lemma_view_item_on(*attributes, *slot);
        }
        if attributes.is_slot_empty(slot) {
            return Err(PenguinError::CannotSendItemFromEmptySlot);
        }
        let item = match attributes.get_item(slot) {
            Some(item) => item,
            None => {
                return Err(PenguinError::CannotSendItemFromEmptySlot);
            },
        };
        if self.get_item_slot(&item.token).is_none() {
            return Err(PenguinError::ItemToDesequipNotAnItem);
        }
        let token = Token::new(copy_bytes(&item.token), item.nonce);
        let balance = held(balances, &token);
        let already = times_sent(sent, &token);
        if balance <= already as u128 + 1 {
            return Err(PenguinError::NoTokenOnContract);
        }
        let ghost before = *attributes;
        let ghost sent_before = token_views(sent@);
        let ghost tv = token@;
        sent.push(token);
        assert(token_views(sent@) =~= sent_before.push(tv));
        let _ = attributes.set_empty_slot(slot);
        proof {
            lemma_view_update(before, *attributes, *slot);
        }
        Ok(())
    }

    /// Puts `item` on the slot registered for its collection, first taking
    /// off what the slot held, as `equip_spec` says.
    pub fn equip_slot(
        &self,
        balances: &Vec<(Token, Vec<u8>)>,
        attributes: &mut PenguinAttributes,
        sent: &mut Vec<Token>,
        item: &Item,
    ) -> (r: Result<(), PenguinError>)
        ensures
            match equip_spec(self.slots(), self.penguins_identifier@, balance_views(balances@), (old(attributes)@, token_views(old(sent)@)), item@) {
                Ok(q) => r is Ok && final(attributes)@ == q.0 && token_views(final(sent)@) == q.1,
                Err(e) => r == Err::<(), PenguinError>(e),
            },
    {
        let item_slot = match self.get_item_slot(&item.token) {
            Some(s) => s,
            None => {
                return Err(PenguinError::NotAnItem);
            },
        };
        if bytes_eq(&item.token, &self.penguins_identifier) {
            return Err(PenguinError::CannotEquipPenguin);
        }
        proof {
            lemma_view_item_on(*attributes, item_slot);
        }
        if !attributes.is_slot_empty(&item_slot) {
            match self.desequip_slot(balances, attributes, sent, &item_slot) {
                Ok(()) => {},
                Err(e) => {
                    return Err(e);
                },
            }
        }
        proof {
            lemma_view_item_on(*attributes, item_slot);
        }
        let ghost before = *attributes;
        let result = attributes.set_item(&item_slot, Some(item.copy()));
        proof {
            lemma_view_update(before, *attributes, item_slot);
        }
        assert(result is Ok);
        Ok(())
    }

    /// The address of the picture of a penguin with nothing on it.
    pub fn get_full_unequiped_penguin_uri(&self) -> (r: Vec<u8>)
        ensures
            r@ == self.uri@ + empty_image(),
    {
        let suffix = vec![101u8, 109u8, 112u8, 116u8, 121u8, 47u8, 105u8, 109u8, 97u8, 103u8, 101u8, 46u8, 112u8, 110u8, 103u8];
        assert(suffix@ =~= empty_image());
        crate::utils::concat(copy_bytes(&self.uri), &suffix)
    }

    /// The address of the picture of a penguin: each slot that holds an
    /// item gives `slot_id`, the id being the one given for the item's token.
    #[verifier::loop_isolation(false)]
    pub fn build_url(&self, attributes: &PenguinAttributes, item_ids: &Vec<(Token, Vec<u8>)>) -> (r: Vec<u8>)
        ensures
            r@ == url_spec(self.uri@, attributes@, token_bytes_views(item_ids@)),
    {
        let ghost ids = token_bytes_views(item_ids@);
        let ghost v = attributes@;
        if attributes.get_fill_count() == 0 {
            return self.get_full_unequiped_penguin_uri();
        }
        let mut expected = copy_bytes(&self.uri);
        let mut is_first_item = true;
        let values = ItemSlot::values();
        let mut i: usize = 0;
        while i < values.len()
            invariant
                values@ == slot_values(),
                i <= 7,
                v == attributes@,
                is_first_item == (url_parts(v, ids, i as nat).len() == 0),
                expected@ == self.uri@ + if url_parts(v, ids, i as nat).len() == 0 {
                    Seq::<u8>::empty()
                } else {
                    join(url_parts(v, ids, i as nat), 43u8)
                },
            decreases values.len() - i,
        {
            let slot = values[i];
            proof {
                lemma_view_item_on(*attributes, slot);
                assert(slot_index(slot) == i);
            }
            let ghost prev = url_parts(v, ids, i as nat);
            match attributes.get_item(&slot) {
                Some(item) => {
                    let token = Token::new(copy_bytes(&item.token), item.nonce);
                    let slot_type = lookup_token_bytes(item_ids, &token);
                    let ghost part = slot.bytes_of().push(95u8) + slot_type@;
                    let ghost e0 = expected@;
                    if !is_first_item {
                        expected.push(43u8);
                    }
                    let slot_id = slot.to_bytes();
                    expected = crate::utils::concat(expected, &slot_id);
                    expected.push(95u8);
                    expected = crate::utils::concat(expected, &slot_type);
                    is_first_item = false;
                    assert(url_parts(v, ids, (i + 1) as nat) == prev.push(part));
                    proof {
                        if prev.len() == 0 {
                            assert(prev.push(part) =~= seq![part]);
                            assert(expected@ =~= self.uri@ + join(prev.push(part), 43u8));
                        } else {
                            assert(prev.push(part).drop_last() =~= prev);
                            assert(expected@ =~= self.uri@ + join(prev.push(part), 43u8));
                        }
                    }
                },
                None => {
                    assert(url_parts(v, ids, (i + 1) as nat) == prev);
                },
            }
            i += 1;
        }
        proof {
            lemma_url_parts_len(v, ids, 7);
            assert(v.take(7) =~= v);
        }
        let suffix = vec![47u8, 105u8, 109u8, 97u8, 103u8, 101u8, 46u8, 112u8, 110u8, 103u8];
        assert(suffix@ =~= image_suffix());
        let r = crate::utils::concat(expected, &suffix);
        r
    }

    /// The name of the next penguin: `Penguin #` and the number that follows
    /// the current nonce.
    pub fn get_next_penguin_name(current_nonce: u64) -> (r: Vec<u8>)
        requires
            current_nonce < u64::MAX,
        ensures
            r@ == penguin_name_prefix() + ascii_text((current_nonce + 1) as nat),
    {
        let index = current_nonce + 1;
        let full_token_name = vec![80u8, 101u8, 110u8, 103u8, 117u8, 105u8, 110u8, 32u8, 35u8];
        assert(full_token_name@ =~= penguin_name_prefix());
        let token_index = index.to_ascii();
        crate::utils::concat(full_token_name, &token_index)
    }

    /// Plans a penguin customization: checks the roles and the payments (the
    /// penguin first, alone), takes the items off the slots given, puts the
    /// items sent on their registered slots (taking off what they replace),
    /// and builds the address of the new picture. The items to send back and
    /// the penguin to mint come out; nothing is sent or minted here.
    #[verifier::loop_isolation(false)]
    pub fn customize(
        &self,
        payments: &Vec<Payment>,
        to_desequip_slots: &Vec<ItemSlot>,
        can_create: bool,
        can_burn: bool,
        attributes: PenguinAttributes,
        balances: &Vec<(Token, Vec<u8>)>,
        token_names: &Vec<(Token, Vec<u8>)>,
        item_ids: &Vec<(Token, Vec<u8>)>,
    ) -> (r: Result<PenguinPlan, PenguinError>)
        ensures
            match penguin_customize_spec(
                self.slots(),
                self.penguins_identifier@,
                can_create,
                can_burn,
                payment_views(payments@),
                to_desequip_slots@,
                attributes@,
                balance_views(balances@),
                token_bytes_views(token_names@),
            ) {
                Ok(q) => r is Ok && r->Ok_0.attributes@ == q.0 && token_views(r->Ok_0.items_to_send@) == q.1
                    && r->Ok_0.url@ == url_spec(self.uri@, q.0, token_bytes_views(item_ids@)),
                Err(e) => r == Err::<PenguinPlan, PenguinError>(e),
            },
    {
        let ghost pv = payment_views(payments@);
        let ghost slots = to_desequip_slots@;
        let ghost bal = balance_views(balances@);
        let ghost names = token_bytes_views(token_names@);
        let ghost m = self.slots();
        match Self::require_penguin_roles_set(can_create, can_burn) {
            Ok(()) => {},
            Err(e) => {
                return Err(e);
            },
        }
        if payments.len() < 1 {
            return Err(PenguinError::NeedPenguin);
        }
        if !(payments.len() >= 2 || to_desequip_slots.len() >= 1) {
            return Err(PenguinError::NeedItemOrSlotToDesequip);
        }
        assert(pv[0] == payments@[0]@);
        if !bytes_eq(&payments[0].token_identifier, &self.penguins_identifier) {
            return Err(PenguinError::FirstPaymentMustBePenguin);
        }
        if be_to_u128_saturating(&payments[0].amount) != 1 {
            return Err(PenguinError::OnlyOnePenguin);
        }
        let mut attributes = attributes;
        let ghost start: PenguinProgress = (attributes@, Seq::<TokenV>::empty());
        let mut sent: Vec<Token> = Vec::new();
        assert(token_views(sent@) =~= Seq::<TokenV>::empty());
        assert(slots.take(0) =~= Seq::<ItemSlot>::empty());
        let mut i: usize = 0;
        while i < to_desequip_slots.len()
            invariant
                i <= to_desequip_slots.len(),
                desequip_all(m, bal, start, slots.take(i as int)) == Ok::<PenguinProgress, PenguinError>((attributes@, token_views(sent@))),
            decreases to_desequip_slots.len() - i,
        {
            let ghost t = slots.take(i + 1);
            assert(t.drop_last() =~= slots.take(i as int));
            assert(t.last() == to_desequip_slots@[i as int]);
            match self.desequip_slot(balances, &mut attributes, &mut sent, &to_desequip_slots[i]) {
                Ok(()) => {},
                Err(e) => {
                    proof {
                        lemma_desequip_all_err_prefix(m, bal, start, slots, i + 1);
                    }
                    return Err(e);
                },
            }
            i += 1;
        }
        assert(slots.take(to_desequip_slots.len() as int) =~= slots);
        let ghost mid: PenguinProgress = (attributes@, token_views(sent@));
        let ghost items = pv.skip(1);
        assert(items.take(0) =~= Seq::<PaymentV>::empty());
        let mut j: usize = 1;
        while j < payments.len()
            invariant
                1 <= j <= payments.len(),
                equip_all(m, self.penguins_identifier@, bal, names, mid, items.take(j - 1)) == Ok::<PenguinProgress, PenguinError>((attributes@, token_views(sent@))),
            decreases payments.len() - j,
        {
            let ghost t = items.take(j as int);
            assert(t.drop_last() =~= items.take(j - 1));
            assert(t.last() == payments@[j as int]@);
            let payment = &payments[j];
            if be_to_u128_saturating(&payment.amount) != 1 {
                proof {
                    lemma_penguin_equip_all_err_prefix(m, self.penguins_identifier@, bal, names, mid, items, j as int);
                }
                return Err(PenguinError::OnlyOneItem);
            }
            let token = Token::new(copy_bytes(&payment.token_identifier), payment.token_nonce);
            let name = lookup_token_bytes(token_names, &token);
            let item = Item { token: copy_bytes(&payment.token_identifier), nonce: payment.token_nonce, name };
            match self.equip_slot(balances, &mut attributes, &mut sent, &item) {
                Ok(()) => {},
                Err(e) => {
                    proof {
                        lemma_penguin_equip_all_err_prefix(m, self.penguins_identifier@, bal, names, mid, items, j as int);
                    }
                    return Err(e);
                },
            }
            j += 1;
        }
        assert(items.take(payments.len() - 1) =~= items);
        let url = self.build_url(&attributes, item_ids);
        Ok(PenguinPlan { items_to_send: sent, attributes, url })
    }
}

proof fn lemma_desequip_all_err_prefix(m: SlotMapV, bal: Seq<BalanceV>, p: PenguinProgress, slots: Seq<ItemSlot>, k: int)
    requires
        0 <= k <= slots.len(),
        desequip_all(m, bal, p, slots.take(k)) is Err,
    ensures
        desequip_all(m, bal, p, slots) == desequip_all(m, bal, p, slots.take(k)),
    decreases slots.len() - k,
{
    if k < slots.len() {
        assert(slots.take(k + 1).drop_last() =~= slots.take(k));
        lemma_desequip_all_err_prefix(m, bal, p, slots, k + 1);
    } else {
        assert(slots.take(k) =~= slots);
    }
}

proof fn lemma_penguin_equip_all_err_prefix(
    m: SlotMapV,
    penguin_id: Seq<u8>,
    bal: Seq<BalanceV>,
    names: Seq<(TokenV, Seq<u8>)>,
    p: PenguinProgress,
    payments: Seq<PaymentV>,
    k: int,
)
    requires
        0 <= k <= payments.len(),
        equip_all(m, penguin_id, bal, names, p, payments.take(k)) is Err,
    ensures
        equip_all(m, penguin_id, bal, names, p, payments) == equip_all(m, penguin_id, bal, names, p, payments.take(k)),
    decreases payments.len() - k,
{
    if k < payments.len() {
        assert(payments.take(k + 1).drop_last() =~= payments.take(k));
        lemma_penguin_equip_all_err_prefix(m, penguin_id, bal, names, p, payments, k + 1);
    } else {
        assert(payments.take(k) =~= payments);
    }
}

/// Law: an item put on a penguin's slot that already holds a registered
/// item (of which the contract holds more than one) replaces it: the old item
/// is sent back, the new one is on the slot, and every other slot is as it
/// was.
pub proof fn law_penguin_equip_on_occupied_slot(
    m: SlotMapV,
    penguin_id: Seq<u8>,
    bal: Seq<BalanceV>,
    p: PenguinProgress,
    item: PenguinItemV,
    i: int,
)
    requires
        p.0.len() == 7,
        slot_of(m, item.0) != ItemSlot::NoSlot,
        item.0 != penguin_id,
        p.0[slot_index(slot_of(m, item.0))] is Some,
        ({
            let old_item = p.0[slot_index(slot_of(m, item.0))]->Some_0;
            let t = (old_item.0, old_item.1);
            slot_of(m, old_item.0) != ItemSlot::NoSlot && balance_of(bal, t) > sent_count(p.1, t) + 1
        }),
        0 <= i < 7,
    ensures
        ({
            let s = slot_of(m, item.0);
            let old_item = p.0[slot_index(s)]->Some_0;
            let r = equip_spec(m, penguin_id, bal, p, item);
            &&& r is Ok
            &&& r->Ok_0.1 == p.1.push((old_item.0, old_item.1))
            &&& r->Ok_0.0[slot_index(s)] == Some(item)
            &&& i != slot_index(s) ==> r->Ok_0.0[i] == p.0[i]
        }),
{
}

} // verus!
