use vstd::prelude::*;
use crate::libs::equippable_uris::{stored_uri, uri_store_wf, EquippableUrisModule, UriStore, UriStoreV};
use crate::libs::storage::{
    id_of, id_pos, lemma_member, registry_wf, valid_item, value_of, value_pos, EntryV,
    ItemRegistry,
};
use crate::structs::attribute_spec::{
    attrs_wf, decode_attrs, encode_attrs, index_of, lemma_index_of, lemma_put, name_at, put,
    valid_slot, Attr, DecodeError,
};
use crate::structs::equippable_attributes::{copy_bytes, EquippableAttributes};
use crate::structs::image_to_render::ImageToRender;
use crate::structs::item::Item;
use crate::structs::token::{Token, TokenV};
use crate::equip::{
    collection_views, payment_tokens, record_all, record_items, CollectionSlotV, Equip, RecordError,
};
use crate::structs::equippable_attributes::AttributeError;
use crate::utils::big_uint::saturated;
use crate::utils::big_uint::{be_to_u128_saturating, be_value};
use crate::utils::managed_buffer_utils::bytes_eq;

verus! {

/// One transfer received with a call: the token and the amount, as
/// big-endian bytes.
pub struct Payment {
    pub token_identifier: Vec<u8>,
    pub token_nonce: u64,
    pub amount: Vec<u8>,
}

/// A payment as a plain value: identifier, nonce and amount.
pub type PaymentV = (Seq<u8>, u64, nat);

impl View for Payment {
    type V = PaymentV;

    open spec fn view(&self) -> PaymentV {
        (self.token_identifier@, self.token_nonce, be_value(self.amount@))
    }
}

pub open spec fn payment_views(v: Seq<Payment>) -> Seq<PaymentV> {
    Seq::new(v.len(), |i: int| v[i]@)
}

/// How many of a token the contract holds: identifier, nonce and amount.
pub type BalanceV = (TokenV, nat);

pub open spec fn balance_views(v: Seq<(Token, Vec<u8>)>) -> Seq<BalanceV> {
    Seq::new(v.len(), |i: int| (v[i].0@, be_value(v[i].1@)))
}

/// Why a customization is refused.
#[derive(PartialEq, Eq, Structural, Clone, Copy, Debug)]
pub enum CustomizeError {
    /// The contract lacks the create role on the equippable collection.
    CreateRoleNotSetForEquippable,
    /// The contract lacks the burn role on the equippable collection.
    BurnRoleNotSetForEquippable,
    /// No equippable was sent.
    NeedEquippable,
    /// Neither an item to equip nor a slot to unequip was given.
    NeedOneItemOrUnequipSlot,
    /// The first transfer is not an equippable.
    FirstPaymentIsEquippable,
    /// More than one equippable was sent.
    MoreThanOneEquippableReceived,
    /// The attributes of the equippable do not decode.
    CannotDecodeAttributes(DecodeError),
    /// A slot to unequip holds no item.
    CannotUnequipEmptySlot,
    /// The item on a slot to unequip is not registered.
    UnequippedItemNotRegistered,
    /// The contract holds none of the item to send back.
    NoItemRemaining,
    /// More than one of an item was sent.
    MoreThanOneItemReceived,
    /// A sent item is of no collection registered to a slot.
    ItemNotRegistered,
    /// The name read from a sent item is refused.
    InvalidItemName(AttributeError),
    /// No URI is stored for the new look of the equippable.
    NoUriForAttributes,
    /// The text of the new attributes does not fit the scratch buffer.
    AttributesTooLong,
}

/// How many of the token the contract held when the call began: the first
/// balance given for it, or none.
pub open spec fn balance_of(b: Seq<BalanceV>, t: TokenV) -> nat
    decreases b.len(),
{
    if b.len() == 0 {
        0
    } else if b[0].0 == t {
        b[0].1
    } else {
        balance_of(b.drop_first(), t)
    }
}

/// How many times the token was already sent back.
pub open spec fn sent_count(s: Seq<TokenV>, t: TokenV) -> nat
    decreases s.len(),
{
    if s.len() == 0 {
        0
    } else {
        sent_count(s.drop_last(), t) + if s.last() == t { 1nat } else { 0nat }
    }
}

/// The attributes being built and the items sent back so far.
pub type Progress = (Seq<Attr>, Seq<TokenV>);

/// Unequipping a slot: the item on it must be registered and the contract
/// must still hold one of it; that item is sent back and the slot emptied.
pub open spec fn unequip_spec(reg: Seq<EntryV>, bal: Seq<BalanceV>, p: Progress, slot: Seq<u8>) -> Result<Progress, CustomizeError> {
    match name_at(p.0, slot) {
        None => Err(CustomizeError::CannotUnequipEmptySlot),
        Some(name) => {
            let item = (name, slot);
            if id_pos(reg, item) < 0 {
                Err(CustomizeError::UnequippedItemNotRegistered)
            } else {
                let token = value_of(reg, item);
                if balance_of(bal, token) <= sent_count(p.1, token) {
                    Err(CustomizeError::NoItemRemaining)
                } else {
                    Ok((put(p.0, slot, None), p.1.push(token)))
                }
            }
        },
    }
}

/// Unequipping the slots one after the other.
pub open spec fn unequip_all(reg: Seq<EntryV>, bal: Seq<BalanceV>, p: Progress, slots: Seq<Seq<u8>>) -> Result<Progress, CustomizeError>
    decreases slots.len(),
{
    if slots.len() == 0 {
        Ok(p)
    } else {
        match unequip_all(reg, bal, p, slots.drop_last()) {
            Err(e) => Err(e),
            Ok(q) => unequip_spec(reg, bal, q, slots.last()),
        }
    }
}

/// Equipping an item: an item already on its slot is unequipped first.
pub open spec fn equip_item_spec(reg: Seq<EntryV>, bal: Seq<BalanceV>, p: Progress, item: (Seq<u8>, Seq<u8>)) -> Result<Progress, CustomizeError> {
    let emptied = if name_at(p.0, item.1) is Some {
        unequip_spec(reg, bal, p, item.1)
    } else {
        Ok(p)
    };
    match emptied {
        Err(e) => Err(e),
        Ok(q) => Ok((put(q.0, item.1, Some(item.0)), q.1)),
    }
}

/// Equipping the item of a payment: exactly one must be sent and it must be
/// registered.
pub open spec fn equip_spec(reg: Seq<EntryV>, bal: Seq<BalanceV>, p: Progress, payment: PaymentV) -> Result<Progress, CustomizeError> {
    let token = (payment.0, payment.1);
    if payment.2 != 1 {
        Err(CustomizeError::MoreThanOneItemReceived)
    } else if value_pos(reg, token) < 0 {
        Err(CustomizeError::ItemNotRegistered)
    } else {
        equip_item_spec(reg, bal, p, id_of(reg, token))
    }
}

/// Equipping the items of the payments one after the other.
pub open spec fn equip_all(reg: Seq<EntryV>, bal: Seq<BalanceV>, p: Progress, payments: Seq<PaymentV>) -> Result<Progress, CustomizeError>
    decreases payments.len(),
{
    if payments.len() == 0 {
        Ok(p)
    } else {
        match equip_all(reg, bal, p, payments.drop_last()) {
            Err(e) => Err(e),
            Ok(q) => equip_spec(reg, bal, q, payments.last()),
        }
    }
}

/// The checks of a customization and the attributes it leads to, with the
/// items to send back: the roles, the payments (the equippable first, alone),
/// the attributes read from the equippable, then the slots to unequip, then
/// the items to equip.
pub open spec fn customize_attributes_spec(
    equippable_id: Seq<u8>,
    reg: Seq<EntryV>,
    can_create: bool,
    can_burn: bool,
    payments: Seq<PaymentV>,
    slots: Seq<Seq<u8>>,
    raw_attributes: Seq<u8>,
    bal: Seq<BalanceV>,
) -> Result<Progress, CustomizeError> {
    if !can_create {
        Err(CustomizeError::CreateRoleNotSetForEquippable)
    } else if !can_burn {
        Err(CustomizeError::BurnRoleNotSetForEquippable)
    } else if payments.len() < 1 {
        Err(CustomizeError::NeedEquippable)
    } else if !(payments.len() >= 2 || slots.len() >= 1) {
        Err(CustomizeError::NeedOneItemOrUnequipSlot)
    } else if payments[0].0 != equippable_id {
        Err(CustomizeError::FirstPaymentIsEquippable)
    } else if payments[0].2 != 1 {
        Err(CustomizeError::MoreThanOneEquippableReceived)
    } else {
        match decode_attrs(raw_attributes) {
            Err(e) => Err(CustomizeError::CannotDecodeAttributes(e)),
            Ok(a) => match unequip_all(reg, bal, (a, Seq::empty()), slots) {
                Err(e) => Err(e),
                Ok(q) => equip_all(reg, bal, q, payments.skip(1)),
            },
        }
    }
}

/// The checks of a customization made before anything is read: the roles,
/// then the payments (the equippable first, alone, with an item or a slot to
/// unequip).
pub open spec fn customize_checks(
    equippable_id: Seq<u8>,
    can_create: bool,
    can_burn: bool,
    payments: Seq<PaymentV>,
    slots: Seq<Seq<u8>>,
) -> Result<(), CustomizeError> {
    if !can_create {
        Err(CustomizeError::CreateRoleNotSetForEquippable)
    } else if !can_burn {
        Err(CustomizeError::BurnRoleNotSetForEquippable)
    } else if payments.len() < 1 {
        Err(CustomizeError::NeedEquippable)
    } else if !(payments.len() >= 2 || slots.len() >= 1) {
        Err(CustomizeError::NeedOneItemOrUnequipSlot)
    } else if payments[0].0 != equippable_id {
        Err(CustomizeError::FirstPaymentIsEquippable)
    } else if payments[0].2 != 1 {
        Err(CustomizeError::MoreThanOneEquippableReceived)
    } else {
        Ok(())
    }
}

/// The refusal of a customization for an item that cannot be recorded.
pub open spec fn record_refusal(e: RecordError) -> CustomizeError {
    match e {
        RecordError::CollectionNotRegistered => CustomizeError::ItemNotRegistered,
        RecordError::InvalidName(a) => CustomizeError::InvalidItemName(a),
    }
}

/// The registry once the items sent after the equippable are recorded,
/// each under the name read from it (`names` has one name per payment).
pub open spec fn customize_registry(
    reg: Seq<EntryV>,
    cols: Seq<CollectionSlotV>,
    payments: Seq<PaymentV>,
    names: Seq<Seq<u8>>,
) -> Result<Seq<EntryV>, CustomizeError> {
    match record_all(reg, cols, payment_tokens(payments).skip(1), names.skip(1)) {
        Err(e) => Err(record_refusal(e)),
        Ok(t) => Ok(t),
    }
}

/// The whole customization: after the checks, the items sent are recorded
/// (any token of a collection registered to a slot is that slot's item
/// named as the token is), then the attributes are changed as
/// `customize_attributes_spec` says over the registry with those items;
/// the new attributes must have a URI for the equippable's name, and their
/// text must fit the scratch buffer. The registry it leads to comes out too.
pub open spec fn customize_spec(
    equippable_id: Seq<u8>,
    reg: Seq<EntryV>,
    cols: Seq<CollectionSlotV>,
    uris: UriStoreV,
    can_create: bool,
    can_burn: bool,
    payments: Seq<PaymentV>,
    names: Seq<Seq<u8>>,
    slots: Seq<Seq<u8>>,
    raw_attributes: Seq<u8>,
    name: Seq<u8>,
    bal: Seq<BalanceV>,
) -> Result<(Progress, Seq<u8>, Seq<EntryV>), CustomizeError> {
    match customize_checks(equippable_id, can_create, can_burn, payments, slots) {
        Err(e) => Err(e),
        Ok(()) => match customize_registry(reg, cols, payments, names) {
            Err(e) => Err(e),
            Ok(reg2) => match customize_attributes_spec(equippable_id, reg2, can_create, can_burn, payments, slots, raw_attributes, bal) {
                Err(e) => Err(e),
                Ok(p) => {
                    let uri = stored_uri(uris.1, (p.0, name));
                    if uri.len() == 0 {
                        Err(CustomizeError::NoUriForAttributes)
                    } else if encode_attrs(p.0).len() > 512 {
                        Err(CustomizeError::AttributesTooLong)
                    } else {
                        Ok((p, uri, reg2))
                    }
                },
            },
        },
    }
}

/// The outcome of a customization: the items to send back to the caller,
/// in order, and the new equippable to mint (its attributes, their text and
/// its URI) in place of the one received.
pub struct CustomizePlan {
    pub items_to_send: Vec<Token>,
    pub attributes: EquippableAttributes,
    pub encoded_attributes: Vec<u8>,
    pub uri: Vec<u8>,
}

pub open spec fn token_views(v: Seq<Token>) -> Seq<TokenV> {
    Seq::new(v.len(), |i: int| v[i]@)
}

/// Every step keeps the attributes well formed.
proof fn lemma_unequip_wf(reg: Seq<EntryV>, bal: Seq<BalanceV>, p: Progress, slot: Seq<u8>)
    requires
        attrs_wf(p.0),
    ensures
        unequip_spec(reg, bal, p, slot) is Ok ==> attrs_wf(unequip_spec(reg, bal, p, slot)->Ok_0.0),
        unequip_spec(reg, bal, p, slot) is Ok ==> name_at(unequip_spec(reg, bal, p, slot)->Ok_0.0, slot) is None,
{
    if name_at(p.0, slot) is Some {
        lemma_index_of(p.0, slot);
        let i = index_of(p.0, slot);
        assert(valid_slot(p.0[i].0));
        lemma_put(p.0, slot, None);
    }
}

/// How many of the token the contract held when the call began.
fn balance_of_token(balances: &Vec<(Token, Vec<u8>)>, t: &Token) -> (r: u128)
    ensures
        r == saturated(balance_of(balance_views(balances@), t@)),
{
    let ghost b = balance_views(balances@);
    let mut i: usize = 0;
    assert(b.skip(0) =~= b);
    while i < balances.len()
        invariant
            b == balance_views(balances@),
            i <= balances.len(),
            balance_of(b, t@) == balance_of(b.skip(i as int), t@),
        decreases balances.len() - i,
    {
        assert(b.skip(i as int)[0] == b[i as int]);
        assert(b.skip(i as int).drop_first() =~= b.skip(i + 1));
        if balances[i].0.same_as(t) {
            return be_to_u128_saturating(&balances[i].1);
        }
        i += 1;
    }
    assert(b.skip(i as int) =~= Seq::<BalanceV>::empty());
    0
}

/// How many times the token was already sent back.
fn count_sent(sent: &Vec<Token>, t: &Token) -> (r: usize)
    ensures
        r == sent_count(token_views(sent@), t@),
        r <= sent@.len(),
{
    let ghost v = token_views(sent@);
    let mut c: usize = 0;
    let mut i: usize = 0;
    assert(v.take(0) =~= Seq::<TokenV>::empty());
    while i < sent.len()
        invariant
            v == token_views(sent@),
            i <= sent.len(),
            c <= i,
            c == sent_count(v.take(i as int), t@),
        decreases sent.len() - i,
    {
        assert(v.take(i + 1).drop_last() =~= v.take(i as int));
        assert(v.take(i + 1).last() == sent@[i as int]@);
        if sent[i].same_as(t) {
            c += 1;
        }
        i += 1;
    }
    assert(v.take(sent.len() as int) =~= v);
    c
}

/// Empties `slot`, sending its item back, as `unequip_spec` says; nothing
/// changes when it is refused.
fn unequip_slot(
    registry: &ItemRegistry,
    balances: &Vec<(Token, Vec<u8>)>,
    attributes: &mut EquippableAttributes,
    sent: &mut Vec<Token>,
    slot: &Vec<u8>,
) -> (r: Result<(), CustomizeError>)
    requires
        old(attributes).wf(),
    ensures
        final(attributes).wf(),
        match unequip_spec(registry@, balance_views(balances@), (old(attributes)@, token_views(old(sent)@)), slot@) {
            Ok(q) => r is Ok && final(attributes)@ == q.0 && token_views(final(sent)@) == q.1,
            Err(e) => r == Err::<(), CustomizeError>(e) && final(attributes)@ == old(attributes)@
                && final(sent)@ == old(sent)@,
        },
{
    let opt_name = attributes.get_name(slot);
    match opt_name {
        Some(name) => {
            let item = Item { slot: copy_bytes(slot), name };
            match registry.get_token(&item) {
                Some(token) => {
                    let held = balance_of_token(balances, &token);
                    let already = count_sent(sent, &token);
                    if held <= already as u128 {
                        return Err(CustomizeError::NoItemRemaining);
                    }
                    proof {
                        lemma_index_of(attributes@, slot@);
                        let i = index_of(attributes@, slot@);
                        assert(valid_slot(attributes@[i].0));
                    }
                    let ghost before = token_views(sent@);
                    let ghost tv = token@;
                    sent.push(token);
                    assert(token_views(sent@) =~= before.push(tv));
                    attributes.empty_slot(slot);
                    Ok(())
                },
                None => Err(CustomizeError::UnequippedItemNotRegistered),
            }
        },
        None => Err(CustomizeError::CannotUnequipEmptySlot),
    }
}

/// Puts `item` on its slot, first unequipping what the slot held, as
/// `equip_item_spec` says.
fn equip_slot(
    registry: &ItemRegistry,
    balances: &Vec<(Token, Vec<u8>)>,
    attributes: &mut EquippableAttributes,
    sent: &mut Vec<Token>,
    item: &Item,
) -> (r: Result<(), CustomizeError>)
    requires
        old(attributes).wf(),
        valid_item(item@),
    ensures
        final(attributes).wf(),
        match equip_item_spec(registry@, balance_views(balances@), (old(attributes)@, token_views(old(sent)@)), item@) {
            Ok(q) => r is Ok && final(attributes)@ == q.0 && token_views(final(sent)@) == q.1,
            Err(e) => r == Err::<(), CustomizeError>(e),
        },
{
    if !attributes.is_slot_empty(&item.slot) {
        match unequip_slot(registry, balances, attributes, sent, &item.slot) {
            Ok(()) => {},
            Err(e) => {
                return Err(e);
            },
        }
    }
    let ghost p = (attributes@, token_views(sent@));
    proof {
        lemma_unequip_wf(registry@, balance_views(balances@), (old(attributes)@, token_views(old(sent)@)), item@.1);
    }
    attributes.set_item_if_empty(&item.slot, Some(copy_bytes(&item.name)));
    Ok(())
}

impl Equip {
    /// Plans a customization: checks the roles and the payments (the
    /// equippable first, alone), reads the equippable's attributes, empties
    /// the slots to unequip, equips the items sent (an item already on the
    /// slot of a new one is unequipped first), and finds the URI of the new
    /// look. The items to send back and the new equippable to mint come out;
    /// nothing is sent or minted here.
    #[verifier::loop_isolation(false)]
    pub fn customize(
        &mut self,
        payments: &Vec<Payment>,
        payment_names: &Vec<Vec<u8>>,
        to_unequip_slots: &Vec<Vec<u8>>,
        can_create: bool,
        can_burn: bool,
        raw_attributes: &Vec<u8>,
        equippable_name: &Vec<u8>,
        balances: &Vec<(Token, Vec<u8>)>,
    ) -> (r: Result<CustomizePlan, CustomizeError>)
        requires
            old(self).wf(),
            payment_names.len() == payments.len(),
        ensures
            final(self).wf(),
            final(self).equippable_token_id@ == old(self).equippable_token_id@,
            final(self).ipfs_gateway@ == old(self).ipfs_gateway@,
            final(self).equippable_name_format@ == old(self).equippable_name_format@,
            final(self).royalties_overrided@ == old(self).royalties_overrided@,
            final(self).collections_slots@ == old(self).collections_slots@,
            final(self).uris@ == old(self).uris@,
            match customize_spec(
                old(self).equippable_token_id@,
                old(self).map_items_tokens@,
                collection_views(old(self).collections_slots@),
                old(self).uris@,
                can_create,
                can_burn,
                payment_views(payments@),
                crate::utils::byte_spec::views(payment_names@),
                crate::utils::byte_spec::views(to_unequip_slots@),
                raw_attributes@,
                equippable_name@,
                balance_views(balances@),
            ) {
                Ok((p, uri, reg2)) => r is Ok && r->Ok_0.attributes@ == p.0 && token_views(r->Ok_0.items_to_send@) == p.1
                    && r->Ok_0.encoded_attributes@ == encode_attrs(p.0) && r->Ok_0.uri@ == uri
                    && r->Ok_0.attributes.wf() && final(self).map_items_tokens@ == reg2,
                Err(e) => r == Err::<CustomizePlan, CustomizeError>(e)
                    && final(self).map_items_tokens@ == old(self).map_items_tokens@,
            },
    {
        let ghost pv = payment_views(payments@);
        let ghost slots = crate::utils::byte_spec::views(to_unequip_slots@);
        let ghost bal = balance_views(balances@);
        if !can_create {
            return Err(CustomizeError::CreateRoleNotSetForEquippable);
        }
        if !can_burn {
            return Err(CustomizeError::BurnRoleNotSetForEquippable);
        }
        if payments.len() < 1 {
            return Err(CustomizeError::NeedEquippable);
        }
        if !(payments.len() >= 2 || to_unequip_slots.len() >= 1) {
            return Err(CustomizeError::NeedOneItemOrUnequipSlot);
        }
        assert(pv[0] == payments@[0]@);
        if !bytes_eq(&payments[0].token_identifier, &self.equippable_token_id) {
            return Err(CustomizeError::FirstPaymentIsEquippable);
        }
        if be_to_u128_saturating(&payments[0].amount) != 1 {
            return Err(CustomizeError::MoreThanOneEquippableReceived);
        }
        let mut registry = self.map_items_tokens.copy();
        match record_items(&mut registry, &self.collections_slots, payments, payment_names, 1) {
            Ok(()) => {},
            Err(RecordError::CollectionNotRegistered) => {
                return Err(CustomizeError::ItemNotRegistered);
            },
            Err(RecordError::InvalidName(e)) => {
                return Err(CustomizeError::InvalidItemName(e));
            },
        }
        let ghost reg = registry@;
        let mut attributes = match EquippableAttributes::top_decode(raw_attributes) {
            Ok(a) => a,
            Err(e) => {
                return Err(CustomizeError::CannotDecodeAttributes(e));
            },
        };
        let ghost start: Progress = (attributes@, Seq::<TokenV>::empty());
        let mut sent: Vec<Token> = Vec::new();
        assert(token_views(sent@) =~= Seq::<TokenV>::empty());
        assert(slots.take(0) =~= Seq::<Seq<u8>>::empty());
        let mut i: usize = 0;
        while i < to_unequip_slots.len()
            invariant
                slots == crate::utils::byte_spec::views(to_unequip_slots@),
                bal == balance_views(balances@),
                reg == registry@,
                i <= to_unequip_slots.len(),
                attributes.wf(),
                unequip_all(reg, bal, start, slots.take(i as int)) == Ok::<Progress, CustomizeError>((attributes@, token_views(sent@))),
            decreases to_unequip_slots.len() - i,
        {
            let ghost t = slots.take(i + 1);
            assert(t.drop_last() =~= slots.take(i as int));
            assert(t.last() == to_unequip_slots@[i as int]@);
            match unequip_slot(&registry, balances, &mut attributes, &mut sent, &to_unequip_slots[i]) {
                Ok(()) => {},
                Err(e) => {
                    proof {
                        lemma_unequip_all_err_prefix(reg, bal, start, slots, i + 1);
                        assert(slots.take(slots.len() as int) =~= slots);
                    }
                    return Err(e);
                },
            }
            i += 1;
        }
        assert(slots.take(to_unequip_slots.len() as int) =~= slots);
        let ghost mid: Progress = (attributes@, token_views(sent@));
        let ghost items = pv.skip(1);
        assert(items.take(0) =~= Seq::<PaymentV>::empty());
        let mut j: usize = 1;
        while j < payments.len()
            invariant
                pv == payment_views(payments@),
                items == pv.skip(1),
                bal == balance_views(balances@),
                reg == registry@,
                registry_wf(reg),
                1 <= j <= payments.len(),
                attributes.wf(),
                equip_all(reg, bal, mid, items.take(j - 1)) == Ok::<Progress, CustomizeError>((attributes@, token_views(sent@))),
            decreases payments.len() - j,
        {
            let ghost t = items.take(j as int);
            assert(t.drop_last() =~= items.take(j - 1));
            assert(t.last() == payments@[j as int]@);
            let payment = &payments[j];
            if be_to_u128_saturating(&payment.amount) != 1 {
                proof {
                    lemma_equip_all_err_prefix(reg, bal, mid, items, j as int);
                }
                return Err(CustomizeError::MoreThanOneItemReceived);
            }
            let token = Token::new(copy_bytes(&payment.token_identifier), payment.token_nonce);
            if !registry.has_token(&token) {
                proof {
                    lemma_equip_all_err_prefix(reg, bal, mid, items, j as int);
                }
                return Err(CustomizeError::ItemNotRegistered);
            }
            let item = registry.get_id(&token);
            proof {
                crate::libs::storage::lemma_value_pos(reg, token@);
                let k = value_pos(reg, token@);
                assert(valid_item(reg[k].0));
            }
            match equip_slot(&registry, balances, &mut attributes, &mut sent, &item) {
                Ok(()) => {},
                Err(e) => {
                    proof {
                        lemma_equip_all_err_prefix(reg, bal, mid, items, j as int);
                    }
                    return Err(e);
                },
            }
            j += 1;
        }
        assert(items.take(payments.len() - 1) =~= items);
        let image = ImageToRender { attributes: attributes.copy(), name: copy_bytes(equippable_name) };
        let uri = match self.uris.get_uri_of(&image) {
            Ok(u) => u,
            Err(_) => {
                return Err(CustomizeError::NoUriForAttributes);
            },
        };
        let encoded_attributes = attributes.text();
        if encoded_attributes.len() > 512 {
            return Err(CustomizeError::AttributesTooLong);
        }
        self.map_items_tokens = registry;
        Ok(CustomizePlan { items_to_send: sent, attributes, encoded_attributes, uri })
    }
}

proof fn lemma_unequip_all_err_prefix(reg: Seq<EntryV>, bal: Seq<BalanceV>, p: Progress, slots: Seq<Seq<u8>>, k: int)
    requires
        0 <= k <= slots.len(),
        unequip_all(reg, bal, p, slots.take(k)) is Err,
    ensures
        unequip_all(reg, bal, p, slots) == unequip_all(reg, bal, p, slots.take(k)),
    decreases slots.len() - k,
{
    if k < slots.len() {
        assert(slots.take(k + 1).drop_last() =~= slots.take(k));
        lemma_unequip_all_err_prefix(reg, bal, p, slots, k + 1);
    } else {
        assert(slots.take(k) =~= slots);
    }
}

proof fn lemma_equip_all_err_prefix(reg: Seq<EntryV>, bal: Seq<BalanceV>, p: Progress, payments: Seq<PaymentV>, k: int)
    requires
        0 <= k <= payments.len(),
        equip_all(reg, bal, p, payments.take(k)) is Err,
    ensures
        equip_all(reg, bal, p, payments) == equip_all(reg, bal, p, payments.take(k)),
    decreases payments.len() - k,
{
    if k < payments.len() {
        assert(payments.take(k + 1).drop_last() =~= payments.take(k));
        lemma_equip_all_err_prefix(reg, bal, p, payments, k + 1);
    } else {
        assert(payments.take(k) =~= payments);
    }
}

/// Equipping the item of a payment that is accepted puts that item on its
/// slot and leaves every other slot as it was.
proof fn lemma_equip_spec_puts_item(reg: Seq<EntryV>, bal: Seq<BalanceV>, p: Progress, payment: PaymentV)
    requires
        registry_wf(reg),
        attrs_wf(p.0),
        equip_spec(reg, bal, p, payment) is Ok,
    ensures
        ({
            let item = id_of(reg, (payment.0, payment.1));
            let r = equip_spec(reg, bal, p, payment)->Ok_0;
            &&& value_pos(reg, (payment.0, payment.1)) >= 0
            &&& attrs_wf(r.0)
            &&& name_at(r.0, item.1) == Some(item.0)
            &&& forall|other: Seq<u8>| other != item.1 ==> #[trigger] name_at(r.0, other) == name_at(p.0, other)
        }),
{
    let token = (payment.0, payment.1);
    crate::libs::storage::lemma_value_pos(reg, token);
    let k = value_pos(reg, token);
    assert(valid_item(reg[k].0));
    let item = id_of(reg, token);
    lemma_put(p.0, item.1, None);
    if name_at(p.0, item.1) is Some {
        let q = unequip_spec(reg, bal, p, item.1)->Ok_0;
        assert(q.0 == put(p.0, item.1, None));
        lemma_put(q.0, item.1, Some(item.0));
    } else {
        lemma_put(p.0, item.1, Some(item.0));
    }
}

/// Equipping the items of the payments one after the other leaves each item
/// on its slot, unless a later payment goes to the same slot.
proof fn lemma_equip_all_puts_items(reg: Seq<EntryV>, bal: Seq<BalanceV>, p: Progress, items: Seq<PaymentV>)
    requires
        registry_wf(reg),
        attrs_wf(p.0),
    ensures
        equip_all(reg, bal, p, items) is Ok ==> ({
            let q = equip_all(reg, bal, p, items)->Ok_0;
            &&& attrs_wf(q.0)
            &&& forall|i: int| 0 <= i < items.len()
                && (forall|j: int| i < j < items.len() ==> id_of(reg, ((#[trigger] items[j]).0, items[j].1)).1 != id_of(reg, (items[i].0, items[i].1)).1)
                ==> value_pos(reg, ((#[trigger] items[i]).0, items[i].1)) >= 0
                    && name_at(q.0, id_of(reg, (items[i].0, items[i].1)).1) == Some(id_of(reg, (items[i].0, items[i].1)).0)
        }),
    decreases items.len(),
{
    if items.len() > 0 {
        let init = items.drop_last();
        lemma_equip_all_puts_items(reg, bal, p, init);
        if equip_all(reg, bal, p, items) is Ok {
            let q0 = equip_all(reg, bal, p, init)->Ok_0;
            let n = items.len() - 1;
            let last = items.last();
            assert(last == items[n]);
            lemma_equip_spec_puts_item(reg, bal, q0, last);
            let q = equip_all(reg, bal, p, items)->Ok_0;
            assert(q == equip_spec(reg, bal, q0, last)->Ok_0);
            assert forall|i: int| 0 <= i < items.len()
                && (forall|j: int| i < j < items.len() ==> id_of(reg, ((#[trigger] items[j]).0, items[j].1)).1 != id_of(reg, (items[i].0, items[i].1)).1)
                implies value_pos(reg, ((#[trigger] items[i]).0, items[i].1)) >= 0
                    && name_at(q.0, id_of(reg, (items[i].0, items[i].1)).1) == Some(id_of(reg, (items[i].0, items[i].1)).0) by {
                if i < n {
                    assert(init[i] == items[i]);
                    assert forall|j: int| i < j < init.len() implies id_of(reg, ((#[trigger] init[j]).0, init[j].1)).1 != id_of(reg, (init[i].0, init[i].1)).1 by {
                        assert(init[j] == items[j]);
                        assert(id_of(reg, (items[j].0, items[j].1)).1 != id_of(reg, (items[i].0, items[i].1)).1);
                    }
                    assert(id_of(reg, (items[n].0, items[n].1)).1 != id_of(reg, (items[i].0, items[i].1)).1);
                    assert(value_pos(reg, (init[i].0, init[i].1)) >= 0);
                    let s = id_of(reg, (items[i].0, items[i].1)).1;
                    assert(name_at(q.0, s) == name_at(q0.0, s));
                }
            }
        }
    }
}

/// Unequipping slots one after the other keeps the attributes well formed.
proof fn lemma_unequip_all_wf(reg: Seq<EntryV>, bal: Seq<BalanceV>, p: Progress, slots: Seq<Seq<u8>>)
    requires
        attrs_wf(p.0),
    ensures
        unequip_all(reg, bal, p, slots) is Ok ==> attrs_wf(unequip_all(reg, bal, p, slots)->Ok_0.0),
    decreases slots.len(),
{
    if slots.len() > 0 {
        lemma_unequip_all_wf(reg, bal, p, slots.drop_last());
        if unequip_all(reg, bal, p, slots.drop_last()) is Ok {
            lemma_unequip_wf(reg, bal, unequip_all(reg, bal, p, slots.drop_last())->Ok_0, slots.last());
        }
    }
}

/// Law: every item sent with a customization is on its slot afterwards,
/// whatever slots are asked to be unequipped (they are emptied first),
/// unless a later payment goes to the same slot; and it is registered.
pub proof fn law_customize_equips_items_sent(
    equippable_id: Seq<u8>,
    reg: Seq<EntryV>,
    can_create: bool,
    can_burn: bool,
    payments: Seq<PaymentV>,
    slots: Seq<Seq<u8>>,
    raw_attributes: Seq<u8>,
    bal: Seq<BalanceV>,
)
    requires
        registry_wf(reg),
    ensures
        ({
            let r = customize_attributes_spec(equippable_id, reg, can_create, can_burn, payments, slots, raw_attributes, bal);
            r is Ok ==> forall|i: int| 1 <= i < payments.len()
                && (forall|j: int| i < j < payments.len() ==> id_of(reg, ((#[trigger] payments[j]).0, payments[j].1)).1 != id_of(reg, (payments[i].0, payments[i].1)).1)
                ==> value_pos(reg, ((#[trigger] payments[i]).0, payments[i].1)) >= 0
                    && name_at(r->Ok_0.0, id_of(reg, (payments[i].0, payments[i].1)).1) == Some(id_of(reg, (payments[i].0, payments[i].1)).0)
        }),
{
    let r = customize_attributes_spec(equippable_id, reg, can_create, can_burn, payments, slots, raw_attributes, bal);
    if r is Ok {
        crate::structs::equippable_attributes::law_decode_sets_every_part(raw_attributes);
        let a = decode_attrs(raw_attributes)->Ok_0;
        let start: Progress = (a, Seq::empty());
        lemma_unequip_all_wf(reg, bal, start, slots);
        let q = unequip_all(reg, bal, start, slots)->Ok_0;
        let items = payments.skip(1);
        lemma_equip_all_puts_items(reg, bal, q, items);
        assert forall|i: int| 1 <= i < payments.len()
            && (forall|j: int| i < j < payments.len() ==> id_of(reg, ((#[trigger] payments[j]).0, payments[j].1)).1 != id_of(reg, (payments[i].0, payments[i].1)).1)
            implies value_pos(reg, ((#[trigger] payments[i]).0, payments[i].1)) >= 0
                && name_at(r->Ok_0.0, id_of(reg, (payments[i].0, payments[i].1)).1) == Some(id_of(reg, (payments[i].0, payments[i].1)).0) by {
            assert(items[i - 1] == payments[i]);
            assert forall|j: int| i - 1 < j < items.len() implies id_of(reg, ((#[trigger] items[j]).0, items[j].1)).1 != id_of(reg, (items[i - 1].0, items[i - 1].1)).1 by {
                assert(items[j] == payments[j + 1]);
                assert(id_of(reg, (payments[j + 1].0, payments[j + 1].1)).1 != id_of(reg, (payments[i].0, payments[i].1)).1);
            }
        }
    }
}

/// Law: the same of the whole customization, over the registry once the
/// items sent are recorded: every item sent is on its slot afterwards,
/// unless a later payment goes to the same slot.
pub proof fn law_customize_puts_on_every_item_sent(
    equippable_id: Seq<u8>,
    reg: Seq<EntryV>,
    cols: Seq<CollectionSlotV>,
    uris: UriStoreV,
    can_create: bool,
    can_burn: bool,
    payments: Seq<PaymentV>,
    names: Seq<Seq<u8>>,
    slots: Seq<Seq<u8>>,
    raw_attributes: Seq<u8>,
    name: Seq<u8>,
    bal: Seq<BalanceV>,
)
    requires
        registry_wf(reg),
        crate::equip::collections_wf(cols),
        names.len() == payments.len(),
    ensures
        ({
            let r = customize_spec(equippable_id, reg, cols, uris, can_create, can_burn, payments, names, slots, raw_attributes, name, bal);
            r is Ok ==> ({
                let reg2 = r->Ok_0.2;
                &&& registry_wf(reg2)
                &&& forall|i: int| 1 <= i < payments.len()
                    && (forall|j: int| i < j < payments.len() ==> id_of(reg2, ((#[trigger] payments[j]).0, payments[j].1)).1 != id_of(reg2, (payments[i].0, payments[i].1)).1)
                    ==> value_pos(reg2, ((#[trigger] payments[i]).0, payments[i].1)) >= 0
                        && name_at(r->Ok_0.0.0, id_of(reg2, (payments[i].0, payments[i].1)).1) == Some(id_of(reg2, (payments[i].0, payments[i].1)).0)
            })
        }),
{
    let r = customize_spec(equippable_id, reg, cols, uris, can_create, can_burn, payments, names, slots, raw_attributes, name, bal);
    if r is Ok {
        crate::equip::lemma_record_all_wf(reg, cols, payment_tokens(payments).skip(1), names.skip(1));
        let reg2 = r->Ok_0.2;
        law_customize_equips_items_sent(equippable_id, reg2, can_create, can_burn, payments, slots, raw_attributes, bal);
    }
}

/// Law: unequipping a slot that holds a registered item, of which the
/// contract still holds one, sends that item back, empties the slot and
/// leaves every other slot as it was.
pub proof fn law_unequip_sends_item_back(reg: Seq<EntryV>, bal: Seq<BalanceV>, p: Progress, slot: Seq<u8>, other: Seq<u8>)
    requires
        registry_wf(reg),
        attrs_wf(p.0),
        name_at(p.0, slot) is Some,
        id_pos(reg, (name_at(p.0, slot)->Some_0, slot)) >= 0,
        balance_of(bal, value_of(reg, (name_at(p.0, slot)->Some_0, slot)))
            > sent_count(p.1, value_of(reg, (name_at(p.0, slot)->Some_0, slot))),
    ensures
        unequip_spec(reg, bal, p, slot) == Ok::<Progress, CustomizeError>(
            (put(p.0, slot, None), p.1.push(value_of(reg, (name_at(p.0, slot)->Some_0, slot)))),
        ),
        name_at(put(p.0, slot, None), slot) is None,
        other != slot ==> name_at(put(p.0, slot, None), other) == name_at(p.0, other),
        attrs_wf(put(p.0, slot, None)),
{
    lemma_index_of(p.0, slot);
    let i = index_of(p.0, slot);
    assert(valid_slot(p.0[i].0));
    lemma_put(p.0, slot, None);
}

/// Law: an item sent for a slot that already holds a registered item (of
/// which the contract still holds one) takes its place: the old item is sent
/// back, the new one is on the slot, and every other slot is as it was.
pub proof fn law_equip_on_occupied_slot(reg: Seq<EntryV>, bal: Seq<BalanceV>, p: Progress, payment: PaymentV, other: Seq<u8>)
    requires
        registry_wf(reg),
        attrs_wf(p.0),
        payment.2 == 1,
        value_pos(reg, (payment.0, payment.1)) >= 0,
        name_at(p.0, id_of(reg, (payment.0, payment.1)).1) is Some,
        ({
            let slot = id_of(reg, (payment.0, payment.1)).1;
            let old_item = (name_at(p.0, slot)->Some_0, slot);
            id_pos(reg, old_item) >= 0 && balance_of(bal, value_of(reg, old_item)) > sent_count(p.1, value_of(reg, old_item))
        }),
    ensures
        ({
            let item = id_of(reg, (payment.0, payment.1));
            let old_item = (name_at(p.0, item.1)->Some_0, item.1);
            let r = equip_spec(reg, bal, p, payment);
            &&& r is Ok
            &&& r->Ok_0.1 == p.1.push(value_of(reg, old_item))
            &&& name_at(r->Ok_0.0, item.1) == Some(item.0)
            &&& other != item.1 ==> name_at(r->Ok_0.0, other) == name_at(p.0, other)
            &&& attrs_wf(r->Ok_0.0)
        }),
{
    let token = (payment.0, payment.1);
    crate::libs::storage::lemma_value_pos(reg, token);
    let k = value_pos(reg, token);
    assert(valid_item(reg[k].0));
    let item = id_of(reg, token);
    law_unequip_sends_item_back(reg, bal, p, item.1, other);
    lemma_put(put(p.0, item.1, None), item.1, Some(item.0));
}

/// Law: an item sent for an empty slot is put on it, nothing is sent back,
/// and every other slot is as it was.
pub proof fn law_equip_on_empty_slot(reg: Seq<EntryV>, bal: Seq<BalanceV>, p: Progress, payment: PaymentV, other: Seq<u8>)
    requires
        registry_wf(reg),
        attrs_wf(p.0),
        payment.2 == 1,
        value_pos(reg, (payment.0, payment.1)) >= 0,
        name_at(p.0, id_of(reg, (payment.0, payment.1)).1) is None,
    ensures
        ({
            let item = id_of(reg, (payment.0, payment.1));
            let r = equip_spec(reg, bal, p, payment);
            &&& r is Ok
            &&& r->Ok_0.1 == p.1
            &&& name_at(r->Ok_0.0, item.1) == Some(item.0)
            &&& other != item.1 ==> name_at(r->Ok_0.0, other) == name_at(p.0, other)
            &&& attrs_wf(r->Ok_0.0)
        }),
{
    let token = (payment.0, payment.1);
    crate::libs::storage::lemma_value_pos(reg, token);
    let k = value_pos(reg, token);
    assert(valid_item(reg[k].0));
    let item = id_of(reg, token);
    lemma_put(p.0, item.1, Some(item.0));
}

/// Whether every token sent back so far is registered.
pub open spec fn all_sent_registered(reg: Seq<EntryV>, sent: Seq<TokenV>) -> bool {
    forall|i: int| 0 <= i < sent.len() ==> value_pos(reg, #[trigger] sent[i]) >= 0
}

proof fn lemma_unequip_sends_registered(reg: Seq<EntryV>, bal: Seq<BalanceV>, p: Progress, slot: Seq<u8>)
    requires
        registry_wf(reg),
        all_sent_registered(reg, p.1),
    ensures
        unequip_spec(reg, bal, p, slot) is Ok ==> all_sent_registered(reg, unequip_spec(reg, bal, p, slot)->Ok_0.1),
{
    if unequip_spec(reg, bal, p, slot) is Ok {
        let item = (name_at(p.0, slot)->Some_0, slot);
        crate::libs::storage::lemma_id_pos(reg, item);
        let k = id_pos(reg, item);
        lemma_member(reg, k);
        let q = unequip_spec(reg, bal, p, slot)->Ok_0;
        assert forall|i: int| 0 <= i < q.1.len() implies value_pos(reg, #[trigger] q.1[i]) >= 0 by {
            if i < p.1.len() {
                assert(q.1[i] == p.1[i]);
            }
        }
    }
}

proof fn lemma_unequip_all_sends_registered(reg: Seq<EntryV>, bal: Seq<BalanceV>, p: Progress, slots: Seq<Seq<u8>>)
    requires
        registry_wf(reg),
        all_sent_registered(reg, p.1),
    ensures
        unequip_all(reg, bal, p, slots) is Ok ==> all_sent_registered(reg, unequip_all(reg, bal, p, slots)->Ok_0.1),
    decreases slots.len(),
{
    if slots.len() > 0 {
        lemma_unequip_all_sends_registered(reg, bal, p, slots.drop_last());
        if unequip_all(reg, bal, p, slots.drop_last()) is Ok {
            lemma_unequip_sends_registered(reg, bal, unequip_all(reg, bal, p, slots.drop_last())->Ok_0, slots.last());
        }
    }
}

proof fn lemma_equip_all_sends_registered(reg: Seq<EntryV>, bal: Seq<BalanceV>, p: Progress, payments: Seq<PaymentV>)
    requires
        registry_wf(reg),
        all_sent_registered(reg, p.1),
    ensures
        equip_all(reg, bal, p, payments) is Ok ==> all_sent_registered(reg, equip_all(reg, bal, p, payments)->Ok_0.1),
    decreases payments.len(),
{
    if payments.len() > 0 {
        lemma_equip_all_sends_registered(reg, bal, p, payments.drop_last());
        if equip_all(reg, bal, p, payments.drop_last()) is Ok {
            let q = equip_all(reg, bal, p, payments.drop_last())->Ok_0;
            let pay = payments.last();
            let token = (pay.0, pay.1);
            if pay.2 == 1 && value_pos(reg, token) >= 0 {
                let item = id_of(reg, token);
                lemma_unequip_sends_registered(reg, bal, q, item.1);
            }
        }
    }
}

/// Law: a customization sends back only registered items.
pub proof fn law_customize_sends_back_registered_items(
    equippable_id: Seq<u8>,
    reg: Seq<EntryV>,
    can_create: bool,
    can_burn: bool,
    payments: Seq<PaymentV>,
    slots: Seq<Seq<u8>>,
    raw_attributes: Seq<u8>,
    bal: Seq<BalanceV>,
)
    requires
        registry_wf(reg),
    ensures
        ({
            let r = customize_attributes_spec(equippable_id, reg, can_create, can_burn, payments, slots, raw_attributes, bal);
            r is Ok ==> all_sent_registered(reg, r->Ok_0.1)
        }),
{
    if let Ok(a) = decode_attrs(raw_attributes) {
        let start: Progress = (a, Seq::empty());
        lemma_unequip_all_sends_registered(reg, bal, start, slots);
        if unequip_all(reg, bal, start, slots) is Ok {
            lemma_equip_all_sends_registered(reg, bal, unequip_all(reg, bal, start, slots)->Ok_0, payments.skip(1));
        }
    }
}

/// Whether no token was sent back more times than the contract held it.
pub open spec fn within_balances(bal: Seq<BalanceV>, sent: Seq<TokenV>) -> bool {
    forall|t: TokenV| #[trigger] sent_count(sent, t) <= balance_of(bal, t)
}

proof fn lemma_unequip_within_balances(reg: Seq<EntryV>, bal: Seq<BalanceV>, p: Progress, slot: Seq<u8>)
    requires
        within_balances(bal, p.1),
    ensures
        unequip_spec(reg, bal, p, slot) is Ok ==> within_balances(bal, unequip_spec(reg, bal, p, slot)->Ok_0.1),
{
    if unequip_spec(reg, bal, p, slot) is Ok {
        let q = unequip_spec(reg, bal, p, slot)->Ok_0;
        let item = (name_at(p.0, slot)->Some_0, slot);
        let token = value_of(reg, item);
        assert(q.1 == p.1.push(token));
        assert forall|t: TokenV| #[trigger] sent_count(q.1, t) <= balance_of(bal, t) by {
            assert(q.1.drop_last() =~= p.1);
            assert(sent_count(q.1, t) == sent_count(p.1, t) + if token == t { 1nat } else { 0nat });
            assert(sent_count(p.1, t) <= balance_of(bal, t));
        }
    }
}

proof fn lemma_unequip_all_within_balances(reg: Seq<EntryV>, bal: Seq<BalanceV>, p: Progress, slots: Seq<Seq<u8>>)
    requires
        within_balances(bal, p.1),
    ensures
        unequip_all(reg, bal, p, slots) is Ok ==> within_balances(bal, unequip_all(reg, bal, p, slots)->Ok_0.1),
    decreases slots.len(),
{
    if slots.len() > 0 {
        lemma_unequip_all_within_balances(reg, bal, p, slots.drop_last());
        if unequip_all(reg, bal, p, slots.drop_last()) is Ok {
            lemma_unequip_within_balances(reg, bal, unequip_all(reg, bal, p, slots.drop_last())->Ok_0, slots.last());
        }
    }
}

proof fn lemma_equip_all_within_balances(reg: Seq<EntryV>, bal: Seq<BalanceV>, p: Progress, payments: Seq<PaymentV>)
    requires
        within_balances(bal, p.1),
    ensures
        equip_all(reg, bal, p, payments) is Ok ==> within_balances(bal, equip_all(reg, bal, p, payments)->Ok_0.1),
    decreases payments.len(),
{
    if payments.len() > 0 {
        lemma_equip_all_within_balances(reg, bal, p, payments.drop_last());
        if equip_all(reg, bal, p, payments.drop_last()) is Ok {
            let q = equip_all(reg, bal, p, payments.drop_last())->Ok_0;
            let pay = payments.last();
            let token = (pay.0, pay.1);
            if pay.2 == 1 && value_pos(reg, token) >= 0 {
                lemma_unequip_within_balances(reg, bal, q, id_of(reg, token).1);
            }
        }
    }
}

/// Law: a customization never sends back more of a token than the contract
/// held when the call began.
pub proof fn law_customize_sends_back_at_most_what_is_held(
    equippable_id: Seq<u8>,
    reg: Seq<EntryV>,
    can_create: bool,
    can_burn: bool,
    payments: Seq<PaymentV>,
    slots: Seq<Seq<u8>>,
    raw_attributes: Seq<u8>,
    bal: Seq<BalanceV>,
)
    ensures
        ({
            let r = customize_attributes_spec(equippable_id, reg, can_create, can_burn, payments, slots, raw_attributes, bal);
            r is Ok ==> within_balances(bal, r->Ok_0.1)
        }),
{
    if let Ok(a) = decode_attrs(raw_attributes) {
        let start: Progress = (a, Seq::empty());
        assert forall|t: TokenV| #[trigger] sent_count(start.1, t) <= balance_of(bal, t) by {
            assert(sent_count(start.1, t) == 0);
        }
        lemma_unequip_all_within_balances(reg, bal, start, slots);
        if unequip_all(reg, bal, start, slots) is Ok {
            lemma_equip_all_within_balances(reg, bal, unequip_all(reg, bal, start, slots)->Ok_0, payments.skip(1));
        }
    }
}

} // verus!
