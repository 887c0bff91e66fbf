use vstd::prelude::*;
use crate::libs::customize::{payment_views, Payment, PaymentV};
use crate::libs::equippable_minter::number_placeholder;
use crate::structs::attribute_spec::valid_slot;
use crate::structs::token::TokenV;
use crate::libs::equippable_uris::{uri_store_wf, UriStore};
use crate::libs::storage::{
    id_of, law_replace_then_get, registry_wf, replaced, valid_item, value_of, value_pos, EntryV,
    ItemRegistry,
};
use crate::structs::equippable_attributes::{
    copy_bytes, name_check, panic_if_name_contains_unsupported_characters,
    panic_if_slot_contains_unsupported_characters, slot_separator_check, AttributeError,
};
use crate::structs::item::Item;
use crate::structs::token::Token;
use crate::utils::big_uint::{be_to_u128_saturating, be_value};
use crate::utils::managed_buffer_utils::bytes_eq;

verus! {

/// Why an endpoint of the contract is refused.
#[derive(PartialEq, Eq, Structural, Clone, Copy, Debug)]
pub enum EquipError {
    /// Only the owner may call this endpoint.
    OnlyOwner,
    /// An equippable cannot be registered as an item.
    CannotRegisterEquippableAsItem,
    /// The name of an item is refused.
    InvalidName(AttributeError),
    /// The slot of an item is refused.
    InvalidSlot(AttributeError),
    /// The collection is already registered.
    CannotOverrideRegisteredItem,
    /// A token sent to fill the contract is of no registered collection.
    CannotFillUnregisteredItem,
    /// The name format of the equippables lacks `{number}`.
    InitMissingNumberFormat,
    /// The royalties must be between 0 and 10000.
    BadRoyalties,
}

/// A collection registered to a slot as a plain value: the collection
/// identifier and the slot its items go on.
pub type CollectionSlotV = (Seq<u8>, Seq<u8>);

pub open spec fn collection_views(v: Seq<(Vec<u8>, Vec<u8>)>) -> Seq<CollectionSlotV> {
    Seq::new(v.len(), |i: int| (v[i].0@, v[i].1@))
}

/// The slot that `collection` is registered to, if any.
pub open spec fn slot_of(cols: Seq<CollectionSlotV>, collection: Seq<u8>) -> Option<Seq<u8>>
    decreases cols.len(),
{
    if cols.len() == 0 {
        None
    } else if cols.last().0 == collection {
        Some(cols.last().1)
    } else {
        slot_of(cols.drop_last(), collection)
    }
}

/// Every registered collection goes to a valid slot.
pub open spec fn collections_wf(cols: Seq<CollectionSlotV>) -> bool {
    forall|i: int| 0 <= i < cols.len() ==> valid_slot(#[trigger] cols[i].1)
}

/// Registering `collection` to `slot`: not the equippable collection, a
/// valid slot, and a collection not registered yet.
pub open spec fn register_collection(cols: Seq<CollectionSlotV>, equippable_id: Seq<u8>, slot: Seq<u8>, collection: Seq<u8>) -> Result<Seq<CollectionSlotV>, EquipError> {
    if collection == equippable_id {
        Err(EquipError::CannotRegisterEquippableAsItem)
    } else if slot_separator_check(slot) is Err {
        Err(EquipError::InvalidSlot(slot_separator_check(slot)->Err_0))
    } else if slot_of(cols, collection) is Some {
        Err(EquipError::CannotOverrideRegisteredItem)
    } else {
        Ok(cols.push((collection, slot)))
    }
}

/// Why a token received cannot be recorded as an item.
#[derive(PartialEq, Eq, Structural, Clone, Copy, Debug)]
pub enum RecordError {
    /// The token's collection is not registered to a slot.
    CollectionNotRegistered,
    /// The item name read from the token is refused.
    InvalidName(AttributeError),
}

/// Recording a received token as the item it is: the item named `name` on
/// the slot its collection is registered to, in place of whatever held that
/// item or that token before.
pub open spec fn record_one(reg: Seq<EntryV>, cols: Seq<CollectionSlotV>, token: TokenV, name: Seq<u8>) -> Result<Seq<EntryV>, RecordError> {
    match slot_of(cols, token.0) {
        None => Err(RecordError::CollectionNotRegistered),
        Some(slot) => if name_check(name) is Err {
            Err(RecordError::InvalidName(name_check(name)->Err_0))
        } else {
            Ok(replaced(reg, (name, slot), token))
        },
    }
}

/// Recording the tokens one after the other, each with its name; the first
/// refusal refuses all.
pub open spec fn record_all(reg: Seq<EntryV>, cols: Seq<CollectionSlotV>, tokens: Seq<TokenV>, names: Seq<Seq<u8>>) -> Result<Seq<EntryV>, RecordError>
    decreases tokens.len(),
{
    if tokens.len() == 0 {
        Ok(reg)
    } else {
        match record_all(reg, cols, tokens.drop_last(), names.take(tokens.len() - 1)) {
            Err(e) => Err(e),
            Ok(r) => record_one(r, cols, tokens.last(), names[tokens.len() - 1]),
        }
    }
}

/// The tokens of the payments.
pub open spec fn payment_tokens(payments: Seq<PaymentV>) -> Seq<TokenV> {
    Seq::new(payments.len(), |i: int| (payments[i].0, payments[i].1))
}

/// The refusal of `fill` for a token that cannot be recorded.
pub open spec fn fill_error(e: RecordError) -> EquipError {
    match e {
        RecordError::CollectionNotRegistered => EquipError::CannotFillUnregisteredItem,
        RecordError::InvalidName(a) => EquipError::InvalidName(a),
    }
}

/// Whether the name format holds the `{number}` placeholder.
pub open spec fn has_number_placeholder(s: Seq<u8>) -> bool {
    exists|i: int| 0 <= i && i + 8 <= s.len() && #[trigger] s.subrange(i, i + 8) == number_placeholder()
}

/// Whether `s` holds `{number}`.
fn contains_number_placeholder(s: &Vec<u8>) -> (r: bool)
    ensures
        r == has_number_placeholder(s@),
{
    let placeholder: [u8; 8] = [123u8, 110u8, 117u8, 109u8, 98u8, 101u8, 114u8, 125u8];
    assert(placeholder@ =~= number_placeholder());
    let mut i: usize = 0;
    while i < s.len() && s.len() - i >= 8
        invariant
            i <= s.len(),
            placeholder@ == number_placeholder(),
            forall|k: int| 0 <= k < i ==> #[trigger] s@.subrange(k, k + 8) != number_placeholder(),
        decreases s.len() - i,
    {
        let mut j: usize = 0;
        let mut same = true;
        while j < 8
            invariant
                j <= 8,
                i + 8 <= s.len(),
                same == (forall|m: int| 0 <= m < j ==> s@[i + m] == placeholder@[m]),
            decreases 8 - j,
        {
            if s[i + j] != placeholder[j] {
                same = false;
            }
            j += 1;
        }
        if same {
            assert(s@.subrange(i as int, i + 8) =~= number_placeholder());
            return true;
        }
        proof {
            let m = choose|m: int| 0 <= m < 8 && s@[i + m] != placeholder@[m];
            assert(s@.subrange(i as int, i + 8)[m] != number_placeholder()[m]);
        }
        i += 1;
    }
    assert forall|k: int| 0 <= k && k + 8 <= s@.len() implies #[trigger] s@.subrange(k, k + 8) != number_placeholder() by {
        assert(k < i);
    }
    false
}

/// The state of the customization contract: the equippable collection, the
/// IPFS gateway and the name format of the equippables, the royalties set by
/// the owner, the collections registered to slots, the items received and
/// the rendered images.
pub struct Equip {
    pub equippable_token_id: Vec<u8>,
    pub ipfs_gateway: Vec<u8>,
    pub equippable_name_format: Vec<u8>,
    pub royalties_overrided: Vec<u8>,
    pub collections_slots: Vec<(Vec<u8>, Vec<u8>)>,
    pub map_items_tokens: ItemRegistry,
    pub uris: UriStore,
}

/// Records the tokens of `payments[from..]` as items, each named by the
/// same position of `names`, as `record_all` says.
#[verifier::loop_isolation(false)]
pub fn record_items(
    registry: &mut ItemRegistry,
    collections: &Vec<(Vec<u8>, Vec<u8>)>,
    payments: &Vec<Payment>,
    names: &Vec<Vec<u8>>,
    from: usize,
) -> (r: Result<(), RecordError>)
    requires
        old(registry).wf(),
        collections_wf(collection_views(collections@)),
        names.len() == payments.len(),
        from <= payments.len(),
    ensures
        final(registry).wf(),
        match record_all(
            old(registry)@,
            collection_views(collections@),
            payment_tokens(payment_views(payments@)).skip(from as int),
            crate::utils::byte_spec::views(names@).skip(from as int),
        ) {
            Ok(t) => r is Ok && final(registry)@ == t,
            Err(e) => r == Err::<(), RecordError>(e),
        },
{
    let ghost cols = collection_views(collections@);
    let ghost tokens = payment_tokens(payment_views(payments@)).skip(from as int);
    let ghost nv = crate::utils::byte_spec::views(names@).skip(from as int);
    let ghost reg0 = registry@;
    assert(tokens.take(0) =~= Seq::<TokenV>::empty());
    let mut i: usize = from;
    while i < payments.len()
        invariant
            from <= i <= payments.len(),
            names.len() == payments.len(),
            cols == collection_views(collections@),
            collections_wf(cols),
            tokens == payment_tokens(payment_views(payments@)).skip(from as int),
            nv == crate::utils::byte_spec::views(names@).skip(from as int),
            tokens.len() == nv.len(),
            tokens.len() == payments.len() - from,
            registry.wf(),
            record_all(reg0, cols, tokens.take(i - from), nv.take(i - from)) == Ok::<Seq<EntryV>, RecordError>(registry@),
        decreases payments.len() - i,
    {
        let k = i - from;
        let ghost t = tokens.take(k + 1);
        let ghost n = nv.take(k + 1);
        assert(t.drop_last() =~= tokens.take(k as int));
        assert(n.take(k as int) =~= nv.take(k as int));
        assert(t.last() == (payments@[i as int].token_identifier@, payments@[i as int].token_nonce));
        assert(n[k as int] == names@[i as int]@);
        let id = &payments[i].token_identifier;
        let mut found: Option<usize> = None;
        let mut c: usize = 0;
        while c < collections.len()
            invariant
                c <= collections.len(),
                cols == collection_views(collections@),
                match found {
                    Some(q) => q < c && slot_of(cols.take(c as int), id@) == Some(cols[q as int].1),
                    None => slot_of(cols.take(c as int), id@) is None,
                },
            decreases collections.len() - c,
        {
            assert(cols.take(c + 1).drop_last() =~= cols.take(c as int));
            assert(cols.take(c + 1).last() == cols[c as int]);
            if bytes_eq(&collections[c].0, id) {
                found = Some(c);
            }
            c += 1;
        }
        assert(cols.take(collections.len() as int) =~= cols);
        match found {
            None => {
                proof {
                    lemma_record_err_prefix(reg0, cols, tokens, nv, k + 1);
                }
                return Err(RecordError::CollectionNotRegistered);
            },
            Some(q) => {
                let name = &names[i];
                match panic_if_name_contains_unsupported_characters(&Some(copy_bytes(name))) {
                    Ok(()) => {},
                    Err(e) => {
                        proof {
                            lemma_record_err_prefix(reg0, cols, tokens, nv, k + 1);
                        }
                        return Err(RecordError::InvalidName(e));
                    },
                }
                assert(valid_slot(cols[q as int].1));
                let item = Item { name: copy_bytes(name), slot: copy_bytes(&collections[q].1) };
                let token = Token::new(copy_bytes(id), payments[i].token_nonce);
                registry.insert_or_replace_item_token(item, token);
            },
        }
        i += 1;
    }
    assert(tokens.take(payments.len() - from) =~= tokens);
    assert(nv.take(payments.len() - from) =~= nv);
    Ok(())
}

proof fn lemma_record_err_prefix(reg: Seq<EntryV>, cols: Seq<CollectionSlotV>, tokens: Seq<TokenV>, names: Seq<Seq<u8>>, k: int)
    requires
        0 <= k <= tokens.len(),
        tokens.len() == names.len(),
        record_all(reg, cols, tokens.take(k), names.take(k)) is Err,
    ensures
        record_all(reg, cols, tokens, names) == record_all(reg, cols, tokens.take(k), names.take(k)),
    decreases tokens.len() - k,
{
    if k < tokens.len() {
        assert(tokens.take(k + 1).drop_last() =~= tokens.take(k));
        assert(names.take(k + 1).take(k) =~= names.take(k));
        lemma_record_err_prefix(reg, cols, tokens, names, k + 1);
    } else {
        assert(tokens.take(k) =~= tokens);
        assert(names.take(k) =~= names);
    }
}

impl Equip {
    /// The invariant of the state: that of the registry and of the store,
    /// and every collection registered to a valid slot.
    pub open spec fn wf(&self) -> bool {
        &&& registry_wf(self.map_items_tokens@)
        &&& uri_store_wf(self.uris@)
        &&& collections_wf(collection_views(self.collections_slots@))
    }

    /// A contract for the equippable collection `equippable_token_id`, whose
    /// pictures are read through `ipfs_gateway` and whose equippables are
    /// named by `equippable_name_format`, with nothing registered yet; the
    /// format must hold `{number}`.
    pub fn init(equippable_token_id: Vec<u8>, ipfs_gateway: Vec<u8>, equippable_name_format: Vec<u8>) -> (r: Result<Self, EquipError>)
        ensures
            r is Err <==> !has_number_placeholder(equippable_name_format@),
            r is Err ==> r == Err::<Self, EquipError>(EquipError::InitMissingNumberFormat),
            r is Ok ==> ({
                let c = r->Ok_0;
                &&& c.equippable_token_id@ == equippable_token_id@
                &&& c.ipfs_gateway@ == ipfs_gateway@
                &&& c.equippable_name_format@ == equippable_name_format@
                &&& c.royalties_overrided@ == Seq::<u8>::empty()
                &&& collection_views(c.collections_slots@) == Seq::<CollectionSlotV>::empty()
                &&& c.map_items_tokens@ == Seq::<EntryV>::empty()
                &&& c.uris@.0.len() == 0 && c.uris@.1.len() == 0 && c.uris@.2.len() == 0
                &&& c.wf()
            }),
    {
        if !contains_number_placeholder(&equippable_name_format) {
            return Err(EquipError::InitMissingNumberFormat);
        }
        let r = Equip {
            equippable_token_id,
            ipfs_gateway,
            equippable_name_format,
            royalties_overrided: Vec::new(),
            collections_slots: Vec::new(),
            map_items_tokens: ItemRegistry::new(),
            uris: UriStore::new(),
        };
        assert(r.royalties_overrided@ =~= Seq::<u8>::empty());
        assert(collection_views(r.collections_slots@) =~= Seq::<CollectionSlotV>::empty());
        Ok(r)
    }

    /// Registers the collection `collection` to `slot`, so that its items go
    /// on that slot; only the owner may call it, and a collection is
    /// registered once.
    #[verifier::loop_isolation(false)]
    pub fn register_item(&mut self, caller: &Vec<u8>, owner: &Vec<u8>, slot: Vec<u8>, collection: Vec<u8>) -> (r: Result<(), EquipError>)
        requires
            old(self).wf(),
        ensures
            final(self).wf(),
            final(self).equippable_token_id@ == old(self).equippable_token_id@,
            final(self).ipfs_gateway@ == old(self).ipfs_gateway@,
            final(self).equippable_name_format@ == old(self).equippable_name_format@,
            final(self).royalties_overrided@ == old(self).royalties_overrided@,
            final(self).map_items_tokens@ == old(self).map_items_tokens@,
            final(self).uris@ == old(self).uris@,
            caller@ != owner@ ==> r == Err::<(), EquipError>(EquipError::OnlyOwner)
                && collection_views(final(self).collections_slots@) == collection_views(old(self).collections_slots@),
            caller@ == owner@ ==> match register_collection(collection_views(old(self).collections_slots@), old(self).equippable_token_id@, slot@, collection@) {
                Ok(t) => r is Ok && collection_views(final(self).collections_slots@) == t,
                Err(e) => r == Err::<(), EquipError>(e)
                    && collection_views(final(self).collections_slots@) == collection_views(old(self).collections_slots@),
            },
    {
        if !bytes_eq(caller, owner) {
            return Err(EquipError::OnlyOwner);
        }
        if bytes_eq(&collection, &self.equippable_token_id) {
            return Err(EquipError::CannotRegisterEquippableAsItem);
        }
        match panic_if_slot_contains_unsupported_characters(&slot) {
            Ok(()) => {},
            Err(e) => {
                return Err(EquipError::InvalidSlot(e));
            },
        }
        let ghost cols = collection_views(self.collections_slots@);
        let mut c: usize = 0;
        while c < self.collections_slots.len()
            invariant
                c <= self.collections_slots.len(),
                cols == collection_views(self.collections_slots@),
                slot_of(cols.take(c as int), collection@) is None,
            decreases self.collections_slots.len() - c,
        {
            assert(cols.take(c + 1).drop_last() =~= cols.take(c as int));
            assert(cols.take(c + 1).last() == cols[c as int]);
            if bytes_eq(&self.collections_slots[c].0, &collection) {
                proof {
                    lemma_slot_of_found(cols, c as int, collection@);
                }
                return Err(EquipError::CannotOverrideRegisteredItem);
            }
            c += 1;
        }
        assert(cols.take(c as int) =~= cols);
        self.collections_slots.push((collection, slot));
        assert(collection_views(self.collections_slots@) =~= cols.push((collection@, slot@)));
        Ok(())
    }

    /// Accepts tokens sent by the owner so that the contract can give them
    /// back later: each must be of a registered collection, and is recorded
    /// as the item named by the same position of `names` (the names read
    /// from the tokens) on its collection's slot; nothing is recorded when
    /// one is refused.
    pub fn fill(&mut self, caller: &Vec<u8>, owner: &Vec<u8>, payments: &Vec<Payment>, names: &Vec<Vec<u8>>) -> (r: Result<(), EquipError>)
        requires
            old(self).wf(),
            names.len() == payments.len(),
        ensures
            final(self).wf(),
            final(self).equippable_token_id@ == old(self).equippable_token_id@,
            final(self).ipfs_gateway@ == old(self).ipfs_gateway@,
            final(self).equippable_name_format@ == old(self).equippable_name_format@,
            final(self).royalties_overrided@ == old(self).royalties_overrided@,
            final(self).collections_slots@ == old(self).collections_slots@,
            final(self).uris@ == old(self).uris@,
            caller@ != owner@ ==> r == Err::<(), EquipError>(EquipError::OnlyOwner)
                && final(self).map_items_tokens@ == old(self).map_items_tokens@,
            caller@ == owner@ ==> match record_all(
                old(self).map_items_tokens@,
                collection_views(old(self).collections_slots@),
                payment_tokens(payment_views(payments@)),
                crate::utils::byte_spec::views(names@),
            ) {
                Ok(t) => r is Ok && final(self).map_items_tokens@ == t,
                Err(e) => r == Err::<(), EquipError>(fill_error(e))
                    && final(self).map_items_tokens@ == old(self).map_items_tokens@,
            },
    {
        if !bytes_eq(caller, owner) {
            return Err(EquipError::OnlyOwner);
        }
        let mut next = self.map_items_tokens.copy();
        let res = record_items(&mut next, &self.collections_slots, payments, names, 0);
        assert(payment_tokens(payment_views(payments@)).skip(0) =~= payment_tokens(payment_views(payments@)));
        assert(crate::utils::byte_spec::views(names@).skip(0) =~= crate::utils::byte_spec::views(names@));
        match res {
            Ok(()) => {
                self.map_items_tokens = next;
                Ok(())
            },
            Err(RecordError::CollectionNotRegistered) => Err(EquipError::CannotFillUnregisteredItem),
            Err(RecordError::InvalidName(e)) => Err(EquipError::InvalidName(e)),
        }
    }

    /// Whether the owner's claim of the contract's balance is accepted: only
    /// the owner may claim.
    pub fn claim(&self, caller: &Vec<u8>, owner: &Vec<u8>) -> (r: Result<(), EquipError>)
        ensures
            r is Ok <==> caller@ == owner@,
            r is Err ==> r == Err::<(), EquipError>(EquipError::OnlyOwner),
    {
        if !bytes_eq(caller, owner) {
            return Err(EquipError::OnlyOwner);
        }
        Ok(())
    }

    /// Sets the royalties, given as big-endian bytes; only the owner may call
    /// it, and they must be between 0 and 10000.
    pub fn override_royalties(&mut self, caller: &Vec<u8>, owner: &Vec<u8>, royalties: Vec<u8>) -> (r: Result<(), EquipError>)
        ensures
            final(self).equippable_token_id@ == old(self).equippable_token_id@,
            final(self).map_items_tokens@ == old(self).map_items_tokens@,
            final(self).uris@ == old(self).uris@,
            caller@ != owner@ ==> r == Err::<(), EquipError>(EquipError::OnlyOwner),
            caller@ == owner@ && be_value(royalties@) > 10000 ==> r == Err::<(), EquipError>(EquipError::BadRoyalties),
            r is Ok <==> caller@ == owner@ && be_value(royalties@) <= 10000,
            r is Ok ==> final(self).royalties_overrided@ == royalties@,
            r is Err ==> final(self).royalties_overrided@ == old(self).royalties_overrided@,
    {
        if !bytes_eq(caller, owner) {
            return Err(EquipError::OnlyOwner);
        }
        if be_to_u128_saturating(&royalties) > 10000 {
            return Err(EquipError::BadRoyalties);
        }
        self.royalties_overrided = royalties;
        Ok(())
    }

    /// Every registered item as (slot, name, token identifier, nonce), in
    /// the registry's order.
    #[verifier::loop_isolation(false)]
    pub fn get_items(&self) -> (r: Vec<(Vec<u8>, Vec<u8>, Vec<u8>, u64)>)
        ensures
            r@.len() == self.map_items_tokens@.len(),
            forall|i: int| 0 <= i < r@.len() ==> (#[trigger] r@[i]).0@ == self.map_items_tokens@[i].0.1
                && r@[i].1@ == self.map_items_tokens@[i].0.0 && r@[i].2@ == self.map_items_tokens@[i].1.0
                && r@[i].3 == self.map_items_tokens@[i].1.1,
    {
        let entries = self.map_items_tokens.entries();
        let mut output: Vec<(Vec<u8>, Vec<u8>, Vec<u8>, u64)> = Vec::new();
        let mut i: usize = 0;
        while i < entries.len()
            invariant
                i <= entries.len(),
                crate::libs::storage::entry_views(entries@) == self.map_items_tokens@,
                output@.len() == i,
                forall|k: int| 0 <= k < i ==> (#[trigger] output@[k]).0@ == self.map_items_tokens@[k].0.1
                    && output@[k].1@ == self.map_items_tokens@[k].0.0 && output@[k].2@ == self.map_items_tokens@[k].1.0
                    && output@[k].3 == self.map_items_tokens@[k].1.1,
            decreases entries.len() - i,
        {
            let e = &entries[i];
            assert(self.map_items_tokens@[i as int] == (e.0@, e.1@));
            output.push((copy_bytes(&e.0.slot), copy_bytes(&e.0.name), copy_bytes(&e.1.token), e.1.nonce));
            i += 1;
        }
        output
    }
}

/// Law: once `collection` is registered to `slot`, a token of it that the
/// contract receives with a valid name is recorded as the item of that name
/// on that slot: the token is then registered, and the item and the token
/// find each other.
pub proof fn law_registered_collection_token_is_recorded(
    reg: Seq<EntryV>,
    cols: Seq<CollectionSlotV>,
    equippable_id: Seq<u8>,
    slot: Seq<u8>,
    collection: Seq<u8>,
    nonce: u64,
    name: Seq<u8>,
)
    requires
        registry_wf(reg),
        register_collection(cols, equippable_id, slot, collection) is Ok,
        name_check(name) is Ok,
    ensures
        ({
            let cols2 = register_collection(cols, equippable_id, slot, collection)->Ok_0;
            let r = record_one(reg, cols2, (collection, nonce), name);
            &&& slot_of(cols2, collection) == Some(slot)
            &&& r is Ok
            &&& registry_wf(r->Ok_0)
            &&& value_pos(r->Ok_0, (collection, nonce)) >= 0
            &&& id_of(r->Ok_0, (collection, nonce)) == (name, slot)
            &&& value_of(r->Ok_0, (name, slot)) == (collection, nonce)
        }),
{
    let cols2 = cols.push((collection, slot));
    assert(cols2.drop_last() =~= cols);
    assert(valid_item((name, slot)));
    law_replace_then_get(reg, (name, slot), (collection, nonce));
}

/// The slot a collection is registered to is one of the registered slots.
proof fn lemma_slot_of_member(cols: Seq<CollectionSlotV>, collection: Seq<u8>)
    ensures
        slot_of(cols, collection) is Some ==> exists|i: int| 0 <= i < cols.len() && (#[trigger] cols[i]).1 == slot_of(cols, collection)->Some_0,
    decreases cols.len(),
{
    if cols.len() > 0 {
        lemma_slot_of_member(cols.drop_last(), collection);
        if cols.last().0 == collection {
            assert(cols[cols.len() - 1].1 == slot_of(cols, collection)->Some_0);
        } else if slot_of(cols, collection) is Some {
            let i = choose|i: int| 0 <= i < cols.drop_last().len() && (#[trigger] cols.drop_last()[i]).1 == slot_of(cols.drop_last(), collection)->Some_0;
            assert(cols[i] == cols.drop_last()[i]);
        }
    }
}

/// Recording received items keeps the registry well formed.
pub proof fn lemma_record_all_wf(reg: Seq<EntryV>, cols: Seq<CollectionSlotV>, tokens: Seq<TokenV>, names: Seq<Seq<u8>>)
    requires
        registry_wf(reg),
        collections_wf(cols),
        names.len() == tokens.len(),
    ensures
        record_all(reg, cols, tokens, names) is Ok ==> registry_wf(record_all(reg, cols, tokens, names)->Ok_0),
    decreases tokens.len(),
{
    if tokens.len() > 0 {
        lemma_record_all_wf(reg, cols, tokens.drop_last(), names.take(tokens.len() - 1));
        if record_all(reg, cols, tokens, names) is Ok {
            let r = record_all(reg, cols, tokens.drop_last(), names.take(tokens.len() - 1))->Ok_0;
            let t = tokens.last();
            let name = names[tokens.len() - 1];
            lemma_slot_of_member(cols, t.0);
            let slot = slot_of(cols, t.0)->Some_0;
            let i = choose|i: int| 0 <= i < cols.len() && (#[trigger] cols[i]).1 == slot;
            assert(valid_slot(cols[i].1));
            assert(valid_item((name, slot)));
            law_replace_then_get(r, (name, slot), t);
        }
    }
}

proof fn lemma_slot_of_found(cols: Seq<CollectionSlotV>, c: int, collection: Seq<u8>)
    requires
        0 <= c < cols.len(),
        cols[c].0 == collection,
    ensures
        slot_of(cols, collection) is Some,
    decreases cols.len(),
{
    if c < cols.len() - 1 {
        if cols.last().0 != collection {
            lemma_slot_of_found(cols.drop_last(), c, collection);
        }
    }
}

} // verus!
