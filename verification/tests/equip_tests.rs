use customize_nft::equip::{Equip, EquipError};
use customize_nft::libs::customize::{CustomizeError, Payment};
use customize_nft::libs::equippable_minter::{calculate_hash, get_next_equippable_name};
use customize_nft::libs::equippable_uris::EquippableUrisModule;
use customize_nft::libs::parser::ParserModule;
use customize_nft::structs::attribute_spec::DecodeError;
use customize_nft::structs::equippable_attributes::{AttributeError, EquippableAttributes};
use customize_nft::structs::image_to_render::ImageToRender;
use customize_nft::structs::slot::Slot;
use customize_nft::structs::token::Token;

fn b(s: &str) -> Vec<u8> {
    s.as_bytes().to_vec()
}

fn owner() -> Vec<u8> {
    b("owner")
}

fn price() -> Vec<u8> {
    vec![0x03, 0x8d, 0x7e, 0xa4, 0xc6, 0x80, 0x00]
}

fn pay(id: &str, nonce: u64, amount: u8) -> Payment {
    Payment { token_identifier: b(id), token_nonce: nonce, amount: vec![amount] }
}

fn attrs(pairs: &[(&str, &str)]) -> EquippableAttributes {
    let mut a = EquippableAttributes::empty();
    for (slot, name) in pairs {
        a.set_item(&b(slot), Some(b(name)));
    }
    a
}

fn new_contract() -> Equip {
    Equip::init(b("EQUIP-a1a1a1"), b("https://ipfs.io/ipfs/"), b("Equippable #{number}")).ok().unwrap()
}

/// The name each token carries, as the contract reads it.
fn name_of(p: &Payment) -> Vec<u8> {
    match (p.token_identifier.as_slice(), p.token_nonce) {
        (b"HAT-a1a1a1", 1) => b("Pirate Hat"),
        (b"HAT-a1a1a1", 2) => b("Cowboy Hat"),
        (b"HAT-a1a1a1", 7) => b("Top Hat"),
        (b"BEAK-a1a1a1", 1) => b("Gold Beak"),
        (b"EQUIP-a1a1a1", _) => b("Equippable #1"),
        _ => b("Unknown"),
    }
}

fn names(payments: &Vec<Payment>) -> Vec<Vec<u8>> {
    payments.iter().map(name_of).collect()
}

/// A contract for `EQUIP-a1a1a1` with the hat and beak collections
/// registered, two hats and a beak filled, and a rendered picture for
/// `attributes` under the name `Equippable #1`.
fn contract_with_render(attributes: EquippableAttributes) -> Equip {
    let mut c = new_contract();
    c.register_item(&owner(), &owner(), b("hat"), b("HAT-a1a1a1")).unwrap();
    c.register_item(&owner(), &owner(), b("beak"), b("BEAK-a1a1a1")).unwrap();
    let filled = vec![pay("HAT-a1a1a1", 1, 1), pay("HAT-a1a1a1", 2, 1), pay("BEAK-a1a1a1", 1, 1)];
    c.fill(&owner(), &owner(), &filled, &names(&filled)).unwrap();
    let image = ImageToRender { attributes, name: b("Equippable #1") };
    c.uris.enqueue_image_to_render(&image, &price()).unwrap();
    c.uris.set_uri_of_attributes(&owner(), &owner(), vec![(image, b("ipfs://new"))]).unwrap();
    c
}

fn all_balances() -> Vec<(Token, Vec<u8>)> {
    vec![
        (Token::new(b("HAT-a1a1a1"), 1), vec![1]),
        (Token::new(b("HAT-a1a1a1"), 2), vec![1]),
        (Token::new(b("BEAK-a1a1a1"), 1), vec![1]),
    ]
}

#[test]
fn init_needs_the_number_in_the_name_format() {
    assert!(matches!(
        Equip::init(b("EQUIP-a1a1a1"), b("https://ipfs.io/ipfs/"), b("Equippable")),
        Err(EquipError::InitMissingNumberFormat)
    ));
    assert!(matches!(
        Equip::init(b("EQUIP-a1a1a1"), b("https://ipfs.io/ipfs/"), b("{numbe}")),
        Err(EquipError::InitMissingNumberFormat)
    ));
    let c = new_contract();
    assert_eq!(c.equippable_token_id, b("EQUIP-a1a1a1"));
    assert_eq!(c.ipfs_gateway, b("https://ipfs.io/ipfs/"));
    assert_eq!(c.equippable_name_format, b("Equippable #{number}"));
    let d = Equip::init(b("E"), b("g"), b("{number}")).ok().unwrap();
    assert_eq!(d.equippable_name_format, b("{number}"));
}

#[test]
fn register_item_checks() {
    let mut c = new_contract();
    assert_eq!(c.register_item(&b("x"), &owner(), b("hat"), b("HAT-5e78d4")), Err(EquipError::OnlyOwner));
    assert_eq!(
        c.register_item(&owner(), &owner(), b("hat"), b("EQUIP-a1a1a1")),
        Err(EquipError::CannotRegisterEquippableAsItem)
    );
    assert_eq!(
        c.register_item(&owner(), &owner(), b("h:t"), b("HAT-5e78d4")),
        Err(EquipError::InvalidSlot(AttributeError::SlotContainsUnsupportedCharacters))
    );
    assert_eq!(
        c.register_item(&owner(), &owner(), b("h;t"), b("HAT-5e78d4")),
        Err(EquipError::InvalidSlot(AttributeError::SlotContainsUnsupportedCharacters))
    );
    assert!(c.collections_slots.is_empty());
    assert_eq!(c.register_item(&owner(), &owner(), b("hat"), b("HAT-5e78d4")), Ok(()));
    assert_eq!(
        c.register_item(&owner(), &owner(), b("background"), b("HAT-5e78d4")),
        Err(EquipError::CannotOverrideRegisteredItem)
    );
    assert_eq!(c.collections_slots, vec![(b("HAT-5e78d4"), b("hat"))]);
}

#[test]
fn fill_records_items_of_registered_collections() {
    let mut c = new_contract();
    c.register_item(&owner(), &owner(), b("hat"), b("HAT-a1a1a1")).unwrap();
    let p = vec![pay("HAT-a1a1a1", 1, 1)];
    assert_eq!(c.fill(&b("x"), &owner(), &p, &names(&p)), Err(EquipError::OnlyOwner));
    let q = vec![pay("HAT-a1a1a1", 1, 1), pay("SHOE-a1a1a1", 1, 1)];
    assert_eq!(c.fill(&owner(), &owner(), &q, &names(&q)), Err(EquipError::CannotFillUnregisteredItem));
    assert_eq!(c.get_items().len(), 0);
    assert_eq!(
        c.fill(&owner(), &owner(), &p, &vec![b("a;b")]),
        Err(EquipError::InvalidName(AttributeError::NameContainsUnsupportedCharacters))
    );
    assert_eq!(c.fill(&owner(), &owner(), &p, &names(&p)), Ok(()));
    assert_eq!(c.get_items(), vec![(b("hat"), b("Pirate Hat"), b("HAT-a1a1a1"), 1)]);
    assert_eq!(c.fill(&owner(), &owner(), &p, &names(&p)), Ok(()));
    assert_eq!(c.get_items().len(), 1);
}

#[test]
fn fill_claim_and_royalties() {
    let mut c = contract_with_render(attrs(&[]));
    assert_eq!(c.get_items().len(), 3);
    assert_eq!(c.fill(&b("x"), &owner(), &vec![], &vec![]), Err(EquipError::OnlyOwner));
    assert_eq!(c.claim(&owner(), &owner()), Ok(()));
    assert_eq!(c.claim(&b("x"), &owner()), Err(EquipError::OnlyOwner));
    assert_eq!(c.override_royalties(&owner(), &owner(), vec![0x27, 0x11]), Err(EquipError::BadRoyalties));
    assert_eq!(c.override_royalties(&owner(), &owner(), vec![0x27, 0x10]), Ok(()));
    assert_eq!(c.royalties_overrided, vec![0x27, 0x10]);
}

#[test]
fn customize_accepts_any_token_of_a_registered_collection() {
    let mut c = contract_with_render(attrs(&[("hat", "Top Hat")]));
    let payments = vec![pay("EQUIP-a1a1a1", 5, 1), pay("HAT-a1a1a1", 7, 1)];
    let plan = c
        .customize(
            &payments,
            &names(&payments),
            &vec![],
            true,
            true,
            &b("hat:Cowboy Hat"),
            &b("Equippable #1"),
            &all_balances(),
        )
        .ok()
        .unwrap();
    assert!(plan.items_to_send == vec![Token::new(b("HAT-a1a1a1"), 2)]);
    assert_eq!(plan.encoded_attributes, b("hat:Top Hat"));
    assert!(c.get_items().contains(&(b("hat"), b("Top Hat"), b("HAT-a1a1a1"), 7)));
}

#[test]
fn customize_on_an_occupied_slot_sends_the_old_item_back() {
    let mut c = contract_with_render(attrs(&[("hat", "Cowboy Hat")]));
    let payments = vec![pay("EQUIP-a1a1a1", 5, 1), pay("HAT-a1a1a1", 2, 1)];
    let plan = c
        .customize(
            &payments,
            &names(&payments),
            &vec![],
            true,
            true,
            &b("hat:Pirate Hat"),
            &b("Equippable #1"),
            &all_balances(),
        )
        .ok()
        .unwrap();
    assert!(plan.items_to_send == vec![Token::new(b("HAT-a1a1a1"), 1)]);
    assert_eq!(plan.attributes.get_name(&b("hat")), Some(b("Cowboy Hat")));
    assert_eq!(plan.encoded_attributes, b("hat:Cowboy Hat"));
    assert_eq!(plan.uri, b("ipfs://new"));
}

#[test]
fn customize_on_an_empty_slot_sends_nothing_back() {
    let mut c = contract_with_render(attrs(&[("beak", "Gold Beak"), ("hat", "Pirate Hat")]));
    let payments = vec![pay("EQUIP-a1a1a1", 5, 1), pay("BEAK-a1a1a1", 1, 1)];
    let plan = c
        .customize(
            &payments,
            &names(&payments),
            &vec![],
            true,
            true,
            &b("hat:Pirate Hat"),
            &b("Equippable #1"),
            &all_balances(),
        )
        .ok()
        .unwrap();
    assert!(plan.items_to_send.is_empty());
    assert_eq!(plan.encoded_attributes, b("beak:Gold Beak;hat:Pirate Hat"));
}

#[test]
fn customize_unequips_slots() {
    let c = contract_with_render(attrs(&[("hat", "Pirate Hat")]));
    let mut expected = attrs(&[("hat", "Pirate Hat")]);
    expected.empty_slot(&b("hat"));
    let c = {
        let mut c = c;
        let image = ImageToRender { attributes: expected, name: b("Equippable #1") };
        c.uris.enqueue_image_to_render(&image, &price()).unwrap();
        c.uris.set_uri_of_attributes(&owner(), &owner(), vec![(image, b("ipfs://bare"))]).unwrap();
        c
    };
    let mut c = c;
    let payments = vec![pay("EQUIP-a1a1a1", 5, 1)];
    let plan = c
        .customize(
            &payments,
            &names(&payments),
            &vec![b("hat")],
            true,
            true,
            &b("hat:Pirate Hat"),
            &b("Equippable #1"),
            &all_balances(),
        )
        .ok()
        .unwrap();
    assert!(plan.items_to_send == vec![Token::new(b("HAT-a1a1a1"), 1)]);
    assert_eq!(plan.encoded_attributes, b("hat:unequipped"));
    assert_eq!(plan.uri, b("ipfs://bare"));
}

#[test]
fn customize_checks_in_order() {
    let mut c = contract_with_render(attrs(&[("hat", "Cowboy Hat")]));
    let mut go = |payments: Vec<Payment>, slots: Vec<Vec<u8>>, create: bool, burn: bool, raw: &str, balances: Vec<(Token, Vec<u8>)>| {
        c.customize(&payments, &names(&payments), &slots, create, burn, &b(raw), &b("Equippable #1"), &balances).err()
    };
    let good = || vec![pay("EQUIP-a1a1a1", 5, 1), pay("HAT-a1a1a1", 2, 1)];
    assert_eq!(go(good(), vec![], false, true, "hat:Pirate Hat", all_balances()), Some(CustomizeError::CreateRoleNotSetForEquippable));
    assert_eq!(go(good(), vec![], true, false, "hat:Pirate Hat", all_balances()), Some(CustomizeError::BurnRoleNotSetForEquippable));
    assert_eq!(go(vec![], vec![], true, true, "", all_balances()), Some(CustomizeError::NeedEquippable));
    assert_eq!(
        go(vec![pay("EQUIP-a1a1a1", 5, 1)], vec![], true, true, "", all_balances()),
        Some(CustomizeError::NeedOneItemOrUnequipSlot)
    );
    assert_eq!(
        go(vec![pay("HAT-a1a1a1", 2, 1), pay("HAT-a1a1a1", 2, 1)], vec![], true, true, "", all_balances()),
        Some(CustomizeError::FirstPaymentIsEquippable)
    );
    assert_eq!(
        go(vec![pay("EQUIP-a1a1a1", 5, 2), pay("HAT-a1a1a1", 2, 1)], vec![], true, true, "", all_balances()),
        Some(CustomizeError::MoreThanOneEquippableReceived)
    );
    assert_eq!(
        go(good(), vec![], true, true, "hat", all_balances()),
        Some(CustomizeError::CannotDecodeAttributes(DecodeError::CannotDecodeAttribute))
    );
    assert_eq!(
        go(good(), vec![b("beak")], true, true, "hat:Pirate Hat", all_balances()),
        Some(CustomizeError::CannotUnequipEmptySlot)
    );
    assert_eq!(
        go(good(), vec![b("hat")], true, true, "hat:Unknown Hat", all_balances()),
        Some(CustomizeError::UnequippedItemNotRegistered)
    );
    assert_eq!(go(good(), vec![], true, true, "hat:Pirate Hat", vec![]), Some(CustomizeError::NoItemRemaining));
    assert_eq!(
        go(vec![pay("EQUIP-a1a1a1", 5, 1), pay("HAT-a1a1a1", 2, 2)], vec![], true, true, "hat:Pirate Hat", all_balances()),
        Some(CustomizeError::MoreThanOneItemReceived)
    );
    assert_eq!(
        go(vec![pay("EQUIP-a1a1a1", 5, 1), pay("SHOE-a1a1a1", 7, 1)], vec![], true, true, "hat:Pirate Hat", all_balances()),
        Some(CustomizeError::ItemNotRegistered)
    );
    assert_eq!(
        go(vec![pay("EQUIP-a1a1a1", 5, 1), pay("BEAK-a1a1a1", 1, 1)], vec![], true, true, "hat:Pirate Hat", all_balances()),
        Some(CustomizeError::NoUriForAttributes)
    );
}

#[test]
fn customize_sends_back_only_what_the_contract_holds() {
    let mut c = contract_with_render(attrs(&[("hat", "Pirate Hat")]));
    let payments = vec![pay("EQUIP-a1a1a1", 5, 1), pay("HAT-a1a1a1", 2, 1), pay("HAT-a1a1a1", 1, 1), pay("HAT-a1a1a1", 2, 1)];
    let plan = c.customize(
        &payments,
        &names(&payments),
        &vec![],
        true,
        true,
        &b("hat:Pirate Hat"),
        &b("Equippable #1"),
        &all_balances(),
    );
    assert_eq!(plan.err(), Some(CustomizeError::NoItemRemaining));
}

#[test]
fn next_equippable_name_replaces_the_number() {
    assert_eq!(get_next_equippable_name(9, &b("Penguin #{number}")), b("Penguin #10"));
    assert_eq!(get_next_equippable_name(0, &b("Equippable")), b("Equippable"));
    assert_eq!(calculate_hash(), b(""));
}

#[test]
fn parse_equippable_attributes_decodes_nft_attributes() {
    let c = new_contract();
    let a = c.parse_equippable_attributes(&b("hat:Pirate Hat")).ok().unwrap();
    assert_eq!(a.get_name(&Slot::new_from_bytes(b"hat")), Some(b("Pirate Hat")));
    let h = c.parse_equippable_attributes(&b("Hat:Pirate Hat")).ok().unwrap();
    assert_eq!(h.get_name(&Slot::new_from_bytes(b"hat")), Some(b("Pirate Hat")));
    assert_eq!(c.parse_equippable_attributes(&b("HAT:Pirate Hat")).err(), Some(DecodeError::SlotMustBeLowercase));
}
