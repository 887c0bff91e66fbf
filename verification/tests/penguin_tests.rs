use customize_nft::libs::customize::Payment;
use customize_nft::penguin::equip::{PenguinEquip, PenguinError};
use customize_nft::penguin::item::Item;
use customize_nft::penguin::item_slot::ItemSlot;
use customize_nft::penguin::penguin_attributes::{PenguinAttributeError, PenguinAttributes};
use customize_nft::structs::token::Token;

fn b(s: &str) -> Vec<u8> {
    s.as_bytes().to_vec()
}

fn owner() -> Vec<u8> {
    b("owner")
}

fn item(token: &str, nonce: u64, name: &str) -> Item {
    Item { token: b(token), nonce, name: b(name) }
}

fn pay(id: &str, nonce: u64, amount: u8) -> Payment {
    Payment { token_identifier: b(id), token_nonce: nonce, amount: vec![amount] }
}

#[test]
fn item_slot_names() {
    assert_eq!(ItemSlot::Hat.to_bytes(), b("hat"));
    assert_eq!(ItemSlot::Eye.to_bytes(), b("eyes"));
    assert_eq!(ItemSlot::NoSlot.to_bytes(), b("none"));
    assert_eq!(ItemSlot::Eye.to_title_bytes(), b("Eyes"));
    assert_eq!(ItemSlot::Background.to_title_bytes(), b("Background"));
    assert_eq!(ItemSlot::values().len(), 7);
}

#[test]
fn penguin_item_helpers() {
    assert_eq!(Item::u64_to_hex(&255), b("ff"));
    assert_eq!(Item::u64_to_hex(&4096), b("1000"));
    let (first, second) = Item::split_last_occurence(b"HAT-a1-b2", b'-');
    assert_eq!(first, b("HAT-a1"));
    assert_eq!(second, b("-b2"));
}

#[test]
fn penguin_attributes_set_and_empty() {
    let mut a = PenguinAttributes::empty();
    assert_eq!(a.get_fill_count(), 0);
    assert_eq!(a.set_item(&ItemSlot::Hat, Some(item("HAT-1", 1, "Pirate Hat"))), Ok(()));
    assert_eq!(
        a.set_item(&ItemSlot::Hat, Some(item("HAT-1", 2, "Cowboy Hat"))),
        Err(PenguinAttributeError::SlotNotEmpty)
    );
    assert_eq!(a.get_item(&ItemSlot::Hat).unwrap().name, b("Pirate Hat"));
    assert!(!a.is_slot_empty(&ItemSlot::Hat));
    assert!(a.is_slot_empty(&ItemSlot::Beak));
    assert_eq!(a.get_fill_count(), 1);
    assert_eq!(a.set_empty_slot(&ItemSlot::Hat), Ok(()));
    assert!(a.is_slot_empty(&ItemSlot::Hat));
    let n = PenguinAttributes::new(&vec![(ItemSlot::Beak, item("BEAK-1", 1, "Gold")), (ItemSlot::Eye, item("EYE-1", 3, "Red"))]);
    assert_eq!(n.get_fill_count(), 2);
    assert_eq!(n.get_item(&ItemSlot::Eye).unwrap().nonce, 3);
}

fn contract() -> PenguinEquip {
    let mut c = PenguinEquip::init(b("PENGUIN-a1"));
    c.register_item(&owner(), &owner(), ItemSlot::Hat, &vec![b("HAT-1")]).unwrap();
    c.register_item(&owner(), &owner(), ItemSlot::Beak, &vec![b("BEAK-1")]).unwrap();
    c
}

#[test]
fn penguin_register_item() {
    let mut c = PenguinEquip::init(b("PENGUIN-a1"));
    assert_eq!(c.uri, b("https://penguins-generator.herokuapp.com/"));
    assert_eq!(c.register_item(&b("x"), &owner(), ItemSlot::Hat, &vec![b("HAT-1")]), Err(PenguinError::OnlyOwner));
    assert_eq!(
        c.register_item(&owner(), &owner(), ItemSlot::Hat, &vec![b("HAT-1"), b("PENGUIN-a1")]),
        Err(PenguinError::CannotRegisterPenguinAsItem)
    );
    assert_eq!(c.get_item_slot(&b("HAT-1")), None);
    assert_eq!(c.register_item(&owner(), &owner(), ItemSlot::Hat, &vec![b("HAT-1")]), Ok(()));
    assert_eq!(c.get_item_slot(&b("HAT-1")), Some(ItemSlot::Hat));
    assert_eq!(c.register_item(&owner(), &owner(), ItemSlot::NoSlot, &vec![b("HAT-1")]), Ok(()));
    assert_eq!(c.get_item_slot(&b("HAT-1")), None);
    assert_eq!(c.fill(&owner(), &owner()), Ok(()));
    assert_eq!(c.fill(&b("x"), &owner()), Err(PenguinError::OnlyOwner));
}

#[test]
fn penguin_urls_and_names() {
    let c = contract();
    let empty = PenguinAttributes::empty();
    assert_eq!(c.build_url(&empty, &vec![]), b("https://penguins-generator.herokuapp.com/empty/image.png"));
    assert_eq!(c.get_full_unequiped_penguin_uri(), b("https://penguins-generator.herokuapp.com/empty/image.png"));
    let a = PenguinAttributes::new(&vec![(ItemSlot::Beak, item("BEAK-1", 1, "Gold")), (ItemSlot::Hat, item("HAT-1", 2, "Cap"))]);
    let ids = vec![(Token::new(b("HAT-1"), 2), b("cap")), (Token::new(b("BEAK-1"), 1), b("gold"))];
    assert_eq!(c.build_url(&a, &ids), b("https://penguins-generator.herokuapp.com/hat_cap+beak_gold/image.png"));
    assert_eq!(PenguinEquip::get_next_penguin_name(9), b("Penguin #10"));
}

#[test]
fn penguin_customize_replaces_the_hat() {
    let c = contract();
    let worn = PenguinAttributes::new(&vec![(ItemSlot::Hat, item("HAT-1", 1, "Pirate Hat"))]);
    let plan = c
        .customize(
            &vec![pay("PENGUIN-a1", 7, 1), pay("HAT-1", 2, 1)],
            &vec![],
            true,
            true,
            worn,
            &vec![(Token::new(b("HAT-1"), 1), vec![2])],
            &vec![(Token::new(b("HAT-1"), 2), b("Cowboy Hat"))],
            &vec![(Token::new(b("HAT-1"), 2), b("cowboy"))],
        )
        .ok()
        .unwrap();
    assert!(plan.items_to_send == vec![Token::new(b("HAT-1"), 1)]);
    let hat = plan.attributes.get_item(&ItemSlot::Hat).unwrap();
    assert_eq!((hat.token, hat.nonce, hat.name), (b("HAT-1"), 2, b("Cowboy Hat")));
    assert_eq!(plan.url, b("https://penguins-generator.herokuapp.com/hat_cowboy/image.png"));
}

#[test]
fn penguin_customize_errors() {
    let c = contract();
    let worn = || PenguinAttributes::new(&vec![(ItemSlot::Hat, item("HAT-1", 1, "Pirate Hat"))]);
    let go = |payments: Vec<Payment>, slots: Vec<ItemSlot>, balance: u8| {
        c.customize(&payments, &slots, true, true, worn(), &vec![(Token::new(b("HAT-1"), 1), vec![balance])], &vec![], &vec![])
            .err()
    };
    assert_eq!(
        c.customize(&vec![], &vec![], false, true, worn(), &vec![], &vec![], &vec![]).err(),
        Some(PenguinError::LocalCreateRoleNotSet)
    );
    assert_eq!(
        c.customize(&vec![], &vec![], true, false, worn(), &vec![], &vec![], &vec![]).err(),
        Some(PenguinError::LocalBurnRoleNotSet)
    );
    assert_eq!(go(vec![], vec![], 2), Some(PenguinError::NeedPenguin));
    assert_eq!(go(vec![pay("PENGUIN-a1", 7, 1)], vec![], 2), Some(PenguinError::NeedItemOrSlotToDesequip));
    assert_eq!(go(vec![pay("HAT-1", 7, 1), pay("HAT-1", 2, 1)], vec![], 2), Some(PenguinError::FirstPaymentMustBePenguin));
    assert_eq!(go(vec![pay("PENGUIN-a1", 7, 2), pay("HAT-1", 2, 1)], vec![], 2), Some(PenguinError::OnlyOnePenguin));
    assert_eq!(go(vec![pay("PENGUIN-a1", 7, 1)], vec![ItemSlot::NoSlot], 2), Some(PenguinError::SlotMustNotBeNone));
    assert_eq!(go(vec![pay("PENGUIN-a1", 7, 1)], vec![ItemSlot::Beak], 2), Some(PenguinError::CannotSendItemFromEmptySlot));
    assert_eq!(go(vec![pay("PENGUIN-a1", 7, 1)], vec![ItemSlot::Hat], 1), Some(PenguinError::NoTokenOnContract));
    assert_eq!(go(vec![pay("PENGUIN-a1", 7, 1), pay("HAT-1", 2, 2)], vec![], 2), Some(PenguinError::OnlyOneItem));
    assert_eq!(go(vec![pay("PENGUIN-a1", 7, 1), pay("EYE-1", 2, 1)], vec![], 2), Some(PenguinError::NotAnItem));
}

#[test]
fn penguin_desequip_slot_sends_back() {
    let c = contract();
    let mut worn = PenguinAttributes::new(&vec![(ItemSlot::Hat, item("HAT-1", 1, "Pirate Hat"))]);
    let mut sent: Vec<Token> = Vec::new();
    let balances = vec![(Token::new(b("HAT-1"), 1), vec![5])];
    assert_eq!(c.desequip_slot(&balances, &mut worn, &mut sent, &ItemSlot::Hat), Ok(()));
    assert!(worn.is_slot_empty(&ItemSlot::Hat));
    assert!(sent == vec![Token::new(b("HAT-1"), 1)]);
    assert_eq!(
        c.desequip_slot(&balances, &mut worn, &mut sent, &ItemSlot::Hat),
        Err(PenguinError::CannotSendItemFromEmptySlot)
    );
    assert_eq!(c.equip_slot(&balances, &mut worn, &mut sent, &item("PENGUIN-a1", 1, "p")), Err(PenguinError::NotAnItem));
    assert_eq!(c.equip_slot(&balances, &mut worn, &mut sent, &item("BEAK-1", 1, "Gold")), Ok(()));
    assert_eq!(worn.get_item(&ItemSlot::Beak).unwrap().name, b("Gold"));
}
