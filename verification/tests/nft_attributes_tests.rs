use customize_nft::structs::attribute_spec::DecodeError;
use customize_nft::structs::equippable_nft_attributes::{
    panic_if_name_contains_unsupported_characters, EquippableNftAttribute, EquippableNftAttributes, NftNameError,
};
use customize_nft::structs::slot::{check_slot_name, Slot, SlotError};
use std::cmp::Ordering;

fn b(s: &str) -> Vec<u8> {
    s.as_bytes().to_vec()
}

#[test]
fn nft_attribute_buffer_capitalizes_the_slot() {
    let a = EquippableNftAttribute { slot: Slot::new_from_bytes(b"hat"), name: Some(b("Pirate Hat")) };
    assert_eq!(a.to_buffer(), b("Hat:Pirate Hat"));
    let e = EquippableNftAttribute { slot: Slot::new_from_bytes(b"beak"), name: None };
    assert_eq!(e.to_buffer(), b("Beak:unequipped"));
}

#[test]
fn nft_attribute_from_buffer() {
    let a = EquippableNftAttribute::from_buffer(b("hat:Pirate Hat"));
    assert_eq!(a.slot.get(), b("hat"));
    assert_eq!(a.name, Some(b("Pirate Hat")));
}

#[test]
fn nft_attributes_set_get_and_encode() {
    let mut a = EquippableNftAttributes::empty();
    let hat = Slot::new_from_bytes(b"hat");
    let background = Slot::new_from_bytes(b"background");
    a.set_item_if_empty(&hat, Some(b("Pirate Hat")));
    a.set_item(&background, Some(b("Blue")));
    assert_eq!(a.get_name(&hat), Some(b("Pirate Hat")));
    assert!(!a.is_slot_empty(&hat));
    assert_eq!(a.top_encode(), b("Background:Blue;Hat:Pirate Hat"));
    a.empty_slot(&hat);
    assert!(a.is_slot_empty(&hat));
    assert_eq!(a.top_encode(), b("Background:Blue;Hat:unequipped"));
}

#[test]
fn nft_decode_reads_capitalized_slots() {
    let a = EquippableNftAttributes::top_decode(&b("Hat:Pirate Hat")).ok().unwrap();
    assert_eq!(a.get_name(&Slot::new_from_bytes(b"hat")), Some(b("Pirate Hat")));
    let c = EquippableNftAttribute::from_buffer(b("Hat:Pirate Hat"));
    assert_eq!(c.slot.get(), b("hat"));
    assert_eq!(c.name, Some(b("Pirate Hat")));
}

#[test]
fn nft_decode_refuses_upper_case_after_the_first_letter() {
    assert_eq!(
        EquippableNftAttributes::top_decode(&b("HAT:Pirate Hat")).err(),
        Some(DecodeError::SlotMustBeLowercase)
    );
    assert_eq!(
        EquippableNftAttributes::top_decode(&b("Hat:A;hat:B")).err(),
        Some(DecodeError::SlotNotEmpty)
    );
}

#[test]
fn nft_decode_of_lower_case_slots() {
    let a = EquippableNftAttributes::top_decode(&b("hat:Pirate Hat;beak:unequipped")).ok().unwrap();
    assert_eq!(a.get_name(&Slot::new_from_bytes(b"hat")), Some(b("Pirate Hat")));
    assert_eq!(a.get_name(&Slot::new_from_bytes(b"beak")), None);
    assert_eq!(
        EquippableNftAttributes::top_decode(&b("hat:A;hat:B")).err(),
        Some(DecodeError::SlotNotEmpty)
    );
    assert_eq!(
        EquippableNftAttributes::top_decode(&b("hat")).err(),
        Some(DecodeError::CannotDecodeAttribute)
    );
}

#[test]
fn nft_roundtrip_of_encoded_attributes() {
    let mut a = EquippableNftAttributes::empty();
    a.set_item(&Slot::new_from_bytes(b"hat"), Some(b("Pirate Hat")));
    a.set_item(&Slot::new_from_bytes(b"background"), Some(b("Blue")));
    a.set_item(&Slot::new_from_bytes(b"beak"), None);
    let text = a.top_encode();
    assert_eq!(text, b("Background:Blue;Beak:unequipped;Hat:Pirate Hat"));
    let back = EquippableNftAttributes::top_decode(&text).ok().unwrap();
    assert!(back == a);
    let one = EquippableNftAttribute { slot: Slot::new_from_bytes(b"hat"), name: Some(b("Pirate Hat")) };
    let again = EquippableNftAttribute::from_buffer(one.to_buffer());
    assert_eq!(again.slot.get(), b("hat"));
    assert_eq!(again.name, Some(b("Pirate Hat")));
}

#[test]
fn nft_roundtrip_when_slots_do_not_start_with_a_letter() {
    let mut a = EquippableNftAttributes::empty();
    a.set_item(&Slot::new_from_bytes(b"1hat"), Some(b("Pirate Hat")));
    a.set_item(&Slot::new_from_bytes(b"_beak"), None);
    let back = EquippableNftAttributes::top_decode(&a.top_encode()).ok().unwrap();
    assert!(back == a);
}

#[test]
fn nft_equality_ignores_order() {
    let mut a = EquippableNftAttributes::empty();
    a.set_item(&Slot::new_from_bytes(b"hat"), Some(b("H")));
    a.set_item(&Slot::new_from_bytes(b"beak"), Some(b("B")));
    let mut c = EquippableNftAttributes::empty();
    c.set_item(&Slot::new_from_bytes(b"beak"), Some(b("B")));
    c.set_item(&Slot::new_from_bytes(b"hat"), Some(b("H")));
    assert!(a == c);
    c.set_item(&Slot::new_from_bytes(b"hat"), None);
    assert!(!(a == c));
}

#[test]
fn slot_checks_and_order() {
    assert_eq!(check_slot_name(&b("hat")), Ok(()));
    assert_eq!(check_slot_name(&b("Hat")), Err(SlotError::MustBeLowercase));
    assert_eq!(check_slot_name(&b("h:t")), Err(SlotError::UnsupportedCharacters));
    assert_eq!(check_slot_name(&vec![b'a'; 513]), Err(SlotError::BufferTooBig));
    let a = Slot::new_from_bytes(b"background");
    let h = Slot::new_from_buffer(b("hat"));
    assert_eq!(a.compare(&h), Ordering::Less);
    assert_eq!(h.compare(&a), Ordering::Greater);
    assert_eq!(h.compare(&h.copy()), Ordering::Equal);
    assert_eq!(h.capitalized(), b("Hat"));
    assert_eq!(h.top_encode(), b("hat"));
    assert!(Slot::top_decode(&b("Hat")).is_err());
    assert!(Slot::top_decode(&b("hat")).ok().unwrap() == h);
    assert_eq!(Slot::default().get(), b(""));
}

#[test]
fn nft_name_checks() {
    assert_eq!(panic_if_name_contains_unsupported_characters(&None), Ok(()));
    assert_eq!(panic_if_name_contains_unsupported_characters(&Some(b("unequipped"))), Ok(()));
    assert_eq!(
        panic_if_name_contains_unsupported_characters(&Some(b("a:b"))),
        Err(NftNameError::NameContainsUnsupportedCharacters)
    );
    assert_eq!(
        panic_if_name_contains_unsupported_characters(&Some(vec![b'a'; 513])),
        Err(NftNameError::BufferTooBig)
    );
}
