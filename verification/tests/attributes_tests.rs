use customize_nft::structs::attribute_spec::DecodeError;
use customize_nft::structs::equippable_attributes::{
    panic_if_name_contains_unsupported_characters, panic_if_slot_contains_unsupported_characters,
    AttributeError, EquippableAttribute, EquippableAttributes,
};
use customize_nft::structs::image_to_render::ImageToRender;

fn b(s: &str) -> Vec<u8> {
    s.as_bytes().to_vec()
}

fn attributes(pairs: &[(&str, Option<&str>)]) -> EquippableAttributes {
    let mut a = EquippableAttributes::empty();
    for (slot, name) in pairs {
        a.set_item(&b(slot), name.map(b));
    }
    a
}

#[test]
fn attribute_to_buffer_and_back() {
    let a = EquippableAttribute { slot: b("hat"), name: Some(b("Pirate Hat")) };
    assert_eq!(a.to_buffer(), b("hat:Pirate Hat"));
    let e = EquippableAttribute { slot: b("hat"), name: None };
    assert_eq!(e.to_buffer(), b("hat:unequipped"));
    let back = EquippableAttribute::from_buffer(b("hat:unequipped"));
    assert_eq!(back.slot, b("hat"));
    assert_eq!(back.name, None);
}

#[test]
fn set_item_then_get_name() {
    let mut a = EquippableAttributes::empty();
    assert!(a.is_slot_empty(&b("hat")));
    a.set_item(&b("hat"), Some(b("Pirate Hat")));
    assert_eq!(a.get_name(&b("hat")), Some(b("Pirate Hat")));
    assert_eq!(a.get_name(&b("beak")), None);
    a.set_item(&b("hat"), Some(b("Cowboy Hat")));
    assert_eq!(a.get_name(&b("hat")), Some(b("Cowboy Hat")));
}

#[test]
fn empty_slot_keeps_the_slot_as_unequipped() {
    let mut a = attributes(&[("hat", Some("Pirate Hat")), ("background", Some("Blue"))]);
    a.empty_slot(&b("hat"));
    assert!(a.is_slot_empty(&b("hat")));
    assert_eq!(a.top_encode(), b("background:Blue;hat:unequipped"));
}

#[test]
fn set_item_if_empty_on_an_empty_slot() {
    let mut a = EquippableAttributes::empty();
    a.set_item_if_empty(&b("beak"), Some(b("Gold")));
    assert_eq!(a.get_name(&b("beak")), Some(b("Gold")));
}

#[test]
fn top_encode_sorts_slots() {
    let a = attributes(&[("hat", Some("Pirate Hat")), ("background", Some("Blue")), ("beak", None)]);
    assert_eq!(a.top_encode(), b("background:Blue;beak:unequipped;hat:Pirate Hat"));
    assert_eq!(EquippableAttributes::empty().top_encode(), b(""));
}

#[test]
fn top_decode_reads_the_text_form() {
    let a = EquippableAttributes::top_decode(&b("hat:Pirate Hat")).ok().unwrap();
    assert_eq!(a.get_name(&b("hat")), Some(b("Pirate Hat")));
    let e = EquippableAttributes::top_decode(&b("")).ok().unwrap();
    assert!(e == EquippableAttributes::empty());
}

#[test]
fn top_decode_errors() {
    assert_eq!(EquippableAttributes::top_decode(&b("hat")).err(), Some(DecodeError::CannotDecodeAttribute));
    assert_eq!(EquippableAttributes::top_decode(&b("hat:a:b")).err(), Some(DecodeError::CannotDecodeAttribute));
    assert_eq!(EquippableAttributes::top_decode(&b("hat:A;hat:B")).err(), Some(DecodeError::SlotNotEmpty));
    assert_eq!(EquippableAttributes::top_decode(&vec![b'a'; 513]).err(), Some(DecodeError::BufferTooBig));
}

#[test]
fn unequipped_slot_can_be_set_again_while_decoding() {
    let a = EquippableAttributes::top_decode(&b("hat:unequipped;hat:B")).ok().unwrap();
    assert_eq!(a.get_name(&b("hat")), Some(b("B")));
}

#[test]
fn decode_of_encode_gives_the_same_attributes() {
    let a = attributes(&[("hat", Some("Pirate Hat")), ("background", Some("Blue")), ("eyes", None)]);
    let back = EquippableAttributes::top_decode(&a.top_encode()).ok().unwrap();
    assert!(back == a);
    assert!(back.same_as(&a));
}

#[test]
fn equality_ignores_the_order_of_setting() {
    let a = attributes(&[("hat", Some("H")), ("beak", Some("B"))]);
    let c = attributes(&[("beak", Some("B")), ("hat", Some("H"))]);
    let d = attributes(&[("beak", Some("B")), ("hat", Some("X"))]);
    assert!(a == c);
    assert!(!(a == d));
}

#[test]
fn name_checks() {
    assert_eq!(panic_if_name_contains_unsupported_characters(&None), Ok(()));
    assert_eq!(panic_if_name_contains_unsupported_characters(&Some(b("Pirate Hat"))), Ok(()));
    assert_eq!(
        panic_if_name_contains_unsupported_characters(&Some(b("a;b"))),
        Err(AttributeError::NameContainsUnsupportedCharacters)
    );
    assert_eq!(
        panic_if_name_contains_unsupported_characters(&Some(b("a:b"))),
        Err(AttributeError::NameContainsUnsupportedCharacters)
    );
    assert_eq!(
        panic_if_name_contains_unsupported_characters(&Some(b("unequipped"))),
        Err(AttributeError::NameCannotBeUnequipped)
    );
    assert_eq!(
        panic_if_name_contains_unsupported_characters(&Some(vec![b'a'; 513])),
        Err(AttributeError::BufferTooBig)
    );
}

#[test]
fn slot_checks() {
    assert_eq!(panic_if_slot_contains_unsupported_characters(&b("hat")), Ok(()));
    assert_eq!(
        panic_if_slot_contains_unsupported_characters(&b("h;t")),
        Err(AttributeError::SlotContainsUnsupportedCharacters)
    );
    assert_eq!(
        panic_if_slot_contains_unsupported_characters(&vec![b'a'; 513]),
        Err(AttributeError::BufferTooBig)
    );
}

#[test]
fn image_to_render_gives_its_parts() {
    let image = ImageToRender { attributes: attributes(&[("hat", Some("H"))]), name: b("Equippable #1") };
    let (attrs, name) = image.to_multi_value_encoded();
    assert_eq!(attrs.top_encode(), b("hat:H"));
    assert_eq!(name, b("Equippable #1"));
    assert!(image == image.copy());
}

#[test]
fn settings_of_different_slots_commute() {
    let mut x = EquippableAttributes::empty();
    x.set_item(&b("hat"), Some(b("Pirate Hat")));
    x.set_item(&b("beak"), None);
    let mut y = EquippableAttributes::empty();
    y.set_item(&b("beak"), None);
    y.set_item(&b("hat"), Some(b("Pirate Hat")));
    assert!(x == y);
    assert_eq!(x.top_encode(), y.top_encode());
}

#[test]
fn a_sequence_of_settings_reads_the_last_one() {
    let mut a = EquippableAttributes::empty();
    a.set_item(&b("hat"), Some(b("Pirate Hat")));
    a.set_item_if_empty(&b("beak"), Some(b("Gold Beak")));
    a.set_item(&b("hat"), Some(b("Cowboy Hat")));
    a.empty_slot(&b("beak"));
    assert_eq!(a.get_name(&b("hat")), Some(b("Cowboy Hat")));
    assert_eq!(a.get_name(&b("beak")), None);
    assert_eq!(a.get_name(&b("eyes")), None);
}
