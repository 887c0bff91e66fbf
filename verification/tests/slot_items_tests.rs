use customize_nft::libs::url_builder::{build_thumbnail_url, UrlError};
use customize_nft::structs::item::Item;
use customize_nft::structs::penguin_attributes::PenguinAttributes;

fn b(s: &str) -> Vec<u8> {
    s.as_bytes().to_vec()
}

fn item(name: &str, slot: &str) -> Item {
    Item { name: b(name), slot: b(slot) }
}

#[test]
fn slot_items_set_get_and_empty() {
    let mut a = PenguinAttributes::empty();
    assert_eq!(a.get_count(), 0);
    assert!(a.is_slot_empty(&b("hat")));
    a.set_item(&b("hat"), Some(item("Pirate Hat", "hat")));
    a.set_item(&b("beak"), Some(item("Gold", "beak")));
    assert_eq!(a.get_count(), 2);
    assert!(a.get_item(&b("hat")).unwrap() == item("Pirate Hat", "hat"));
    a.empty_slot(&b("hat"));
    assert!(a.is_slot_empty(&b("hat")));
    assert_eq!(a.get_count(), 1);
    a.empty_slot(&b("hat"));
    assert_eq!(a.get_count(), 1);
    a.set_item(&b("hat"), None);
    assert_eq!(a.get_count(), 1);
}

#[test]
fn slot_items_new() {
    let a = PenguinAttributes::new(&vec![(b("hat"), item("H", "hat")), (b("eyes"), item("E", "eyes"))]);
    assert_eq!(a.get_count(), 2);
    assert!(a.get_item(&b("eyes")).unwrap() == item("E", "eyes"));
    assert!(a.get_item(&b("skin")).is_none());
}

#[test]
fn thumbnail_url_needs_a_cid() {
    assert_eq!(build_thumbnail_url(&b("https://ipfs.io/ipfs/"), &b("Qm1")), Ok(b("https://ipfs.io/ipfs/Qm1")));
    assert_eq!(build_thumbnail_url(&b("https://ipfs.io/ipfs/"), &b("")), Err(UrlError::NoCidUrl));
}
