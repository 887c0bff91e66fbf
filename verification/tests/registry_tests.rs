use customize_nft::libs::storage::ItemRegistry;
use customize_nft::structs::item::Item;
use customize_nft::structs::token::Token;
use customize_nft::utils::bidimapper_utils::ContainsUtils;

fn b(s: &str) -> Vec<u8> {
    s.as_bytes().to_vec()
}

fn item(name: &str, slot: &str) -> Item {
    Item { name: b(name), slot: b(slot) }
}

fn token(id: &str, nonce: u64) -> Token {
    Token::new(b(id), nonce)
}

#[test]
fn insert_then_find_both_ways() {
    let mut r = ItemRegistry::new();
    assert!(r.insert(item("Pirate Hat", "hat"), token("HAT-a1a1a1", 1)));
    assert!(r.has_item(&item("Pirate Hat", "hat")));
    assert!(r.has_token(&token("HAT-a1a1a1", 1)));
    assert!(r.contains_id(&item("Pirate Hat", "hat")));
    assert!(r.contains_value(&token("HAT-a1a1a1", 1)));
    assert!(r.get_token(&item("Pirate Hat", "hat")).unwrap() == token("HAT-a1a1a1", 1));
    assert!(r.get_item(&token("HAT-a1a1a1", 1)).unwrap() == item("Pirate Hat", "hat"));
    assert!(r.get_token(&item("Cowboy Hat", "hat")).is_none());
    assert!(r.get_value(&item("Cowboy Hat", "hat")) == Token::default());
    assert!(r.get_id(&token("HAT-a1a1a1", 2)) == Item::default());
}

#[test]
fn insert_refuses_a_registered_item_or_token() {
    let mut r = ItemRegistry::new();
    assert!(r.insert(item("Pirate Hat", "hat"), token("HAT-a1a1a1", 1)));
    assert!(!r.insert(item("Pirate Hat", "hat"), token("HAT-a1a1a1", 2)));
    assert!(!r.insert(item("Cowboy Hat", "hat"), token("HAT-a1a1a1", 1)));
    assert_eq!(r.len(), 1);
}

#[test]
fn removal_moves_the_last_pair_into_the_gap() {
    let mut r = ItemRegistry::new();
    r.insert(item("A", "hat"), token("T", 1));
    r.insert(item("B", "hat"), token("T", 2));
    r.insert(item("C", "hat"), token("T", 3));
    assert!(r.remove_by_id(&item("A", "hat")));
    let names: Vec<Vec<u8>> = r.entries().iter().map(|e| e.0.name.clone()).collect();
    assert_eq!(names, vec![b("C"), b("B")]);
    assert!(r.remove_by_value(&token("T", 2)));
    assert!(!r.remove_by_value(&token("T", 2)));
    assert!(!r.remove_by_id(&item("A", "hat")));
    assert_eq!(r.len(), 1);
}

#[test]
fn insert_or_replace_keeps_both_ways_in_step() {
    let mut r = ItemRegistry::new();
    r.insert(item("A", "hat"), token("T", 1));
    r.insert(item("B", "hat"), token("T", 2));
    r.insert_or_replace_item_token(item("A", "hat"), token("T", 2));
    assert_eq!(r.len(), 1);
    assert!(r.get_token(&item("A", "hat")).unwrap() == token("T", 2));
    assert!(r.get_item(&token("T", 2)).unwrap() == item("A", "hat"));
    assert!(!r.has_token(&token("T", 1)));
    assert!(!r.has_item(&item("B", "hat")));
}

#[test]
fn registry_from_entries_refuses_duplicates() {
    let ok = ItemRegistry::from_entries(vec![(item("A", "hat"), token("T", 1)), (item("B", "hat"), token("T", 2))]);
    assert_eq!(ok.unwrap().len(), 2);
    assert!(ItemRegistry::from_entries(vec![(item("A", "hat"), token("T", 1)), (item("A", "hat"), token("T", 2))]).is_none());
    assert!(ItemRegistry::from_entries(vec![(item("A", "hat"), token("T", 1)), (item("B", "hat"), token("T", 1))]).is_none());
    assert!(ItemRegistry::from_entries(vec![(item("unequipped", "hat"), token("T", 1))]).is_none());
    assert!(ItemRegistry::from_entries(vec![(item("A", "h;t"), token("T", 1))]).is_none());
}
