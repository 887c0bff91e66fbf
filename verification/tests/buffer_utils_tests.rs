use customize_nft::structs::utils::{hex_to_u64, remove_first_and_last_char, remove_first_char, split_buffer, split_last_occurence};
use customize_nft::utils::managed_buffer_utils::ManagedBufferUtils;
use std::cmp::Ordering;

fn b(s: &str) -> Vec<u8> {
    s.as_bytes().to_vec()
}

#[test]
fn compare_orders_alphabetically() {
    assert_eq!(b("a").compare(&b("b")), Ordering::Less);
    assert_eq!(b("b").compare(&b("a")), Ordering::Greater);
    assert_eq!(b("hat").compare(&b("hat")), Ordering::Equal);
    assert_eq!(b("ha").compare(&b("hat")), Ordering::Less);
}

#[test]
fn lowercase_tests_and_last_char() {
    assert!(b("hat").is_lowercase());
    assert!(!b("Hat").is_lowercase());
    assert!(b("hat").contains_char(b'a'));
    assert!(!b("hat").contains_char(b';'));
    assert_eq!(b("hat").get_last_char(), b't');
}

#[test]
fn load_512_bytes_pads_with_zeros() {
    let bytes = b("ab").load_512_bytes();
    assert_eq!(bytes.len(), 512);
    assert_eq!(&bytes[..3], &[b'a', b'b', 0]);
}

#[test]
fn split_buffer_keeps_an_empty_segment_for_an_empty_buffer() {
    assert_eq!(split_buffer(&b(""), b':'), vec![b("")]);
    assert_eq!(split_buffer(&b("a:b"), b':'), vec![b("a"), b("b")]);
    assert_eq!(split_buffer(&vec![b'x'; 256], b':'), Vec::<Vec<u8>>::new());
}

#[test]
fn small_buffer_helpers() {
    let (first, second) = split_last_occurence(&b("a:b:c"), b':');
    assert_eq!(first, b("a:b"));
    assert_eq!(second, b("c"));
    assert_eq!(remove_first_char(&b("xyz")), b("yz"));
    assert_eq!(remove_first_and_last_char(&b("xyz")), b("y"));
    assert_eq!(hex_to_u64(&b("1f")), Some(31));
    assert_eq!(hex_to_u64(&b("1g")), None);
}
