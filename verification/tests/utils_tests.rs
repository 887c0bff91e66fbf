use customize_nft::utils::big_uint::be_to_u128_saturating;
use customize_nft::utils::managed_vec_utils::SortUtils;
use customize_nft::utils::{extract_number_from_equippable_name, ManagedBufferUtils, UtilsU64};

fn b(s: &str) -> Vec<u8> {
    s.as_bytes().to_vec()
}

#[test]
fn to_hex_pads_to_even_length() {
    assert_eq!(255u64.to_hex(), b("ff"));
    assert_eq!(15u64.to_hex(), b("0f"));
    assert_eq!(256u64.to_hex(), b("0100"));
    assert_eq!(4096u64.to_hex(), b("1000"));
}

#[test]
fn to_hex_of_zero_is_two_zeros() {
    assert_eq!(0u64.to_hex(), b("00"));
}

#[test]
fn to_ascii_writes_decimal_digits() {
    assert_eq!(0u64.to_ascii(), b("0"));
    assert_eq!(1234u64.to_ascii(), b("1234"));
    assert_eq!(u64::MAX.to_ascii(), b("18446744073709551615"));
}

#[test]
fn hex_to_u64_reads_base_16() {
    assert_eq!(b("ff").hex_to_u64(), Some(255));
    assert_eq!(b("1F").hex_to_u64(), Some(31));
    assert_eq!(b("").hex_to_u64(), Some(0));
    assert_eq!(b("fg").hex_to_u64(), None);
}

#[test]
fn hex_to_u64_reads_what_to_hex_writes() {
    for n in [0u64, 1, 15, 16, 255, 4096, 123456789, u64::MAX] {
        assert_eq!(n.to_hex().hex_to_u64(), Some(n));
    }
}

#[test]
fn ascii_to_u64_reads_what_to_ascii_writes() {
    for n in [0u64, 7, 10, 1234, 99999999999] {
        assert_eq!(n.to_ascii().ascii_to_u64(), Some(n));
    }
    assert_eq!(b("1a").ascii_to_u64(), Some(20));
    assert_eq!(b("1z").ascii_to_u64(), None);
}

#[test]
fn split_cuts_at_each_separator() {
    assert_eq!(b("a;b;c").split(b';'), vec![b("a"), b("b"), b("c")]);
    assert_eq!(b("a;").split(b';'), vec![b("a"), b("")]);
    assert_eq!(b("").split(b';'), Vec::<Vec<u8>>::new());
}

#[test]
fn split_of_a_full_buffer_loses_its_last_segment() {
    let mut v = vec![b'x'; 511];
    v.push(b';');
    assert_eq!(v.split(b';'), vec![vec![b'x'; 511]]);
    let w = vec![b'y'; 512];
    assert_eq!(w.split(b';'), Vec::<Vec<u8>>::new());
}

#[test]
fn split_last_occurence_splits_around_the_last_separator() {
    let (first, second) = b("Equippable #1#2").split_last_occurence(b'#');
    assert_eq!(first, b("Equippable #1"));
    assert_eq!(second, b("2"));
}

#[test]
fn remove_first_chars() {
    assert_eq!(b("abc").remove_first_char(), b("bc"));
    assert_eq!(b("[abc]").remove_first_and_last_char(), b("abc"));
}

#[test]
fn capitalize_and_case_tests() {
    assert_eq!(b("hat").capitalize(), b("Hat"));
    assert_eq!(b("1hat").capitalize(), b("1hat"));
    assert!(b("HaT").equals_ignore_case(&b("hat")));
    assert!(!b("hat").equals_ignore_case(&b("hats")));
    assert_eq!(b("HAT-a1").to_lowercase(), b("hat-a1"));
}

#[test]
fn append_trailing_character_if_missing_adds_once() {
    assert_eq!(b("https://x").append_trailing_character_if_missing(b'/'), b("https://x/"));
    assert_eq!(b("https://x/").append_trailing_character_if_missing(b'/'), b("https://x/"));
}

#[test]
fn replace_and_contains() {
    assert_eq!(b("Penguin #{number}").replace(b"{number}", &b("10")), b("Penguin #10"));
    assert_eq!(b("{number}-{number}").replace(b"{number}", &b("7")), b("7-7"));
    assert!(b("abc").contains(b"bc"));
    assert!(!b("abc").contains(b"cb"));
}

#[test]
fn extract_number_reads_after_the_last_hash() {
    assert_eq!(extract_number_from_equippable_name(&b("Equippable #12")), Some(12));
    assert_eq!(extract_number_from_equippable_name(&b("Equippable #a")), Some(10));
}

#[test]
fn big_endian_amounts() {
    assert_eq!(be_to_u128_saturating(&vec![]), 0);
    assert_eq!(be_to_u128_saturating(&vec![1]), 1);
    assert_eq!(be_to_u128_saturating(&vec![0, 1]), 1);
    assert_eq!(be_to_u128_saturating(&vec![0x03, 0x8d, 0x7e, 0xa4, 0xc6, 0x80, 0x00]), 1_000_000_000_000_000);
    assert_eq!(be_to_u128_saturating(&vec![0xff; 17]), u128::MAX);
    assert_eq!(be_to_u128_saturating(&vec![0xff; 16]), u128::MAX);
}

#[test]
fn buffers_sort_alphabetically() {
    let v = vec![b("hat"), b("background"), b("beak"), b("hat")];
    assert_eq!(v.sort_alphabetically(), vec![b("background"), b("beak"), b("hat"), b("hat")]);
}

#[test]
fn buffers_equal_after_padding_keep_their_copies() {
    let v = vec![b("a\0"), b("a"), b("a\0")];
    let sorted = v.sort_alphabetically();
    assert_eq!(sorted.len(), 3);
    let mut a = 0;
    let mut a0 = 0;
    for x in &sorted {
        if *x == b("a") {
            a += 1;
        }
        if *x == b("a\0") {
            a0 += 1;
        }
    }
    assert_eq!((a, a0), (1, 2));
}
