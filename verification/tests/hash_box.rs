use rust_crawler::index::hash::{FileHasher, HashBox};

fn bits(ks: &[u32]) -> u128 {
    let mut r: u128 = 0;
    for k in ks {
        r |= 1u128 << k;
    }
    r
}

#[test]
fn new_box_has_pointer_and_no_bits() {
    let b = HashBox::new(7);
    assert_eq!(b.get_ptr(), 7);
    assert_eq!(
        format!("{:?}", b),
        "HashBox { mem_pointer: 7, words_hash: 0, starts_with_hash: 0, ends_with_hash: 0 }"
    );
}

#[test]
fn box_covers_thirty_two_words() {
    assert_eq!(HashBox::size(), 32);
}

#[test]
fn add_hash_sets_the_signature_bits() {
    // "abcd": 4 bytes, code points xor to 4, bytes 97 98 99 100.
    let mut b = HashBox::new(0);
    b.add_hash("abcd");
    let words = bits(&[96 + 4, 112 + 4, 64 + (97 * 17) % 32, (98 * 19) % 32, 32 + 100 % 32]);
    let leading = bits(&[96 + 97 % 32, 64 + 98 % 32, 32 + 99 % 32, 100 % 32]);
    assert_eq!(
        format!("{:?}", b),
        format!(
            "HashBox {{ mem_pointer: 0, words_hash: {}, starts_with_hash: {}, ends_with_hash: {} }}",
            words, leading, leading
        )
    );
}

#[test]
fn added_word_is_held_by_the_box() {
    let mut b = HashBox::new(0);
    b.add_hash("crawler");
    assert!(b.match_hashes("crawler"));
    assert!(b.match_starts_with("crawler"));
    assert!(b.match_ends_with("crawler"));
}

#[test]
fn adding_more_words_keeps_earlier_ones() {
    let mut b = HashBox::new(0);
    b.add_hash("alpha");
    b.add_hash("bravo");
    b.add_hash("charlie");
    assert!(b.match_hashes("alpha"));
    assert!(b.match_hashes("bravo"));
    assert!(b.match_hashes("charlie"));
}

#[test]
fn adding_words_in_either_order_gives_the_same_box() {
    let mut a = HashBox::new(3);
    a.add_hash("house");
    a.add_hash("river");
    let mut b = HashBox::new(3);
    b.add_hash("river");
    b.add_hash("house");
    assert_eq!(format!("{:?}", a), format!("{:?}", b));
}

#[test]
fn adding_a_word_twice_changes_nothing() {
    let mut a = HashBox::new(0);
    a.add_hash("house");
    let once = format!("{:?}", a);
    a.add_hash("house");
    assert_eq!(format!("{:?}", a), once);
}

#[test]
fn fresh_box_holds_no_word() {
    let b = HashBox::new(0);
    assert!(!b.match_hashes("word"));
    assert!(!b.match_starts_with("word"));
    assert!(!b.match_ends_with("word"));
}

#[test]
fn prefix_check_tests_the_same_bits_as_suffix_check() {
    let mut b = HashBox::new(0);
    b.add_hash("abcdef");
    for probe in ["abcd", "abcz", "zbcd", "bcde", "cdef"] {
        assert_eq!(b.match_starts_with(probe), b.match_ends_with(probe));
    }
    // The suffix check looks at the first four bytes, so a true suffix fails it.
    assert!(!b.match_ends_with("cdef"));
    assert!(b.match_ends_with("abcd"));
}

#[test]
fn word_with_other_leading_bytes_is_rejected() {
    let mut b = HashBox::new(0);
    b.add_hash("aaaa");
    assert!(!b.match_hashes("zzzz"));
    assert!(!b.match_starts_with("zzzz"));
}

#[test]
fn new_file_hasher_is_empty() {
    let h = FileHasher::new();
    assert_eq!(h.len(), 0);
}

#[test]
fn adding_pages_under_new_keys_appends_them() {
    let mut h = FileHasher::new();
    h.add(vec![HashBox::new(0)], "first.txt");
    h.add(vec![HashBox::new(0)], "second.txt");
    assert_eq!(h.len(), 2);
    assert_eq!(h.key(0), "first.txt");
    assert_eq!(h.key(1), "second.txt");
}

#[test]
fn adding_a_page_under_a_known_key_replaces_it() {
    let mut h = FileHasher::new();
    let mut b = HashBox::new(0);
    b.add_hash("house");
    h.add(vec![HashBox::new(0)], "page.txt");
    h.add(vec![HashBox::new(0)], "other.txt");
    h.add(vec![b], "page.txt");
    assert_eq!(h.len(), 2);
    assert_eq!(h.key(0), "page.txt");
    let q = rust_crawler::index::lexem::parse_to_lexem("equals house\n").unwrap();
    assert_eq!(h.look_out_candidates(&q), vec![0]);
}

#[test]
fn candidates_come_once_each_in_order() {
    let mut h = FileHasher::new();
    for key in ["one.txt", "two.txt", "three.txt", "two.txt"] {
        let mut b = HashBox::new(0);
        b.add_hash("house");
        h.add(vec![b], key);
    }
    assert_eq!(h.len(), 3);
    let q = rust_crawler::index::lexem::parse_to_lexem("equals house\n").unwrap();
    assert_eq!(h.look_out_candidates(&q), vec![0, 1, 2]);
}
