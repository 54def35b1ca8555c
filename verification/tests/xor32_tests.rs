use preimage_search::xor32::{printable_preimage, swap_collision, xor32};

#[test]
fn xor32_known_values() {
    assert_eq!(xor32(b""), 0);
    assert_eq!(xor32(b"a"), 0x61);
    assert_eq!(xor32(b"abcd"), 0x6463_6261);
    assert_eq!(xor32(b"abcde"), 1_684_234_756);
    assert_eq!(xor32(b"bitcoin0"), 0x531a_000d);
}

#[test]
fn halves_in_either_order_collide() {
    assert_eq!(xor32(b"aaaabbbb"), xor32(b"bbbbaaaa"));
    assert_eq!(xor32(b"aaaabbbb"), 50_529_027);
}

#[test]
fn bytes_of_one_lane_change_places() {
    let word = b"0123456789ab";
    for (i, j) in [(0usize, 4usize), (1, 9), (3, 11), (2, 6), (4, 8)] {
        let mut other = word.to_vec();
        other.swap(i, j);
        assert_eq!(xor32(&other), xor32(word));
    }
    let mut across = word.to_vec();
    across.swap(0, 1);
    assert_ne!(xor32(&across), xor32(word));
}

#[test]
fn first_swap_collides() {
    let found = swap_collision(b"bitcoin0").unwrap();
    assert_eq!(found, b"oitcbin0".to_vec());
    assert_eq!(xor32(&found), xor32(b"bitcoin0"));
}

#[test]
fn swap_leaves_longer_words_past_eight_alone() {
    assert_eq!(swap_collision(b"abcdefghXYZ"), Some(b"ebcdafghXYZ".to_vec()));
}

#[test]
fn swap_skips_what_is_no_utf8() {
    // A two-byte letter in front: the masks 1 and 2 tear it apart, mask 3 moves
    // both of its bytes.
    let word = "\u{e9}bcdefg".as_bytes();
    assert_eq!(word.len(), 8);
    let found = swap_collision(word).unwrap();
    assert_eq!(found, "debc\u{e9}fg".as_bytes().to_vec());
    assert_eq!(xor32(&found), xor32(word));
}

#[test]
fn swap_finds_nothing_in_what_stays_broken() {
    // The byte past the eighth is no UTF-8 and no exchange reaches it.
    assert_eq!(swap_collision(b"abcdefgh\xff"), None);
}

#[test]
fn printable_preimage_of_the_given_digest() {
    let found = printable_preimage(0x1b57_5451).unwrap();
    assert_eq!(found, b"!  @    PTW{".to_vec());
    assert_eq!(xor32(&found), 0x1b57_5451);
    assert_eq!(found.len(), 12);
}

#[test]
fn printable_preimage_close_to_the_start() {
    let found = printable_preimage(0x2121_2121).unwrap();
    assert_eq!(found, b"!   !   !!!!".to_vec());
    assert_eq!(xor32(&found), 0x2121_2121);
}
