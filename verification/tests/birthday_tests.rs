use preimage_search::birthday::{birthday_collision, word, MULTIPLIER, SYMBOLS};
use preimage_search::digest::hash;

#[test]
fn symbol_table() {
    let expected: &[u8] = b"0123456789ABCDEFGHIJKLMNOPQRSTUVWXYZabcdefghijklmnopqrstuvwxyz!@#$%^&*()-_+=[]{}\\|;:'\",.<>?/ ";
    assert_eq!(SYMBOLS.len(), 93);
    assert_eq!(&SYMBOLS[..], expected);
    assert_eq!(MULTIPLIER, 0x517cc1b727220a95);
}

#[test]
fn words_by_number() {
    assert_eq!(&word(1), b"Ow6+lES|");
    assert_eq!(&word(2), b"mOCt1Tv*");
    assert_eq!(&word(0), b"00000000");
    assert_eq!(&word(115_630), b"_C<L!/Si");
}

#[test]
fn first_collision_of_the_sequence() {
    let (late, early) = birthday_collision(1_000_000).unwrap();
    assert_eq!(&late, b"_C<L!/Si");
    assert_eq!(&early, b"YMsS8{3t");
    assert_ne!(late, early);
    assert_eq!(hash(&late), hash(&early));
    assert_eq!(hash(&late), 3_480_396_664);
}

#[test]
fn collision_sits_at_its_number() {
    assert_eq!(
        birthday_collision(115_630),
        Some((*b"_C<L!/Si", *b"YMsS8{3t"))
    );
    assert_eq!(birthday_collision(115_629), None);
    assert_eq!(birthday_collision(0), None);
    assert_eq!(birthday_collision(1), None);
}
