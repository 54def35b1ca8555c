use preimage_search::space::{map62, SearchSpace, SpaceError};

const BASE62: &[u8] = b"ABCDEFGHIJKLMNOPQRSTUVWXYZabcdefghijklmnopqrstuvwxyz0123456789";

#[test]
fn map62_is_the_standard_alphabet() {
    for x in 0..62u32 {
        assert_eq!(map62(x), BASE62[x as usize] as u32);
    }
    assert_eq!(map62(0), 65);
    assert_eq!(map62(25), 90);
    assert_eq!(map62(26), 97);
    assert_eq!(map62(51), 122);
    assert_eq!(map62(52), 48);
    assert_eq!(map62(61), 57);
}

#[test]
fn base62_space() {
    let space = SearchSpace::base62();
    assert_eq!(space.radix(), 62);
    assert_eq!(space.length(), 8);
    assert_eq!(space.total(), 218_340_105_584_896);
    assert_eq!(space.alphabet(), BASE62);
}

#[test]
fn new_space_sizes() {
    let hex = SearchSpace::new(b"0123456789abcdef".to_vec(), 1).unwrap();
    assert_eq!((hex.radix(), hex.length(), hex.total()), (16, 1, 16));
    let bits = SearchSpace::new(b"01".to_vec(), 127).unwrap();
    assert_eq!(bits.total(), 1u128 << 127);
    let same = SearchSpace::new(BASE62.to_vec(), 8).unwrap();
    assert_eq!(same.total(), SearchSpace::base62().total());
}

#[test]
fn new_space_faults() {
    let fault = |alphabet: &[u8], length: usize| SearchSpace::new(alphabet.to_vec(), length).err();
    assert_eq!(fault(b"", 3), Some(SpaceError::TooFewSymbols));
    assert_eq!(fault(b"a", 3), Some(SpaceError::TooFewSymbols));
    assert_eq!(fault(&[7u8; 129], 3), Some(SpaceError::TooManySymbols));
    assert_eq!(fault(b"ab", 0), Some(SpaceError::ZeroLength));
    assert_eq!(fault(&[b'a', 0x80], 3), Some(SpaceError::NotAscii));
    assert_eq!(fault(b"abca", 3), Some(SpaceError::RepeatedSymbol));
    assert_eq!(fault(b"01", 128), Some(SpaceError::TooLarge));
    assert_eq!(fault(BASE62, 22), Some(SpaceError::TooLarge));
    assert_eq!(fault(BASE62, 21), None);
}

#[test]
fn faults_are_reported_in_order() {
    let fault = |alphabet: &[u8], length: usize| SearchSpace::new(alphabet.to_vec(), length).err();
    assert_eq!(fault(b"a", 0), Some(SpaceError::TooFewSymbols));
    assert_eq!(fault(&[0x80, 0x80], 0), Some(SpaceError::ZeroLength));
    assert_eq!(fault(&[0x80, 0x80], 1), Some(SpaceError::NotAscii));
    assert_eq!(fault(b"aa", 200), Some(SpaceError::RepeatedSymbol));
}

#[test]
fn all_of_ascii_is_an_alphabet() {
    let all: Vec<u8> = (0..128u8).collect();
    let space = SearchSpace::new(all, 2).unwrap();
    assert_eq!(space.total(), 16_384);
    assert_eq!(space.candidate_bytes(65 + 128 * 66), vec![65, 66]);
}

#[test]
fn spell_maps_digit_to_symbol_in_place() {
    let space = SearchSpace::base62();
    assert_eq!(space.spell(&[26, 8, 18, 10, 15, 12, 0, 0]), Some(b"aISKPMAA".to_vec()));
    assert_eq!(space.spell_string(&[0, 25, 26, 51, 52, 61, 0, 0]), Some("AZaz09AA".to_string()));
}

#[test]
fn spell_refuses_what_is_no_digit_vector() {
    let space = SearchSpace::new(b"xyz".to_vec(), 2).unwrap();
    assert!(space.accepts(&[2, 0]));
    assert!(!space.accepts(&[3, 0]));
    assert!(!space.accepts(&[0]));
    assert!(!space.accepts(&[0, 0, 0]));
    assert_eq!(space.spell(&[2, 1]), Some(b"zy".to_vec()));
    assert_eq!(space.spell(&[0, 3]), None);
    assert_eq!(space.spell(&[0]), None);
    assert_eq!(space.spell_string(&[1, 1, 1]), None);
    assert_eq!(space.spell_string(&[1, 2]), Some("yz".to_string()));
}

#[test]
fn candidates_in_index_order() {
    let space = SearchSpace::new(b"ab".to_vec(), 2).unwrap();
    assert_eq!(space.candidate_bytes(0), b"aa".to_vec());
    assert_eq!(space.candidate_bytes(1), b"ba".to_vec());
    assert_eq!(space.candidate_bytes(2), b"ab".to_vec());
    assert_eq!(space.candidate_bytes(3), b"bb".to_vec());
    // Past the end the index wraps.
    assert_eq!(space.candidate_bytes(4), b"aa".to_vec());
    assert_eq!(space.candidate_bytes(7), b"bb".to_vec());
}
