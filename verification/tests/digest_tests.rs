use preimage_search::digest::{digest, hash, hash_step, kernel_digest, simple_hash};

#[test]
fn digest_of_empty_is_zero() {
    assert_eq!(digest(b""), 0);
    assert_eq!(simple_hash(""), 0);
    assert_eq!(hash(b""), 0);
    assert_eq!(kernel_digest(&[]), 0);
}

#[test]
fn digest_known_values() {
    assert_eq!(simple_hash("A"), 65);
    assert_eq!(simple_hash("AB"), 2081);
    assert_eq!(simple_hash("Cindy"), 0x03e1_8b3d);
    assert_eq!(digest(b"aISKPMAA"), 0x03e1_8b3d);
}

#[test]
fn hash_step_is_times_31_plus_code() {
    assert_eq!(hash_step(0, 65), 65);
    assert_eq!(hash_step(65, 66), 2081);
    assert_eq!(hash_step(1, 0), 31);
}

#[test]
fn hash_step_wraps_at_32_bits() {
    // 31 * (2^32 - 1) + 5 = 31 * 2^32 - 26, which is 2^32 - 26 modulo 2^32.
    assert_eq!(hash_step(u32::MAX, 5), 0xffff_ffe6);
    assert_eq!(hash_step(0x8000_0000, 0), 0x8000_0000);
    assert_eq!(hash_step(0, u32::MAX), u32::MAX);
}

#[test]
fn wide_hash_agrees_with_digest_when_the_state_overflows() {
    let long: Vec<u8> = (0..200u32).map(|i| (i * 7 + 3) as u8).collect();
    assert_eq!(hash(&long), digest(&long));
    assert_eq!(hash(b"zzzzzzzzzzzzzzzzzzzzzzzzzzzz"), digest(b"zzzzzzzzzzzzzzzzzzzzzzzzzzzz"));
}

#[test]
fn kernel_and_host_agree_on_ten_thousand_candidates() {
    let alphabet = b"ABCDEFGHIJKLMNOPQRSTUVWXYZabcdefghijklmnopqrstuvwxyz0123456789";
    let mut state: u64 = 0x9e37_79b9_7f4a_7c15;
    for _ in 0..10_000 {
        let mut bytes = [0u8; 8];
        for slot in bytes.iter_mut() {
            state = state
                .wrapping_mul(6364136223846793005)
                .wrapping_add(1442695040888963407);
            *slot = alphabet[((state >> 33) % 62) as usize];
        }
        let codes: Vec<u32> = bytes.iter().map(|b| *b as u32).collect();
        let text = String::from_utf8(bytes.to_vec()).unwrap();
        let host = simple_hash(&text);
        assert_eq!(kernel_digest(&codes), host);
        assert_eq!(digest(&bytes), host);
        assert_eq!(hash(&bytes), host);
    }
}
