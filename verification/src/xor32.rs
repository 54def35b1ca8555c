//! The 32-bit XOR digest and two searches that it gives way to.
//!
//! The digest folds a byte string into four lanes: the byte at position `i`
//! is XORed into lane `i mod 4`. Bytes in one lane can change places without
//! changing the digest, and the last four bytes of a string can be chosen to
//! reach any digest.

use crate::wire::byte_of_word;
use vstd::prelude::*;
use vstd::utf8::valid_utf8;

verus! {

/// The number of bits by which the byte at `position` is shifted into its
/// lane.
pub open spec fn lane_shift(position: int) -> u32 {
    (8 * (position % 4)) as u32
}

/// What the byte at `position` adds to the digest.
pub open spec fn lane_term(byte: u8, position: int) -> u32 {
    (byte as u32) << lane_shift(position)
}

/// The XOR digest of a byte string.
pub open spec fn xor32_of(bytes: Seq<u8>) -> u32
    decreases bytes.len(),
{
    if bytes.len() == 0 {
        0
    } else {
        xor32_of(bytes.drop_last()) ^ lane_term(bytes.last(), bytes.len() - 1)
    }
}

/// The XOR digest of a byte string.
pub fn xor32(bytes: &[u8]) -> (r: u32)
    ensures
        r == xor32_of(bytes@),
{
    let mut h: u32 = 0;
    let mut i: usize = 0;
    while i < bytes.len()
        invariant
            i <= bytes.len(),
            h == xor32_of(bytes@.take(i as int)),
        decreases bytes.len() - i,
    {
        proof {
            assert(bytes@.take(i + 1).drop_last() =~= bytes@.take(i as int));
        }
        let shift: u32 = ((i % 4) * 8) as u32;
        h = h ^ ((bytes[i] as u32) << shift);
        i += 1;
    }
    assert(bytes@.take(i as int) =~= bytes@);
    h
}

/// Replacing one byte changes the digest by the terms of the old and the new
/// byte.
pub proof fn lemma_xor32_update(bytes: Seq<u8>, i: int, byte: u8)
    requires
        0 <= i < bytes.len(),
    ensures
        xor32_of(bytes.update(i, byte)) == xor32_of(bytes) ^ lane_term(bytes[i], i) ^ lane_term(
            byte,
            i,
        ),
    decreases bytes.len(),
{
    let changed = bytes.update(i, byte);
    let front = xor32_of(bytes.drop_last());
    let gone = lane_term(bytes[i], i);
    let come = lane_term(byte, i);
    if i == bytes.len() - 1 {
        assert(changed.drop_last() =~= bytes.drop_last());
        assert(front ^ come == (front ^ gone) ^ gone ^ come) by (bit_vector);
    } else {
        let last = lane_term(bytes.last(), bytes.len() - 1);
        assert(changed.drop_last() =~= bytes.drop_last().update(i, byte));
        lemma_xor32_update(bytes.drop_last(), i, byte);
        assert((front ^ gone ^ come) ^ last == (front ^ last) ^ gone ^ come) by (bit_vector);
    }
}

/// Two bytes of one lane can change places without changing the digest.
pub proof fn lemma_xor32_swap(bytes: Seq<u8>, i: int, j: int)
    requires
        0 <= i < bytes.len(),
        0 <= j < bytes.len(),
        i % 4 == j % 4,
    ensures
        xor32_of(bytes.update(i, bytes[j]).update(j, bytes[i])) == xor32_of(bytes),
{
    let first = bytes.update(i, bytes[j]);
    lemma_xor32_update(bytes, i, bytes[j]);
    lemma_xor32_update(first, j, bytes[i]);
    let whole = xor32_of(bytes);
    let a = lane_term(bytes[i], i);
    let b = lane_term(bytes[j], i);
    assert(first[j] == bytes[j]);
    assert(lane_term(bytes[j], j) == b);
    assert(lane_term(bytes[i], j) == a);
    assert((whole ^ a ^ b) ^ b ^ a == whole) by (bit_vector);
}

/// The byte string with the bytes at `i` and `i + 4` exchanged where `on`.
pub open spec fn swap_if(bytes: Seq<u8>, on: bool, i: int) -> Seq<u8> {
    if on {
        bytes.update(i, bytes[i + 4]).update(i + 4, bytes[i])
    } else {
        bytes
    }
}

/// The byte string with, for each of the four low bits of `mask` that is
/// set, the bytes at the bit's position and four places on exchanged.
pub open spec fn swapped(bytes: Seq<u8>, mask: int) -> Seq<u8> {
    swap_if(
        swap_if(
            swap_if(swap_if(bytes, mask % 2 == 1, 0), (mask / 2) % 2 == 1, 1),
            (mask / 4) % 2 == 1,
            2,
        ),
        (mask / 8) % 2 == 1,
        3,
    )
}

/// Whether the exchanges of `mask` leave a string with the digest of
/// `bytes`.
pub open spec fn mask_collides(bytes: Seq<u8>, mask: int) -> bool {
    valid_utf8(swapped(bytes, mask)) && xor32_of(swapped(bytes, mask)) == xor32_of(bytes)
}

/// The least mask from 1 below `limit` whose exchanges collide.
pub open spec fn first_mask(bytes: Seq<u8>, limit: nat) -> Option<int>
    decreases limit,
{
    if limit <= 1 {
        None
    } else {
        match first_mask(bytes, (limit - 1) as nat) {
            Some(m) => Some(m),
            None => if mask_collides(bytes, limit - 1) {
                Some(limit - 1)
            } else {
                None
            },
        }
    }
}

/// `std::str::from_utf8` of std, asked only whether it succeeds: by its
/// documentation it fails exactly on bytes that are not valid UTF-8.
#[verifier::external_body]
fn is_utf8(bytes: &[u8]) -> (ok: bool)
    ensures
        ok == valid_utf8(bytes@),
{
    std::str::from_utf8(bytes).is_ok()
}

fn exchange(bytes: &mut Vec<u8>, on: bool, i: usize)
    requires
        i < 4,
        old(bytes)@.len() >= 8,
    ensures
        final(bytes)@ == swap_if(old(bytes)@, on, i as int),
{
    if on {
        let low: u8 = bytes[i];
        let high: u8 = bytes[i + 4];
        bytes[i] = high;
        bytes[i + 4] = low;
    }
}

/// A string with the digest of `word`, made by exchanging bytes four places
/// apart: the exchanges of the least mask from 1 to 15 that leave valid UTF-8
/// with the same digest; `None` where no mask does.
pub fn swap_collision(word: &[u8]) -> (found: Option<Vec<u8>>)
    requires
        word@.len() >= 8,
    ensures
        match first_mask(word@, 16) {
            Some(m) => found matches Some(bytes) && bytes@ == swapped(word@, m),
            None => found is None,
        },
{
    let target: u32 = xor32(word);
    let mut mask: u8 = 1;
    while mask < 16
        invariant
            1 <= mask <= 16,
            word@.len() >= 8,
            target == xor32_of(word@),
            first_mask(word@, mask as nat) is None,
        decreases 16 - mask,
    {
        let mut bytes: Vec<u8> = Vec::new();
        let mut k: usize = 0;
        while k < word.len()
            invariant
                k <= word.len(),
                bytes@ == word@.take(k as int),
            decreases word.len() - k,
        {
            bytes.push(word[k]);
            assert(word@.take(k + 1) =~= word@.take(k as int).push(word@[k as int]));
            k += 1;
        }
        assert(word@.take(k as int) =~= word@);
        exchange(&mut bytes, mask % 2 == 1, 0);
        exchange(&mut bytes, (mask / 2) % 2 == 1, 1);
        exchange(&mut bytes, (mask / 4) % 2 == 1, 2);
        exchange(&mut bytes, (mask / 8) % 2 == 1, 3);
        if is_utf8(bytes.as_slice()) && xor32(bytes.as_slice()) == target {
            proof {
                lemma_mask_found(word@, mask as int, 16);
            }
            return Some(bytes);
        }
        mask += 1;
    }
    None
}

proof fn lemma_mask_found(bytes: Seq<u8>, mask: int, limit: nat)
    requires
        1 <= mask < limit,
        first_mask(bytes, mask as nat) is None,
        mask_collides(bytes, mask),
    ensures
        first_mask(bytes, limit) == Some(mask),
    decreases limit,
{
    if limit > mask + 1 {
        lemma_mask_found(bytes, mask, (limit - 1) as nat);
    }
}

/// Whether a byte is a printable ASCII character other than the space.
pub open spec fn printable(byte: u8) -> bool {
    33 <= byte < 127
}

/// The number of strings that the search for a printable preimage tries.
pub const PRINTABLE_TRIES: u64 = 727_354_081_250;

/// Byte `k` of the front of try number `n`. The front has eight bytes: six
/// that count through the printable characters, the first of them without the
/// space, in the order of the dictionary, and two spaces.
pub open spec fn front_byte(n: int, k: int) -> u8 {
    if k == 0 {
        (33 + n / 7_737_809_375) as u8
    } else if k == 1 {
        (32 + (n / 81_450_625) % 95) as u8
    } else if k == 2 {
        (32 + (n / 857_375) % 95) as u8
    } else if k == 3 {
        (32 + (n / 9_025) % 95) as u8
    } else if k == 4 {
        (32 + (n / 95) % 95) as u8
    } else if k == 5 {
        (32 + n % 95) as u8
    } else {
        32
    }
}

/// Byte `k` of the tail of try number `n`: the byte that brings lane `k` of
/// the digest to the target.
pub open spec fn tail_byte(n: int, target: u32, k: int) -> u8 {
    front_byte(n, k) ^ front_byte(n, k + 4) ^ byte_of_word(target, k)
}

/// The twelve bytes of try number `n`: the front, then the tail.
pub open spec fn try_text(n: int, target: u32) -> Seq<u8> {
    Seq::new(
        12,
        |i: int|
            if i < 8 {
                front_byte(n, i)
            } else {
                tail_byte(n, target, i - 8)
            },
    )
}

/// Whether try number `n` is a preimage of the target with a printable tail.
pub open spec fn try_fits(n: int, target: u32) -> bool {
    &&& printable(tail_byte(n, target, 0))
    &&& printable(tail_byte(n, target, 1))
    &&& printable(tail_byte(n, target, 2))
    &&& printable(tail_byte(n, target, 3))
    &&& xor32_of(try_text(n, target)) == target
}

/// The least try below `limit` that fits.
pub open spec fn first_fit(target: u32, limit: nat) -> Option<int>
    decreases limit,
{
    if limit == 0 {
        None
    } else {
        match first_fit(target, (limit - 1) as nat) {
            Some(n) => Some(n),
            None => if try_fits(limit - 1, target) {
                Some(limit - 1)
            } else {
                None
            },
        }
    }
}

/// A string of twelve printable characters with the given digest: the first
/// try, in the order of the dictionary of the fronts, whose tail is printable
/// and whose digest is the target; `None` where no try fits.
pub fn printable_preimage(target: u32) -> (found: Option<Vec<u8>>)
    ensures
        match first_fit(target, PRINTABLE_TRIES as nat) {
            Some(n) => found matches Some(bytes) && bytes@ == try_text(n, target),
            None => found is None,
        },
{
    let t0: u8 = (target % 256) as u8;
    let t1: u8 = ((target / 256) % 256) as u8;
    let t2: u8 = ((target / 65_536) % 256) as u8;
    let t3: u8 = ((target / 16_777_216) % 256) as u8;
    let mut n: u64 = 0;
    while n < PRINTABLE_TRIES
        invariant
            n <= PRINTABLE_TRIES,
            t0 == byte_of_word(target, 0),
            t1 == byte_of_word(target, 1),
            t2 == byte_of_word(target, 2),
            t3 == byte_of_word(target, 3),
            first_fit(target, n as nat) is None,
        decreases PRINTABLE_TRIES - n,
    {
        let b0: u8 = (33 + n / 7_737_809_375) as u8;
        let b1: u8 = (32 + (n / 81_450_625) % 95) as u8;
        let b2: u8 = (32 + (n / 857_375) % 95) as u8;
        let b3: u8 = (32 + (n / 9_025) % 95) as u8;
        let b4: u8 = (32 + (n / 95) % 95) as u8;
        let b5: u8 = (32 + n % 95) as u8;
        let e0: u8 = b0 ^ b4 ^ t0;
        let e1: u8 = b1 ^ b5 ^ t1;
        let e2: u8 = b2 ^ 32u8 ^ t2;
        let e3: u8 = b3 ^ 32u8 ^ t3;
        if 33 <= e0 && e0 < 127 && 33 <= e1 && e1 < 127 && 33 <= e2 && e2 < 127 && 33 <= e3 && e3
            < 127 {
            let mut bytes: Vec<u8> = Vec::new();
            bytes.push(b0);
            bytes.push(b1);
            bytes.push(b2);
            bytes.push(b3);
            bytes.push(b4);
            bytes.push(b5);
            bytes.push(32);
            bytes.push(32);
            bytes.push(e0);
            bytes.push(e1);
            bytes.push(e2);
            bytes.push(e3);
            assert(bytes@ =~= try_text(n as int, target));
            if xor32(bytes.as_slice()) == target {
                proof {
                    lemma_fit_found(target, n as int, PRINTABLE_TRIES as nat);
                }
                return Some(bytes);
            }
        }
        n += 1;
    }
    None
}

proof fn lemma_fit_found(target: u32, n: int, limit: nat)
    requires
        0 <= n < limit,
        first_fit(target, n as nat) is None,
        try_fits(n, target),
    ensures
        first_fit(target, limit) == Some(n),
    decreases limit,
{
    if limit > n + 1 {
        lemma_fit_found(target, n, (limit - 1) as nat);
    }
}

} // verus!
