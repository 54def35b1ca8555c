//! The 32-bit polynomial digest that the search inverts.
//!
//! The digest of a byte string starts at zero and takes one round per byte:
//! `h <- 31 * h + byte`, reduced modulo 2^32. The host computes it with
//! wrapping 32-bit operations, the parallel kernel with a shift, a mask, a
//! subtraction and an addition, and a third variant runs in 64 bits and
//! truncates at the end. All three are proved to compute the same function.

use vstd::prelude::*;
use vstd::string::StringSliceAdditionalSpecFns;

verus! {

/// One round of the digest: `31 * h + c`, reduced modulo 2^32.
pub open spec fn digest_step(h: u32, c: u32) -> u32 {
    ((31 * (h as int) + (c as int)) % 0x1_0000_0000) as u32
}

/// The digest of a sequence of character codes, read front to back.
pub open spec fn digest_of_codes(codes: Seq<u32>) -> u32
    decreases codes.len(),
{
    if codes.len() == 0 {
        0
    } else {
        digest_step(digest_of_codes(codes.drop_last()), codes.last())
    }
}

/// The character codes of a byte string: each byte widened to 32 bits.
pub open spec fn codes_of(bytes: Seq<u8>) -> Seq<u32> {
    Seq::new(bytes.len(), |i: int| bytes[i] as u32)
}

/// The digest of a byte string.
pub open spec fn digest_of(bytes: Seq<u8>) -> u32 {
    digest_of_codes(codes_of(bytes))
}

/// A left shift by five multiplies by 32, modulo 2^32.
proof fn lemma_shl5_u32(h: u32)
    ensures
        (h << 5u32) == ((32 * (h as int)) % 0x1_0000_0000) as u32,
{
    assert((h << 5u32) == ((32 * (h as int)) % 0x1_0000_0000) as u32) by (bit_vector);
}

/// One round of the digest as the parallel kernel computes it: a left shift by
/// five masked to 32 bits, a subtraction and an addition, all wrapping.
pub fn hash_step(h: u32, c: u32) -> (r: u32)
    ensures
        r == digest_step(h, c),
{
    let shifted: u32 = (h << 5u32) & 0xffff_ffffu32;
    proof {
        lemma_shl5_u32(h);
        assert(((h << 5u32) & 0xffff_ffffu32) == (h << 5u32)) by (bit_vector);
    }
    shifted.wrapping_sub(h).wrapping_add(c)
}

/// The digest of a byte string, as the host computes it.
pub fn digest(bytes: &[u8]) -> (r: u32)
    ensures
        r == digest_of(bytes@),
{
    let mut h: u32 = 0;
    let mut i: usize = 0;
    while i < bytes.len()
        invariant
            i <= bytes.len(),
            h == digest_of_codes(codes_of(bytes@).take(i as int)),
        decreases bytes.len() - i,
    {
        proof {
            lemma_shl5_u32(h);
            assert(codes_of(bytes@).take(i + 1).drop_last() =~= codes_of(bytes@).take(i as int));
        }
        h = h.wrapping_shl(5).wrapping_sub(h).wrapping_add(bytes[i] as u32);
        i += 1;
    }
    assert(codes_of(bytes@).take(i as int) =~= codes_of(bytes@));
    h
}

/// The digest of a string: that of its UTF-8 bytes.
pub fn simple_hash(s: &str) -> (r: u32)
    ensures
        r == digest_of(s.spec_bytes()),
{
    digest(s.as_bytes())
}

/// The digest as the kernel computes it, over character codes and by
/// [`hash_step`].
pub fn kernel_digest(codes: &[u32]) -> (r: u32)
    ensures
        r == digest_of_codes(codes@),
{
    let mut h: u32 = 0;
    let mut i: usize = 0;
    while i < codes.len()
        invariant
            i <= codes.len(),
            h == digest_of_codes(codes@.take(i as int)),
        decreases codes.len() - i,
    {
        proof {
            assert(codes@.take(i + 1).drop_last() =~= codes@.take(i as int));
        }
        h = hash_step(h, codes[i]);
        i += 1;
    }
    assert(codes@.take(i as int) =~= codes@);
    h
}

/// One round of the 64-bit variant, truncated, is one round of the digest on
/// the truncated state.
proof fn lemma_wide_step(h: u64, b: u8, n: u64)
    requires
        n == vstd::wrapping::u64_specs::wrapping_add(
            vstd::wrapping::u64_specs::wrapping_sub(h << 5u64, h),
            b as u64,
        ),
    ensures
        (n as u32) == digest_step(h as u32, b as u32),
{
    let lo: u32 = h as u32;
    let r: u32 = n as u32;
    assert(r == ((31 * (lo as int) + (b as int)) % 0x1_0000_0000) as u32) by (bit_vector)
        requires
            n == vstd::wrapping::u64_specs::wrapping_add(
                vstd::wrapping::u64_specs::wrapping_sub(h << 5u64, h),
                b as u64,
            ),
            lo == h as u32,
            r == n as u32,
    ;
}

/// The digest of a byte string, accumulated in 64 bits and truncated to 32 at
/// the end. It equals [`digest`] on every input.
pub fn hash(s: &[u8]) -> (r: u32)
    ensures
        r == digest_of(s@),
{
    let mut h: u64 = 0;
    let mut i: usize = 0;
    assert((0u64 as u32) == 0u32) by (bit_vector);
    while i < s.len()
        invariant
            i <= s.len(),
            (h as u32) == digest_of_codes(codes_of(s@).take(i as int)),
        decreases s.len() - i,
    {
        let ghost before: u64 = h;
        h = (h << 5u64).wrapping_sub(h).wrapping_add(s[i] as u64);
        proof {
            lemma_wide_step(before, s[i as int], h);
            assert(codes_of(s@).take(i + 1).drop_last() =~= codes_of(s@).take(i as int));
        }
        i += 1;
    }
    assert(codes_of(s@).take(i as int) =~= codes_of(s@));
    h as u32
}

/// The kernel's digest of a candidate's character codes is the host's digest
/// of the candidate's bytes: whatever byte string is searched for, both sides
/// of the search agree on its digest.
pub proof fn lemma_oracle_parity(bytes: Seq<u8>, codes: Seq<u32>)
    requires
        codes.len() == bytes.len(),
        forall|i: int| 0 <= i < bytes.len() ==> codes[i] == bytes[i] as u32,
    ensures
        digest_of_codes(codes) == digest_of(bytes),
{
    assert(codes =~= codes_of(bytes));
}

} // verus!
