//! The search for a numbered string whose SHA-256 digest, written in
//! lower-case hexadecimal, starts with given characters.
//!
//! The candidates are a fixed prefix followed by the decimal numbers 0, 1, 2
//! and so on; the first whose digest starts as asked is the answer.

use sha2::{Digest, Sha256};
use vstd::prelude::*;
use vstd::string::StringSliceAdditionalSpecFns;
use vstd::utf8::encode_utf8;

verus! {

/// The SHA-256 digest of a byte string: what `Sha256::digest` of the crate
/// sha2 returns for it. It depends on the bytes alone; nothing else is stated
/// of it here.
pub uninterp spec fn sha256(data: Seq<u8>) -> Seq<u8>;

/// The lower-case hexadecimal character of a value below sixteen.
pub open spec fn hex_char(nibble: u8) -> u8 {
    if nibble < 10 {
        (48 + nibble) as u8
    } else {
        (87 + nibble) as u8
    }
}

/// A byte string in lower-case hexadecimal: two characters a byte, the high
/// half first.
pub open spec fn hex_lower(bytes: Seq<u8>) -> Seq<u8> {
    Seq::new(
        2 * bytes.len(),
        |i: int|
            if i % 2 == 0 {
                hex_char(bytes[i / 2] / 16)
            } else {
                hex_char(bytes[i / 2] % 16)
            },
    )
}

/// The character of a decimal digit.
pub open spec fn decimal_char(digit: nat) -> char {
    (48 + digit) as char
}

/// A number in decimal, without leading zeros.
pub open spec fn decimal_chars(n: nat) -> Seq<char>
    decreases n,
{
    if n < 10 {
        seq![decimal_char(n)]
    } else {
        decimal_chars(n / 10).push(decimal_char(n % 10))
    }
}

/// The candidate with number `n`: the prefix, then `n` in decimal.
pub open spec fn numbered_text(prefix: Seq<char>, n: nat) -> Seq<char> {
    prefix + decimal_chars(n)
}

/// Whether the digest of the candidate with number `n`, in hexadecimal,
/// starts with `target`.
pub open spec fn wins(prefix: Seq<char>, target: Seq<u8>, n: nat) -> bool {
    target.is_prefix_of(hex_lower(sha256(encode_utf8(numbered_text(prefix, n)))))
}

/// The least number below `limit` whose candidate wins.
pub open spec fn first_winner(prefix: Seq<char>, target: Seq<u8>, limit: nat) -> Option<nat>
    decreases limit,
{
    if limit == 0 {
        None
    } else {
        match first_winner(prefix, target, (limit - 1) as nat) {
            Some(n) => Some(n),
            None => if wins(prefix, target, (limit - 1) as nat) {
                Some((limit - 1) as nat)
            } else {
                None
            },
        }
    }
}

/// The first winner below a limit wins, and no number below it does; where
/// there is none, no number below the limit wins.
pub proof fn lemma_first_winner(prefix: Seq<char>, target: Seq<u8>, limit: nat)
    ensures
        match first_winner(prefix, target, limit) {
            Some(n) => {
                &&& n < limit
                &&& wins(prefix, target, n)
                &&& forall|k: nat| k < n ==> !wins(prefix, target, k)
            },
            None => forall|k: nat| k < limit ==> !wins(prefix, target, k),
        },
    decreases limit,
{
    if limit > 0 {
        lemma_first_winner(prefix, target, (limit - 1) as nat);
    }
}

/// `Sha256::digest` of the crate sha2, copied into a vector. The contract
/// names the digest, which depends on the data alone, and claims its length
/// of 32 bytes.
#[verifier::external_body]
fn sha256_digest(data: &[u8]) -> (out: Vec<u8>)
    ensures
        out@ == sha256(data@),
        out@.len() == 32,
{
    Sha256::digest(data).to_vec()
}

/// `format!` of std with a string and a number: the contract claims the
/// string unchanged, then the number in decimal without sign or leading
/// zeros.
#[verifier::external_body]
fn numbered(prefix: &str, n: i32) -> (text: String)
    requires
        n >= 0,
    ensures
        text@ == numbered_text(prefix@, n as nat),
{
    format!("{}{}", prefix, n)
}

/// A byte string in lower-case hexadecimal.
pub fn to_hex(bytes: &[u8]) -> (hex: Vec<u8>)
    ensures
        hex@ == hex_lower(bytes@),
{
    let mut hex: Vec<u8> = Vec::new();
    let mut i: usize = 0;
    while i < bytes.len()
        invariant
            i <= bytes.len(),
            hex@.len() == 2 * i,
            forall|k: int| 0 <= k < 2 * i ==> (#[trigger] hex@[k]) == hex_lower(bytes@)[k],
        decreases bytes.len() - i,
    {
        let high: u8 = bytes[i] / 16;
        let low: u8 = bytes[i] % 16;
        hex.push(if high < 10 {
            48 + high
        } else {
            87 + high
        });
        hex.push(if low < 10 {
            48 + low
        } else {
            87 + low
        });
        i += 1;
    }
    assert(hex@ =~= hex_lower(bytes@));
    hex
}

/// Whether `text` starts with `prefix`.
pub fn starts_with(text: &[u8], prefix: &[u8]) -> (yes: bool)
    ensures
        yes == prefix@.is_prefix_of(text@),
{
    if prefix.len() > text.len() {
        return false;
    }
    let mut i: usize = 0;
    while i < prefix.len()
        invariant
            i <= prefix.len() <= text.len(),
            forall|k: int| 0 <= k < i ==> (#[trigger] prefix@[k]) == text@[k],
        decreases prefix.len() - i,
    {
        if prefix[i] != text[i] {
            assert(text@.subrange(0, prefix@.len() as int)[i as int] != prefix@[i as int]);
            return false;
        }
        i += 1;
    }
    assert(prefix@ =~= text@.subrange(0, prefix@.len() as int));
    true
}

/// Whether a digest, written in lower-case hexadecimal, starts with the
/// characters of `target`.
pub fn digest_matches(digest: &[u8], target: &str) -> (yes: bool)
    ensures
        yes == target.spec_bytes().is_prefix_of(hex_lower(digest@)),
{
    let hex = to_hex(digest);
    starts_with(hex.as_slice(), target.as_bytes())
}

/// The first of the strings `prefix0`, `prefix1`, `prefix2`, ... whose
/// SHA-256 digest in hexadecimal starts with `target`; `None` where none of
/// the numbers up to 2^31 - 1 gives one.
pub fn find_collision(prefix: &str, target: &str) -> (found: Option<String>)
    ensures
        match first_winner(prefix@, target.spec_bytes(), 0x8000_0000) {
            Some(n) => found matches Some(text) && text@ == numbered_text(prefix@, n),
            None => found is None,
        },
{
    let mut n: i32 = 0;
    loop
        invariant
            0 <= n,
            first_winner(prefix@, target.spec_bytes(), n as nat) is None,
        decreases i32::MAX - n,
    {
        let text = numbered(prefix, n);
        let digest = sha256_digest(text.as_str().as_bytes());
        if digest_matches(digest.as_slice(), target) {
            proof {
                lemma_winner_found(prefix@, target.spec_bytes(), n as nat, 0x8000_0000);
            }
            return Some(text);
        }
        if n == i32::MAX {
            return None;
        }
        n = n + 1;
    }
}

proof fn lemma_winner_found(prefix: Seq<char>, target: Seq<u8>, n: nat, limit: nat)
    requires
        n < limit,
        first_winner(prefix, target, n) is None,
        wins(prefix, target, n),
    ensures
        first_winner(prefix, target, limit) == Some(n),
    decreases limit,
{
    if limit > n + 1 {
        lemma_winner_found(prefix, target, n, (limit - 1) as nat);
    }
}

} // verus!
