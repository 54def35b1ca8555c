//! A birthday search for two eight-character strings with the same digest.
//!
//! The strings are drawn from a fixed sequence: string number `x` takes its
//! eight symbols from the eight bytes of `x` times a fixed multiplier. Every
//! string is filed under its digest; the search ends with the first string
//! that finds another string filed under its own digest.

use crate::digest::{digest_of, hash};
use std::collections::HashMap;
use vstd::prelude::*;

verus! {

broadcast use vstd::std_specs::hash::group_hash_axioms;

/// The symbols that the strings are made of.
pub const SYMBOLS: [u8; 93] = [
    48, 49, 50, 51, 52, 53, 54, 55, 56, 57, 65, 66, 67, 68, 69, 70,
    71, 72, 73, 74, 75, 76, 77, 78, 79, 80, 81, 82, 83, 84, 85, 86,
    87, 88, 89, 90, 97, 98, 99, 100, 101, 102, 103, 104, 105, 106, 107, 108,
    109, 110, 111, 112, 113, 114, 115, 116, 117, 118, 119, 120, 121, 122, 33, 64,
    35, 36, 37, 94, 38, 42, 40, 41, 45, 95, 43, 61, 91, 93, 123, 125,
    92, 124, 59, 58, 39, 34, 44, 46, 60, 62, 63, 47, 32,
];

/// The multiplier that spreads the string numbers.
pub const MULTIPLIER: u64 = 0x517c_c1b7_2722_0a95;

/// The number `x` times the multiplier, modulo 2^64.
pub open spec fn spread(x: u64) -> u64 {
    vstd::wrapping::u64_specs::wrapping_mul(x, MULTIPLIER)
}

/// The symbol at position `i` of string number `x`: byte `i` of the spread
/// number picks it, modulo the number of symbols.
pub open spec fn symbol_at(x: u64, i: int) -> u8 {
    SYMBOLS@[((spread(x) >> ((8 * i) as u64)) % 93) as int]
}

/// String number `x`.
pub open spec fn word_of(x: u64) -> Seq<u8> {
    Seq::new(8, |i: int| symbol_at(x, i))
}

/// Whether the strings with the numbers `x` and `y` differ and have the same
/// digest.
pub open spec fn clash(x: u64, y: u64) -> bool {
    digest_of(word_of(y)) == digest_of(word_of(x)) && word_of(y) != word_of(x)
}

/// Whether string number `x` clashes with a string of a smaller number.
pub open spec fn repeats_at(x: u64) -> bool {
    exists|y: u64| 1 <= y < x && #[trigger] clash(x, y)
}

/// The least number from 1 to `limit` whose string clashes with an earlier
/// one.
pub open spec fn first_repeat(limit: u64) -> Option<u64>
    decreases limit,
{
    if limit == 0 {
        None
    } else {
        match first_repeat((limit - 1) as u64) {
            Some(x) => Some(x),
            None => if repeats_at(limit) {
                Some(limit)
            } else {
                None
            },
        }
    }
}

/// String number `x`.
pub fn word(x: u64) -> (w: [u8; 8])
    ensures
        w@ == word_of(x),
{
    let mixed: u64 = x.wrapping_mul(MULTIPLIER);
    let mut w: [u8; 8] = [0u8; 8];
    let mut i: usize = 0;
    while i < 8
        invariant
            i <= 8,
            mixed == spread(x),
            forall|k: int| 0 <= k < i ==> (#[trigger] w@[k]) == symbol_at(x, k),
        decreases 8 - i,
    {
        let pick: u64 = (mixed >> ((8 * i) as u64)) % 93;
        w[i] = SYMBOLS[pick as usize];
        i += 1;
    }
    assert(w@ =~= word_of(x));
    w
}

/// Whether two strings are the same.
fn same_word(a: &[u8; 8], b: &[u8; 8]) -> (same: bool)
    ensures
        same == (a@ == b@),
{
    let mut i: usize = 0;
    while i < 8
        invariant
            i <= 8,
            forall|k: int| 0 <= k < i ==> (#[trigger] a@[k]) == b@[k],
        decreases 8 - i,
    {
        if a[i] != b[i] {
            return false;
        }
        i += 1;
    }
    assert(a@ =~= b@);
    true
}

/// The first string, among those with the numbers from 1 to `limit`, that
/// has the digest of an earlier and different string, together with that
/// earlier string; `None` where no two of them clash.
pub fn birthday_collision(limit: u64) -> (found: Option<([u8; 8], [u8; 8])>)
    ensures
        match first_repeat(limit) {
            Some(x) => {
                &&& found matches Some((late, early))
                &&& late@ == word_of(x)
                &&& early@ != late@
                &&& digest_of(early@) == digest_of(late@)
                &&& exists|y: u64| 1 <= y < x && early@ == #[trigger] word_of(y)
                &&& forall|y: u64|
                    1 <= y < x && digest_of(#[trigger] word_of(y)) == digest_of(late@) ==> early@
                        == word_of(y)
            },
            None => found is None,
        },
{
    let mut seen: HashMap<u32, [u8; 8]> = HashMap::new();
    let mut x: u64 = 0;
    while x < limit
        invariant
            x <= limit,
            first_repeat(x) is None,
            forall|y: u64|
                1 <= y <= x ==> seen@.contains_key(digest_of(#[trigger] word_of(y))) && seen@[digest_of(
                    word_of(y),
                )]@ == word_of(y),
            forall|d: u32| #[trigger]
                seen@.contains_key(d) ==> exists|y: u64|
                    1 <= y <= x && d == digest_of(#[trigger] word_of(y)),
        decreases limit - x,
    {
        x = x + 1;
        let late = word(x);
        let d: u32 = hash(late.as_slice());
        let ghost before = seen@;
        match seen.insert(d, late) {
            Some(early) => {
                let ghost y0 = choose|y: u64| 1 <= y <= x - 1 && d == digest_of(#[trigger] word_of(y));
                assert(early@ == word_of(y0));
                if !same_word(&early, &late) {
                    proof {
                        assert(clash(x, y0));
                        lemma_repeat_found(x, limit);
                    }
                    return Some((late, early));
                }
                proof {
                    assert(!repeats_at(x)) by {
                        if repeats_at(x) {
                            let y = choose|y: u64| 1 <= y < x && #[trigger] clash(x, y);
                            assert(before[digest_of(word_of(y))]@ == word_of(y));
                        }
                    }
                    assert(seen@[d]@ == word_of(x));
                }
            },
            None => {
                proof {
                    assert(!repeats_at(x)) by {
                        if repeats_at(x) {
                            let y = choose|y: u64| 1 <= y < x && #[trigger] clash(x, y);
                            assert(before.contains_key(digest_of(word_of(y))));
                        }
                    }
                }
            },
        }
        proof {
            assert forall|y: u64| 1 <= y <= x implies seen@.contains_key(
                digest_of(#[trigger] word_of(y)),
            ) && seen@[digest_of(word_of(y))]@ == word_of(y) by {
                if y < x {
                    assert(before.contains_key(digest_of(word_of(y))));
                    assert(before[digest_of(word_of(y))]@ == word_of(y));
                }
            }
            assert forall|k: u32| #[trigger] seen@.contains_key(k) implies exists|y: u64|
                1 <= y <= x && k == digest_of(#[trigger] word_of(y)) by {
                if k == d {
                    assert(d == digest_of(word_of(x)));
                } else {
                    assert(before.contains_key(k));
                    let y = choose|y: u64| 1 <= y <= x - 1 && k == digest_of(#[trigger] word_of(y));
                    assert(1 <= y <= x && k == digest_of(word_of(y)));
                }
            }
        }
    }
    None
}

proof fn lemma_repeat_found(x: u64, limit: u64)
    requires
        1 <= x <= limit,
        first_repeat((x - 1) as u64) is None,
        repeats_at(x),
    ensures
        first_repeat(limit) == Some(x),
    decreases limit,
{
    if limit > x {
        lemma_repeat_found(x, (limit - 1) as u64);
    }
}

} // verus!
