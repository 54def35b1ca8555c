//! The search space: every string of one length over an ordered alphabet.
//!
//! The symbols are ASCII characters, so that a candidate is at once a string
//! and the byte string that the digest reads. A candidate is named by its
//! index in `[0, radix^length)`; digit `i` of the index picks the symbol at
//! position `i` of the candidate.

use crate::codec::{
    digits_in_range, digits_of, lemma_codec_round_trip, lemma_digits_of_in_range, to_digits,
};
use vstd::arithmetic::power::*;
use vstd::prelude::*;

verus! {

/// Why an alphabet and a length do not make a search space.
#[derive(Clone, Copy, Debug, PartialEq, Eq)]
pub enum SpaceError {
    /// Fewer than two symbols.
    TooFewSymbols,
    /// More symbols than there are ASCII characters.
    TooManySymbols,
    /// Candidates of length zero.
    ZeroLength,
    /// A symbol that is not an ASCII character.
    NotAscii,
    /// A symbol that occurs twice.
    RepeatedSymbol,
    /// More candidates than a 128-bit index can count.
    TooLarge,
}

/// Every symbol is an ASCII character.
pub open spec fn symbols_ascii(symbols: Seq<u8>) -> bool {
    forall|i: int| 0 <= i < symbols.len() ==> (#[trigger] symbols[i]) < 128
}

/// No symbol occurs twice.
pub open spec fn symbols_distinct(symbols: Seq<u8>) -> bool {
    forall|i: int, j: int|
        0 <= i < j < symbols.len() ==> (#[trigger] symbols[i]) != (#[trigger] symbols[j])
}

/// The first reason, in the order of [`SpaceError`], for which `alphabet` and
/// `length` make no search space; `None` where they make one.
pub open spec fn space_fault(alphabet: Seq<u8>, length: nat) -> Option<SpaceError> {
    if alphabet.len() < 2 {
        Some(SpaceError::TooFewSymbols)
    } else if alphabet.len() > 128 {
        Some(SpaceError::TooManySymbols)
    } else if length == 0 {
        Some(SpaceError::ZeroLength)
    } else if !symbols_ascii(alphabet) {
        Some(SpaceError::NotAscii)
    } else if !symbols_distinct(alphabet) {
        Some(SpaceError::RepeatedSymbol)
    } else if pow(alphabet.len() as int, length) > u128::MAX {
        Some(SpaceError::TooLarge)
    } else {
        None
    }
}

/// The character code of digit `x` in the standard alphabet: the upper-case
/// letters, then the lower-case letters, then the decimal digits.
pub open spec fn base62_code(x: u32) -> u32 {
    if x < 26 {
        (65 + x) as u32
    } else if x < 52 {
        (97 + (x - 26)) as u32
    } else {
        (48 + (x - 52)) as u32
    }
}

/// The standard alphabet of 62 symbols.
pub open spec fn base62_symbols() -> Seq<u8> {
    Seq::new(62, |i: int| base62_code(i as u32) as u8)
}

/// The characters of an ASCII byte string.
pub open spec fn ascii_chars(bytes: Seq<u8>) -> Seq<char> {
    Seq::new(bytes.len(), |i: int| bytes[i] as char)
}

/// The character code of digit `x` in the standard alphabet, as the kernel
/// maps it.
pub fn map62(x: u32) -> (code: u32)
    ensures
        code == base62_code(x),
{
    if x < 26 {
        65 + x
    } else if x < 52 {
        97 + (x - 26)
    } else {
        48 + (x - 52)
    }
}

/// An alphabet and a candidate length.
pub struct SearchSpace {
    alphabet: Vec<u8>,
    length: usize,
    total: u128,
}

impl SearchSpace {
    /// The alphabet, in order.
    pub closed spec fn symbols(&self) -> Seq<u8> {
        self.alphabet@
    }

    /// The length of every candidate.
    pub closed spec fn spec_length(&self) -> nat {
        self.length as nat
    }

    /// The number of symbols.
    pub open spec fn spec_radix(&self) -> int {
        self.symbols().len() as int
    }

    /// The number of candidates: `radix^length`.
    pub open spec fn size(&self) -> int {
        pow(self.spec_radix(), self.spec_length())
    }

    /// At least two distinct ASCII symbols, a length of at least one, and no
    /// more candidates than a 128-bit index can count.
    pub open spec fn wf(&self) -> bool {
        space_fault(self.symbols(), self.spec_length()) is None
    }

    #[verifier::type_invariant]
    closed spec fn inv(self) -> bool {
        &&& self.wf()
        &&& self.total as int == self.size()
    }

    /// A digit vector of this space: one digit per position, each below the
    /// radix.
    pub open spec fn holds(&self, digits: Seq<u32>) -> bool {
        &&& digits.len() == self.spec_length()
        &&& digits_in_range(digits, self.spec_radix())
    }

    /// The candidate that a digit vector spells: digit `i` picks the symbol at
    /// position `i`.
    pub open spec fn spelled(&self, digits: Seq<u32>) -> Seq<u8> {
        Seq::new(digits.len(), |i: int| self.symbols()[digits[i] as int])
    }

    /// The candidate with the given index.
    pub open spec fn candidate(&self, index: int) -> Seq<u8> {
        self.spelled(digits_of(index, self.spec_radix(), self.spec_length()))
    }

    /// The space of all strings of `length` symbols over `alphabet`, or the
    /// first reason for which there is none.
    pub fn new(alphabet: Vec<u8>, length: usize) -> (made: Result<SearchSpace, SpaceError>)
        ensures
            match made {
                Ok(space) => {
                    &&& space_fault(alphabet@, length as nat) is None
                    &&& space.symbols() == alphabet@
                    &&& space.spec_length() == length
                    &&& space.wf()
                },
                Err(fault) => space_fault(alphabet@, length as nat) == Some(fault),
            },
    {
        let n: usize = alphabet.len();
        if n < 2 {
            return Err(SpaceError::TooFewSymbols);
        }
        if n > 128 {
            return Err(SpaceError::TooManySymbols);
        }
        if length == 0 {
            return Err(SpaceError::ZeroLength);
        }
        let mut i: usize = 0;
        while i < n
            invariant
                n == alphabet@.len(),
                2 <= n <= 128,
                length >= 1,
                i <= n,
                forall|k: int| 0 <= k < i ==> (#[trigger] alphabet@[k]) < 128,
            decreases n - i,
        {
            if alphabet[i] >= 128 {
                return Err(SpaceError::NotAscii);
            }
            i += 1;
        }
        let mut a: usize = 0;
        while a < n
            invariant
                n == alphabet@.len(),
                2 <= n <= 128,
                length >= 1,
                symbols_ascii(alphabet@),
                a <= n,
                forall|i: int, j: int|
                    0 <= i < j < n && i < a ==> (#[trigger] alphabet@[i]) != (
                    #[trigger] alphabet@[j]),
            decreases n - a,
        {
            let mut b: usize = a + 1;
            while b < n
                invariant
                    n == alphabet@.len(),
                    2 <= n <= 128,
                    length >= 1,
                    symbols_ascii(alphabet@),
                    a < b <= n,
                    forall|j: int| a < j < b ==> alphabet@[a as int] != (#[trigger] alphabet@[j]),
                decreases n - b,
            {
                if alphabet[a] == alphabet[b] {
                    return Err(SpaceError::RepeatedSymbol);
                }
                b += 1;
            }
            a += 1;
        }
        let radix: u128 = n as u128;
        let mut total: u128 = 1;
        let mut k: usize = 0;
        proof {
            lemma_pow0(n as int);
        }
        while k < length
            invariant
                n == alphabet@.len(),
                2 <= n <= 128,
                length >= 1,
                symbols_ascii(alphabet@),
                symbols_distinct(alphabet@),
                radix == n,
                k <= length,
                total as int == pow(n as int, k as nat),
            decreases length - k,
        {
            proof {
                lemma_pow_unfold(n as int, k as nat);
                if k + 1 < length {
                    lemma_pow_increases(n as nat, (k + 1) as nat, length as nat);
                }
            }
            total = match total.checked_mul(radix) {
                Some(next) => next,
                None => {
                    return Err(SpaceError::TooLarge);
                },
            };
            k += 1;
        }
        Ok(SearchSpace { alphabet, length, total })
    }

    /// The standard space: strings of eight symbols over the upper-case
    /// letters, the lower-case letters and the decimal digits.
    pub fn base62() -> (space: SearchSpace)
        ensures
            space.wf(),
            space.symbols() == base62_symbols(),
            space.spec_length() == 8,
            space.size() == 218_340_105_584_896,
    {
        let mut alphabet: Vec<u8> = Vec::new();
        let mut x: u32 = 0;
        while x < 62
            invariant
                x <= 62,
                alphabet@.len() == x,
                forall|i: int| 0 <= i < x ==> (#[trigger] alphabet@[i]) == base62_code(i as u32) as u8,
            decreases 62 - x,
        {
            alphabet.push(map62(x) as u8);
            x += 1;
        }
        proof {
            assert(alphabet@ =~= base62_symbols());
            lemma_base62_size();
        }
        SearchSpace { alphabet, length: 8, total: 218_340_105_584_896 }
    }

    /// The number of symbols.
    pub fn radix(&self) -> (radix: u32)
        ensures
            radix == self.spec_radix(),
            2 <= radix <= 128,
    {
        proof {
            use_type_invariant(self);
        }
        self.alphabet.len() as u32
    }

    /// The length of every candidate.
    pub fn length(&self) -> (length: usize)
        ensures
            length == self.spec_length(),
            length >= 1,
    {
        proof {
            use_type_invariant(self);
        }
        self.length
    }

    /// The number of candidates.
    pub fn total(&self) -> (total: u128)
        ensures
            total == self.size(),
            total >= 2,
            self.wf(),
    {
        proof {
            use_type_invariant(self);
            lemma_pow_increases(self.spec_radix() as nat, 1, self.spec_length());
            lemma_pow1(self.spec_radix());
        }
        self.total
    }

    /// The alphabet, in order.
    pub fn alphabet(&self) -> (symbols: &[u8])
        ensures
            symbols@ == self.symbols(),
    {
        self.alphabet.as_slice()
    }

    /// Whether `digits` is a digit vector of this space.
    pub fn accepts(&self, digits: &[u32]) -> (ok: bool)
        ensures
            ok == self.holds(digits@),
    {
        proof {
            use_type_invariant(self);
        }
        if digits.len() != self.length {
            return false;
        }
        let radix: u32 = self.alphabet.len() as u32;
        let mut i: usize = 0;
        while i < digits.len()
            invariant
                i <= digits.len(),
                radix == self.spec_radix(),
                forall|k: int| 0 <= k < i ==> (#[trigger] digits@[k]) < radix,
            decreases digits.len() - i,
        {
            if digits[i] >= radix {
                return false;
            }
            i += 1;
        }
        true
    }

    /// The candidate that `digits` spells, or `None` where `digits` is no
    /// digit vector of this space.
    pub fn spell(&self, digits: &[u32]) -> (word: Option<Vec<u8>>)
        ensures
            word is Some <==> self.holds(digits@),
            word matches Some(bytes) ==> bytes@ == self.spelled(digits@),
    {
        if !self.accepts(digits) {
            return None;
        }
        let mut bytes: Vec<u8> = Vec::new();
        let mut i: usize = 0;
        while i < digits.len()
            invariant
                i <= digits.len(),
                self.holds(digits@),
                bytes@.len() == i,
                forall|k: int|
                    0 <= k < i ==> (#[trigger] bytes@[k]) == self.symbols()[digits@[k] as int],
            decreases digits.len() - i,
        {
            bytes.push(self.alphabet[digits[i] as usize]);
            i += 1;
        }
        assert(bytes@ =~= self.spelled(digits@));
        Some(bytes)
    }

    /// The candidate that `digits` spells, as a string.
    pub fn spell_string(&self, digits: &[u32]) -> (word: Option<String>)
        ensures
            word is Some <==> self.holds(digits@),
            word matches Some(text) ==> text@ == ascii_chars(self.spelled(digits@)),
    {
        proof {
            use_type_invariant(self);
        }
        match self.spell(digits) {
            Some(bytes) => Some(string_from_bytes(bytes.as_slice())),
            None => None,
        }
    }

    /// The candidate with the given index. An index of `size()` or more names
    /// the candidate of the index reduced modulo `size()`.
    pub fn candidate_bytes(&self, index: u128) -> (bytes: Vec<u8>)
        ensures
            bytes@ == self.candidate(index as int),
    {
        proof {
            use_type_invariant(self);
        }
        let digits = to_digits(index, self.radix(), self.length);
        match self.spell(digits.as_slice()) {
            Some(bytes) => bytes,
            None => Vec::new(),
        }
    }
}

/// `String::from_utf8_lossy` of std, made into an owned string. The contract
/// claims only the documented case of ASCII input: such bytes are valid UTF-8,
/// so nothing is replaced and each byte becomes the character with its code.
#[verifier::external_body]
fn string_from_bytes(bytes: &[u8]) -> (text: String)
    ensures
        symbols_ascii(bytes@) ==> text@ == ascii_chars(bytes@),
{
    String::from_utf8_lossy(bytes).into_owned()
}

/// Candidates with different indices differ: the space holds every candidate
/// once.
pub proof fn lemma_candidates_distinct(space: &SearchSpace, i: int, j: int)
    requires
        space.wf(),
        0 <= i < space.size(),
        0 <= j < space.size(),
        i != j,
    ensures
        space.candidate(i) != space.candidate(j),
{
    let radix = space.spec_radix();
    let length = space.spec_length();
    let a = digits_of(i, radix, length);
    let b = digits_of(j, radix, length);
    lemma_digits_of_in_range(i, radix, length);
    lemma_digits_of_in_range(j, radix, length);
    if space.candidate(i) == space.candidate(j) {
        assert forall|k: int| 0 <= k < length implies a[k] == b[k] by {
            assert(space.spelled(a)[k] == space.spelled(b)[k]);
            let x = a[k] as int;
            let y = b[k] as int;
            if x < y {
                assert(space.symbols()[x] != space.symbols()[y]);
            } else if y < x {
                assert(space.symbols()[y] != space.symbols()[x]);
            }
        }
        assert(a =~= b);
        lemma_codec_round_trip(i, radix, length);
        lemma_codec_round_trip(j, radix, length);
    }
}

proof fn lemma_pow_unfold(base: int, e: nat)
    ensures
        pow(base, e + 1) == pow(base, e) * base,
{
    reveal(pow);
    vstd::arithmetic::mul::lemma_mul_is_commutative(base, pow(base, e));
}

proof fn lemma_base62_size()
    ensures
        pow(62, 8) == 218_340_105_584_896,
{
    lemma_pow0(62);
    lemma_pow_unfold(62, 0);
    lemma_pow_unfold(62, 1);
    lemma_pow_unfold(62, 2);
    lemma_pow_unfold(62, 3);
    lemma_pow_unfold(62, 4);
    lemma_pow_unfold(62, 5);
    lemma_pow_unfold(62, 6);
    lemma_pow_unfold(62, 7);
}

} // verus!
