//! What crosses the boundary to the device: the parameter block and the
//! cleared buffers that go out, the found flag and the result that are read
//! back.
//!
//! Going out, 32-bit words are handed over as they lie in memory. Coming
//! back, words are read as little-endian.

use crate::driver::{Event, SearchError};
use crate::evaluator::KernelParams;
use vstd::prelude::*;

verus! {

/// The byte with index `k` of a word, counted from the least significant.
pub open spec fn byte_of_word(word: u32, k: int) -> u8 {
    if k == 0 {
        (word % 256) as u8
    } else if k == 1 {
        ((word / 256) % 256) as u8
    } else if k == 2 {
        ((word / 65_536) % 256) as u8
    } else {
        ((word / 16_777_216) % 256) as u8
    }
}

/// The bytes of a sequence of words, each word least significant byte first.
pub open spec fn bytes_le(words: Seq<u32>) -> Seq<u8> {
    Seq::new(4 * words.len(), |i: int| byte_of_word(words[i / 4], i % 4))
}

/// The bytes of a sequence of words, each word most significant byte first.
pub open spec fn bytes_be(words: Seq<u32>) -> Seq<u8> {
    Seq::new(4 * words.len(), |i: int| byte_of_word(words[i / 4], 3 - i % 4))
}

/// The word whose bytes, least significant first, are `b0`, `b1`, `b2`, `b3`.
pub open spec fn word_le(b0: u8, b1: u8, b2: u8, b3: u8) -> u32 {
    (b0 + 256 * b1 + 65_536 * b2 + 16_777_216 * b3) as u32
}

/// The words that a byte string holds, read as little-endian.
pub open spec fn words_le(bytes: Seq<u8>) -> Seq<u32> {
    Seq::new(
        bytes.len() / 4,
        |i: int| word_le(bytes[4 * i], bytes[4 * i + 1], bytes[4 * i + 2], bytes[4 * i + 3]),
    )
}

/// The words of the parameter block: the target, the capacity, the stride, a
/// word of padding, then the digits of the batch's start.
pub open spec fn param_words(params: KernelParams) -> Seq<u32> {
    seq![params.target, params.capacity, params.stride, 0u32] + params.start_digits@
}

/// `bytemuck::cast_slice` from `u32` to `u8`, copied into a vector. The cast
/// reinterprets the words' memory, so the contract claims the bytes of every
/// word in the byte order of the machine: all little-endian or all
/// big-endian.
#[verifier::external_body]
fn words_as_bytes(words: &[u32]) -> (bytes: Vec<u8>)
    ensures
        bytes@ == bytes_le(words@) || bytes@ == bytes_be(words@),
{
    bytemuck::cast_slice::<u32, u8>(words).to_vec()
}

/// The words of the parameter block.
pub fn block_words(params: &KernelParams) -> (words: Vec<u32>)
    ensures
        words@ == param_words(*params),
{
    let mut words: Vec<u32> = Vec::new();
    words.push(params.target);
    words.push(params.capacity);
    words.push(params.stride);
    words.push(0);
    let mut i: usize = 0;
    while i < params.start_digits.len()
        invariant
            i <= params.start_digits@.len(),
            words@.len() == 4 + i,
            words@[0] == params.target,
            words@[1] == params.capacity,
            words@[2] == params.stride,
            words@[3] == 0,
            forall|j: int| 4 <= j < 4 + i ==> (#[trigger] words@[j]) == params.start_digits@[j - 4],
        decreases params.start_digits@.len() - i,
    {
        words.push(params.start_digits[i]);
        i += 1;
    }
    assert(words@ =~= param_words(*params));
    words
}

/// The parameter block as the bytes that are written to the device: its
/// words in the byte order of the machine.
pub fn param_block(params: &KernelParams) -> (bytes: Vec<u8>)
    ensures
        bytes@ == bytes_le(param_words(*params)) || bytes@ == bytes_be(param_words(*params)),
{
    let words = block_words(params);
    words_as_bytes(words.as_slice())
}

/// The bytes that clear a buffer of `count` words: four zero bytes a word.
pub fn cleared_block(count: usize) -> (bytes: Vec<u8>)
    ensures
        bytes@ == Seq::new(4 * (count as nat), |i: int| 0u8),
{
    let mut words: Vec<u32> = Vec::new();
    let mut i: usize = 0;
    while i < count
        invariant
            i <= count,
            words@.len() == i,
            forall|k: int| 0 <= k < i ==> (#[trigger] words@[k]) == 0,
        decreases count - i,
    {
        words.push(0);
        i += 1;
    }
    let bytes = words_as_bytes(words.as_slice());
    assert(bytes@ =~= Seq::new(4 * (count as nat), |i: int| 0u8));
    bytes
}

/// The little-endian word at byte offset `at`.
fn word_at(bytes: &[u8], at: usize) -> (word: u32)
    requires
        at + 4 <= bytes@.len(),
    ensures
        word == word_le(
            bytes@[at as int],
            bytes@[at + 1],
            bytes@[at + 2],
            bytes@[at + 3],
        ),
{
    let b0: u8 = bytes[at];
    let b1: u8 = bytes[at + 1];
    let b2: u8 = bytes[at + 2];
    let b3: u8 = bytes[at + 3];
    let word: u32 = (b0 as u32) | (b1 as u32) << 8u32 | (b2 as u32) << 16u32 | (b3 as u32) << 24u32;
    assert(word == (b0 + 256 * b1 + 65_536 * b2 + 16_777_216 * b3) as u32) by (bit_vector)
        requires
            word == (b0 as u32) | (b1 as u32) << 8u32 | (b2 as u32) << 16u32 | (b3 as u32)
                << 24u32,
    ;
    word
}

/// The `count` words that a byte string of `4 * count` bytes holds, read as
/// little-endian; `None` for a byte string of another length.
pub fn decode_words(bytes: &[u8], count: usize) -> (words: Option<Vec<u32>>)
    ensures
        words is Some <==> bytes@.len() == 4 * count,
        words matches Some(w) ==> w@ == words_le(bytes@),
{
    if bytes.len() % 4 != 0 || bytes.len() / 4 != count {
        return None;
    }
    let mut words: Vec<u32> = Vec::new();
    let mut i: usize = 0;
    assert(4 * count == bytes.len());
    while i < count
        invariant
            i <= count,
            bytes@.len() == 4 * count,
            4 * count <= usize::MAX,
            words@.len() == i,
            forall|k: int| 0 <= k < i ==> (#[trigger] words@[k]) == words_le(bytes@)[k],
        decreases count - i,
    {
        words.push(word_at(bytes, 4 * i));
        i += 1;
    }
    assert(words@ =~= words_le(bytes@));
    Some(words)
}

/// The event that a readback makes: the batch is complete with the flag and
/// the digits that the two buffers hold, or the transfer has failed where the
/// flag buffer is not one word or the result buffer not `length` words.
pub fn read_back(flag_bytes: &[u8], result_bytes: &[u8], length: usize) -> (event: Event)
    ensures
        if flag_bytes@.len() == 4 && result_bytes@.len() == 4 * length {
            &&& event matches Event::Completed { flag, digits }
            &&& flag == words_le(flag_bytes@)[0]
            &&& digits@ == words_le(result_bytes@)
        } else {
            event == Event::Fault(SearchError::TransferFailure)
        },
{
    let flag: u32 = match decode_words(flag_bytes, 1) {
        Some(words) => words[0],
        None => {
            return Event::Fault(SearchError::TransferFailure);
        },
    };
    match decode_words(result_bytes, length) {
        Some(digits) => Event::Completed { flag, digits },
        None => Event::Fault(SearchError::TransferFailure),
    }
}

} // verus!
