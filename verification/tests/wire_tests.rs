use preimage_search::driver::{Event, SearchError};
use preimage_search::evaluator::KernelParams;
use preimage_search::wire::{block_words, cleared_block, decode_words, param_block, read_back};

fn sample() -> KernelParams {
    KernelParams {
        target: 0x03e1_8b3d,
        capacity: 16_777_216,
        stride: 4_194_240,
        start_digits: vec![33, 46, 0, 22, 8, 0, 0, 61],
    }
}

#[test]
fn block_words_layout() {
    assert_eq!(
        block_words(&sample()),
        vec![0x03e1_8b3d, 16_777_216, 4_194_240, 0, 33, 46, 0, 22, 8, 0, 0, 61]
    );
}

#[test]
fn param_block_is_the_words_in_machine_byte_order() {
    let words = block_words(&sample());
    let little: Vec<u8> = words.iter().flat_map(|w| w.to_le_bytes()).collect();
    let big: Vec<u8> = words.iter().flat_map(|w| w.to_be_bytes()).collect();
    let bytes = param_block(&sample());
    assert_eq!(bytes.len(), 48);
    assert!(bytes == little || bytes == big);
    let native: Vec<u8> = words.iter().flat_map(|w| w.to_ne_bytes()).collect();
    assert_eq!(bytes, native);
}

#[test]
fn param_block_of_an_empty_start() {
    let params = KernelParams { target: 1, capacity: 2, stride: 3, start_digits: vec![] };
    assert_eq!(param_block(&params).len(), 16);
}

#[test]
fn cleared_block_is_all_zero() {
    assert_eq!(cleared_block(0), Vec::<u8>::new());
    assert_eq!(cleared_block(1), vec![0u8; 4]);
    assert_eq!(cleared_block(8), vec![0u8; 32]);
}

#[test]
fn decode_words_reads_little_endian() {
    assert_eq!(decode_words(&[1, 0, 0, 0], 1), Some(vec![1]));
    assert_eq!(decode_words(&[0x3d, 0x8b, 0xe1, 0x03], 1), Some(vec![0x03e1_8b3d]));
    assert_eq!(
        decode_words(&[0xff, 0xff, 0xff, 0xff, 0, 1, 0, 0, 0, 0, 0, 0x80], 3),
        Some(vec![u32::MAX, 256, 0x8000_0000])
    );
    assert_eq!(decode_words(&[], 0), Some(vec![]));
}

#[test]
fn decode_words_wants_the_exact_length() {
    assert_eq!(decode_words(&[1, 0, 0], 1), None);
    assert_eq!(decode_words(&[1, 0, 0, 0, 0], 1), None);
    assert_eq!(decode_words(&[1, 0, 0, 0], 2), None);
    assert_eq!(decode_words(&[1, 0, 0, 0, 2, 0, 0, 0], 1), None);
    assert_eq!(decode_words(&[], 1), None);
}

#[test]
fn read_back_makes_the_completed_event() {
    let result = [5u8, 0, 0, 0, 61, 0, 0, 0];
    assert_eq!(
        read_back(&[1, 0, 0, 0], &result, 2),
        Event::Completed { flag: 1, digits: vec![5, 61] }
    );
    assert_eq!(
        read_back(&[0, 0, 0, 0], &[0u8; 32], 8),
        Event::Completed { flag: 0, digits: vec![0; 8] }
    );
}

#[test]
fn read_back_of_short_buffers_is_a_transfer_failure() {
    let fault = Event::Fault(SearchError::TransferFailure);
    assert_eq!(read_back(&[1, 0, 0], &[0u8; 8], 2), fault);
    assert_eq!(read_back(&[1, 0, 0, 0], &[0u8; 7], 2), fault);
    assert_eq!(read_back(&[1, 0, 0, 0], &[0u8; 12], 2), fault);
    assert_eq!(read_back(&[], &[], 0), fault);
}

#[test]
fn cleared_buffers_read_back_as_an_empty_batch() {
    let event = read_back(&cleared_block(1), &cleared_block(8), 8);
    assert_eq!(event, Event::Completed { flag: 0, digits: vec![0; 8] });
}
