//! Tests of the checked encode and decode entry points: boundary literals,
//! the mixed-buffer scenario, every error variant of both decoders, and
//! round trips across all four sequence lengths.

use ume8::{count_sequences_unchecked, decode_forward, decode_reverse, encode, encode_all};
use ume8::{DecodeUnchecked, Ume8Error};

#[test]
fn test_encode_boundary_literals() {
    assert_eq!(encode(0), Ok(vec![0x00]));
    assert_eq!(encode(97), Ok(vec![0x61]));
    assert_eq!(encode(246), Ok(vec![0xC7, 0xB6]));
    assert_eq!(encode(12701), Ok(vec![0xCC, 0x8C, 0xBD]));
    assert_eq!(encode(128512), Ok(vec![0xC3, 0x9D, 0x90, 0xA0]));
    assert_eq!(encode(2097152), Err(Ume8Error::OutOfRange));
}

#[test]
fn test_encode_length_table() {
    assert_eq!(encode(0x7F).unwrap().len(), 1);
    assert_eq!(encode(0x80).unwrap().len(), 2);
    assert_eq!(encode(0x7FF).unwrap().len(), 2);
    assert_eq!(encode(0x800).unwrap().len(), 3);
    assert_eq!(encode(0xFFFF).unwrap().len(), 3);
    assert_eq!(encode(0x1_0000).unwrap().len(), 4);
    assert_eq!(encode(0x1F_FFFF).unwrap().len(), 4);
    assert_eq!(encode(0x20_0000), Err(Ume8Error::OutOfRange));
}

#[test]
fn test_round_trip_each_length() {
    for v in [
        0u32, 1, 97, 127, 128, 246, 1514, 2047, 2048, 12701, 65535, 65536, 128512, 2097151,
    ] {
        let bytes = encode(v).unwrap();
        assert_eq!(decode_forward(&bytes), Ok(vec![v]));
    }
}

#[test]
fn test_mixed_buffer_scenario() {
    let values: Vec<u32> = vec![97, 1514, 33, 12701, 0, 128512, 100];
    let expected: Vec<u8> = vec![97, 239, 170, 33, 204, 140, 189, 0, 195, 157, 144, 160, 100];

    let encoded = encode_all(&values).unwrap();
    assert_eq!(encoded, expected);
    assert_eq!(decode_forward(&encoded), Ok(values.clone()));
    assert_eq!(count_sequences_unchecked(&encoded), 7);

    let mut reversed = values.clone();
    reversed.reverse();
    assert_eq!(decode_reverse(&encoded), Ok(reversed));
}

#[test]
fn test_encode_all_out_of_range() {
    assert_eq!(
        encode_all(&[97, 2097152, 100]),
        Err(Ume8Error::OutOfRange)
    );
}

#[test]
fn test_decode_forward_errors() {
    // a start byte with no end byte before the buffer ends
    assert_eq!(
        decode_forward(&[0xC0]),
        Err(Ume8Error::TruncatedSequence)
    );
    assert_eq!(
        decode_forward(&[0xC3, 0x9D, 0x90]),
        Err(Ume8Error::TruncatedSequence)
    );
    // a new sequence opens before the pending end byte
    assert_eq!(
        decode_forward(&[0xC0, 0x61]),
        Err(Ume8Error::TruncatedSequence)
    );
    // decoding begins on a continuation byte, then on an end byte
    assert_eq!(
        decode_forward(&[0x80]),
        Err(Ume8Error::UnexpectedContinuationByte)
    );
    assert_eq!(
        decode_forward(&[0xA0]),
        Err(Ume8Error::UnexpectedContinuationByte)
    );
    // a sequence of five bytes would carry more than 21 bits
    assert_eq!(
        decode_forward(&[0xC0, 0x80, 0x80, 0x80, 0xA0]),
        Err(Ume8Error::OutOfRange)
    );
}

#[test]
fn test_decode_reverse_errors() {
    // an end byte whose sequence start lies before the buffer
    assert_eq!(
        decode_reverse(&[0xA0]),
        Err(Ume8Error::TruncatedSequence)
    );
    assert_eq!(
        decode_reverse(&[0x9D, 0x90, 0xA0]),
        Err(Ume8Error::TruncatedSequence)
    );
    // the sequence is interrupted by a singleton instead of its start byte
    assert_eq!(
        decode_reverse(&[0x61, 0x80, 0xA0]),
        Err(Ume8Error::TruncatedSequence)
    );
    // the buffer ends inside a sequence: on a continuation or start byte
    assert_eq!(
        decode_reverse(&[0x80]),
        Err(Ume8Error::UnexpectedContinuationByte)
    );
    assert_eq!(
        decode_reverse(&[0xC0]),
        Err(Ume8Error::UnexpectedContinuationByte)
    );
    // a sequence of five bytes would carry more than 21 bits
    assert_eq!(
        decode_reverse(&[0xC0, 0x80, 0x80, 0x80, 0xA0]),
        Err(Ume8Error::OutOfRange)
    );
}

#[test]
fn test_decode_forward_empty() {
    assert_eq!(decode_forward(&[]), Ok(vec![]));
    assert_eq!(decode_reverse(&[]), Ok(vec![]));
}

#[test]
fn test_concatenated_buffers_decode_to_concatenation() {
    let a: Vec<u32> = vec![0, 1514];
    let b: Vec<u32> = vec![128512, 97];
    let mut buf = encode_all(&a).unwrap();
    buf.extend(encode_all(&b).unwrap());
    let mut both = a.clone();
    both.extend(&b);
    assert_eq!(decode_forward(&buf), Ok(both));
}

#[test]
fn test_size_hint_bounds_hold() {
    let values: Vec<u32> = vec![97, 1514, 12701, 128512, 0];
    let encoded = encode_all(&values).unwrap();
    let decoder = DecodeUnchecked::new(encoded);
    let (lower, upper) = decoder.size_hint();
    assert!(lower <= values.len());
    assert!(values.len() <= upper.unwrap());
}

#[test]
fn test_decoder_last() {
    let encoded = encode_all(&[97, 1514, 128512]).unwrap();
    let decoder = DecodeUnchecked::new(encoded);
    assert_eq!(decoder.last(), Some(128512));

    let empty = DecodeUnchecked::new(Vec::new());
    assert_eq!(empty.last(), None);
}

#[test]
fn test_decode_both_ends_meet_in_the_middle() {
    let values: Vec<u32> = vec![10, 1514, 12701, 128512, 40];
    let encoded = encode_all(&values).unwrap();
    let mut decoder = DecodeUnchecked::new(encoded);
    assert_eq!(decoder.next(), Some(10));
    assert_eq!(decoder.next_back(), Some(40));
    assert_eq!(decoder.next(), Some(1514));
    assert_eq!(decoder.next_back(), Some(128512));
    assert_eq!(decoder.next(), Some(12701));
    assert_eq!(decoder.next_back(), None);
    assert_eq!(decoder.next(), None);
}
