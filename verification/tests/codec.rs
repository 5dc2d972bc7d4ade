//! Tests of the encoder, the two decoders, the sequence counter and the
//! byte classifiers, on the shared set of encoded/decoded pairs.

use ume8::{count_sequences_unchecked, is_sequence_part, is_singleton};
use ume8::{DecodeUnchecked, EncodeUnchecked, ToCharUnchecked};

fn data() -> Vec<(Vec<u32>, Vec<u8>)> {
    vec![
        (
            vec![97, 1514, 33, 12701, 0, 128512, 100],
            vec![97, 239, 170, 33, 204, 140, 189, 0, 195, 157, 144, 160, 100],
        ),
        (vec![97, 33, 0, 100], vec![97, 33, 0, 100]),
        (
            vec![1514, 12701, 128512],
            vec![239, 170, 204, 140, 189, 195, 157, 144, 160],
        ),
        (vec![97], vec![97]),
        (vec![1514], vec![239, 170]),
        (vec![12701], vec![204, 140, 189]),
        (vec![128512], vec![195, 157, 144, 160]),
        (vec![0], vec![0]),
        (vec![], vec![]),
    ]
}

fn collect_forward(mut d: DecodeUnchecked) -> Vec<u32> {
    let mut out = Vec::new();
    while let Some(v) = d.next() {
        out.push(v);
    }
    out
}

fn collect_backward(mut d: DecodeUnchecked) -> Vec<u32> {
    let mut out = Vec::new();
    while let Some(v) = d.next_back() {
        out.push(v);
    }
    out
}

fn collect_chars_forward(mut d: ToCharUnchecked) -> Vec<char> {
    let mut out = Vec::new();
    while let Some(c) = d.next() {
        out.push(c);
    }
    out
}

fn collect_chars_backward(mut d: ToCharUnchecked) -> Vec<char> {
    let mut out = Vec::new();
    while let Some(c) = d.next_back() {
        out.push(c);
    }
    out
}

#[test]
fn test_decode_to_char() {
    let actual_decoded_data = vec!['a', 'ö', 'u', '😀'];
    let actual_encoded_data: Vec<u8> = vec![97, 199, 182, 117, 195, 157, 144, 160];

    let decoder = ToCharUnchecked::new(DecodeUnchecked::new(actual_encoded_data));
    let decoded_data = collect_chars_forward(decoder);

    assert_eq!(decoded_data, actual_decoded_data);
}

#[test]
fn test_decode_to_char_reverse() {
    let actual_decoded_data = vec!['😀', 'u', 'ö', 'a'];
    let actual_encoded_data: Vec<u8> = vec![97, 199, 182, 117, 195, 157, 144, 160];

    let decoder = ToCharUnchecked::new(DecodeUnchecked::new(actual_encoded_data));
    let decoded_data = collect_chars_backward(decoder);

    assert_eq!(decoded_data, actual_decoded_data);
}

#[test]
fn test_decode_mixed_sequences() {
    let actual_decoded_data: Vec<u32> = vec![97, 246, 117, 128512];
    let actual_encoded_data: Vec<u8> = vec![97, 199, 182, 117, 195, 157, 144, 160];

    let decoder = DecodeUnchecked::new(actual_encoded_data);
    let decoded_data = collect_forward(decoder);

    assert_eq!(decoded_data, actual_decoded_data);
}

#[test]
fn test_decode_mixed_sequences_reverse() {
    let actual_decoded_data: Vec<u32> = vec![128512, 117, 246, 97];
    let actual_encoded_data: Vec<u8> = vec![97, 199, 182, 117, 195, 157, 144, 160];

    let decoder = DecodeUnchecked::new(actual_encoded_data);
    let decoded_data = collect_backward(decoder);

    assert_eq!(decoded_data, actual_decoded_data);
}

#[test]
fn test_decode_ascii_sequences() {
    let actual_decoded_data: Vec<u32> = vec![97, 98, 99, 100];
    let actual_encoded_data: Vec<u8> = vec![97, 98, 99, 100];

    let decoder = DecodeUnchecked::new(actual_encoded_data);
    let decoded_data = collect_forward(decoder);

    assert_eq!(decoded_data, actual_decoded_data);
}

#[test]
fn test_decode_ascii_sequences_reverse() {
    let actual_decoded_data: Vec<u32> = vec![100, 99, 98, 97];
    let actual_encoded_data: Vec<u8> = vec![97, 98, 99, 100];

    let decoder = DecodeUnchecked::new(actual_encoded_data);
    let decoded_data = collect_backward(decoder);

    assert_eq!(decoded_data, actual_decoded_data);
}

#[test]
fn test_decode_multibyte_sequences() {
    let actual_decoded_data: Vec<u32> = vec![1514, 12701, 128512];
    let actual_encoded_data: Vec<u8> = vec![239, 170, 204, 140, 189, 195, 157, 144, 160];

    let decoder = DecodeUnchecked::new(actual_encoded_data);
    let decoded_data = collect_forward(decoder);

    assert_eq!(decoded_data, actual_decoded_data);
}

#[test]
fn test_decode_multibyte_sequences_reverse() {
    let actual_decoded_data: Vec<u32> = vec![128512, 12701, 1514];
    let actual_encoded_data: Vec<u8> = vec![239, 170, 204, 140, 189, 195, 157, 144, 160];

    let decoder = DecodeUnchecked::new(actual_encoded_data);
    let decoded_data = collect_backward(decoder);

    assert_eq!(decoded_data, actual_decoded_data);
}

#[test]
fn test_decode_size_hint() {
    let actual_encoded_data: Vec<u8> = vec![
        97, 239, 170, 98, 204, 140, 189, 99, 195, 157, 144, 160, 100,
    ];

    let decoder = DecodeUnchecked::new(actual_encoded_data);
    let decoder_size_hint = decoder.size_hint();

    assert_eq!(decoder_size_hint, (4, Some(13)));
}

#[test]
fn test_decode_count() {
    let actual_encoded_data: Vec<u8> = vec![
        97, 239, 170, 98, 204, 140, 189, 99, 195, 157, 144, 160, 100,
    ];

    let decoder = DecodeUnchecked::new(actual_encoded_data);
    let decoder_count = decoder.count();

    assert_eq!(decoder_count, 7);
}

#[test]
fn test_encode_sequences() {
    for (decoded, encoded) in data() {
        let mut encoder = EncodeUnchecked::new(decoded);
        let mut encoder_data: Vec<u8> = Vec::new();
        while let Some(b) = encoder.next() {
            encoder_data.push(b);
        }

        assert_eq!(encoder_data, encoded);
    }
}

#[test]
fn test_count_sequences() {
    for (decoded, encoded) in data() {
        let sequence_count = count_sequences_unchecked(&encoded);

        assert_eq!(sequence_count, decoded.len());
    }
}

#[test]
fn test_is_sequence_part() {
    assert_eq!(is_sequence_part(&0b10000000), true);
    assert_eq!(is_sequence_part(&0b11111111), true);
    assert_eq!(is_sequence_part(&0b00000000), false);
    assert_eq!(is_sequence_part(&0b01111111), false);
}

#[test]
fn test_is_singleton() {
    assert_eq!(is_singleton(&0b10000000), false);
    assert_eq!(is_singleton(&0b11111111), false);
    assert_eq!(is_singleton(&0b00000000), true);
    assert_eq!(is_singleton(&0b01111111), true);
}
