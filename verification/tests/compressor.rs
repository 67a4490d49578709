use std::io::Read;

use liblz4stego::compressor::Compressor;
use lz4::Decoder;

fn decode_lz4(data: &Vec<u8>) -> Vec<u8> {
    let mut buffer = Vec::new();
    let mut decoder = Decoder::new(data.as_slice()).unwrap();
    decoder.read_to_end(&mut buffer).unwrap();

    buffer
}

fn compress(data: &[u8]) -> Vec<u8> {
    let mut compressor = Compressor::new();
    let mut output = compressor.take_output();
    compressor.write(data);
    output.extend(compressor.take_output());
    let (rest, _) = compressor.finish();
    output.extend(rest);

    output
}

/// Text made of a few words in an order that a small generator picks.
fn medium_text() -> Vec<u8> {
    let words: [&[u8]; 12] = [
        b"alpha", b"beta", b"gamma", b"delta", b"lorem", b"ipsum", b"dolor", b"sit", b"amet",
        b"frame", b"block", b"token",
    ];
    let mut state: u32 = 12345;
    let mut text = Vec::new();
    while text.len() < 20_000 {
        state = state.wrapping_mul(1_103_515_245).wrapping_add(12_345);
        text.extend_from_slice(words[((state >> 16) % 12) as usize]);
        text.push(if (state >> 8) % 7 == 0 { b'\n' } else { b' ' });
    }
    text
}

/// A long first part of one kind and a long second part of another.
fn large_two_parts() -> Vec<u8> {
    let mut data = Vec::new();
    for i in 0..300_000u32 {
        data.push(b"0123456789"[(i % 10) as usize]);
    }
    let mut state: u32 = 99;
    for _ in 0..200_000u32 {
        state = state.wrapping_mul(1_664_525).wrapping_add(1_013_904_223);
        data.push(b'a' + ((state >> 24) % 4) as u8);
    }
    data
}

#[test]
fn compress_empty() {
    let data = b"";
    let result = compress(data);
    let decoded = decode_lz4(&result);

    assert_eq!(data, decoded.as_slice());
}

#[test]
fn compress_single_byte() {
    let data = b"a";
    let result = compress(data);
    let decoded = decode_lz4(&result);

    assert_eq!(data, decoded.as_slice());
}

#[test]
fn compress_short_compressed() {
    let data = b"aaaaaaaaaaaaaaaaaaaa";
    let result = compress(data);
    let decoded = decode_lz4(&result);

    assert_eq!(data, decoded.as_slice());
}

#[test]
fn compress_medium() {
    let data = medium_text();
    let result = compress(&data);
    let decoded = decode_lz4(&result);

    assert!(result.len() < data.len());
    assert_eq!(data, decoded.as_slice());
}

#[test]
fn compress_large_two_parts() {
    let data = large_two_parts();
    let result = compress(&data);
    let decoded = decode_lz4(&result);

    assert_eq!(data, decoded.as_slice());
}

#[test]
fn compress_large_two_blocks() {
    let data = b"a".repeat(8_388_608);
    let result = compress(&data);
    let decoded = decode_lz4(&result);

    assert_eq!(data, decoded.as_slice());
}

#[test]
fn compress_long_match() {
    let mut data = b"a".repeat(100_000);
    data.extend_from_slice(&b"b".repeat(100_000));
    data.extend_from_slice(&b"a".repeat(100));
    let result = compress(&data);
    let decoded = decode_lz4(&result);

    assert_eq!(data, decoded.as_slice());
}
