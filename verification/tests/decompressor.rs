use std::io::Write;

use liblz4stego::decompressor::Decompressor;
use liblz4stego::errors::DecompressResult;

fn decompress(data: &[u8]) -> DecompressResult<(Vec<u8>, Vec<u8>)> {
    let mut output = Vec::new();
    let mut decompressor = Decompressor::new(false);
    let mut pos = 0;
    while !decompressor.is_done() {
        pos += decompressor.feed(&data[pos..])?;
        loop {
            let bytes = decompressor.read(65536);
            if bytes.is_empty() {
                break;
            }
            output.extend(bytes);
        }
    }

    Ok((output, decompressor.finish()))
}

/// The frame that the LZ4 library makes of `data`, with independent blocks of
/// up to 4 MiB, a checksum of the content and none of the blocks.
fn lz4_frame(data: &[u8]) -> Vec<u8> {
    let mut encoder = lz4::EncoderBuilder::new()
        .block_size(lz4::BlockSize::Max4MB)
        .block_mode(lz4::BlockMode::Independent)
        .block_checksum(lz4::liblz4::BlockChecksum::NoBlockChecksum)
        .checksum(lz4::ContentChecksum::ChecksumEnabled)
        .build(Vec::new())
        .unwrap();
    encoder.write_all(data).unwrap();
    let (frame, result) = encoder.finish();
    result.unwrap();
    frame
}

fn medium_text() -> Vec<u8> {
    let words: [&[u8]; 12] = [
        b"alpha", b"beta", b"gamma", b"delta", b"lorem", b"ipsum", b"dolor", b"sit", b"amet",
        b"frame", b"block", b"token",
    ];
    let mut state: u32 = 12345;
    let mut text = Vec::new();
    while text.len() < 20_000 {
        state = state.wrapping_mul(1_103_515_245).wrapping_add(12_345);
        text.extend_from_slice(words[((state >> 16) % 12) as usize]);
        text.push(if (state >> 8) % 7 == 0 { b'\n' } else { b' ' });
    }
    text
}

fn large_two_parts() -> Vec<u8> {
    let mut data = Vec::new();
    for i in 0..300_000u32 {
        data.push(b"0123456789"[(i % 10) as usize]);
    }
    let mut state: u32 = 99;
    for _ in 0..200_000u32 {
        state = state.wrapping_mul(1_664_525).wrapping_add(1_013_904_223);
        data.push(b'a' + ((state >> 24) % 4) as u8);
    }
    data
}

#[test]
fn decompress_empty() {
    let bytes = lz4_frame(b"");
    let result = decompress(&bytes);

    assert!(result.is_ok(), "{}", result.unwrap_err().to_string());
    assert_eq!(result.unwrap().0, b"");
}

#[test]
fn decompress_single_byte() {
    let bytes = lz4_frame(b"a");
    let result = decompress(&bytes);

    assert!(result.is_ok(), "{}", result.unwrap_err().to_string());
    assert_eq!(result.unwrap().0, b"a");
}

#[test]
fn decompress_short_uncompressed() {
    let bytes = lz4_frame(b"aaa");
    let result = decompress(&bytes);

    assert!(result.is_ok(), "{}", result.unwrap_err().to_string());
    assert_eq!(result.unwrap().0, b"aaa");
}

#[test]
fn decompress_short_compressed() {
    let bytes = lz4_frame(b"aaaaaaaaaaaaaaaaaaaa");
    let result = decompress(&bytes);

    assert!(result.is_ok(), "{}", result.unwrap_err().to_string());
    assert_eq!(result.unwrap().0, b"aaaaaaaaaaaaaaaaaaaa");
}

#[test]
fn decompress_medium() {
    let expected = medium_text();
    let bytes = lz4_frame(&expected);
    let result = decompress(&bytes);

    assert!(result.is_ok(), "{}", result.unwrap_err().to_string());
    assert_eq!(result.unwrap().0, expected);
}

#[test]
fn decompress_large_single_character() {
    let bytes = lz4_frame(&b"a".repeat(1_000_000));
    let result = decompress(&bytes);

    assert!(result.is_ok(), "{}", result.unwrap_err().to_string());
    assert_eq!(result.unwrap().0, b"a".repeat(1_000_000));
}

#[test]
fn decompress_large_two_parts() {
    let expected = large_two_parts();
    let bytes = lz4_frame(&expected);
    let result = decompress(&bytes);

    assert!(result.is_ok(), "{}", result.unwrap_err().to_string());
    assert_eq!(result.unwrap().0, expected);
}

#[test]
fn decompress_large_two_blocks() {
    let bytes = lz4_frame(&b"a".repeat(8_388_608));
    let result = decompress(&bytes);

    assert!(result.is_ok(), "{}", result.unwrap_err().to_string());
    assert_eq!(result.unwrap().0, b"a".repeat(8_388_608));
}
