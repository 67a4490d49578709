use liblz4stego::compressor::{
    output_compressed_block, output_one_block, output_sequence, output_uncompressed_block,
};
use liblz4stego::decompressor::decompress_block_data;
use liblz4stego::numeral_coding::Decoder;

fn block_of(sequences: &[(&[u8], u16, u32)]) -> Vec<u8> {
    let mut block = Vec::new();
    for (literals, offset, match_length) in sequences {
        output_sequence(&literals.to_vec(), *offset, *match_length, &mut block);
    }
    block
}

#[test]
fn block_of_literals_alone() {
    let block = block_of(&[(b"hello", 0, 4)]);
    let (bytes, matches) = decompress_block_data(&block).unwrap();
    assert_eq!(bytes, b"hello");
    assert!(matches.is_empty());
}

#[test]
fn block_with_a_match() {
    let block = block_of(&[(b"abcd", 4, 6), (b"12345", 0, 4)]);
    let (bytes, matches) = decompress_block_data(&block).unwrap();
    assert_eq!(bytes, b"abcdabcdab12345");
    assert_eq!(matches, vec![(4, 0)]);
}

#[test]
fn match_with_offset_one_repeats_a_byte() {
    let block = block_of(&[(b"a", 1, 14), (b"aaaaa", 0, 4)]);
    let (bytes, matches) = decompress_block_data(&block).unwrap();
    assert_eq!(bytes, b"a".repeat(20));
    assert_eq!(matches, vec![(1, 0)]);
}

#[test]
fn match_that_runs_into_itself() {
    let block = block_of(&[(b"xyz", 3, 10), (b"-----", 0, 4)]);
    let (bytes, _) = decompress_block_data(&block).unwrap();
    assert_eq!(bytes, b"xyzxyzxyzxyzx-----");
}

#[test]
fn long_run_decodes_to_equal_bytes() {
    let block = block_of(&[(b"q", 1, 100_000), (b"qqqqq", 0, 4)]);
    let (bytes, _) = decompress_block_data(&block).unwrap();
    assert_eq!(bytes.len(), 100_006);
    assert!(bytes.iter().all(|byte| *byte == b'q'));
}

#[test]
fn matches_are_told_in_their_order() {
    let block = block_of(&[(b"abcdefgh", 8, 4), (b"", 4, 5), (b"tail.", 0, 4)]);
    let (bytes, matches) = decompress_block_data(&block).unwrap();
    assert_eq!(bytes, b"abcdefghabcdabcdatail.");
    assert_eq!(matches, vec![(8, 0), (12, 8)]);
}

#[test]
fn empty_block_is_an_error() {
    let error = decompress_block_data(&[]).unwrap_err();
    assert_eq!(error.message(), "failed to fill whole buffer");
}

#[test]
fn literals_past_the_end_are_an_error() {
    let error = decompress_block_data(&[0x50, b'a', b'b']).unwrap_err();
    assert_eq!(error.message(), "failed to fill whole buffer");
}

#[test]
fn offset_cut_short_is_an_error() {
    let error = decompress_block_data(&[0x10, b'a', 1]).unwrap_err();
    assert_eq!(error.message(), "failed to fill whole buffer");
}

#[test]
fn offset_zero_is_an_error() {
    let error = decompress_block_data(&[0x10, b'a', 0, 0, 0x10, b'b']).unwrap_err();
    assert_eq!(error.message(), "Offset is 0");
}

#[test]
fn offset_before_the_block_is_an_error() {
    let error = decompress_block_data(&[0x10, b'a', 2, 0, 0x10, b'b']).unwrap_err();
    assert_eq!(error.message(), "Offset is out of range");
}

#[test]
fn match_length_cut_short_is_an_error() {
    let error = decompress_block_data(&[0x1F, b'a', 1, 0]).unwrap_err();
    assert_eq!(error.message(), "failed to fill whole buffer");
}

#[test]
fn offsets_are_read_low_byte_first() {
    let mut literals = vec![0u8; 300];
    literals[0] = 9;
    literals[1] = 8;
    literals[2] = 7;
    literals[3] = 6;
    let block = block_of(&[(&literals, 300, 4), (b"....,", 0, 4)]);
    let (bytes, matches) = decompress_block_data(&block).unwrap();
    assert_eq!(&bytes[300..304], &[9, 8, 7, 6]);
    assert_eq!(matches, vec![(300, 0)]);
}

#[test]
fn uncompressed_block_has_the_high_bit_in_its_size() {
    let mut output = vec![0xAA];
    output_uncompressed_block(&mut output, b"abc");
    assert_eq!(output, vec![0xAA, 3, 0, 0, 0x80, b'a', b'b', b'c']);
}

#[test]
fn run_of_twenty_bytes_is_one_literal_and_one_match() {
    let hidden: [u8; 0] = [];
    let mut decoder = Decoder::new(&hidden);
    let mut output = Vec::new();
    output_compressed_block(&mut output, &b"a".repeat(20), &mut decoder, false);
    assert_eq!(
        output,
        vec![10, 0, 0, 0, 0x1A, b'a', 1, 0, 0x50, b'a', b'a', b'a', b'a', b'a']
    );
}

#[test]
fn compressed_block_decodes_to_its_data() {
    let data = b"to be or not to be, that is not to be the question to be asked".to_vec();
    for prefer_hidden in [false, true] {
        let hidden = [0x5Au8, 0xC3, 0x11];
        let mut decoder = Decoder::new(&hidden);
        let mut output = Vec::new();
        output_compressed_block(&mut output, &data, &mut decoder, prefer_hidden);
        let size = u32::from_le_bytes([output[0], output[1], output[2], output[3]]) as usize;
        assert_eq!(size, output.len() - 4);
        let (bytes, _) = decompress_block_data(&output[4..]).unwrap();
        assert_eq!(bytes, data);
    }
}

#[test]
fn short_data_is_held_as_it_is() {
    let hidden: [u8; 0] = [];
    let mut decoder = Decoder::new(&hidden);
    let mut output = Vec::new();
    output_one_block(&mut output, b"aaaaaaaaaaaa", &mut decoder, false);
    let mut expected = vec![12, 0, 0, 0x80];
    expected.extend_from_slice(b"aaaaaaaaaaaa");
    assert_eq!(output, expected);
}

#[test]
fn data_of_thirteen_bytes_is_compressed() {
    let hidden: [u8; 0] = [];
    let mut decoder = Decoder::new(&hidden);
    let mut output = Vec::new();
    output_one_block(&mut output, b"aaaaaaaaaaaaa", &mut decoder, false);
    assert_eq!(
        output,
        vec![10, 0, 0, 0, 0x13, b'a', 1, 0, 0x50, b'a', b'a', b'a', b'a', b'a']
    );
}
