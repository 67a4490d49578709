use liblz4stego::decompressor::get_block_max_size;
use liblz4stego::descriptors::{BdByte, BlockSize, FlgByte, Token};

#[test]
fn flg_fields_are_read() {
    let flg = FlgByte(0x64);
    assert_eq!(flg.get_version(), 1);
    assert!(flg.is_block_independent());
    assert!(!flg.is_block_checksum_added());
    assert!(!flg.is_content_size_added());
    assert!(flg.is_content_checksum_added());
    assert!(!flg.is_dictionary_id_set());
    let flg = FlgByte(0b1001_1001);
    assert_eq!(flg.get_version(), 2);
    assert!(!flg.is_block_independent());
    assert!(flg.is_block_checksum_added());
    assert!(flg.is_content_size_added());
    assert!(!flg.is_content_checksum_added());
    assert!(flg.is_dictionary_id_set());
}

#[test]
fn flg_fields_are_set() {
    let mut flg = FlgByte(0);
    flg.set_version(1);
    assert_eq!(flg.0, 0x40);
    flg.set_block_independent(true);
    assert_eq!(flg.0, 0x60);
    flg.set_content_checksum_added(true);
    assert_eq!(flg.0, 0x64);
    flg.set_content_checksum_added(true);
    assert_eq!(flg.0, 0x64);
    flg.set_block_independent(false);
    assert_eq!(flg.0, 0x44);
    flg.set_version(7);
    assert_eq!(flg.0, 0xC4);
    flg.set_content_checksum_added(false);
    assert_eq!(flg.0, 0xC0);
}

#[test]
fn bd_field_is_read_and_set() {
    assert_eq!(BdByte(0x70).get_block_max_size(), 7);
    assert_eq!(BdByte(0xCF).get_block_max_size(), 4);
    let mut bd = BdByte(0x8F);
    bd.set_block_max_size(5);
    assert_eq!(bd.0, 0xDF);
    bd.set_block_max_size(8);
    assert_eq!(bd.0, 0x8F);
}

#[test]
fn block_size_fields_are_read_and_set() {
    let word = BlockSize(0x8000_0003);
    assert_eq!(word.get_block_size(), 3);
    assert!(word.is_uncompressed());
    let word = BlockSize(0x7FFF_FFFF);
    assert_eq!(word.get_block_size(), 0x7FFF_FFFF);
    assert!(!word.is_uncompressed());
    let mut word = BlockSize(0);
    word.set_block_uncompressed(true);
    word.set_block_size(0x1234);
    assert_eq!(word.0, 0x8000_1234);
    word.set_block_size(0xFFFF_FFFF);
    assert_eq!(word.0, 0xFFFF_FFFF);
    word.set_block_uncompressed(false);
    assert_eq!(word.0, 0x7FFF_FFFF);
}

#[test]
fn token_fields_are_read_and_set() {
    let token = Token(0xA7);
    assert_eq!(token.get_literals_length(), 10);
    assert_eq!(token.get_match_length(), 7);
    let mut token = Token(0);
    token.set_literals_length(15);
    assert_eq!(token.0, 0xF0);
    token.set_match_length(3);
    assert_eq!(token.0, 0xF3);
    token.set_literals_length(0x12);
    assert_eq!(token.0, 0x23);
    token.set_match_length(0x1F);
    assert_eq!(token.0, 0x2F);
}

#[test]
fn block_max_sizes() {
    assert_eq!(get_block_max_size(4).unwrap(), 64 * 1024);
    assert_eq!(get_block_max_size(5).unwrap(), 256 * 1024);
    assert_eq!(get_block_max_size(6).unwrap(), 1024 * 1024);
    assert_eq!(get_block_max_size(7).unwrap(), 4 * 1024 * 1024);
    assert_eq!(get_block_max_size(3).unwrap(), 64 * 1024);
}

#[test]
fn block_max_size_out_of_range_is_an_error() {
    for index in [0u8, 1, 2, 8, 200] {
        let error = get_block_max_size(index).unwrap_err();
        assert_eq!(error.message(), "Block max size is invalid");
    }
}
