use liblz4stego::compressor::{build_frame_descriptor, Compressor};
use liblz4stego::decompressor::Decompressor;
use liblz4stego::library_ctrl::{compress, decompress};
use xxhash_rust::xxh32::xxh32;

const MAX_BLOCK_SIZE: usize = 4 * 1024 * 1024 - 12;

fn header() -> Vec<u8> {
    let hc = ((xxh32(&[0x64, 0x70], 0) >> 8) & 0xFF) as u8;
    vec![0x04, 0x22, 0x4D, 0x18, 0x64, 0x70, hc]
}

fn footer(content: &[u8]) -> Vec<u8> {
    let mut footer = vec![0, 0, 0, 0];
    footer.extend_from_slice(&xxh32(content, 0).to_le_bytes());
    footer
}

/// The sizes of the blocks of a frame, and whether each is compressed.
fn blocks(frame: &[u8]) -> Vec<(usize, bool)> {
    let mut found = Vec::new();
    let mut pos = 7;
    loop {
        let word = u32::from_le_bytes([frame[pos], frame[pos + 1], frame[pos + 2], frame[pos + 3]]);
        if word == 0 {
            return found;
        }
        let size = (word & 0x7FFF_FFFF) as usize;
        found.push((size, word & 0x8000_0000 == 0));
        pos += 4 + size;
    }
}

fn text() -> Vec<u8> {
    let mut text = Vec::new();
    for i in 0..400u32 {
        text.extend_from_slice(b"the quick brown fox ");
        text.extend_from_slice(i.to_string().as_bytes());
        text.extend_from_slice(b" jumps over the lazy dog\n");
    }
    text
}

#[test]
fn frame_descriptor_is_flg_bd_and_their_check_byte() {
    assert_eq!(build_frame_descriptor(), header()[4..].to_vec());
}

#[test]
fn frame_of_nothing_is_header_end_mark_and_checksum() {
    let (frame, available) = compress(b"", b"", false);
    let mut expected = header();
    expected.extend_from_slice(&[0, 0, 0, 0, 0x05, 0x5D, 0xCC, 0x02]);
    assert_eq!(frame, expected);
    assert_eq!(available, 0);
    let (content, hidden) = decompress(&frame, false).unwrap();
    assert_eq!(content, b"");
    assert_eq!(hidden, b"");
}

#[test]
fn frame_of_one_byte_holds_it_as_it_is() {
    let (frame, _) = compress(b"a", b"", false);
    let mut expected = header();
    expected.extend_from_slice(&[1, 0, 0, 0x80, b'a']);
    expected.extend_from_slice(&footer(b"a"));
    assert_eq!(frame, expected);
    assert_eq!(decompress(&frame, false).unwrap().0, b"a");
}

#[test]
fn frame_of_twenty_equal_bytes_has_one_compressed_block() {
    let data = b"a".repeat(20);
    let (frame, _) = compress(&data, b"", false);
    assert_eq!(blocks(&frame), vec![(10, true)]);
    let mut expected = header();
    expected.extend_from_slice(&[10, 0, 0, 0, 0x1A, b'a', 1, 0, 0x50]);
    expected.extend_from_slice(b"aaaaa");
    expected.extend_from_slice(&footer(&data));
    assert_eq!(frame, expected);
    assert_eq!(decompress(&frame, false).unwrap().0, data);
}

#[test]
fn frame_of_eight_mebibytes_has_blocks_of_the_largest_size() {
    let data = b"a".repeat(8_388_608);
    let (frame, _) = compress(&data, b"", false);
    let found = blocks(&frame);
    assert_eq!(found.len(), 3);
    assert!(found.iter().all(|(_, compressed)| *compressed));
    let (content, _) = decompress(&frame, false).unwrap();
    assert!(content == data);
}

#[test]
fn input_of_one_byte_more_than_a_block_takes_two_blocks() {
    let data = b"b".repeat(MAX_BLOCK_SIZE + 1);
    let (frame, _) = compress(&data, b"", false);
    assert_eq!(blocks(&frame).len(), 2);
    assert_eq!(blocks(&frame)[1], (1, false));
    let data = b"b".repeat(MAX_BLOCK_SIZE);
    let (frame, _) = compress(&data, b"", false);
    assert_eq!(blocks(&frame).len(), 1);
}

#[test]
fn text_round_trips_with_and_without_hidden_data() {
    let data = text();
    for prefer_hidden in [false, true] {
        for hidden in [&b""[..], &b"secret"[..]] {
            let (frame, _) = compress(&data, hidden, prefer_hidden);
            assert!(frame.len() < data.len());
            let (content, _) = decompress(&frame, prefer_hidden).unwrap();
            assert_eq!(content, data);
            let (content, _) = decompress(&frame, !prefer_hidden).unwrap();
            assert_eq!(content, data);
        }
    }
}

#[test]
fn hidden_data_comes_back() {
    let data = text();
    let hidden = b"a message that nobody sees";
    for prefer_hidden in [false, true] {
        let (frame, available) = compress(&data, hidden, prefer_hidden);
        assert!(available >= hidden.len());
        let (content, recovered) = decompress(&frame, prefer_hidden).unwrap();
        assert_eq!(content, data);
        assert_eq!(recovered, hidden);
    }
}

#[test]
fn hidden_data_comes_back_without_zeros_at_its_front() {
    let data = text();
    let (frame, _) = compress(&data, &[0, 0, 7, 0, 9], true);
    let (_, recovered) = decompress(&frame, true).unwrap();
    assert_eq!(recovered, vec![7, 0, 9]);
}

#[test]
fn hidden_data_needs_the_same_preference_to_come_back() {
    let data = text();
    let hidden = b"a message that nobody sees";
    let (frame, _) = compress(&data, hidden, true);
    let (content, recovered) = decompress(&frame, false).unwrap();
    assert_eq!(content, data);
    assert_ne!(recovered, hidden);
}

#[test]
fn preferring_hidden_data_makes_more_room_for_it() {
    let data = text();
    let (plain, room) = compress(&data, b"", false);
    let (roomy, more_room) = compress(&data, b"", true);
    assert!(more_room > room);
    assert!(roomy.len() >= plain.len());
}

#[test]
fn frame_without_hidden_data_gives_no_hidden_bytes() {
    let (frame, _) = compress(&text(), b"", false);
    let (_, recovered) = decompress(&frame, false).unwrap();
    assert_eq!(recovered, b"");
}

#[test]
fn input_in_pieces_makes_the_same_frame() {
    let data = text();
    let hidden = b"xyz";
    let (whole, available) = compress(&data, hidden, true);
    let mut compressor = Compressor::new_with_hidden_data(hidden, true);
    let mut frame = compressor.take_output();
    assert_eq!(frame, header());
    for piece in data.chunks(1000) {
        assert_eq!(compressor.write(piece), piece.len());
        frame.extend(compressor.take_output());
    }
    assert_eq!(frame, header());
    let (rest, count) = compressor.finish();
    frame.extend(rest);
    assert_eq!(frame, whole);
    assert_eq!(count, available);
}

#[test]
fn flush_forces_a_short_block_out() {
    let mut compressor = Compressor::new();
    let mut frame = compressor.take_output();
    compressor.write(b"abc");
    assert!(compressor.take_output().is_empty());
    compressor.flush();
    frame.extend(compressor.take_output());
    compressor.write(b"defgh");
    let (rest, _) = compressor.finish();
    frame.extend(rest);
    assert_eq!(blocks(&frame), vec![(3, false), (5, false)]);
    assert_eq!(decompress(&frame, false).unwrap().0, b"abcdefgh");
}

#[test]
fn decompressor_asks_for_one_piece_after_the_other() {
    let (frame, _) = compress(b"a", b"", false);
    let mut decompressor = Decompressor::new(false);
    assert!(!decompressor.is_done());
    assert_eq!(decompressor.bytes_wanted(), 7);
    assert_eq!(decompressor.feed(&frame).unwrap(), 7);
    assert_eq!(decompressor.bytes_wanted(), 4);
    assert_eq!(decompressor.feed(&frame[7..]).unwrap(), 4);
    assert_eq!(decompressor.bytes_wanted(), 1);
    assert_eq!(decompressor.available(), 0);
    assert_eq!(decompressor.feed(&frame[11..]).unwrap(), 1);
    assert_eq!(decompressor.available(), 1);
    assert_eq!(decompressor.bytes_wanted(), 4);
    assert_eq!(decompressor.feed(&frame[12..]).unwrap(), 4);
    assert_eq!(decompressor.bytes_wanted(), 4);
    assert_eq!(decompressor.feed(&frame[16..]).unwrap(), 4);
    assert!(decompressor.is_done());
    assert_eq!(decompressor.bytes_wanted(), 0);
    assert_eq!(decompressor.feed(&[]).unwrap(), 0);
    assert_eq!(decompressor.read(10), b"a");
    assert_eq!(decompressor.read(10), b"");
    assert_eq!(decompressor.finish(), b"");
}

#[test]
fn decoded_bytes_are_taken_out_in_pieces() {
    let (frame, _) = compress(b"0123456789", b"", false);
    let mut decompressor = Decompressor::new(false);
    let mut pos = 0;
    while decompressor.available() == 0 {
        pos += decompressor.feed(&frame[pos..]).unwrap();
    }
    assert_eq!(decompressor.available(), 10);
    assert_eq!(decompressor.read(4), b"0123");
    assert_eq!(decompressor.read(0), b"");
    assert_eq!(decompressor.available(), 6);
    assert_eq!(decompressor.read(4), b"4567");
    assert_eq!(decompressor.read(4), b"89");
    assert_eq!(decompressor.available(), 0);
}

#[test]
fn what_follows_the_frame_is_not_read() {
    let (mut frame, _) = compress(b"hello hello hello hello", b"", false);
    frame.extend_from_slice(b"garbage");
    assert_eq!(decompress(&frame, false).unwrap().0, b"hello hello hello hello");
}

#[test]
fn frame_without_content_checksum_ends_at_the_end_mark() {
    let frame = [0x04, 0x22, 0x4D, 0x18, 0x60, 0x40, 0x82, 2, 0, 0, 0x80, b'o', b'k', 0, 0, 0, 0];
    assert_eq!(decompress(&frame, false).unwrap().0, b"ok");
}

#[test]
fn header_check_byte_is_not_looked_at() {
    let (mut frame, _) = compress(b"abc", b"", false);
    frame[6] ^= 0xFF;
    assert_eq!(decompress(&frame, false).unwrap().0, b"abc");
}
