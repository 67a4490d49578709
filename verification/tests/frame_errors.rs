use liblz4stego::library_ctrl::{compress, decompress};

fn frame() -> Vec<u8> {
    compress(b"some content, some content, some content", b"", false).0
}

fn message_for(frame: &[u8]) -> String {
    decompress(frame, false).unwrap_err().message().to_string()
}

#[test]
fn wrong_magic_number_is_refused() {
    let mut frame = frame();
    frame[0] = 0x05;
    assert_eq!(message_for(&frame), "Invalid header");
}

#[test]
fn wrong_version_is_refused() {
    let mut frame = frame();
    frame[4] = 0x24;
    assert_eq!(message_for(&frame), "Version is not 1");
    frame[4] = 0xA4;
    assert_eq!(message_for(&frame), "Version is not 1");
}

#[test]
fn dictionary_is_refused() {
    let mut frame = frame();
    frame[4] = 0x65;
    assert_eq!(message_for(&frame), "Dictionary ID is not supported");
}

#[test]
fn dependent_blocks_are_refused() {
    let mut frame = frame();
    frame[4] = 0x44;
    assert_eq!(message_for(&frame), "Blocks must be independent");
}

#[test]
fn small_block_size_index_is_refused() {
    let mut frame = frame();
    frame[5] = 0x20;
    assert_eq!(message_for(&frame), "Block max size is invalid");
    frame[5] = 0x30;
    assert!(decompress(&frame, false).is_ok());
}

#[test]
fn wrong_checksum_is_refused() {
    let mut frame = frame();
    let last = frame.len() - 1;
    frame[last] ^= 1;
    assert_eq!(message_for(&frame), "Checksum is invalid");
}

#[test]
fn changed_content_is_refused() {
    let mut frame = compress(b"abc", b"", false).0;
    frame[11] = b'x';
    assert_eq!(message_for(&frame), "Checksum is invalid");
}

#[test]
fn frame_cut_short_is_refused() {
    let frame = frame();
    for len in [0, 3, 6, 7, 10, 12, frame.len() - 9, frame.len() - 5, frame.len() - 1] {
        assert_eq!(message_for(&frame[..len]), "failed to fill whole buffer");
    }
}

#[test]
fn broken_block_is_refused() {
    let mut frame = vec![0x04, 0x22, 0x4D, 0x18, 0x64, 0x70, 0x00];
    frame.extend_from_slice(&[6, 0, 0, 0, 0x10, b'a', 0, 0, 0x10, b'b']);
    assert_eq!(message_for(&frame), "Offset is 0");
}

#[test]
fn error_text_names_the_cause() {
    let mut frame = frame();
    frame[1] = 0;
    let error = decompress(&frame, false).unwrap_err();
    assert_eq!(
        error.to_string(),
        "error during LZ4 decompressing at offset Invalid header"
    );
}
