use std::io::Read;

use liblz4stego::library_ctrl::compress;

fn decode(frame: &[u8]) -> Vec<u8> {
    let mut content = Vec::new();
    lz4_flex::frame::FrameDecoder::new(frame)
        .read_to_end(&mut content)
        .unwrap();
    content
}

#[test]
fn another_decoder_reads_short_frames() {
    for data in [&b""[..], &b"a"[..], &b"aaaaaaaaaaaaaaaaaaaa"[..], &b"abcabcabcabcabcabcabcabcabc"[..]] {
        let (frame, _) = compress(data, b"", false);
        assert_eq!(decode(&frame), data);
    }
}

#[test]
fn another_decoder_reads_frames_with_hidden_data() {
    let data = b"ala a ala b ala c ala d ala e ala f ala g ala h ala i ala j ala k ala l ala";
    for prefer_hidden in [false, true] {
        let (frame, _) = compress(data, b"ab", prefer_hidden);
        assert_eq!(decode(&frame), data);
    }
}

#[test]
fn another_decoder_reads_long_runs() {
    let mut data = b"x".repeat(70_000);
    data.extend_from_slice(&b"y".repeat(70_000));
    let (frame, _) = compress(&data, b"", false);
    assert_eq!(decode(&frame), data);
}
