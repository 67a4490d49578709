use liblz4stego::compressor::{output_lsic_int, output_sequence};
use liblz4stego::decompressor::get_lsic_int;

fn emit(val: u32) -> Vec<u8> {
    let mut output = Vec::new();
    output_lsic_int(val, 15, &mut output);
    output
}

#[test]
fn short_lengths_take_no_bytes() {
    assert_eq!(emit(0), Vec::<u8>::new());
    assert_eq!(emit(14), Vec::<u8>::new());
}

#[test]
fn lengths_from_fifteen_continue() {
    assert_eq!(emit(15), vec![0]);
    assert_eq!(emit(16), vec![1]);
    assert_eq!(emit(269), vec![254]);
    assert_eq!(emit(271), vec![255, 1]);
    assert_eq!(emit(15 + 255 + 255 + 7), vec![255, 255, 7]);
}

#[test]
fn lengths_are_appended_to_what_is_there() {
    let mut output = vec![9, 8];
    output_lsic_int(20, 15, &mut output);
    assert_eq!(output, vec![9, 8, 5]);
}

#[test]
fn a_full_last_byte_is_written_without_an_end() {
    assert_eq!(emit(15 + 255), vec![255]);
    assert_eq!(emit(15 + 510), vec![255, 255]);
}

#[test]
fn length_below_the_token_limit_reads_nothing() {
    let result = get_lsic_int(&[200, 3], 14, 15).unwrap();
    assert_eq!(result, (14, 0));
}

#[test]
fn length_reads_up_to_the_first_byte_below_255() {
    assert_eq!(get_lsic_int(&[0, 77], 15, 15).unwrap(), (15, 1));
    assert_eq!(get_lsic_int(&[255, 255, 7, 1, 1], 15, 15).unwrap(), (532, 3));
}

#[test]
fn lengths_round_trip() {
    for val in [0u32, 1, 14, 15, 16, 100, 269, 271, 524, 526, 70_000, 4_194_282] {
        let mut bytes = emit(val);
        let count = bytes.len();
        bytes.extend_from_slice(&[42, 255]);
        let initial = if val < 15 { val as u8 } else { 15 };
        assert_eq!(get_lsic_int(&bytes, initial, 15).unwrap(), (val, count));
    }
}

#[test]
fn length_without_an_end_reads_on() {
    let mut bytes = emit(270);
    bytes.push(42);
    assert_eq!(get_lsic_int(&bytes, 15, 15).unwrap(), (312, 2));
}

#[test]
fn length_past_the_end_is_an_error() {
    let error = get_lsic_int(&[], 15, 15).unwrap_err();
    assert_eq!(error.message(), "failed to fill whole buffer");
    let error = get_lsic_int(&[255, 255], 15, 15).unwrap_err();
    assert_eq!(error.message(), "failed to fill whole buffer");
}

#[test]
fn length_beyond_32_bits_is_an_error() {
    let bytes = vec![255u8; 16_843_009];
    let error = get_lsic_int(&bytes, 15, 15).unwrap_err();
    assert_eq!(error.message(), "Length is too large");
}

#[test]
fn sequence_with_short_lengths() {
    let mut output = Vec::new();
    output_sequence(&b"abc".to_vec(), 5, 8, &mut output);
    assert_eq!(output, vec![0x34, b'a', b'b', b'c', 5, 0]);
}

#[test]
fn sequence_with_long_lengths() {
    let literals = vec![7u8; 20];
    let mut output = Vec::new();
    output_sequence(&literals, 0x1234, 4 + 15 + 300, &mut output);
    let mut expected = vec![0xFF, 5];
    expected.extend_from_slice(&literals);
    expected.extend_from_slice(&[0x34, 0x12, 255, 45]);
    assert_eq!(output, expected);
}

#[test]
fn last_sequence_has_no_match() {
    let mut output = vec![1];
    output_sequence(&b"hello".to_vec(), 0, 4, &mut output);
    assert_eq!(output, vec![1, 0x50, b'h', b'e', b'l', b'l', b'o']);
}
