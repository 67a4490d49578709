use liblz4stego::numeral_coding::{quarter_bits, Decoder, Encoder};

fn encode(digits: &[(u16, u16)]) -> Vec<u8> {
    let mut encoder = Encoder::new();
    for (value, bound) in digits {
        encoder.add_value(*value, *bound);
    }
    encoder.finish()
}

#[test]
fn decoding_what_was_encoded_gives_the_values() {
    let digits: Vec<(u16, u16)> = vec![
        (0, 1),
        (1, 2),
        (65_534, 65_535),
        (0, 65_535),
        (12, 13),
        (255, 256),
        (999, 1000),
        (0, 2),
        (1, 2),
        (40_000, 50_000),
        (3, 7),
    ];
    let bytes = encode(&digits);
    let mut decoder = Decoder::new(&bytes);
    for (value, bound) in &digits {
        assert_eq!(decoder.decode_value(*bound), *value);
    }
}

#[test]
fn decoding_many_digits_gives_the_values() {
    let mut state: u32 = 7;
    let mut digits = Vec::new();
    for _ in 0..5000 {
        state = state.wrapping_mul(1_664_525).wrapping_add(1_013_904_223);
        let bound = ((state >> 16) % 65_535 + 1) as u16;
        state = state.wrapping_mul(1_664_525).wrapping_add(1_013_904_223);
        let value = ((state >> 8) % bound as u32) as u16;
        digits.push((value, bound));
    }
    let bytes = encode(&digits);
    let mut decoder = Decoder::new(&bytes);
    for (value, bound) in &digits {
        assert_eq!(decoder.decode_value(*bound), *value);
    }
}

#[test]
fn digits_behind_the_input_are_zero() {
    let bytes = [0x12u8];
    let mut decoder = Decoder::new(&bytes);
    assert_eq!(decoder.decode_value(16), 2);
    assert_eq!(decoder.decode_value(16), 1);
    assert_eq!(decoder.decode_value(16), 0);
    assert_eq!(decoder.decode_value(65_535), 0);
}

#[test]
fn a_bound_of_one_gives_zero_and_loses_nothing() {
    let bytes = [200u8, 100];
    let mut decoder = Decoder::new(&bytes);
    assert_eq!(decoder.decode_value(1), 0);
    assert_eq!(decoder.decode_value(256), 100);
    assert_eq!(decoder.decode_value(256), 200);
}

#[test]
fn encoder_counts_its_digits() {
    let mut encoder = Encoder::new();
    assert_eq!(encoder.len(), 0);
    encoder.add_value(1, 3);
    encoder.add_value(0, 1);
    assert_eq!(encoder.len(), 2);
}

#[test]
fn nothing_encodes_to_nothing() {
    assert_eq!(encode(&[]), Vec::<u8>::new());
    assert_eq!(encode(&[(0, 9), (0, 200)]), Vec::<u8>::new());
}

#[test]
fn capacity_of_a_digit_in_quarters_of_a_bit() {
    assert_eq!(quarter_bits(1), 0);
    assert_eq!(quarter_bits(2), 4);
    assert_eq!(quarter_bits(3), 6);
    assert_eq!(quarter_bits(4), 8);
    assert_eq!(quarter_bits(5), 9);
    assert_eq!(quarter_bits(256), 32);
    assert_eq!(quarter_bits(65_535), 63);
}

#[test]
fn available_bytes_are_a_thirty_second_of_the_quarters() {
    let bytes: [u8; 0] = [];
    let mut decoder = Decoder::new(&bytes);
    assert_eq!(decoder.get_available_bytes(), 0);
    for _ in 0..7 {
        decoder.decode_value(256);
    }
    assert_eq!(decoder.get_available_bytes(), 7);
    decoder.decode_value(16);
    assert_eq!(decoder.get_available_bytes(), 7);
    decoder.decode_value(16);
    assert_eq!(decoder.get_available_bytes(), 8);
    for _ in 0..5 {
        decoder.decode_value(3);
    }
    assert_eq!(decoder.get_available_bytes(), 8);
    decoder.decode_value(3);
    assert_eq!(decoder.get_available_bytes(), 9);
}
