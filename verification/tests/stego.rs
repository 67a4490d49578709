use std::io::Read;

use lz4::Decoder;

use liblz4stego::compressor::Compressor;
use liblz4stego::decompressor::Decompressor;
use liblz4stego::errors::DecompressResult;

fn decompress(data: &[u8]) -> DecompressResult<(Vec<u8>, Vec<u8>)> {
    let mut output = Vec::new();
    let mut decompressor = Decompressor::new(false);
    let mut pos = 0;
    while !decompressor.is_done() {
        pos += decompressor.feed(&data[pos..])?;
        loop {
            let bytes = decompressor.read(65536);
            if bytes.is_empty() {
                break;
            }
            output.extend(bytes);
        }
    }

    Ok((output, decompressor.finish()))
}

fn decode_lz4(data: &Vec<u8>) -> Vec<u8> {
    let mut buffer = Vec::new();
    let mut decoder = Decoder::new(data.as_slice()).unwrap();
    decoder.read_to_end(&mut buffer).unwrap();

    buffer
}

#[test]
fn test_single_byte() {
    let data = b"ala a ala b ala c ala d ala e ala f ala g ala h ala i ala j ala k ala l ala";
    let hidden_data = b"ab";
    let mut compressor = Compressor::new_with_hidden_data(hidden_data, true);
    let mut result = compressor.take_output();
    compressor.write(data);
    result.extend(compressor.take_output());
    let (rest, _) = compressor.finish();
    result.extend(rest);

    let decoded_expected = decode_lz4(&result);
    let decoded_actual = decompress(&result);

    assert!(decoded_actual.is_ok(), "{}", decoded_actual.unwrap_err().to_string());
    let result = decoded_actual.unwrap();
    assert_eq!(result.0, decoded_expected);
    assert_eq!(result.1, hidden_data);
}
