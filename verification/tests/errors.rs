use liblz4stego::errors::Lz4DecompressError;

#[test]
fn error_text_has_prefix_and_message() {
    let e = Lz4DecompressError::from_static_str("Offset is 0");
    assert_eq!(e.message(), "Offset is 0");
    assert_eq!(e.to_string(), "error during LZ4 decompressing at offset Offset is 0");
    let e = Lz4DecompressError::from_string(String::from("boom"));
    assert_eq!(e.message(), "boom");
}
