//! The checksum of PNG chunks.
use omni_meta::strip::crc32::crc32;

#[test]
fn crc32_of_iend_chunk_type_known_vector() {
    assert_eq!(crc32(b"IEND"), 0xAE42_6082);
}

#[test]
fn crc32_of_empty_is_zero() {
    assert_eq!(crc32(b""), 0);
}
