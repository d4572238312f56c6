//! The smallest EXIF data.
use omni_meta::codecs::exif::decode;
use omni_meta::strip::crc32::crc32;
use omni_meta::strip::exif_synth::{
    jpeg_app1_exif, orientation_tiff, png_exif_chunk, webp_exif_chunk,
};
use omni_meta::{Limits, Value};

#[test]
fn synthesized_tiff_decodes_back_to_orientation() {
    let tiff = orientation_tiff(6);
    let mut tags = Vec::new();
    let mut warns = Vec::new();
    decode(&tiff, &mut tags, &mut warns, &Limits::default());
    assert!(warns.is_empty(), "warns: {:?}", warns);
    assert!(tags.iter().any(|t| t.tag == 0x0112
        && t.value == Value::U16(6)));
}

#[test]
fn jpeg_app1_wraps_exif_prefix_and_tiff() {
    let seg = jpeg_app1_exif(&orientation_tiff(1));

    assert_eq!(&seg[0..2], &[0xFF, 0xE1]);
    let len = u16::from_be_bytes([seg[2], seg[3]]) as usize;
    assert_eq!(len, seg.len() - 2);
    assert_eq!(&seg[4..10], b"Exif\0\0");
}

#[test]
fn png_exif_chunk_has_valid_crc() {
    let tiff = orientation_tiff(8);
    let chunk = png_exif_chunk(&tiff);

    let len = u32::from_be_bytes([chunk[0], chunk[1], chunk[2], chunk[3]]) as usize;
    assert_eq!(len, tiff.len());
    assert_eq!(&chunk[4..8], b"eXIf");
    let crc_off = 8 + tiff.len();
    let crc = u32::from_be_bytes([
        chunk[crc_off], chunk[crc_off + 1], chunk[crc_off + 2], chunk[crc_off + 3],
    ]);

    let mut crc_input = Vec::new();
    crc_input.extend_from_slice(b"eXIf");
    crc_input.extend_from_slice(&tiff);
    assert_eq!(crc, crc32(&crc_input));
}

#[test]
fn webp_exif_chunk_fourcc_and_size() {
    let tiff = orientation_tiff(3);
    let chunk = webp_exif_chunk(&tiff);

    assert_eq!(&chunk[0..4], b"EXIF");
    let size = u32::from_le_bytes([chunk[4], chunk[5], chunk[6], chunk[7]]) as usize;
    assert_eq!(size, tiff.len());
}
