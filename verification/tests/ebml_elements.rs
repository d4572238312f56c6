//! Ids and sizes of EBML elements.
use omni_meta::containers::ebml::{read_elem_id, read_elem_size};

#[test]
fn elem_id_widths() {
    assert_eq!(read_elem_id(&[0xB0]), Some((0xB0, 1)));
    assert_eq!(read_elem_id(&[0x42, 0x82]), Some((0x4282, 2)));
    assert_eq!(read_elem_id(&[0x2A, 0xD7, 0xB1]), Some((0x2AD7B1, 3)));
    assert_eq!(read_elem_id(&[0x1A, 0x45, 0xDF, 0xA3]), Some((0x1A45DFA3, 4)));
    assert_eq!(read_elem_id(&[0x00]), None);
    assert_eq!(read_elem_id(&[0x08, 0, 0, 0, 0]), None);
    assert_eq!(read_elem_id(&[]), None);
}

#[test]
fn elem_size_known_unknown_truncated() {
    assert_eq!(read_elem_size(&[0x81]), Some((Some(1), 1)));

    assert_eq!(read_elem_size(&[0x40, 0x05]), Some((Some(5), 2)));

    assert_eq!(read_elem_size(&[0xFF]), Some((None, 1)));

    assert_eq!(read_elem_size(&[0x01, 0xFF, 0xFF, 0xFF, 0xFF, 0xFF, 0xFF, 0xFF]), Some((None, 8)));

    assert_eq!(read_elem_size(&[0x01, 0, 0, 0, 0, 0, 1, 0]), Some((Some(256), 8)));

    assert_eq!(read_elem_size(&[0x40]), None);
    assert_eq!(read_elem_size(&[0x00]), None);
    assert_eq!(read_elem_size(&[]), None);
}
