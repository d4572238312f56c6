//! Boxes of the ISO base media format.
use omni_meta::containers::isobmff::{full_box_vf, iter_child_boxes, read_box_header, read_uint_be};
use omni_meta::cursor::ByteCursor;

#[test]
fn reads_32bit_size_box() {
    let mut b = Vec::new();
    b.extend_from_slice(&16u32.to_be_bytes());
    b.extend_from_slice(b"ftyp");
    b.extend_from_slice(&[0u8; 8]);
    let h = read_box_header(&b).unwrap();
    assert_eq!(&h.kind, b"ftyp");
    assert_eq!(h.header_len, 8);
    assert_eq!(h.total_size, Some(16));
    assert_eq!(h.payload_len(), Some(8));
}

#[test]
fn reads_64bit_largesize_box() {
    let mut b = Vec::new();
    b.extend_from_slice(&1u32.to_be_bytes());
    b.extend_from_slice(b"mdat");
    b.extend_from_slice(&4_000_000_000u64.to_be_bytes());
    let h = read_box_header(&b).unwrap();
    assert_eq!(&h.kind, b"mdat");
    assert_eq!(h.header_len, 16);
    assert_eq!(h.total_size, Some(4_000_000_000));
    assert_eq!(h.payload_len(), Some(4_000_000_000 - 16));
}

#[test]
fn malformed_size_smaller_than_header_returns_none() {
    let mut b = Vec::new();
    b.extend_from_slice(&4u32.to_be_bytes());
    b.extend_from_slice(b"ftyp");
    let h = read_box_header(&b).unwrap();
    assert_eq!(h.total_size, Some(4));
    assert_eq!(h.payload_len(), None);
}

#[test]
fn size_zero_means_to_eof() {
    let mut b = Vec::new();
    b.extend_from_slice(&0u32.to_be_bytes());
    b.extend_from_slice(b"mdat");
    let h = read_box_header(&b).unwrap();
    assert_eq!(h.total_size, None);
    assert_eq!(h.payload_len(), None);
}

#[test]
fn too_short_returns_none() {
    assert!(read_box_header(&[0, 0, 0]).is_none());

    let mut b = Vec::new();
    b.extend_from_slice(&1u32.to_be_bytes());
    b.extend_from_slice(b"mdat");
    b.extend_from_slice(&[0u8; 3]);
    assert!(read_box_header(&b).is_none());
}

#[test]
fn full_box_vf_reads_version_flags() {
    assert_eq!(full_box_vf(&[2, 0, 0, 5]), Some((2, 5)));
    assert_eq!(full_box_vf(&[0, 0, 0]), None);
}

#[test]
fn read_uint_be_widths() {
    let buf = [0x00, 0x00, 0x00, 0x09, 0xAA];
    let mut c = ByteCursor::new(&buf);
    assert_eq!(read_uint_be(&mut c, 0), Some(0));
    assert_eq!(read_uint_be(&mut c, 4), Some(9));
    assert_eq!(read_uint_be(&mut c, 3), None);
    let big = [0, 0, 0, 0, 0, 0, 0, 7u8];
    let mut c2 = ByteCursor::new(&big);
    assert_eq!(read_uint_be(&mut c2, 8), Some(7));
}

#[test]
fn iter_child_boxes_walks_siblings_and_stops_on_overrun() {
    let mut buf = Vec::new();
    buf.extend_from_slice(&8u32.to_be_bytes());
    buf.extend_from_slice(b"free");
    buf.extend_from_slice(&12u32.to_be_bytes());
    buf.extend_from_slice(b"ftyp");
    buf.extend_from_slice(&[1, 2, 3, 4]);
    let mut children = iter_child_boxes(&buf);
    let mut got: Vec<([u8; 4], usize)> = Vec::new();
    while let Some((h, p)) = children.next() {
        got.push((h.kind, p.len()));
    }
    assert_eq!(got, vec![(*b"free", 0usize), (*b"ftyp", 4usize)]);

    let mut bad = Vec::new();
    bad.extend_from_slice(&99u32.to_be_bytes());
    bad.extend_from_slice(b"mdat");
    assert!(iter_child_boxes(&bad).next().is_none());
}
