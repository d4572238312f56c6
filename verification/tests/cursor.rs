//! The byte cursor.
use omni_meta::cursor::{ByteCursor, Endian};

#[test]
fn reads_primitives_and_respects_bounds() {
    let buf = [0x12u8, 0x34, 0x56, 0x78, 0xAB];
    let mut c = ByteCursor::new(&buf);
    assert_eq!(c.u8(), Some(0x12));
    assert_eq!(c.u16_be(), Some(0x3456));
    assert_eq!(c.position(), 3);
    assert_eq!(c.u16(Endian::Little), Some(0xAB78));
    assert_eq!(c.u8(), None);
}

#[test]
fn take_past_end_returns_none_without_advancing() {
    let buf = [1u8, 2, 3];
    let mut c = ByteCursor::new(&buf);
    assert_eq!(c.take(4), None);
    assert_eq!(c.position(), 0);
    assert_eq!(c.take(2), Some(&buf[0..2]));
}

#[test]
fn seek_and_skip() {
    let buf = [0u8; 10];
    let mut c = ByteCursor::new(&buf);
    assert_eq!(c.skip(4), Some(()));
    assert_eq!(c.position(), 4);
    assert_eq!(c.seek(9), Some(()));
    assert_eq!(c.seek(11), None);
    assert_eq!(c.position(), 9);
}
