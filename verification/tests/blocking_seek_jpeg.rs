//! Reading sources that block.
use omni_meta::adapters::session::{Action, BlockingSession, SeekSession};
use omni_meta::{read_slice, Error, Metadata, Options, Orientation};
use std::io::{Cursor, Read, Seek, SeekFrom};

fn read_blocking<R: Read>(mut r: R, opts: Options) -> Result<Metadata, Error> {
    let mut session = BlockingSession::new(opts);
    let mut buf = [0u8; 8192];
    loop {
        let n = r.read(&mut buf).map_err(|_| Error::Io)?;
        if session.read(&buf[..n])? == Action::Finish {
            return session.finish();
        }
    }
}

fn read_seek<R: Read + Seek>(mut r: R, opts: Options) -> Result<Metadata, Error> {
    let mut session = SeekSession::new(opts);
    let mut buf = [0u8; 8192];
    let mut action = session.start()?;
    loop {
        action = match action {
            Action::Finish => return session.finish(),
            Action::Read => {
                let n = r.read(&mut buf).map_err(|_| Error::Io)?;
                session.read(&buf[..n])?
            }
            Action::Jump(k) => {
                let target = r.seek(SeekFrom::Current(k as i64)).map_err(|_| Error::Io)?;
                let end = r.seek(SeekFrom::End(0)).map_err(|_| Error::Io)?;
                if target <= end {
                    r.seek(SeekFrom::Start(target)).map_err(|_| Error::Io)?;
                }
                session.jumped(k, target, end)?
            }
        };
    }
}

fn make_tiff() -> Vec<u8> {
    let mut t: Vec<u8> = Vec::new();
    t.extend_from_slice(b"II");
    t.extend_from_slice(&42u16.to_le_bytes());
    t.extend_from_slice(&8u32.to_le_bytes());
    t.extend_from_slice(&2u16.to_le_bytes());
    t.extend_from_slice(&0x010Fu16.to_le_bytes());
    t.extend_from_slice(&2u16.to_le_bytes());
    t.extend_from_slice(&5u32.to_le_bytes());
    t.extend_from_slice(&38u32.to_le_bytes());
    t.extend_from_slice(&0x0112u16.to_le_bytes());
    t.extend_from_slice(&3u16.to_le_bytes());
    t.extend_from_slice(&1u32.to_le_bytes());
    t.extend_from_slice(&6u32.to_le_bytes());
    t.extend_from_slice(&0u32.to_le_bytes());
    t.extend_from_slice(b"Acme\0");
    t
}

fn jpeg_with_exif() -> Vec<u8> {
    let tiff = make_tiff();
    let mut seg_body: Vec<u8> = Vec::new();
    seg_body.extend_from_slice(b"Exif\0\0");
    seg_body.extend_from_slice(&tiff);
    let len = (seg_body.len() + 2) as u16;
    let mut j: Vec<u8> = Vec::new();
    j.extend_from_slice(&[0xFF, 0xD8, 0xFF, 0xE1]);
    j.extend_from_slice(&len.to_be_bytes());
    j.extend_from_slice(&seg_body);
    j.extend_from_slice(&[0xFF, 0xD9]);
    j
}

#[test]
fn blocking_extracts_fields() {
    let j = jpeg_with_exif();
    let meta = read_blocking(&j[..], Options::default()).expect("parse");
    assert_eq!(meta.unified.camera_make.as_deref(), Some("Acme"));
    assert_eq!(meta.unified.orientation, Some(Orientation::Rotate90));
}

#[test]
fn seek_matches_slice() {
    let j = jpeg_with_exif();
    let want = read_slice(&j, Options::default()).unwrap();
    let got = read_seek(Cursor::new(&j), Options::default()).unwrap();
    assert_eq!(got, want);
}

#[test]
fn blocking_unrecognized_errors() {
    assert!(read_blocking(&[0u8, 1, 2][..], Options::default()).is_err());
}
