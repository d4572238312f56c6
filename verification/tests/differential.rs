//! However a source is read, the result is the same.
use omni_meta::adapters::session::{Action, BlockingSession, SeekSession};
use omni_meta::fixtures::{
    build_jpeg_with_gps_ifd, build_mov_with_gps_and_mdta, fixture_bmff_heic, fixture_bmff_mp4,
    fixture_bmff_mp4_container_tags, fixture_bmff_mp4_moov_after_mdat, fixture_bmff_mp4_v1,
    fixture_ebml, fixture_ebml_unknown_size_segment, fixture_exif_subifd, fixture_gif,
    fixture_huge_nonmeta, fixture_large_nonmeta, fixture_plain, fixture_png,
    fixture_png_compressed_itxt, fixture_truncated, fixture_webp, fixture_webp_vp8l,
    fixture_with_sof, make_tiff_datetime_original, make_tiff_gps_list, make_tiff_thumbnail,
    png_chunk, push_drive, wrap_jpeg_tiff,
};
use omni_meta::{read_slice, Error, Metadata, Options};
use std::io::{Cursor, Read, Seek, SeekFrom};

fn read_blocking<R: Read>(mut r: R, opts: Options) -> Result<Metadata, Error> {
    let mut session = BlockingSession::new(opts);
    let mut buf = [0u8; 8192];
    loop {
        let n = r.read(&mut buf).map_err(|_| Error::Io)?;
        if session.read(&buf[..n])? == Action::Finish {
            return session.finish();
        }
    }
}

fn read_seek<R: Read + Seek>(mut r: R, opts: Options) -> Result<Metadata, Error> {
    let mut session = SeekSession::new(opts);
    let mut buf = [0u8; 8192];
    let mut action = session.start()?;
    loop {
        action = match action {
            Action::Finish => return session.finish(),
            Action::Read => {
                let n = r.read(&mut buf).map_err(|_| Error::Io)?;
                session.read(&buf[..n])?
            }
            Action::Jump(k) => {
                let target = r.seek(SeekFrom::Current(k as i64)).map_err(|_| Error::Io)?;
                let end = r.seek(SeekFrom::End(0)).map_err(|_| Error::Io)?;
                if target <= end {
                    r.seek(SeekFrom::Start(target)).map_err(|_| Error::Io)?;
                }
                session.jumped(k, target, end)?
            }
        };
    }
}

fn assert_all_equal(bytes: &[u8]) {
    let slice = read_slice(bytes, Options::default());
    assert_eq!(read_blocking(bytes, Options::default()), slice);
    assert_eq!(read_seek(Cursor::new(bytes), Options::default()), slice);
    for chunk in [1usize, 3, 7, bytes.len().max(1)] {
        assert_eq!(push_drive(bytes, Options::default(), chunk), slice);
    }
}

/// A chunk that says it is longer than the file.
fn png_skip_past_eof() -> Vec<u8> {
    let mut p = vec![0x89, 0x50, 0x4E, 0x47, 0x0D, 0x0A, 0x1A, 0x0A];
    let mut ihdr = Vec::new();
    ihdr.extend_from_slice(&4u32.to_be_bytes());
    ihdr.extend_from_slice(&4u32.to_be_bytes());
    ihdr.extend_from_slice(&[8, 6, 0, 0, 0]);
    p.extend_from_slice(&png_chunk(b"IHDR", &ihdr));
    p.extend_from_slice(&100_000u32.to_be_bytes());
    p.extend_from_slice(b"IDAT");
    p.extend_from_slice(&[0u8; 16]);
    p
}

#[test]
fn differential_plain() {
    assert_all_equal(&fixture_plain());
}

#[test]
fn differential_large_nonmeta() {
    assert_all_equal(&fixture_large_nonmeta());
}

#[test]
fn differential_truncated() {
    assert_all_equal(&fixture_truncated());
}

#[test]
fn differential_unrecognized() {
    assert_all_equal(&[0x00, 0x01, 0x02, 0x03]);
}

#[test]
fn differential_huge_nonmeta() {
    assert_all_equal(&fixture_huge_nonmeta());
}

#[test]
fn differential_sof_dimensions() {
    assert_all_equal(&fixture_with_sof());
}

#[test]
fn differential_png() {
    assert_all_equal(&fixture_png());
}

#[test]
fn differential_png_skip_past_eof() {
    assert_all_equal(&png_skip_past_eof());
}

#[test]
fn differential_webp() {
    assert_all_equal(&fixture_webp());
}

#[test]
fn differential_webp_vp8l() {
    assert_all_equal(&fixture_webp_vp8l());
}

#[test]
fn differential_gif() {
    assert_all_equal(&fixture_gif());
}

#[test]
fn differential_png_compressed_itxt() {
    assert_all_equal(&fixture_png_compressed_itxt());
}

#[test]
fn differential_exif_subifd() {
    assert_all_equal(&fixture_exif_subifd());
}

#[test]
fn differential_gps_list() {
    assert_all_equal(&wrap_jpeg_tiff(&make_tiff_gps_list()));
}

#[test]
fn differential_thumbnail_ifd() {
    assert_all_equal(&wrap_jpeg_tiff(&make_tiff_thumbnail()));
}

#[test]
fn differential_bmff_heic() {
    assert_all_equal(&fixture_bmff_heic());
}

#[test]
fn differential_bmff_mp4() {
    assert_all_equal(&fixture_bmff_mp4());
}

#[test]
fn differential_bmff_mp4_moov_after_mdat() {
    assert_all_equal(&fixture_bmff_mp4_moov_after_mdat());
}

#[test]
fn differential_bmff_mp4_v1_mvhd() {
    assert_all_equal(&fixture_bmff_mp4_v1());
}

#[test]
fn differential_jpeg_exif_created() {
    assert_all_equal(&wrap_jpeg_tiff(&make_tiff_datetime_original()));
}

#[test]
fn differential_webm() {
    assert_all_equal(&fixture_ebml(b"webm"));
}

#[test]
fn differential_mkv() {
    assert_all_equal(&fixture_ebml(b"matroska"));
}

#[test]
fn differential_ebml_unknown_size_segment() {
    assert_all_equal(&fixture_ebml_unknown_size_segment());
}

#[test]
fn gps_mov_mdta_consistent_across_adapters() {
    let bytes = build_mov_with_gps_and_mdta();
    let m = read_slice(&bytes, Options::default()).unwrap();
    assert_eq!(m.unified.gps.map(|g| g.lat_e7), Some(350_000_000));
    assert_eq!(m.unified.camera_make.as_deref(), Some("Apple"));
    assert_all_equal(&bytes);
}

#[test]
fn gps_jpeg_exif_consistent_across_adapters() {
    let bytes = build_jpeg_with_gps_ifd();
    let m = read_slice(&bytes, Options::default()).unwrap();
    let g = m.unified.gps.expect("gps 应被投影");
    assert_eq!(g.lat_e7, 350_000_000);
    assert_eq!(g.lon_e7, 1_390_000_000);
    assert_all_equal(&bytes);
}

#[test]
fn differential_bmff_mp4_container_tags() {
    assert_all_equal(&fixture_bmff_mp4_container_tags());
}

#[test]
fn mov_container_projects_software_and_creator() {
    let bytes = fixture_bmff_mp4_container_tags();
    let m = read_slice(&bytes, Options::default()).expect("metadata");
    assert_eq!(m.unified.software.as_deref(), Some("13.5.1"));
    assert_eq!(m.unified.creator.as_deref(), Some("Jane"));
}
