//! Stripping WebP files.
use omni_meta::strip::drive_strip_slice;
use omni_meta::strip::exif_synth::orientation_tiff;
use omni_meta::strip::webp::WebpStripper;
use omni_meta::{read_slice, FileFormat, Options, Orientation, RemovedKind, StripOptions, StripReport};

fn riff_chunk(fourcc: &[u8; 4], data: &[u8]) -> Vec<u8> {
    let mut c = Vec::new();
    c.extend_from_slice(fourcc);
    c.extend_from_slice(&(data.len() as u32).to_le_bytes());
    c.extend_from_slice(data);
    if data.len() % 2 == 1 {
        c.push(0);
    }
    c
}

fn vp8x(flags: u8, w: u32, h: u32) -> Vec<u8> {
    let mut d = vec![0u8; 10];
    d[0] = flags;
    let wm1 = w - 1;
    let hm1 = h - 1;
    d[4] = (wm1 & 0xFF) as u8;
    d[5] = ((wm1 >> 8) & 0xFF) as u8;
    d[6] = ((wm1 >> 16) & 0xFF) as u8;
    d[7] = (hm1 & 0xFF) as u8;
    d[8] = ((hm1 >> 8) & 0xFF) as u8;
    d[9] = ((hm1 >> 16) & 0xFF) as u8;
    riff_chunk(b"VP8X", &d)
}

fn full_webp() -> Vec<u8> {
    let mut body = Vec::new();
    body.extend_from_slice(b"WEBP");
    body.extend_from_slice(&vp8x(0x08 | 0x04 | 0x20, 8, 8));
    body.extend_from_slice(&riff_chunk(b"ICCP", b"iccdata1"));
    body.extend_from_slice(&riff_chunk(b"VP8 ", &[0u8; 12]));
    let mut exif = Vec::new();
    exif.extend_from_slice(&orientation_tiff(6));
    body.extend_from_slice(&riff_chunk(b"EXIF", &exif));
    body.extend_from_slice(&riff_chunk(b"XMP ", br#"<x/>"#));
    let mut f = Vec::new();
    f.extend_from_slice(b"RIFF");
    f.extend_from_slice(&(body.len() as u32).to_le_bytes());
    f.extend_from_slice(&body);
    f
}

fn run(buf: &[u8], opts: StripOptions) -> (Vec<u8>, StripReport) {
    let mut p = WebpStripper::new(opts);
    drive_strip_slice(buf, &mut p, FileFormat::Webp)
}

#[test]
fn filesize_recomputed_and_valid() {
    let (out, _r) = run(&full_webp(), StripOptions::default());
    assert_eq!(&out[0..4], b"RIFF");
    let declared = u32::from_le_bytes([out[4], out[5], out[6], out[7]]) as usize;
    assert_eq!(declared, out.len() - 8);
    assert_eq!(&out[8..12], b"WEBP");
}

#[test]
fn default_strips_exif_xmp_keeps_icc_orientation() {
    let (out, report) = run(&full_webp(), StripOptions::default());
    let meta = read_slice(&out, Options::default()).unwrap();
    assert!(meta.raw.xmp.is_empty());
    assert_eq!(meta.unified.orientation, Some(Orientation::Rotate90));
    assert!(report.removed.contains(RemovedKind::Exif));
    assert!(report.removed.contains(RemovedKind::Xmp));
    assert!(out.windows(4).any(|w| w == b"ICCP"));
    assert!(!out.windows(4).any(|w| w == b"XMP "));
}

#[test]
fn vp8x_flags_updated() {
    let (out, _r) = run(&full_webp(), StripOptions::default());
    let idx = out.windows(4).position(|w| w == b"VP8X").unwrap();
    let flags = out[idx + 8];
    assert_eq!(flags & 0x04, 0);
    assert_eq!(flags & 0x08, 0x08);
    assert_eq!(flags & 0x20, 0x20);
}

#[test]
fn aggressive_clears_exif_icc_bits() {
    let (out, _r) = run(&full_webp(), StripOptions::aggressive());
    let idx = out.windows(4).position(|w| w == b"VP8X").unwrap();
    let flags = out[idx + 8];
    assert_eq!(flags & 0x08, 0);
    assert_eq!(flags & 0x20, 0);
    assert!(!out.windows(4).any(|w| w == b"ICCP"));
}

#[test]
fn non_webp_returns_input_unchanged() {
    let buf = [0u8, 1, 2, 3];
    let (out, _r) = run(&buf, StripOptions::default());
    assert_eq!(out, buf);
}

#[test]
fn malformed_vp8x_zero_size_no_panic() {
    let mut body = Vec::new();
    body.extend_from_slice(b"WEBP");
    body.extend_from_slice(b"VP8X");
    body.extend_from_slice(&0u32.to_le_bytes());

    body.extend_from_slice(&riff_chunk(b"EXIF", &[1u8, 2, 3, 4]));
    let mut f = Vec::new();
    f.extend_from_slice(b"RIFF");
    f.extend_from_slice(&(body.len() as u32).to_le_bytes());
    f.extend_from_slice(&body);

    let (out, _r) = run(&f, StripOptions::default());
    assert_eq!(&out[0..4], b"RIFF");
    let declared = u32::from_le_bytes([out[4], out[5], out[6], out[7]]) as usize;
    assert_eq!(declared, out.len() - 8);
}
