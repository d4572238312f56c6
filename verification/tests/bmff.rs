//! HEIF, MP4 and MOV files.
use omni_meta::demand::{Demand, MetaParser, PayloadKind};
use omni_meta::driver::{drive_slice, finalize};
use omni_meta::formats::bmff::BmffParser;
use omni_meta::formats::items::{
    dims_from_iprp, parse_iinf, parse_iloc, parse_ispe, parse_meta, parse_pitm, strip_exif_prefix,
};
use omni_meta::formats::movie::{
    datetime_from_mp4_epoch, parse_moov, parse_mvhd, parse_tkhd, parse_xyz,
};
use omni_meta::geo::parse_iso6709;
use omni_meta::{FileFormat, Limits, WarnKind};

fn ftyp_box() -> Vec<u8> {
    let mut b = Vec::new();
    b.extend_from_slice(&20u32.to_be_bytes());
    b.extend_from_slice(b"ftyp");
    b.extend_from_slice(b"heic");
    b.extend_from_slice(&0u32.to_be_bytes());
    b.extend_from_slice(b"mif1");
    b
}

#[test]
fn walk_skips_non_meta_box() {
    let buf = ftyp_box();
    let mut p = BmffParser::new();
    let res = p.pull(&buf);
    assert_eq!(res.demand, Demand::Skip(12));
    assert_eq!(res.consumed, 8);
    assert!(res.events.is_empty());
}

#[test]
fn walk_empty_window_is_clean_done() {
    let mut p = BmffParser::new();
    let res = p.pull(&[]);
    assert_eq!(res.demand, Demand::Done);
    assert!(res.events.is_empty());
}

#[test]
fn drive_slice_lone_ftyp_is_clean() {
    let buf = ftyp_box();
    let col = drive_slice(&buf, &mut BmffParser::new(), Limits::default());
    assert!(col.warnings.is_empty(), "warnings: {:?}", col.warnings);
    assert!(col.exif.is_empty());
    assert!(col.xmp.is_empty());
}

#[test]
fn short_input_needs_bytes() {
    let mut p = BmffParser::new();
    let res = p.pull(&[0, 0, 0]);
    assert_eq!(res.demand, Demand::NeedBytes(8));
    assert_eq!(res.consumed, 0);
}

#[test]
fn largesize_partial_header_needs_16() {
    let mut b = Vec::new();
    b.extend_from_slice(&1u32.to_be_bytes());
    b.extend_from_slice(b"mdat");
    b.extend_from_slice(&[0u8; 4]);
    let mut p = BmffParser::new();
    let res = p.pull(&b);
    assert_eq!(res.demand, Demand::NeedBytes(16));
    assert_eq!(res.consumed, 0);
}

fn box_bytes(kind: &[u8; 4], payload: &[u8]) -> Vec<u8> {
    let mut b = Vec::new();
    b.extend_from_slice(&((payload.len() + 8) as u32).to_be_bytes());
    b.extend_from_slice(kind);
    b.extend_from_slice(payload);
    b
}

fn infe(id: u16, typ: &[u8; 4], content_type: Option<&[u8]>) -> Vec<u8> {
    let mut p = vec![2u8, 0, 0, 0];
    p.extend_from_slice(&id.to_be_bytes());
    p.extend_from_slice(&0u16.to_be_bytes());
    p.extend_from_slice(typ);
    p.push(0);
    if let Some(ct) = content_type {
        p.extend_from_slice(ct);
        p.push(0);
    }
    box_bytes(b"infe", &p)
}

#[test]
fn parse_iinf_picks_exif_and_xmp() {
    let mut p = vec![0u8, 0, 0, 0];
    p.extend_from_slice(&3u16.to_be_bytes());
    p.extend_from_slice(&infe(1, b"Exif", None));
    p.extend_from_slice(&infe(2, b"mime", Some(b"application/rdf+xml")));
    p.extend_from_slice(&infe(3, b"hvc1", None));
    let wanted = parse_iinf(&p);
    assert_eq!(wanted.len(), 2);
    assert_eq!(wanted[0].id, 1);
    assert_eq!(wanted[0].kind, PayloadKind::Exif);
    assert_eq!(wanted[1].id, 2);
    assert_eq!(wanted[1].kind, PayloadKind::Xmp);
}

#[test]
fn parse_iinf_ignores_non_rdf_mime() {
    let mut p = vec![0u8, 0, 0, 0];
    p.extend_from_slice(&1u16.to_be_bytes());
    p.extend_from_slice(&infe(1, b"mime", Some(b"text/plain")));
    assert!(parse_iinf(&p).is_empty());
}

#[test]
fn parse_iloc_v0_method0_single_extent() {
    let mut p = vec![0u8, 0, 0, 0];
    p.push(0x44);
    p.push(0x00);
    p.extend_from_slice(&1u16.to_be_bytes());
    p.extend_from_slice(&1u16.to_be_bytes());
    p.extend_from_slice(&0u16.to_be_bytes());
    p.extend_from_slice(&1u16.to_be_bytes());
    p.extend_from_slice(&1000u32.to_be_bytes());
    p.extend_from_slice(&42u32.to_be_bytes());
    let locs = parse_iloc(&p);
    assert_eq!(locs.len(), 1);
    assert_eq!(locs[0].id, 1);
    assert_eq!(locs[0].method, 0);
    assert_eq!(locs[0].extent_count, 1);
    assert_eq!(locs[0].first_extent, Some((1000, 42)));
}

#[test]
fn parse_iloc_v1_method1_idat() {
    let mut p = vec![1u8, 0, 0, 0];
    p.push(0x44);
    p.push(0x00);
    p.extend_from_slice(&1u16.to_be_bytes());
    p.extend_from_slice(&5u16.to_be_bytes());
    p.extend_from_slice(&1u16.to_be_bytes());
    p.extend_from_slice(&0u16.to_be_bytes());
    p.extend_from_slice(&1u16.to_be_bytes());
    p.extend_from_slice(&0u32.to_be_bytes());
    p.extend_from_slice(&8u32.to_be_bytes());
    let locs = parse_iloc(&p);
    assert_eq!(locs.len(), 1);
    assert_eq!(locs[0].id, 5);
    assert_eq!(locs[0].method, 1);
    assert_eq!(locs[0].first_extent, Some((0, 8)));
}

fn ispe(w: u32, h: u32) -> Vec<u8> {
    let mut p = vec![0u8, 0, 0, 0];
    p.extend_from_slice(&w.to_be_bytes());
    p.extend_from_slice(&h.to_be_bytes());
    box_bytes(b"ispe", &p)
}

#[test]
fn parse_pitm_and_ispe() {
    let mut pitm_p = vec![0u8, 0, 0, 0];
    pitm_p.extend_from_slice(&7u16.to_be_bytes());
    assert_eq!(parse_pitm(&box_bytes(b"pitm", &pitm_p)[8..]), Some(7));
    assert_eq!(parse_ispe(&ispe(4032, 3024)[8..]), Some((4032, 3024)));
}

#[test]
fn dims_from_iprp_via_ipma() {
    let ipco = box_bytes(b"ipco", &ispe(4032, 3024));
    let mut ipma_p = vec![0u8, 0, 0, 0];
    ipma_p.extend_from_slice(&1u32.to_be_bytes());
    ipma_p.extend_from_slice(&1u16.to_be_bytes());
    ipma_p.push(1);
    ipma_p.push(1);
    let ipma = box_bytes(b"ipma", &ipma_p);
    let mut iprp_p = Vec::new();
    iprp_p.extend_from_slice(&ipco);
    iprp_p.extend_from_slice(&ipma);
    assert_eq!(dims_from_iprp(&box_bytes(b"iprp", &iprp_p)[8..], Some(1)), Some((4032, 3024)));
}

#[test]
fn dims_from_iprp_single_ispe_fallback() {
    let ipco = box_bytes(b"ipco", &ispe(640, 480));
    assert_eq!(dims_from_iprp(&box_bytes(b"iprp", &ipco)[8..], None), Some((640, 480)));
}

#[test]
fn strip_exif_prefix_zero_offset() {
    let mut d = vec![0u8, 0, 0, 0];
    d.extend_from_slice(b"II*\0rest");
    assert_eq!(strip_exif_prefix(&d), b"II*\0rest");
}

#[test]
fn strip_exif_prefix_tolerates_exif_marker() {
    let mut d = vec![0u8, 0, 0, 0];
    d.extend_from_slice(b"Exif\0\0MM\0*");
    assert_eq!(strip_exif_prefix(&d), b"MM\0*");
}

#[test]
fn walk_meta_smaller_than_header_is_clean_done() {
    let mut buf = Vec::new();
    buf.extend_from_slice(&6u32.to_be_bytes());
    buf.extend_from_slice(b"meta");
    buf.extend_from_slice(&[0u8; 8]);
    let mut p = BmffParser::new();
    let res = p.pull(&buf);
    assert_eq!(res.demand, Demand::Done);
    assert!(res.events.is_empty());
}

#[test]
fn drive_truncated_meta_warns_truncated() {
    let mut buf = Vec::new();
    buf.extend_from_slice(&200u32.to_be_bytes());
    buf.extend_from_slice(b"meta");
    buf.extend_from_slice(&[0u8; 12]);
    let col = drive_slice(&buf, &mut BmffParser::new(), Limits::default());
    assert_eq!(col.warnings.len(), 1);
    assert_eq!(col.warnings[0].kind, WarnKind::Truncated);
}

#[test]
fn parse_meta_method2_warns_and_skips() {
    let mut iinf_p = vec![0u8, 0, 0, 0];
    iinf_p.extend_from_slice(&1u16.to_be_bytes());
    iinf_p.extend_from_slice(&infe(1, b"Exif", None));
    let iinf = box_bytes(b"iinf", &iinf_p);
    let mut iloc_p = vec![1u8, 0, 0, 0];
    iloc_p.push(0x44);
    iloc_p.push(0x00);
    iloc_p.extend_from_slice(&1u16.to_be_bytes());
    iloc_p.extend_from_slice(&1u16.to_be_bytes());
    iloc_p.extend_from_slice(&2u16.to_be_bytes());
    iloc_p.extend_from_slice(&0u16.to_be_bytes());
    iloc_p.extend_from_slice(&1u16.to_be_bytes());
    iloc_p.extend_from_slice(&0u32.to_be_bytes());
    iloc_p.extend_from_slice(&4u32.to_be_bytes());
    let iloc = box_bytes(b"iloc", &iloc_p);
    let mut meta_p = vec![0u8, 0, 0, 0];
    meta_p.extend_from_slice(&iinf);
    meta_p.extend_from_slice(&iloc);
    let plan = parse_meta(&meta_p, 0);
    assert!(plan.targets.is_empty());
    assert!(plan.inline.is_empty());
    assert_eq!(plan.warnings.len(), 1);
    assert_eq!(plan.warnings[0].kind, WarnKind::UnreachableSection);
}

fn make_tiff() -> Vec<u8> {
    let mut t = Vec::new();
    t.extend_from_slice(b"II");
    t.extend_from_slice(&42u16.to_le_bytes());
    t.extend_from_slice(&8u32.to_le_bytes());
    t.extend_from_slice(&1u16.to_le_bytes());
    t.extend_from_slice(&0x010Fu16.to_le_bytes());
    t.extend_from_slice(&2u16.to_le_bytes());
    t.extend_from_slice(&5u32.to_le_bytes());
    t.extend_from_slice(&26u32.to_le_bytes());
    t.extend_from_slice(&0u32.to_le_bytes());
    t.extend_from_slice(b"Acme\0");
    t
}

fn ftyp_heic() -> Vec<u8> {
    let mut p = Vec::new();
    p.extend_from_slice(b"heic");
    p.extend_from_slice(&0u32.to_be_bytes());
    p.extend_from_slice(b"mif1");
    box_bytes(b"ftyp", &p)
}

fn build_meta_method0(exif_off: u64, exif_len: u64, xmp_off: u64, xmp_len: u64) -> Vec<u8> {
    let mut pitm_p = vec![0u8, 0, 0, 0];
    pitm_p.extend_from_slice(&1u16.to_be_bytes());
    let pitm = box_bytes(b"pitm", &pitm_p);

    let mut iinf_p = vec![0u8, 0, 0, 0];
    iinf_p.extend_from_slice(&2u16.to_be_bytes());
    iinf_p.extend_from_slice(&infe(1, b"Exif", None));
    iinf_p.extend_from_slice(&infe(2, b"mime", Some(b"application/rdf+xml")));
    let iinf = box_bytes(b"iinf", &iinf_p);

    let ipco = box_bytes(b"ipco", &ispe(4032, 3024));
    let mut ipma_p = vec![0u8, 0, 0, 0];
    ipma_p.extend_from_slice(&1u32.to_be_bytes());
    ipma_p.extend_from_slice(&1u16.to_be_bytes());
    ipma_p.push(1);
    ipma_p.push(1);
    let ipma = box_bytes(b"ipma", &ipma_p);
    let mut iprp_p = Vec::new();
    iprp_p.extend_from_slice(&ipco);
    iprp_p.extend_from_slice(&ipma);
    let iprp = box_bytes(b"iprp", &iprp_p);

    let mut iloc_p = vec![0u8, 0, 0, 0];
    iloc_p.push(0x44);
    iloc_p.push(0x00);
    iloc_p.extend_from_slice(&2u16.to_be_bytes());
    for (id, off, len) in [(1u16, exif_off, exif_len), (2u16, xmp_off, xmp_len)] {
        iloc_p.extend_from_slice(&id.to_be_bytes());
        iloc_p.extend_from_slice(&0u16.to_be_bytes());
        iloc_p.extend_from_slice(&1u16.to_be_bytes());
        iloc_p.extend_from_slice(&(off as u32).to_be_bytes());
        iloc_p.extend_from_slice(&(len as u32).to_be_bytes());
    }
    let iloc = box_bytes(b"iloc", &iloc_p);

    let mut meta_p = vec![0u8, 0, 0, 0];
    meta_p.extend_from_slice(&pitm);
    meta_p.extend_from_slice(&iinf);
    meta_p.extend_from_slice(&iprp);
    meta_p.extend_from_slice(&iloc);
    box_bytes(b"meta", &meta_p)
}

fn exif_item_block() -> Vec<u8> {
    let mut b = vec![0u8, 0, 0, 0];
    b.extend_from_slice(&make_tiff());
    b
}

fn heic_method0() -> Vec<u8> {
    let exif = exif_item_block();
    let xmp = br#"<rdf:Description tiff:Make="Acme"/>"#.to_vec();
    let ftyp = ftyp_heic();
    let meta_probe = build_meta_method0(0, exif.len() as u64, 0, xmp.len() as u64);
    let base = ftyp.len() as u64 + meta_probe.len() as u64 + 8;
    let exif_off = base;
    let xmp_off = base + exif.len() as u64;
    let meta = build_meta_method0(exif_off, exif.len() as u64, xmp_off, xmp.len() as u64);
    assert_eq!(meta.len(), meta_probe.len());
    let mut mdat_payload = Vec::new();
    mdat_payload.extend_from_slice(&exif);
    mdat_payload.extend_from_slice(&xmp);
    let mdat = box_bytes(b"mdat", &mdat_payload);
    let mut f = Vec::new();
    f.extend_from_slice(&ftyp);
    f.extend_from_slice(&meta);
    f.extend_from_slice(&mdat);
    f
}

#[test]
fn end_to_end_heic_method0() {
    let buf = heic_method0();
    let col = drive_slice(&buf, &mut BmffParser::new(), Limits::default());
    let meta = finalize(col, FileFormat::Heif);
    assert!(meta.warnings.is_empty(), "warnings: {:?}", meta.warnings);
    assert_eq!(meta.unified.width, Some(4032));
    assert_eq!(meta.unified.height, Some(3024));
    assert!(meta.raw.exif.iter().any(|t| t.tag == 0x010F));
    assert!(meta.raw.xmp.iter().any(|x| x.name == "Make" && x.value == "Acme"));
    assert_eq!(meta.unified.camera_make.as_deref(), Some("Acme"));
}

fn mvhd_v0(creation: u32, timescale: u32, duration: u32) -> Vec<u8> {
    let mut p = vec![0u8, 0, 0, 0];
    p.extend_from_slice(&creation.to_be_bytes());
    p.extend_from_slice(&0u32.to_be_bytes());
    p.extend_from_slice(&timescale.to_be_bytes());
    p.extend_from_slice(&duration.to_be_bytes());
    p
}

fn mvhd_v1(creation: u64, timescale: u32, duration: u64) -> Vec<u8> {
    let mut p = vec![1u8, 0, 0, 0];
    p.extend_from_slice(&creation.to_be_bytes());
    p.extend_from_slice(&0u64.to_be_bytes());
    p.extend_from_slice(&timescale.to_be_bytes());
    p.extend_from_slice(&duration.to_be_bytes());
    p
}

#[test]
fn parse_mvhd_v0_duration_and_created() {
    let m = parse_mvhd(&mvhd_v0(2_082_844_800, 600, 900_900));
    assert_eq!(m.duration_ms, Some(1_501_500));
    assert_eq!(m.created.map(|d| d.year), Some(1970));
    assert!(!m.timescale_invalid);
}

#[test]
fn parse_mvhd_v1_wide_fields() {
    let m = parse_mvhd(&mvhd_v1(2_082_844_800, 1000, 5000));
    assert_eq!(m.duration_ms, Some(5000));
    assert_eq!(m.created.map(|d| d.year), Some(1970));
}

#[test]
fn parse_mvhd_timescale_zero_no_duration() {
    let m = parse_mvhd(&mvhd_v0(0, 0, 1000));
    assert_eq!(m.duration_ms, None);
    assert!(m.timescale_invalid);
}

#[test]
fn parse_mvhd_creation_zero_no_created() {
    let m = parse_mvhd(&mvhd_v0(0, 600, 600));
    assert_eq!(m.created, None);
    assert_eq!(m.duration_ms, Some(1000));
}

#[test]
fn parse_mvhd_truncated_is_none() {
    let m = parse_mvhd(&[0u8, 0, 0]);
    assert_eq!(m.duration_ms, None);
    assert_eq!(m.created, None);
}

#[test]
fn datetime_from_mp4_epoch_anchor() {
    let dt = datetime_from_mp4_epoch(2_082_844_800);
    assert_eq!((dt.year, dt.month, dt.day), (1970, 1, 1));
    assert_eq!((dt.hour, dt.minute, dt.second), (0, 0, 0));
    assert_eq!(dt.tz_offset_min, Some(0));
}

#[test]
fn datetime_from_mp4_epoch_offsets() {
    let next_day = datetime_from_mp4_epoch(2_082_844_800 + 86_400);
    assert_eq!((next_day.year, next_day.month, next_day.day), (1970, 1, 2));
    let tod = datetime_from_mp4_epoch(2_082_844_800 + 3_661);
    assert_eq!((tod.hour, tod.minute, tod.second), (1, 1, 1));
}

fn tkhd_v0(w: u32, h: u32) -> Vec<u8> {
    let mut p = vec![0u8, 0, 0, 7];
    p.extend_from_slice(&0u32.to_be_bytes());
    p.extend_from_slice(&0u32.to_be_bytes());
    p.extend_from_slice(&1u32.to_be_bytes());
    p.extend_from_slice(&0u32.to_be_bytes());
    p.extend_from_slice(&0u32.to_be_bytes());
    p.extend_from_slice(&[0u8; 8]);
    p.extend_from_slice(&0i16.to_be_bytes());
    p.extend_from_slice(&0i16.to_be_bytes());
    p.extend_from_slice(&0i16.to_be_bytes());
    p.extend_from_slice(&0u16.to_be_bytes());
    p.extend_from_slice(&[0u8; 36]);
    p.extend_from_slice(&(w << 16).to_be_bytes());
    p.extend_from_slice(&(h << 16).to_be_bytes());
    p
}

#[test]
fn parse_tkhd_v0_fixed_point_dims() {
    assert_eq!(parse_tkhd(&tkhd_v0(1920, 1080)), Some((1920, 1080)));
}

#[test]
fn parse_tkhd_zero_dims_is_none() {
    assert_eq!(parse_tkhd(&tkhd_v0(0, 0)), None);
}

#[test]
fn parse_tkhd_truncated_is_none() {
    assert_eq!(parse_tkhd(&[0u8, 0, 0, 0, 1, 2]), None);
}

fn trak(tkhd_payload: &[u8]) -> Vec<u8> {
    box_bytes(b"trak", &box_bytes(b"tkhd", tkhd_payload))
}

#[test]
fn parse_moov_picks_video_track_and_time() {
    let mut moov_p = Vec::new();
    moov_p.extend_from_slice(&box_bytes(b"mvhd", &mvhd_v0(2_082_844_800, 600, 900_900)));
    moov_p.extend_from_slice(&trak(&tkhd_v0(0, 0)));
    moov_p.extend_from_slice(&trak(&tkhd_v0(1920, 1080)));
    let info = parse_moov(&moov_p, 0);
    assert_eq!(info.dims, Some((1920, 1080)));
    assert_eq!(info.duration_ms, Some(1_501_500));
    assert_eq!(info.created.map(|d| d.year), Some(1970));
    assert!(info.warnings.is_empty());
}

#[test]
fn parse_moov_timescale_zero_warns() {
    let mut moov_p = Vec::new();
    moov_p.extend_from_slice(&box_bytes(b"mvhd", &mvhd_v0(0, 0, 1000)));
    let info = parse_moov(&moov_p, 0);
    assert_eq!(info.duration_ms, None);
    assert_eq!(info.warnings.len(), 1);
    assert_eq!(info.warnings[0].kind, WarnKind::UnrecognizedValue);
}

#[test]
fn parse_moov_no_mvhd_no_trak_is_empty() {
    let info = parse_moov(&box_bytes(b"free", &[0u8; 4]), 0);
    assert_eq!(info.dims, None);
    assert_eq!(info.duration_ms, None);
    assert_eq!(info.created, None);
    assert!(info.warnings.is_empty());
}

fn ftyp_mp4() -> Vec<u8> {
    let mut p = Vec::new();
    p.extend_from_slice(b"isom");
    p.extend_from_slice(&0u32.to_be_bytes());
    p.extend_from_slice(b"mp42");
    box_bytes(b"ftyp", &p)
}

fn mp4_with_moov() -> Vec<u8> {
    let mut moov_p = Vec::new();
    moov_p.extend_from_slice(&box_bytes(b"mvhd", &mvhd_v0(2_082_844_800, 600, 900_900)));
    moov_p.extend_from_slice(&trak(&tkhd_v0(1920, 1080)));
    let mut f = ftyp_mp4();
    f.extend_from_slice(&box_bytes(b"moov", &moov_p));
    f
}

#[test]
fn end_to_end_mp4_moov() {
    let buf = mp4_with_moov();
    let col = drive_slice(&buf, &mut BmffParser::new(), Limits::default());
    let meta = finalize(col, FileFormat::Mp4);
    assert!(meta.warnings.is_empty(), "warnings: {:?}", meta.warnings);
    assert_eq!(meta.unified.width, Some(1920));
    assert_eq!(meta.unified.height, Some(1080));
    assert_eq!(meta.unified.duration_ms, Some(1_501_500));
    assert_eq!(meta.unified.created.map(|d| d.year), Some(1970));
    assert_eq!(meta.unified.created.and_then(|d| d.tz_offset_min), Some(0));
}

#[test]
fn end_to_end_mp4_moov_after_mdat() {
    let mut moov_p = Vec::new();
    moov_p.extend_from_slice(&box_bytes(b"mvhd", &mvhd_v0(0, 600, 1200)));
    moov_p.extend_from_slice(&trak(&tkhd_v0(640, 480)));
    let mut f = ftyp_mp4();
    f.extend_from_slice(&box_bytes(b"mdat", &[0u8; 64]));
    f.extend_from_slice(&box_bytes(b"moov", &moov_p));
    let col = drive_slice(&f, &mut BmffParser::new(), Limits::default());
    let meta = finalize(col, FileFormat::Mp4);
    assert_eq!(meta.unified.width, Some(640));
    assert_eq!(meta.unified.duration_ms, Some(2000));
    assert_eq!(meta.unified.created, None);
}

#[test]
fn end_to_end_heic_idat_method1() {
    let exif = exif_item_block();
    let pitm = {
        let mut p = vec![0u8, 0, 0, 0];
        p.extend_from_slice(&1u16.to_be_bytes());
        box_bytes(b"pitm", &p)
    };
    let mut iinf_p = vec![0u8, 0, 0, 0];
    iinf_p.extend_from_slice(&1u16.to_be_bytes());
    iinf_p.extend_from_slice(&infe(1, b"Exif", None));
    let iinf = box_bytes(b"iinf", &iinf_p);
    let idat = box_bytes(b"idat", &exif);
    let mut iloc_p = vec![1u8, 0, 0, 0];
    iloc_p.push(0x44);
    iloc_p.push(0x00);
    iloc_p.extend_from_slice(&1u16.to_be_bytes());
    iloc_p.extend_from_slice(&1u16.to_be_bytes());
    iloc_p.extend_from_slice(&1u16.to_be_bytes());
    iloc_p.extend_from_slice(&0u16.to_be_bytes());
    iloc_p.extend_from_slice(&1u16.to_be_bytes());
    iloc_p.extend_from_slice(&0u32.to_be_bytes());
    iloc_p.extend_from_slice(&(exif.len() as u32).to_be_bytes());
    let iloc = box_bytes(b"iloc", &iloc_p);
    let mut meta_p = vec![0u8, 0, 0, 0];
    meta_p.extend_from_slice(&pitm);
    meta_p.extend_from_slice(&iinf);
    meta_p.extend_from_slice(&idat);
    meta_p.extend_from_slice(&iloc);
    let meta = box_bytes(b"meta", &meta_p);
    let mut f = ftyp_heic();
    f.extend_from_slice(&meta);
    let col = drive_slice(&f, &mut BmffParser::new(), Limits::default());
    let meta = finalize(col, FileFormat::Heif);
    assert!(meta.warnings.is_empty(), "warnings: {:?}", meta.warnings);
    assert!(meta.raw.exif.iter().any(|t| t.tag == 0x010F));
    assert_eq!(meta.unified.camera_make.as_deref(), Some("Acme"));
}

#[test]
fn drive_truncated_moov_warns_truncated() {
    let mut buf = ftyp_mp4();
    let mut moov = Vec::new();
    moov.extend_from_slice(&300u32.to_be_bytes());
    moov.extend_from_slice(b"moov");
    moov.extend_from_slice(&[0u8; 12]);
    buf.extend_from_slice(&moov);
    let col = drive_slice(&buf, &mut BmffParser::new(), Limits::default());
    assert!(col.warnings.iter().any(|w| w.kind == WarnKind::Truncated));
}

#[test]
fn parse_mvhd_duration_overflow_no_panic() {
    let m = parse_mvhd(&mvhd_v1(2_082_844_800, 1, u64::MAX));
    assert_eq!(m.duration_ms, None);
    assert!(m.timescale_invalid);
}

#[test]
fn parse_moov_nested_overrun_does_not_panic() {
    let mut bad_trak_p = Vec::new();
    bad_trak_p.extend_from_slice(&999u32.to_be_bytes());
    bad_trak_p.extend_from_slice(b"tkhd");
    bad_trak_p.extend_from_slice(&[0u8; 4]);
    let mut moov_p = Vec::new();
    moov_p.extend_from_slice(&box_bytes(b"trak", &bad_trak_p));
    let info = parse_moov(&moov_p, 0);
    assert_eq!(info.dims, None);
}

#[test]
fn drive_moov_declared_larger_than_file_is_truncated() {
    let mut buf = ftyp_mp4();
    let mut moov = Vec::new();
    moov.extend_from_slice(&100_000u32.to_be_bytes());
    moov.extend_from_slice(b"moov");
    moov.extend_from_slice(&[0u8; 8]);
    buf.extend_from_slice(&moov);
    let col = drive_slice(&buf, &mut BmffParser::new(), Limits::default());
    assert!(col.warnings.iter().any(|w| w.kind == WarnKind::Truncated));
}

#[test]
fn iso6709_parses_lat_lon_alt() {
    let g = parse_iso6709("+27.5916+086.5640+8850/").expect("gps");
    assert!((g.lat_e7 - 275_916_000).abs() <= 2);
    assert!((g.lon_e7 - 865_640_000).abs() <= 2);
    assert_eq!(g.alt_mm, Some(8_850_000));
}

#[test]
fn iso6709_without_altitude() {
    let g = parse_iso6709("+40.7128-074.0060/").expect("gps");
    assert!((g.lat_e7 - 407_128_000).abs() <= 2);
    assert!((g.lon_e7 + 740_060_000).abs() <= 2);
    assert_eq!(g.alt_mm, None);
}

#[test]
fn iso6709_malformed_is_none() {
    assert_eq!(parse_iso6709("garbage"), None);
    assert_eq!(parse_iso6709("+27.5916"), None);
    assert_eq!(parse_iso6709(""), None);
    assert_eq!(parse_iso6709("foo+1.0+2.0"), None);
}

#[test]
fn parse_xyz_atom_yields_gps() {
    let text = b"+27.5916+086.5640/";
    let mut payload = Vec::new();
    payload.extend_from_slice(&(text.len() as u16).to_be_bytes());
    payload.extend_from_slice(&0x15c7u16.to_be_bytes());
    payload.extend_from_slice(text);
    let g = parse_xyz(&payload).expect("gps");
    assert!((g.lat_e7 - 275_916_000).abs() <= 2);
    assert!((g.lon_e7 - 865_640_000).abs() <= 2);
}

#[test]
fn parse_xyz_truncated_is_none() {
    assert_eq!(parse_xyz(&[0u8, 5]), None);
    assert_eq!(parse_xyz(&[]), None);
}
