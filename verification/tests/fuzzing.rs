//! Entry points that go around the detection of formats.
use omni_meta::fuzzing::{decode_exif, decode_xmp, drive_bmff, drive_ebml};
use omni_meta::Limits;

#[test]
fn lib_crate_builds() {
    assert_eq!(2 + 2, 4);
}

#[test]
fn decode_exif_wrapper_runs_and_is_bounded() {
    let tiff: &[u8] = &[
        b'I', b'I', 42, 0, 8, 0, 0, 0,
        1, 0,
        0x0F, 0x01, 2, 0, 2, 0, 0, 0, b'A', 0, 0, 0,
        0, 0, 0, 0,
    ];
    let (tags, warns) = decode_exif(tiff, &Limits::default());
    assert!(tags.len() <= Limits::default().max_tags);
    let _ = warns;
}

#[test]
fn decode_xmp_wrapper_runs() {
    let (props, _w) = decode_xmp(
        br#"<rdf:Description xmlns:tiff="n" tiff:Make="Acme"/>"#,
        &Limits::default(),
    );
    assert!(props.iter().any(|p| p.name == "Make"));
}

#[test]
fn drive_bmff_wrapper_runs_on_garbage_without_panic() {
    let m = drive_bmff(&[0u8; 32], Limits::default());
    assert!(m.raw.container.len() <= Limits::default().max_tags);
}

#[test]
fn drive_ebml_wrapper_runs_on_garbage_without_panic() {
    let _ = drive_ebml(&[0u8; 32], Limits::default());
}
