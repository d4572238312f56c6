//! The limits where none are given.
use omni_meta::Limits;

#[test]
fn defaults_are_sane() {
    let l = Limits::default();
    assert_eq!(l.max_tags, 8192);
    assert!(l.max_retained_bytes < l.max_total_alloc);
}

#[test]
fn crate_builds() {
    assert_eq!(2 + 2, 4);
}
