//! The counter of live bytes.
use omni_meta::fuzzing::AllocCounter;

#[test]
fn counts_and_caps_without_allocating() {
    let mut c = AllocCounter::new(100);
    assert!(c.try_add(60));
    assert_eq!(c.live(), 60);
    assert!(!c.try_add(60));
    assert_eq!(c.live(), 60);
    c.sub(60);
    assert_eq!(c.live(), 0);
    assert!(c.try_add(60));
}

#[test]
fn add_overflow_is_rejected() {
    let mut c = AllocCounter::new(usize::MAX);
    assert!(c.try_add(usize::MAX));
    assert!(!c.try_add(1));
}
