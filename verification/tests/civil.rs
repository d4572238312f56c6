//! The civil calendar.
use omni_meta::civil::civil_from_days;

#[test]
fn civil_from_days_known_vectors() {
    assert_eq!(civil_from_days(0), (1970, 1, 1));
    assert_eq!(civil_from_days(31), (1970, 2, 1));
    assert_eq!(civil_from_days(-1), (1969, 12, 31));
    assert_eq!(civil_from_days(59), (1970, 3, 1));
}
