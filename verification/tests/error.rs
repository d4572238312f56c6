//! Errors in words.
use omni_meta::Error;

#[test]
fn error_display_renders() {
    assert_eq!(
        Error::UnrecognizedFormat.message(),
        "unrecognized file format"
    );
}

#[test]
fn io_display_renders() {
    assert_eq!(Error::Io.message(), "i/o error");
}

#[test]
fn unsupported_message() {
    assert_eq!(Error::Unsupported.message(), "unsupported file format");
}

#[test]
fn display_renders() {
    assert_eq!(Error::UnrecognizedFormat.message(), "unrecognized file format");
}
