//! Metadata of images and videos: EXIF, XMP and what containers tell, read from whole buffers
//! or from streams that arrive in pieces, and images without it.
//!
//! Parsers are state machines that see windows of a source and never touch it themselves.
//! Drivers follow their demands and collect what they find. However a source is read, the
//! result is the same.
pub mod adapters;
pub mod bytes;
pub mod civil;
pub mod codecs;
pub mod compare;
pub mod containers;
pub mod cursor;
pub mod dates;
pub mod demand;
pub mod double;
pub mod driver;
pub mod error;
pub mod fixtures;
pub mod formats;
pub mod fuzzing;
pub mod geo;
pub mod laws;
pub mod limits;
pub mod model;
pub mod normalize;
pub mod probe;
pub mod sidecar;
pub mod strip;
pub mod text;

pub use adapters::push::PushParser;
pub use adapters::slice::{read_slice, Options};
pub use adapters::strip_slice::strip_slice;
pub use driver::Outcome;
pub use error::Error;
pub use limits::Limits;
pub use model::{
    ContainerSource, ContainerTag, DateTimeParts, ExifTag, FileFormat, Gps, IfdKind, Metadata,
    Orientation, RawTags, TextTag, TextValue, Unified, Value, WarnKind, Warning, XmpProperty,
};
pub use strip::{RemovedKind, RemovedKinds, StripOptions, StripReport};
