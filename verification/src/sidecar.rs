//! Adding the XMP of a sidecar file to metadata that was read before.
use vstd::prelude::*;

use crate::codecs::xmp::decoded;
use crate::limits::Limits;
use crate::model::{Metadata, MetadataView, RawView, Warning};
use crate::normalize::{normalize, unified};

verus! {

/// `m` with the properties of a sidecar added: they come behind all others, and the
/// unified fields are derived anew.
pub open spec fn with_sidecar(m: MetadataView, packet: Seq<u8>, limits: Limits) -> MetadataView {
    let (xmp_sidecar, warnings) = decoded(packet, m.raw.xmp_sidecar, m.warnings, limits);
    let raw = RawView { xmp_sidecar, ..m.raw };
    MetadataView { unified: unified(raw, m.structural), raw, warnings, ..m }
}

impl Metadata {
    /// Adds the XMP packet of a sidecar file. A packet that cannot be read adds a warning
    /// only; deriving the fields anew adds none.
    pub fn with_xmp_sidecar(self, packet: &[u8], limits: Limits) -> (r: Self)
        ensures
            r@ == with_sidecar(self@, packet@, limits),
    {
        let mut m = self;
        crate::codecs::xmp::decode(packet, &mut m.raw.xmp_sidecar, &mut m.warnings, &limits);
        let mut derived: Vec<Warning> = Vec::new();
        m.unified = normalize(&m.raw, &m.structural, &mut derived);
        m
    }
}

} // verus!
