//! Whether two pieces of metadata are the same.
use vstd::prelude::*;

use crate::bytes::same;
use crate::model::{
    container_views, exif_views, opt_text, text_views, xmp_views, ContainerTag, ExifTag, Metadata,
    RawTags, StructuralFields, TextTag, TextValue, Unified, Value, Warning, XmpProperty,
};
use crate::text::str_eq;

verus! {

/// Whether two optional strings are the same.
pub fn same_text(a: &Option<String>, b: &Option<String>) -> (r: bool)
    ensures
        r == (opt_text(*a) == opt_text(*b)),
{
    match (a, b) {
        (Some(x), Some(y)) => str_eq(x.as_str(), y.as_str()),
        (None, None) => true,
        _ => false,
    }
}

/// Whether two values are the same.
pub fn same_value(a: &Value, b: &Value) -> (r: bool)
    ensures
        r == (a@ == b@),
    decreases a,
{
    match (a, b) {
        (Value::U16(x), Value::U16(y)) => *x == *y,
        (Value::U32(x), Value::U32(y)) => *x == *y,
        (Value::Text(x), Value::Text(y)) => str_eq(x.as_str(), y.as_str()),
        (Value::Rational(n, d), Value::Rational(m, e)) => *n == *m && *d == *e,
        (Value::SRational(n, d), Value::SRational(m, e)) => *n == *m && *d == *e,
        (Value::Bytes(x), Value::Bytes(y)) => same(x.as_slice(), y.as_slice()),
        (Value::List(x), Value::List(y)) => {
            let ghost (p, q) = (a@->List_0, b@->List_0);
            if x.len() != y.len() {
                assert(p.len() != q.len());
                return false;
            }
            let mut i: usize = 0;
            while i < x.len()
                invariant
                    i <= x@.len(),
                    x@.len() == y@.len(),
                    p.len() == x@.len(),
                    q.len() == y@.len(),
                    a@ == crate::model::ValueView::List(p),
                    b@ == crate::model::ValueView::List(q),
                    forall|j: int| 0 <= j < x@.len() ==> #[trigger] p[j] == x@[j]@,
                    forall|j: int| 0 <= j < y@.len() ==> #[trigger] q[j] == y@[j]@,
                    forall|j: int| 0 <= j < i ==> #[trigger] p[j] == q[j],
                    decreases_to!(a => x@),
                decreases x@.len() - i,
            {
                assert(decreases_to!(x@ => x@[i as int]));
                if !same_value(&x[i], &y[i]) {
                    assert(p[i as int] != q[i as int]);
                    return false;
                }
                assert(p[i as int] == q[i as int]);
                i += 1;
            }
            assert(p =~= q);
            true
        },
        _ => false,
    }
}

pub fn same_exif_tag(a: &ExifTag, b: &ExifTag) -> (r: bool)
    ensures
        r == (a@ == b@),
{
    a.ifd == b.ifd && a.tag == b.tag && same_value(&a.value, &b.value)
}

pub fn same_property(a: &XmpProperty, b: &XmpProperty) -> (r: bool)
    ensures
        r == (a@ == b@),
{
    str_eq(a.prefix.as_str(), b.prefix.as_str()) && str_eq(a.name.as_str(), b.name.as_str())
        && str_eq(a.value.as_str(), b.value.as_str())
}

pub fn same_container_tag(a: &ContainerTag, b: &ContainerTag) -> (r: bool)
    ensures
        r == (a@ == b@),
{
    a.source == b.source && str_eq(a.key.as_str(), b.key.as_str()) && same_value(
        &a.value,
        &b.value,
    )
}

pub fn same_text_tag(a: &TextTag, b: &TextTag) -> (r: bool)
    ensures
        r == (a@ == b@),
{
    str_eq(a.keyword.as_str(), b.keyword.as_str()) && match (&a.value, &b.value) {
        (TextValue::Latin1(x), TextValue::Latin1(y)) => str_eq(x.as_str(), y.as_str()),
        (TextValue::Utf8(x), TextValue::Utf8(y)) => str_eq(x.as_str(), y.as_str()),
        (TextValue::CompressedLatin1(x), TextValue::CompressedLatin1(y)) => same(
            x.as_slice(),
            y.as_slice(),
        ),
        (TextValue::CompressedUtf8(x), TextValue::CompressedUtf8(y)) => same(
            x.as_slice(),
            y.as_slice(),
        ),
        _ => false,
    }
}

fn same_exif(a: &Vec<ExifTag>, b: &Vec<ExifTag>) -> (r: bool)
    ensures
        r == (exif_views(a@) == exif_views(b@)),
{
    let ghost (p, q) = (exif_views(a@), exif_views(b@));
    if a.len() != b.len() {
        assert(p.len() != q.len());
        return false;
    }
    let mut i: usize = 0;
    while i < a.len()
        invariant
            i <= a@.len(),
            a@.len() == b@.len(),
            p == exif_views(a@),
            q == exif_views(b@),
            forall|j: int| 0 <= j < i ==> #[trigger] p[j] == q[j],
        decreases a@.len() - i,
    {
        if !same_exif_tag(&a[i], &b[i]) {
            assert(p[i as int] != q[i as int]);
            return false;
        }
        assert(p[i as int] == q[i as int]);
        i += 1;
    }
    assert(p =~= q);
    true
}

fn same_xmp(a: &Vec<XmpProperty>, b: &Vec<XmpProperty>) -> (r: bool)
    ensures
        r == (xmp_views(a@) == xmp_views(b@)),
{
    let ghost (p, q) = (xmp_views(a@), xmp_views(b@));
    if a.len() != b.len() {
        assert(p.len() != q.len());
        return false;
    }
    let mut i: usize = 0;
    while i < a.len()
        invariant
            i <= a@.len(),
            a@.len() == b@.len(),
            p == xmp_views(a@),
            q == xmp_views(b@),
            forall|j: int| 0 <= j < i ==> #[trigger] p[j] == q[j],
        decreases a@.len() - i,
    {
        if !same_property(&a[i], &b[i]) {
            assert(p[i as int] != q[i as int]);
            return false;
        }
        assert(p[i as int] == q[i as int]);
        i += 1;
    }
    assert(p =~= q);
    true
}

fn same_container(a: &Vec<ContainerTag>, b: &Vec<ContainerTag>) -> (r: bool)
    ensures
        r == (container_views(a@) == container_views(b@)),
{
    let ghost (p, q) = (container_views(a@), container_views(b@));
    if a.len() != b.len() {
        assert(p.len() != q.len());
        return false;
    }
    let mut i: usize = 0;
    while i < a.len()
        invariant
            i <= a@.len(),
            a@.len() == b@.len(),
            p == container_views(a@),
            q == container_views(b@),
            forall|j: int| 0 <= j < i ==> #[trigger] p[j] == q[j],
        decreases a@.len() - i,
    {
        if !same_container_tag(&a[i], &b[i]) {
            assert(p[i as int] != q[i as int]);
            return false;
        }
        assert(p[i as int] == q[i as int]);
        i += 1;
    }
    assert(p =~= q);
    true
}

fn same_texts(a: &Vec<TextTag>, b: &Vec<TextTag>) -> (r: bool)
    ensures
        r == (text_views(a@) == text_views(b@)),
{
    let ghost (p, q) = (text_views(a@), text_views(b@));
    if a.len() != b.len() {
        assert(p.len() != q.len());
        return false;
    }
    let mut i: usize = 0;
    while i < a.len()
        invariant
            i <= a@.len(),
            a@.len() == b@.len(),
            p == text_views(a@),
            q == text_views(b@),
            forall|j: int| 0 <= j < i ==> #[trigger] p[j] == q[j],
        decreases a@.len() - i,
    {
        if !same_text_tag(&a[i], &b[i]) {
            assert(p[i as int] != q[i as int]);
            return false;
        }
        assert(p[i as int] == q[i as int]);
        i += 1;
    }
    assert(p =~= q);
    true
}

fn same_warnings(a: &Vec<Warning>, b: &Vec<Warning>) -> (r: bool)
    ensures
        r == (a@ == b@),
{
    if a.len() != b.len() {
        return false;
    }
    let mut i: usize = 0;
    while i < a.len()
        invariant
            i <= a@.len(),
            a@.len() == b@.len(),
            forall|j: int| 0 <= j < i ==> #[trigger] a@[j] == b@[j],
        decreases a@.len() - i,
    {
        if a[i] != b[i] {
            return false;
        }
        i += 1;
    }
    assert(a@ =~= b@);
    true
}

/// Whether two sets of raw tags are the same.
pub fn same_raw(a: &RawTags, b: &RawTags) -> (r: bool)
    ensures
        r == (a@ == b@),
{
    same_exif(&a.exif, &b.exif) && same_xmp(&a.xmp, &b.xmp) && same_xmp(
        &a.xmp_sidecar,
        &b.xmp_sidecar,
    ) && same_container(&a.container, &b.container) && same_texts(&a.text, &b.text)
}

pub fn same_structural(a: &StructuralFields, b: &StructuralFields) -> (r: bool)
    ensures
        r == (a@ == b@),
{
    a.width == b.width && a.height == b.height && a.duration_ms == b.duration_ms && a.created
        == b.created && a.gps == b.gps && same_text(&a.camera_make, &b.camera_make) && same_text(
        &a.camera_model,
        &b.camera_model,
    )
}

/// Whether the unified fields are the same.
pub fn same_unified(a: &Unified, b: &Unified) -> (r: bool)
    ensures
        r == (a@ == b@),
{
    a.width == b.width && a.height == b.height && a.orientation == b.orientation && same_text(
        &a.camera_make,
        &b.camera_make,
    ) && same_text(&a.camera_model, &b.camera_model) && a.duration_ms == b.duration_ms && a.created
        == b.created && a.gps == b.gps && same_text(&a.software, &b.software) && same_text(
        &a.creator,
        &b.creator,
    ) && same_text(&a.title, &b.title) && same_text(&a.description, &b.description) && same_text(
        &a.copyright,
        &b.copyright,
    )
}

/// Whether the metadata is the same, warnings and all.
pub fn same_metadata(a: &Metadata, b: &Metadata) -> (r: bool)
    ensures
        r == (a@ == b@),
{
    same_unified(&a.unified, &b.unified) && same_raw(&a.raw, &b.raw) && same_warnings(
        &a.warnings,
        &b.warnings,
    ) && a.format == b.format && same_structural(&a.structural, &b.structural)
}

} // verus!
