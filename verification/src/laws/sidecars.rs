//! What a sidecar can change, and that adding it twice is adding it once.
use vstd::prelude::*;

use crate::codecs::xmp::{
    attributes, back_name, back_white, decoded, decoded_is_bounded, elements, extends, find, leaf,
    name_end, qname, with_attribute, FrameView, Scan,
};
use crate::limits::Limits;
use crate::model::{MetadataView, RawView, StructuralView, WarnKind, Warning, XmpView};
use crate::normalize::{
    all_xmp, or, unified, xmp_gps, xmp_number, xmp_orientation, xmp_text,
};
use crate::sidecar::with_sidecar;
use crate::text::{trim, utf8};

verus! {

/// The unified fields are those that the raw tags give.
pub open spec fn derived(m: MetadataView) -> bool {
    m.unified == unified(m.raw, m.structural)
}

/// An unreadable sidecar, one that is too long or not UTF-8, adds one warning and changes
/// nothing else.
pub proof fn unreadable_sidecar_only_warns(m: MetadataView, packet: Seq<u8>, l: Limits)
    requires
        derived(m),
        utf8(packet) is None || packet.len() > l.max_payload_bytes,
    ensures
        with_sidecar(m, packet, l) == (MetadataView {
            warnings: m.warnings.push(Warning { offset: 0, kind: WarnKind::Truncated }),
            ..m
        }),
{
    assert(with_sidecar(m, packet, l).raw == m.raw);
}

/// An empty sidecar changes nothing.
pub proof fn empty_sidecar_changes_nothing(m: MetadataView, l: Limits)
    requires
        derived(m),
    ensures
        with_sidecar(m, seq![], l) == m,
{
    let none = Seq::<u8>::empty();
    assert(vstd::utf8::valid_utf8(none));
    let b = vstd::utf8::decode_utf8(none);
    assert(b.len() == 0);
    assert(attributes(b, 0, m.raw.xmp_sidecar, l) == m.raw.xmp_sidecar);
    assert(with_sidecar(m, none, l).raw == m.raw);
}

/// A sidecar keeps all raw tags, adds to its own list only, and the fields stay derived.
pub proof fn sidecar_only_adds(m: MetadataView, packet: Seq<u8>, l: Limits)
    ensures
        ({
            let r = with_sidecar(m, packet, l);
            &&& r.raw.exif == m.raw.exif
            &&& r.raw.xmp == m.raw.xmp
            &&& r.raw.container == m.raw.container
            &&& r.raw.text == m.raw.text
            &&& r.structural == m.structural
            &&& r.format == m.format
            &&& extends(m.raw.xmp_sidecar, r.raw.xmp_sidecar, l)
            &&& m.warnings.is_prefix_of(r.warnings)
            &&& derived(r)
        }),
{
    decoded_is_bounded(packet, m.raw.xmp_sidecar, m.warnings, l);
}

proof fn lemma_text_of(a: Seq<XmpView>, b: Seq<XmpView>, prefix: Seq<char>, name: Seq<char>)
    ensures
        xmp_text(a + b, prefix, name) == or(
            xmp_text(a, prefix, name),
            xmp_text(b, prefix, name),
        ),
    decreases a.len(),
{
    if a.len() == 0 {
        assert(a + b =~= b);
    } else {
        assert((a + b).drop_first() =~= a.drop_first() + b);
        assert((a + b)[0] == a[0]);
        lemma_text_of(a.drop_first(), b, prefix, name);
    }
}

proof fn lemma_number_of(a: Seq<XmpView>, b: Seq<XmpView>, prefix: Seq<char>, name: Seq<char>)
    ensures
        xmp_number(a + b, prefix, name) == or(
            xmp_number(a, prefix, name),
            xmp_number(b, prefix, name),
        ),
    decreases a.len(),
{
    if a.len() == 0 {
        assert(a + b =~= b);
    } else {
        assert((a + b).drop_first() =~= a.drop_first() + b);
        assert((a + b)[0] == a[0]);
        lemma_number_of(a.drop_first(), b, prefix, name);
    }
}

proof fn lemma_orientation_of(a: Seq<XmpView>, b: Seq<XmpView>)
    ensures
        xmp_orientation(a + b) == or(xmp_orientation(a), xmp_orientation(b)),
    decreases a.len(),
{
    if a.len() == 0 {
        assert(a + b =~= b);
    } else {
        assert((a + b).drop_first() =~= a.drop_first() + b);
        assert((a + b)[0] == a[0]);
        lemma_orientation_of(a.drop_first(), b);
    }
}

proof fn lemma_gps_of(a: Seq<XmpView>, b: Seq<XmpView>)
    ensures
        xmp_gps(a) is Some ==> xmp_gps(a + b) == xmp_gps(a),
{
    lemma_text_of(a, b, "exif"@, "GPSLatitude"@);
    lemma_text_of(a, b, "exif"@, "GPSLongitude"@);
}

/// A field that was there is as it was.
pub open spec fn stays<T>(before: Option<T>, after: Option<T>) -> bool {
    before is Some ==> after == before
}

/// A sidecar fills gaps: of the fields that do not fall back on PNG texts, each one that was
/// there is as it was; where there are no PNG texts, so is every other one.
#[verifier::spinoff_prover]
#[verifier::rlimit(50)]
pub proof fn sidecar_fills_gaps(m: MetadataView, packet: Seq<u8>, l: Limits)
    requires
        derived(m),
    ensures
        ({
            let (u, v) = (m.unified, with_sidecar(m, packet, l).unified);
            &&& stays(u.width, v.width)
            &&& stays(u.height, v.height)
            &&& stays(u.orientation, v.orientation)
            &&& stays(u.camera_make, v.camera_make)
            &&& stays(u.camera_model, v.camera_model)
            &&& v.duration_ms == u.duration_ms
            &&& v.created == u.created
            &&& stays(u.gps, v.gps)
            &&& m.raw.text.len() == 0 ==> {
                &&& stays(u.software, v.software)
                &&& stays(u.creator, v.creator)
                &&& stays(u.title, v.title)
                &&& stays(u.description, v.description)
                &&& stays(u.copyright, v.copyright)
            }
        }),
{
    sidecar_only_adds(m, packet, l);
    let r = with_sidecar(m, packet, l);
    let a = all_xmp(m.raw);
    let b = r.raw.xmp_sidecar.skip(m.raw.xmp_sidecar.len() as int);
    assert(all_xmp(r.raw) =~= a + b);
    lemma_number_of(a, b, "tiff"@, "ImageWidth"@);
    lemma_number_of(a, b, "tiff"@, "ImageLength"@);
    lemma_orientation_of(a, b);
    lemma_gps_of(a, b);
    lemma_text_of(a, b, "tiff"@, "Make"@);
    lemma_text_of(a, b, "tiff"@, "Model"@);
    lemma_text_of(a, b, "xmp"@, "CreatorTool"@);
    lemma_text_of(a, b, "dc"@, "creator"@);
    lemma_text_of(a, b, "dc"@, "title"@);
    lemma_text_of(a, b, "dc"@, "description"@);
    lemma_text_of(a, b, "dc"@, "rights"@);
}

/// `r1` adds to `o1` what `r2` adds to `o2`, as far as the bound lets either grow.
pub open spec fn grows_alike(
    o1: Seq<XmpView>,
    r1: Seq<XmpView>,
    o2: Seq<XmpView>,
    r2: Seq<XmpView>,
    l: Limits,
) -> bool {
    let (y1, y2) = (r1.skip(o1.len() as int), r2.skip(o2.len() as int));
    &&& o1.is_prefix_of(r1)
    &&& o2.is_prefix_of(r2)
    &&& y1 == y2 || (y1.is_prefix_of(y2) && r1.len() >= l.max_tags) || (y2.is_prefix_of(y1)
        && r2.len() >= l.max_tags)
}

proof fn lemma_push_alike(
    o1: Seq<XmpView>,
    r1: Seq<XmpView>,
    o2: Seq<XmpView>,
    r2: Seq<XmpView>,
    x: XmpView,
    l: Limits,
)
    requires
        grows_alike(o1, r1, o2, r2, l),
    ensures
        ({
            let p1 = if r1.len() >= l.max_tags {
                r1
            } else {
                r1.push(x)
            };
            let p2 = if r2.len() >= l.max_tags {
                r2
            } else {
                r2.push(x)
            };
            grows_alike(o1, p1, o2, p2, l)
        }),
{
    let (n1, n2) = (o1.len() as int, o2.len() as int);
    assert(r1.push(x).skip(n1) =~= r1.skip(n1).push(x));
    assert(r2.push(x).skip(n2) =~= r2.skip(n2).push(x));
    assert(o1.is_prefix_of(r1.push(x)));
    assert(o2.is_prefix_of(r2.push(x)));
}

proof fn lemma_attributes_alike(
    b: Seq<char>,
    i: int,
    o1: Seq<XmpView>,
    r1: Seq<XmpView>,
    o2: Seq<XmpView>,
    r2: Seq<XmpView>,
    l: Limits,
)
    requires
        grows_alike(o1, r1, o2, r2, l),
    ensures
        grows_alike(o1, attributes(b, i, r1, l), o2, attributes(b, i, r2, l), l),
    decreases b.len() - i,
{
    if i + 1 >= b.len() {
    } else if b[i] == '=' && (b[i + 1] == '"' || b[i + 1] == '\'') {
        let ne = back_white(b, i);
        let ns = back_name(b, ne);
        let ve = find(b, b[i + 1], i + 2);
        if i <= ve < b.len() {
            let (q, value) = (b.subrange(ns, ne), b.subrange(i + 2, ve));
            match crate::codecs::xmp::split(q) {
                Some((px, nm)) => {
                    let x = XmpView {
                        prefix: px,
                        name: nm,
                        value: crate::codecs::xmp::entities(value),
                    };
                    lemma_push_alike(o1, r1, o2, r2, x, l);
                },
                None => {},
            }
            lemma_attributes_alike(
                b,
                ve + 1,
                o1,
                with_attribute(r1, l, q, value),
                o2,
                with_attribute(r2, l, q, value),
                l,
            );
        }
    } else {
        lemma_attributes_alike(b, i + 1, o1, r1, o2, r2, l);
    }
}

proof fn lemma_leaf_alike(
    px: Seq<char>,
    nm: Seq<char>,
    content: Seq<char>,
    s1: Scan,
    s2: Scan,
    o1: Seq<XmpView>,
    o2: Seq<XmpView>,
    l: Limits,
)
    requires
        s1.stack == s2.stack,
        grows_alike(o1, s1.out, o2, s2.out, l),
    ensures
        leaf(px, nm, content, s1, l).stack == leaf(px, nm, content, s2, l).stack,
        grows_alike(
            o1,
            leaf(px, nm, content, s1, l).out,
            o2,
            leaf(px, nm, content, s2, l).out,
            l,
        ),
{
    let value = crate::codecs::xmp::entities(trim(content));
    assert forall|p: Seq<char>, n: Seq<char>|
        grows_alike(
            o1,
            #[trigger] crate::codecs::xmp::with_prop(s1.out, l, p, n, trim(content)),
            o2,
            crate::codecs::xmp::with_prop(s2.out, l, p, n, trim(content)),
            l,
        ) by {
        lemma_push_alike(
            o1,
            s1.out,
            o2,
            s2.out,
            XmpView { prefix: p, name: n, value },
            l,
        );
    }
}

proof fn lemma_elements_alike(
    b: Seq<char>,
    i: int,
    s1: Scan,
    s2: Scan,
    o1: Seq<XmpView>,
    o2: Seq<XmpView>,
    l: Limits,
)
    requires
        s1.stack == s2.stack,
        grows_alike(o1, s1.out, o2, s2.out, l),
    ensures
        grows_alike(o1, elements(b, i, s1, l), o2, elements(b, i, s2, l), l),
    decreases b.len() - i,
{
    if i + 1 >= b.len() {
    } else if b[i] != '<' {
        lemma_elements_alike(b, i + 1, s1, s2, o1, o2, l);
    } else if b[i + 1] == '!' || b[i + 1] == '?' {
        let gt = find(b, '>', i + 1);
        if i < gt <= b.len() {
            lemma_elements_alike(b, gt, s1, s2, o1, o2, l);
        }
    } else if b[i + 1] == '/' {
        let (px, nm) = qname(b, i + 2);
        let gt = find(b, '>', name_end(b, i + 2));
        let stack = if s1.stack.len() > 0 && s1.stack.last().prefix == px && s1.stack.last().name
            == nm {
            s1.stack.drop_last()
        } else {
            s1.stack
        };
        if i < gt <= b.len() {
            lemma_elements_alike(b, gt, Scan { stack, ..s1 }, Scan { stack, ..s2 }, o1, o2, l);
        }
    } else {
        let (px, nm) = qname(b, i + 1);
        let gt = find(b, '>', name_end(b, i + 1));
        if gt <= i || gt >= b.len() {
        } else if b[gt - 1] == '/' || px.len() == 0 {
            lemma_elements_alike(b, gt + 1, s1, s2, o1, o2, l);
        } else {
            let j = find(b, '<', gt + 1);
            let content = b.subrange(gt + 1, j);
            if gt < j < b.len() && trim(content).len() > 0 {
                lemma_leaf_alike(px, nm, content, s1, s2, o1, o2, l);
                lemma_elements_alike(
                    b,
                    j,
                    leaf(px, nm, content, s1, l),
                    leaf(px, nm, content, s2, l),
                    o1,
                    o2,
                    l,
                );
            } else {
                let frame = FrameView {
                    prefix: px,
                    name: nm,
                    is_alt: px == "rdf"@ && nm == "Alt"@,
                    alt_taken: false,
                };
                if s1.stack.len() < l.max_depth {
                    let stack = s1.stack.push(frame);
                    lemma_elements_alike(
                        b,
                        gt + 1,
                        Scan { stack, ..s1 },
                        Scan { stack, ..s2 },
                        o1,
                        o2,
                        l,
                    );
                } else {
                    lemma_elements_alike(b, gt + 1, s1, s2, o1, o2, l);
                }
            }
        }
    }
}

/// Decoding the same packet on top of two lists adds the same properties, as far as the
/// bound lets either grow.
proof fn lemma_decoded_alike(
    packet: Seq<u8>,
    o1: Seq<XmpView>,
    o2: Seq<XmpView>,
    w1: Seq<Warning>,
    w2: Seq<Warning>,
    l: Limits,
)
    ensures
        grows_alike(o1, decoded(packet, o1, w1, l).0, o2, decoded(packet, o2, w2, l).0, l),
{
    assert(o1.skip(o1.len() as int) =~= o2.skip(o2.len() as int));
    assert(grows_alike(o1, o1, o2, o2, l));
    match utf8(packet) {
        Some(b) => {
            lemma_attributes_alike(b, 0, o1, o1, o2, o2, l);
            lemma_elements_alike(
                b,
                0,
                Scan { stack: seq![], out: attributes(b, 0, o1, l) },
                Scan { stack: seq![], out: attributes(b, 0, o2, l) },
                o1,
                o2,
                l,
            );
        },
        None => {},
    }
}

/// Properties that stand in `a` already change nothing behind it.
proof fn lemma_repeated(a: Seq<XmpView>, x: Seq<XmpView>, y: Seq<XmpView>)
    requires
        y.is_prefix_of(x),
    ensures
        forall|p: Seq<char>, n: Seq<char>| #[trigger]
            xmp_text(a + x + y, p, n) == xmp_text(a + x, p, n),
        forall|p: Seq<char>, n: Seq<char>| #[trigger]
            xmp_number(a + x + y, p, n) == xmp_number(a + x, p, n),
        xmp_orientation(a + x + y) == xmp_orientation(a + x),
{
    let z = x.skip(y.len() as int);
    assert(x =~= y + z);
    assert forall|p: Seq<char>, n: Seq<char>| #[trigger]
        xmp_text(a + x + y, p, n) == xmp_text(a + x, p, n) by {
        lemma_text_of(a + x, y, p, n);
        lemma_text_of(a, x, p, n);
        lemma_text_of(y, z, p, n);
    }
    assert forall|p: Seq<char>, n: Seq<char>| #[trigger]
        xmp_number(a + x + y, p, n) == xmp_number(a + x, p, n) by {
        lemma_number_of(a + x, y, p, n);
        lemma_number_of(a, x, p, n);
        lemma_number_of(y, z, p, n);
    }
    lemma_orientation_of(a + x, y);
    lemma_orientation_of(a, x);
    lemma_orientation_of(y, z);
}

/// What the second time adds repeats what the first time added.
proof fn lemma_second_time(packet: Seq<u8>, s: Seq<XmpView>, w1: Seq<Warning>, w2: Seq<Warning>, l: Limits)
    ensures
        ({
            let r1 = decoded(packet, s, w1, l).0;
            let r2 = decoded(packet, r1, w2, l).0;
            let (x, y) = (r1.skip(s.len() as int), r2.skip(r1.len() as int));
            &&& r1 == s + x
            &&& r2 == r1 + y
            &&& y.is_prefix_of(x)
        }),
{
    let r1 = decoded(packet, s, w1, l).0;
    let r2 = decoded(packet, r1, w2, l).0;
    lemma_decoded_alike(packet, s, r1, w1, w2, l);
    decoded_is_bounded(packet, r1, w2, l);
    let (x, y) = (r1.skip(s.len() as int), r2.skip(r1.len() as int));
    assert(r1 =~= s + x);
    assert(r2 =~= r1 + y);
    if r1.len() >= l.max_tags {
        assert(y.len() == 0);
    }
}

/// Repeated properties leave the unified fields as they are.
#[verifier::spinoff_prover]
#[verifier::rlimit(50)]
proof fn lemma_unified_repeated(
    raw: RawView,
    st: StructuralView,
    s: Seq<XmpView>,
    x: Seq<XmpView>,
    y: Seq<XmpView>,
)
    requires
        y.is_prefix_of(x),
    ensures
        unified(RawView { xmp_sidecar: s + x + y, ..raw }, st) == unified(
            RawView { xmp_sidecar: s + x, ..raw },
            st,
        ),
{
    let once = RawView { xmp_sidecar: s + x, ..raw };
    let twice = RawView { xmp_sidecar: s + x + y, ..raw };
    let a = raw.xmp + s;
    assert(all_xmp(once) =~= a + x);
    assert(all_xmp(twice) =~= a + x + y);
    lemma_repeated(a, x, y);
}

/// Adding the same sidecar twice leaves the unified fields as adding it once does.
pub proof fn sidecar_twice_is_once(m: MetadataView, packet: Seq<u8>, l: Limits)
    ensures
        ({
            let once = with_sidecar(m, packet, l);
            with_sidecar(once, packet, l).unified == once.unified
        }),
{
    let once = with_sidecar(m, packet, l);
    let twice = with_sidecar(once, packet, l);
    let s = m.raw.xmp_sidecar;
    let (r1, r2) = (once.raw.xmp_sidecar, twice.raw.xmp_sidecar);
    lemma_second_time(packet, s, m.warnings, once.warnings, l);
    let x = r1.skip(s.len() as int);
    let y = r2.skip(r1.len() as int);
    lemma_unified_repeated(m.raw, m.structural, s, x, y);
    assert(once.raw == RawView { xmp_sidecar: s + x, ..m.raw });
    assert(twice.raw == RawView { xmp_sidecar: s + x + y, ..m.raw });
}

} // verus!
