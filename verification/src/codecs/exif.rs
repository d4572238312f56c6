//! EXIF: a TIFF header, then directories of tags. The first directory links to the
//! thumbnail's, and pointer tags lead to the Exif, GPS and Interop directories.
use vstd::prelude::*;

use crate::bytes::{find_byte, find_from, part};
use crate::cursor::{read_u16, read_u32, u16_at, u32_at, ByteCursor, Endian};
use crate::limits::Limits;
use crate::model::{
    exif_views, ExifTag, ExifTagView, IfdKind, Value, ValueView, WarnKind, Warning,
};
use crate::text::{utf8, utf8_text};

verus! {

broadcast use crate::model::group_views;

pub const TAG_EXIF_IFD: u16 = 0x8769;

pub const TAG_GPS_IFD: u16 = 0x8825;

pub const TAG_INTEROP_IFD: u16 = 0xA005;

/// A directory that is still to be read.
#[derive(Clone, Copy, Debug, PartialEq, Eq, Structural)]
pub struct Link {
    pub kind: IfdKind,
    pub off: u32,
}

/// The size in bytes of one unit of a TIFF type. Types that are not read have none.
pub open spec fn unit(typ: u16) -> Option<int> {
    if typ == 1 || typ == 2 || typ == 7 {
        Some(1)
    } else if typ == 3 {
        Some(2)
    } else if typ == 4 {
        Some(4)
    } else if typ == 5 || typ == 10 {
        Some(8)
    } else {
        None
    }
}

/// The number of the given type at `i`.
pub open spec fn scalar(e: Endian, typ: u16, b: Seq<u8>, i: int) -> ValueView {
    if typ == 3 {
        ValueView::U16(u16_at(e, b, i))
    } else if typ == 4 {
        ValueView::U32(u32_at(e, b, i))
    } else if typ == 5 {
        ValueView::Rational(u32_at(e, b, i), u32_at(e, b, i + 4))
    } else {
        ValueView::SRational(u32_at(e, b, i) as i32, u32_at(e, b, i + 4) as i32)
    }
}

/// The value that `cnt` units of the given type make of `data`: text up to the first
/// zero byte, bytes, one number, or a list of numbers.
pub open spec fn typed(e: Endian, typ: u16, cnt: u32, data: Seq<u8>) -> Option<ValueView> {
    if typ == 2 {
        match utf8(data.subrange(0, find_from(data, 0, 0))) {
            Some(s) => Some(ValueView::Text(s)),
            None => None,
        }
    } else if typ == 1 || typ == 7 {
        Some(ValueView::Bytes(data))
    } else if cnt == 1 {
        Some(scalar(e, typ, data, 0))
    } else {
        Some(
            ValueView::List(
                Seq::new(cnt as nat, |i: int| scalar(e, typ, data, i * unit(typ).unwrap())),
            ),
        )
    }
}

/// The value of the entry whose value field is at `at`. Up to four bytes stand in the
/// field itself, longer values at the offset that it gives. There is none where the
/// type is not read, the value is empty, longer than `max`, or not all there.
pub open spec fn value(
    tiff: Seq<u8>,
    e: Endian,
    typ: u16,
    cnt: u32,
    at: int,
    max: int,
) -> Option<ValueView> {
    match unit(typ) {
        None => None,
        Some(u) => {
            let total = cnt as int * u;
            let off = if total <= 4 {
                at
            } else {
                u32_at(e, tiff, at) as int
            };
            if total == 0 || total > max || off + total > tiff.len() {
                None
            } else {
                typed(e, typ, cnt, tiff.subrange(off, off + total))
            }
        },
    }
}

/// The directory that a pointer tag in a directory of the given kind leads to.
pub open spec fn child(kind: IfdKind, tag: u16) -> Option<IfdKind> {
    if kind == IfdKind::Primary && tag == TAG_EXIF_IFD {
        Some(IfdKind::Exif)
    } else if kind == IfdKind::Primary && tag == TAG_GPS_IFD {
        Some(IfdKind::Gps)
    } else if kind == IfdKind::Exif && tag == TAG_INTEROP_IFD {
        Some(IfdKind::Interop)
    } else {
        None
    }
}

/// The links that a tag adds.
pub open spec fn links_of(kind: IfdKind, tag: u16, v: ValueView) -> Seq<Link> {
    match (child(kind, tag), v) {
        (Some(k), ValueView::U32(off)) => seq![Link { kind: k, off }],
        _ => seq![],
    }
}

/// The tags and links after `n` more entries from `pos` on, as far as the bytes and
/// the bound on the number of tags reach.
pub open spec fn entries(
    tiff: Seq<u8>,
    e: Endian,
    kind: IfdKind,
    pos: int,
    n: nat,
    out: Seq<ExifTagView>,
    links: Seq<Link>,
    l: Limits,
) -> (Seq<ExifTagView>, Seq<Link>)
    decreases n,
{
    if n == 0 || out.len() >= l.max_tags || pos + 12 > tiff.len() {
        (out, links)
    } else {
        let tag = u16_at(e, tiff, pos);
        match value(
            tiff,
            e,
            u16_at(e, tiff, pos + 2),
            u32_at(e, tiff, pos + 4),
            pos + 8,
            l.max_payload_bytes as int,
        ) {
            Some(v) => entries(
                tiff,
                e,
                kind,
                pos + 12,
                (n - 1) as nat,
                out.push(ExifTagView { ifd: kind, tag, value: v }),
                links + links_of(kind, tag, v),
                l,
            ),
            None => entries(tiff, e, kind, pos + 12, (n - 1) as nat, out, links, l),
        }
    }
}

/// The link to the thumbnail's directory that stands behind the `count` entries of the
/// first directory.
pub open spec fn next_link(tiff: Seq<u8>, e: Endian, kind: IfdKind, off: int, count: u16) -> Seq<
    Link,
> {
    let at = off + 2 + 12 * count;
    if kind == IfdKind::Primary && at + 4 <= tiff.len() && u32_at(e, tiff, at) != 0 {
        seq![Link { kind: IfdKind::Thumbnail, off: u32_at(e, tiff, at) }]
    } else {
        seq![]
    }
}

/// What reading goes on with: tags, warnings, and directories still to be read.
pub struct Progress {
    pub out: Seq<ExifTagView>,
    pub warnings: Seq<Warning>,
    pub links: Seq<Link>,
}

/// The directory at `off`.
pub open spec fn directory(
    tiff: Seq<u8>,
    e: Endian,
    kind: IfdKind,
    off: u32,
    p: Progress,
    l: Limits,
) -> Progress {
    if off > tiff.len() {
        Progress {
            warnings: p.warnings.push(
                Warning { offset: off as u64, kind: WarnKind::BadExifHeader },
            ),
            ..p
        }
    } else if off + 2 > tiff.len() {
        Progress {
            warnings: p.warnings.push(Warning { offset: off as u64, kind: WarnKind::Truncated }),
            ..p
        }
    } else {
        let count = u16_at(e, tiff, off as int);
        let (out, links) = entries(tiff, e, kind, off + 2, count as nat, p.out, p.links, l);
        Progress {
            out,
            warnings: p.warnings,
            links: links + next_link(tiff, e, kind, off as int, count),
        }
    }
}

/// Reads the linked directories in order, `left` of them at most.
pub open spec fn directories(tiff: Seq<u8>, e: Endian, p: Progress, left: nat, l: Limits) -> Progress
    decreases left,
{
    if left == 0 || p.links.len() == 0 {
        p
    } else {
        let first = p.links[0];
        let rest = Progress { links: p.links.subrange(1, p.links.len() as int), ..p };
        directories(
            tiff,
            e,
            directory(tiff, e, first.kind, first.off, rest, l),
            (left - 1) as nat,
            l,
        )
    }
}

/// The byte order that a TIFF header begins with.
pub open spec fn byte_order(tiff: Seq<u8>) -> Option<Endian> {
    if tiff.len() < 2 {
        None
    } else if tiff[0] == 0x49 && tiff[1] == 0x49 {
        Some(Endian::Little)
    } else if tiff[0] == 0x4D && tiff[1] == 0x4D {
        Some(Endian::Big)
    } else {
        None
    }
}

/// The tags and warnings once the TIFF bytes `tiff` are decoded on top of `out` and
/// `warnings`.
pub open spec fn decoded(
    tiff: Seq<u8>,
    out: Seq<ExifTagView>,
    warnings: Seq<Warning>,
    l: Limits,
) -> (Seq<ExifTagView>, Seq<Warning>) {
    match byte_order(tiff) {
        None => (out, warnings.push(Warning { offset: 0, kind: WarnKind::BadExifHeader })),
        Some(e) => if tiff.len() < 4 || u16_at(e, tiff, 2) != 42 {
            (out, warnings.push(Warning { offset: 2, kind: WarnKind::BadExifHeader }))
        } else if tiff.len() < 8 {
            (out, warnings.push(Warning { offset: 4, kind: WarnKind::BadExifHeader }))
        } else {
            let first = Link { kind: IfdKind::Primary, off: u32_at(e, tiff, 4) };
            let p = directories(
                tiff,
                e,
                Progress { out, warnings, links: seq![first] },
                l.max_ifds as nat,
                l,
            );
            (p.out, p.warnings)
        },
    }
}

proof fn lemma_entries_bounded(
    tiff: Seq<u8>,
    e: Endian,
    kind: IfdKind,
    pos: int,
    n: nat,
    out: Seq<ExifTagView>,
    links: Seq<Link>,
    l: Limits,
)
    ensures
        out.is_prefix_of(entries(tiff, e, kind, pos, n, out, links, l).0),
        entries(tiff, e, kind, pos, n, out, links, l).0.len() <= if out.len() > l.max_tags {
            out.len() as int
        } else {
            l.max_tags as int
        },
    decreases n,
{
    if n == 0 || out.len() >= l.max_tags || pos + 12 > tiff.len() {
    } else {
        let tag = u16_at(e, tiff, pos);
        match value(
            tiff,
            e,
            u16_at(e, tiff, pos + 2),
            u32_at(e, tiff, pos + 4),
            pos + 8,
            l.max_payload_bytes as int,
        ) {
            Some(v) => {
                let out2 = out.push(ExifTagView { ifd: kind, tag, value: v });
                lemma_entries_bounded(
                    tiff,
                    e,
                    kind,
                    pos + 12,
                    (n - 1) as nat,
                    out2,
                    links + links_of(kind, tag, v),
                    l,
                );
                assert(out.is_prefix_of(out2));
            },
            None => {
                lemma_entries_bounded(tiff, e, kind, pos + 12, (n - 1) as nat, out, links, l);
            },
        }
    }
}

proof fn lemma_directories_bounded(tiff: Seq<u8>, e: Endian, p: Progress, left: nat, l: Limits)
    ensures
        p.out.is_prefix_of(directories(tiff, e, p, left, l).out),
        p.warnings.is_prefix_of(directories(tiff, e, p, left, l).warnings),
        directories(tiff, e, p, left, l).out.len() <= if p.out.len() > l.max_tags {
            p.out.len() as int
        } else {
            l.max_tags as int
        },
    decreases left,
{
    if left == 0 || p.links.len() == 0 {
    } else {
        let first = p.links[0];
        let rest = Progress { links: p.links.subrange(1, p.links.len() as int), ..p };
        let next = directory(tiff, e, first.kind, first.off, rest, l);
        if first.off + 2 <= tiff.len() {
            lemma_entries_bounded(
                tiff,
                e,
                first.kind,
                first.off + 2,
                u16_at(e, tiff, first.off as int) as nat,
                rest.out,
                rest.links,
                l,
            );
        }
        lemma_directories_bounded(tiff, e, next, (left - 1) as nat, l);
        assert(p.out.is_prefix_of(next.out));
        assert(p.warnings.is_prefix_of(next.warnings));
    }
}

/// Decoding keeps every tag and warning that was there, and adds tags only up to the
/// bound on their number.
pub proof fn decoded_is_bounded(
    tiff: Seq<u8>,
    out: Seq<ExifTagView>,
    warnings: Seq<Warning>,
    l: Limits,
)
    ensures
        out.is_prefix_of(decoded(tiff, out, warnings, l).0),
        warnings.is_prefix_of(decoded(tiff, out, warnings, l).1),
        decoded(tiff, out, warnings, l).0.len() <= if out.len() > l.max_tags {
            out.len() as int
        } else {
            l.max_tags as int
        },
{
    match byte_order(tiff) {
        Some(e) => if tiff.len() >= 8 {
            let first = Link { kind: IfdKind::Primary, off: u32_at(e, tiff, 4) };
            lemma_directories_bounded(
                tiff,
                e,
                Progress { out, warnings, links: seq![first] },
                l.max_ifds as nat,
                l,
            );
        },
        None => {},
    }
}

/// Decodes TIFF bytes: what follows `Exif\0\0` in a JPEG segment.
pub fn decode(tiff: &[u8], out: &mut Vec<ExifTag>, warnings: &mut Vec<Warning>, limits: &Limits)
    ensures
        (exif_views(final(out)@), final(warnings)@) == decoded(
            tiff@,
            exif_views(old(out)@),
            old(warnings)@,
            *limits,
        ),
        final(out)@.len() <= if old(out)@.len() > limits.max_tags {
            old(out)@.len() as int
        } else {
            limits.max_tags as int
        },
{
    proof {
        decoded_is_bounded(tiff@, exif_views(out@), warnings@, *limits);
    }
    let mut cur = ByteCursor::new(tiff);
    let endian = match cur.take(2) {
        Some(s) => if s[0] == 0x49 && s[1] == 0x49 {
            Endian::Little
        } else if s[0] == 0x4D && s[1] == 0x4D {
            Endian::Big
        } else {
            warnings.push(Warning { offset: 0, kind: WarnKind::BadExifHeader });
            return ;
        },
        None => {
            warnings.push(Warning { offset: 0, kind: WarnKind::BadExifHeader });
            return ;
        },
    };
    let magic: u16 = match cur.u16(endian) {
        Some(v) => v,
        None => 0,
    };
    if magic != 42 {
        warnings.push(Warning { offset: 2, kind: WarnKind::BadExifHeader });
        return ;
    }
    let ifd0: u32 = match cur.u32(endian) {
        Some(v) => v,
        None => {
            warnings.push(Warning { offset: 4, kind: WarnKind::BadExifHeader });
            return ;
        },
    };
    let mut links: Vec<Link> = Vec::new();
    links.push(Link { kind: IfdKind::Primary, off: ifd0 });
    let mut head: usize = 0;
    let ghost start = Progress {
        out: exif_views(out@),
        warnings: warnings@,
        links: seq![Link { kind: IfdKind::Primary, off: ifd0 }],
    };
    assert(links@.subrange(0, 1) =~= start.links);
    while head < limits.max_ifds && head < links.len()
        invariant
            head <= links@.len(),
            head <= limits.max_ifds,
            directories(
                tiff@,
                endian,
                Progress {
                    out: exif_views(out@),
                    warnings: warnings@,
                    links: links@.subrange(head as int, links@.len() as int),
                },
                (limits.max_ifds - head) as nat,
                *limits,
            ) == directories(tiff@, endian, start, limits.max_ifds as nat, *limits),
        decreases limits.max_ifds - head,
    {
        let ghost queued = links@.subrange(head as int, links@.len() as int);
        let link = links[head];
        let ghost rest = Progress {
            out: exif_views(out@),
            warnings: warnings@,
            links: links@.subrange(head + 1, links@.len() as int),
        };
        let ghost before = links@;
        assert(queued.subrange(1, queued.len() as int) =~= rest.links);
        parse_ifd(tiff, endian, link, out, warnings, &mut links, limits);
        head += 1;
        proof {
            let next = directory(tiff@, endian, link.kind, link.off, rest, *limits);
            lemma_directory_links(
                tiff@,
                endian,
                link.kind,
                link.off,
                Progress { links: before, ..rest },
                rest.links,
                *limits,
            );
            assert(links@.subrange(head as int, links@.len() as int) =~= next.links);
        }
    }
}

/// The links that entries add do not depend on those that were there.
proof fn lemma_entries_links(
    tiff: Seq<u8>,
    e: Endian,
    kind: IfdKind,
    pos: int,
    n: nat,
    out: Seq<ExifTagView>,
    a: Seq<Link>,
    b: Seq<Link>,
    l: Limits,
)
    ensures
        entries(tiff, e, kind, pos, n, out, a + b, l).0 == entries(
            tiff,
            e,
            kind,
            pos,
            n,
            out,
            b,
            l,
        ).0,
        entries(tiff, e, kind, pos, n, out, a + b, l).1 == a + entries(
            tiff,
            e,
            kind,
            pos,
            n,
            out,
            b,
            l,
        ).1,
    decreases n,
{
    if n == 0 || out.len() >= l.max_tags || pos + 12 > tiff.len() {
    } else {
        let tag = u16_at(e, tiff, pos);
        match value(
            tiff,
            e,
            u16_at(e, tiff, pos + 2),
            u32_at(e, tiff, pos + 4),
            pos + 8,
            l.max_payload_bytes as int,
        ) {
            Some(v) => {
                let more = links_of(kind, tag, v);
                assert((a + b) + more =~= a + (b + more));
                lemma_entries_links(
                    tiff,
                    e,
                    kind,
                    pos + 12,
                    (n - 1) as nat,
                    out.push(ExifTagView { ifd: kind, tag, value: v }),
                    a,
                    b + more,
                    l,
                );
            },
            None => {
                lemma_entries_links(tiff, e, kind, pos + 12, (n - 1) as nat, out, a, b, l);
            },
        }
    }
}

proof fn lemma_directory_links(
    tiff: Seq<u8>,
    e: Endian,
    kind: IfdKind,
    off: u32,
    p: Progress,
    kept: Seq<Link>,
    l: Limits,
)
    requires
        kept.len() <= p.links.len(),
        kept == p.links.subrange(p.links.len() - kept.len(), p.links.len() as int),
    ensures
        ({
            let whole = directory(tiff, e, kind, off, p, l);
            let short = directory(tiff, e, kind, off, Progress { links: kept, ..p }, l);
            &&& whole.out == short.out
            &&& whole.warnings == short.warnings
            &&& whole.links == p.links.subrange(0, p.links.len() - kept.len()) + short.links
        }),
{
    let a = p.links.subrange(0, p.links.len() - kept.len());
    assert(a + kept =~= p.links);
    if off + 2 <= tiff.len() {
        let count = u16_at(e, tiff, off as int);
        lemma_entries_links(tiff, e, kind, off + 2, count as nat, p.out, a, kept, l);
        let more = next_link(tiff, e, kind, off as int, count);
        let tail = entries(tiff, e, kind, off + 2, count as nat, p.out, kept, l).1;
        assert((a + tail) + more =~= a + (tail + more));
    }
}

/// Reads the directory that `link` leads to, and queues the directories it links to.
fn parse_ifd(
    tiff: &[u8],
    e: Endian,
    link: Link,
    out: &mut Vec<ExifTag>,
    warnings: &mut Vec<Warning>,
    links: &mut Vec<Link>,
    limits: &Limits,
)
    ensures
        (Progress {
            out: exif_views(final(out)@),
            warnings: final(warnings)@,
            links: final(links)@,
        }) == directory(
            tiff@,
            e,
            link.kind,
            link.off,
            Progress { out: exif_views(old(out)@), warnings: old(warnings)@, links: old(links)@ },
            *limits,
        ),
{
    let off: usize = link.off as usize;
    let mut cur = ByteCursor::new(tiff);
    if cur.seek(off).is_none() {
        warnings.push(Warning { offset: off as u64, kind: WarnKind::BadExifHeader });
        return ;
    }
    let count: u16 = match cur.u16(e) {
        Some(c) => c,
        None => {
            warnings.push(Warning { offset: off as u64, kind: WarnKind::Truncated });
            return ;
        },
    };
    let ghost result = entries(
        tiff@,
        e,
        link.kind,
        off + 2,
        count as nat,
        exif_views(out@),
        links@,
        *limits,
    );
    let mut i: u16 = 0;
    assert(off + 2 <= tiff.len());
    let mut pos: usize = off + 2;
    while i < count && out.len() < limits.max_tags && tiff.len() - pos >= 12
        invariant
            i <= count,
            off + 2 <= pos <= tiff.len(),
            pos == off + 2 + 12 * i,
            result == entries(
                tiff@,
                e,
                link.kind,
                pos as int,
                (count - i) as nat,
                exif_views(out@),
                links@,
                *limits,
            ),
        decreases count - i,
    {
        let tag: u16 = read_u16(e, tiff, pos);
        let typ: u16 = read_u16(e, tiff, pos + 2);
        let cnt: u32 = read_u32(e, tiff, pos + 4);
        match read_value(tiff, e, typ, cnt, pos + 8, limits.max_payload_bytes) {
            Some(v) => {
                let ghost before = links@;
                match (child_kind(link.kind, tag), &v) {
                    (Some(kind), Value::U32(to)) => {
                        links.push(Link { kind, off: *to });
                    },
                    _ => {},
                }
                assert(links@ =~= before + links_of(link.kind, tag, v@));
                out.push(ExifTag { ifd: link.kind, tag, value: v });
            },
            None => {},
        }
        i += 1;
        pos += 12;
    }
    assert((exif_views(out@), links@) == result);
    if link.kind == IfdKind::Primary {
        let at: usize = 2 + 12 * (count as usize);
        if at <= tiff.len() - off && tiff.len() - off - at >= 4 {
            let next: u32 = read_u32(e, tiff, off + at);
            if next != 0 {
                links.push(Link { kind: IfdKind::Thumbnail, off: next });
            }
        }
    }
    assert(links@ =~= result.1 + next_link(tiff@, e, link.kind, off as int, count));
}

fn child_kind(kind: IfdKind, tag: u16) -> (r: Option<IfdKind>)
    ensures
        r == child(kind, tag),
{
    if kind == IfdKind::Primary && tag == TAG_EXIF_IFD {
        Some(IfdKind::Exif)
    } else if kind == IfdKind::Primary && tag == TAG_GPS_IFD {
        Some(IfdKind::Gps)
    } else if kind == IfdKind::Exif && tag == TAG_INTEROP_IFD {
        Some(IfdKind::Interop)
    } else {
        None
    }
}

fn unit_size(typ: u16) -> (r: Option<usize>)
    ensures
        match r {
            Some(u) => unit(typ) == Some(u as int) && 1 <= u <= 8,
            None => unit(typ) is None,
        },
{
    match typ {
        1 | 2 | 7 => Some(1),
        3 => Some(2),
        4 => Some(4),
        5 | 10 => Some(8),
        _ => None,
    }
}

/// Reads the value of the entry whose value field is at `at`.
fn read_value(
    tiff: &[u8],
    e: Endian,
    typ: u16,
    cnt: u32,
    at: usize,
    max_value_bytes: usize,
) -> (r: Option<Value>)
    requires
        at + 4 <= tiff.len(),
    ensures
        match r {
            Some(v) => value(tiff@, e, typ, cnt, at as int, max_value_bytes as int) == Some(v@),
            None => value(tiff@, e, typ, cnt, at as int, max_value_bytes as int) is None,
        },
{
    let unit: usize = match unit_size(typ) {
        Some(u) => u,
        None => return None,
    };
    assert(0 <= cnt * unit <= 0xFFFF_FFFF * 8) by (nonlinear_arith)
        requires
            0 <= cnt <= 0xFFFF_FFFF,
            1 <= unit <= 8,
    ;
    let total: u64 = cnt as u64 * unit as u64;
    if total == 0 || total > max_value_bytes as u64 {
        return None;
    }
    let total: usize = total as usize;
    let off: usize = if total <= 4 {
        at
    } else {
        read_u32(e, tiff, at) as usize
    };
    if off > tiff.len() || total > tiff.len() - off {
        return None;
    }
    decode_typed(e, typ, cnt, part(tiff, off, off + total))
}

/// Makes a value of `cnt` units of the given type.
fn decode_typed(e: Endian, typ: u16, cnt: u32, data: &[u8]) -> (r: Option<Value>)
    requires
        unit(typ) matches Some(u) && data@.len() == cnt * u,
        cnt > 0,
    ensures
        match r {
            Some(v) => typed(e, typ, cnt, data@) == Some(v@),
            None => typed(e, typ, cnt, data@) is None,
        },
{
    if typ == 2 {
        let nul: usize = match find_byte(data, 0) {
            Some(i) => i,
            None => data.len(),
        };
        return match utf8_text(part(data, 0, nul)) {
            Some(s) => Some(Value::Text(s.to_owned())),
            None => None,
        };
    }
    if typ == 1 || typ == 7 {
        return Some(Value::Bytes(vstd::slice::slice_to_vec(data)));
    }
    let ghost u = unit(typ).unwrap();
    if cnt == 1 {
        return Some(read_scalar(data, 0, e, typ));
    }
    let step: usize = if typ == 3 {
        2
    } else if typ == 4 {
        4
    } else {
        8
    };
    let mut items: Vec<Value> = Vec::new();
    let mut i: u32 = 0;
    let mut pos: usize = 0;
    while i < cnt
        invariant
            i <= cnt,
            step == unit(typ).unwrap(),
            typ == 3 || typ == 4 || typ == 5 || typ == 10,
            data@.len() == cnt * step,
            data@.len() == data.len(),
            pos == i * step,
            items@.len() == i,
            forall|j: int|
                0 <= j < i ==> (#[trigger] items@[j])@ == scalar(e, typ, data@, j * step),
        decreases cnt - i,
    {
        assert((i + 1) * step <= cnt * step) by (nonlinear_arith)
            requires
                i < cnt,
                step >= 0,
        ;
        assert((i + 1) * step == i * step + step) by (nonlinear_arith);
        items.push(read_scalar(data, pos, e, typ));
        i += 1;
        pos += step;
    }
    let r = Value::List(items);
    assert(r@->List_0 =~= Seq::new(cnt as nat, |i: int| scalar(e, typ, data@, i * u)));
    Some(r)
}

/// Reads one number.
fn read_scalar(b: &[u8], i: usize, e: Endian, typ: u16) -> (r: Value)
    requires
        typ == 3 || typ == 4 || typ == 5 || typ == 10,
        i + unit(typ).unwrap() <= b.len(),
    ensures
        r@ == scalar(e, typ, b@, i as int),
{
    if typ == 3 {
        Value::U16(read_u16(e, b, i))
    } else if typ == 4 {
        Value::U32(read_u32(e, b, i))
    } else if typ == 5 {
        Value::Rational(read_u32(e, b, i), read_u32(e, b, i + 4))
    } else {
        Value::SRational(read_u32(e, b, i) as i32, read_u32(e, b, i + 4) as i32)
    }
}

} // verus!
