//! The `moov` box of MP4 and QuickTime files: length, time of creation, size of the
//! picture, place and tags.
use vstd::prelude::*;

use crate::bytes::{be16, be32, be64, lit, part, read_be16, read_be32, read_be64, tail};
use crate::civil::{civil_from_days, date_of};
use crate::containers::isobmff::{
    children, find_first, first_payload, full_box_vf, iter_child_boxes, Child,
};
use crate::geo::{iso6709, parse_iso6709};
use crate::model::{
    container_views, group_views, ContainerSource, ContainerTag, ContainerTagView, DateTimeParts,
    Gps, Value, ValueView, WarnKind, Warning,
};
use crate::text::{latin1, latin1_to_string, str_eq, utf8, utf8_text};

verus! {

/// The UTC time `secs` seconds after the start of 1904.
pub open spec fn mp4_time(secs: u64) -> DateTimeParts {
    let date = date_of(secs as int / 86_400 - 24_107);
    let tod = secs as int % 86_400;
    DateTimeParts {
        year: (date.0 % 0x1_0000) as u16,
        month: date.1 as u8,
        day: date.2 as u8,
        hour: (tod / 3600) as u8,
        minute: (tod % 3600 / 60) as u8,
        second: (tod % 60) as u8,
        tz_offset_min: Some(0),
    }
}

pub fn datetime_from_mp4_epoch(secs: u64) -> (r: DateTimeParts)
    ensures
        r == mp4_time(secs),
{
    let days: i64 = (secs / 86_400) as i64 - 24_107;
    let tod: u32 = (secs % 86_400) as u32;
    let (year, month, day) = civil_from_days(days);
    DateTimeParts {
        year,
        month,
        day,
        hour: (tod / 3600) as u8,
        minute: ((tod % 3600) / 60) as u8,
        second: (tod % 60) as u8,
        tz_offset_min: Some(0),
    }
}

/// What a movie header gives. `timescale_invalid` is set where a length is declared
/// that cannot be told in milliseconds.
#[derive(Debug, Clone, Copy, PartialEq, Eq, Structural)]
pub struct Mvhd {
    pub duration_ms: Option<u64>,
    pub created: Option<DateTimeParts>,
    pub timescale_invalid: bool,
}

pub open spec fn movie_times(created: u64, timescale: u32, duration: u64) -> Mvhd {
    let ms = duration as int * 1000 / timescale as int;
    let valid = timescale != 0 && ms <= u64::MAX;
    Mvhd {
        duration_ms: if valid {
            Some(ms as u64)
        } else {
            None
        },
        created: if created != 0 {
            Some(mp4_time(created))
        } else {
            None
        },
        timescale_invalid: !valid,
    }
}

/// The payload of an `mvhd` box.
pub open spec fn mvhd(p: Seq<u8>) -> Mvhd {
    if p.len() >= 32 && p[0] == 1 {
        movie_times(be64(p, 4), be32(p, 20), be64(p, 24))
    } else if p.len() >= 20 && p[0] != 1 {
        movie_times(be32(p, 4) as u64, be32(p, 12), be32(p, 16) as u64)
    } else {
        Mvhd { duration_ms: None, created: None, timescale_invalid: false }
    }
}

pub fn parse_mvhd(payload: &[u8]) -> (r: Mvhd)
    ensures
        r == mvhd(payload@),
{
    let nothing = Mvhd { duration_ms: None, created: None, timescale_invalid: false };
    let version: u8 = match full_box_vf(payload) {
        Some((v, _)) => v,
        None => return nothing,
    };
    let (creation, timescale, duration): (u64, u32, u64) = if version == 1 {
        if payload.len() < 32 {
            return nothing;
        }
        (read_be64(payload, 4), read_be32(payload, 20), read_be64(payload, 24))
    } else {
        if payload.len() < 20 {
            return nothing;
        }
        (
            read_be32(payload, 4) as u64,
            read_be32(payload, 12),
            read_be32(payload, 16) as u64,
        )
    };
    let mut out = nothing;
    if timescale == 0 {
        out.timescale_invalid = true;
    } else {
        let ms: u128 = duration as u128 * 1000 / timescale as u128;
        if ms <= u64::MAX as u128 {
            out.duration_ms = Some(ms as u64);
        } else {
            out.timescale_invalid = true;
        }
    }
    if creation != 0 {
        out.created = Some(datetime_from_mp4_epoch(creation));
    }
    out
}

/// The size that a `tkhd` box gives: 16.16 fixed-point numbers at its end. A track
/// without a picture has none.
pub open spec fn tkhd(p: Seq<u8>) -> Option<(u32, u32)> {
    let at = if p[0] == 1 {
        88int
    } else {
        76int
    };
    if p.len() >= 4 && p.len() >= at + 8 && be32(p, at) / 0x1_0000 != 0 && be32(p, at + 4)
        / 0x1_0000 != 0 {
        Some((be32(p, at) / 0x1_0000, be32(p, at + 4) / 0x1_0000))
    } else {
        None
    }
}

pub fn parse_tkhd(payload: &[u8]) -> (r: Option<(u32, u32)>)
    ensures
        r == tkhd(payload@),
{
    let version: u8 = match full_box_vf(payload) {
        Some((v, _)) => v,
        None => return None,
    };
    let woff: usize = if version == 1 {
        88
    } else {
        76
    };
    if payload.len() < woff + 8 {
        return None;
    }
    let w: u32 = read_be32(payload, woff) / 0x1_0000;
    let h: u32 = read_be32(payload, woff + 4) / 0x1_0000;
    if w == 0 || h == 0 {
        return None;
    }
    Some((w, h))
}

/// The first size that a track header among `cs` gives.
pub open spec fn track_dims(cs: Seq<Child>) -> Option<(u32, u32)>
    decreases cs.len(),
{
    if cs.len() == 0 {
        None
    } else if cs[0].header.kind == lit("tkhd") && tkhd(cs[0].payload) is Some {
        tkhd(cs[0].payload)
    } else {
        track_dims(cs.drop_first())
    }
}

fn parse_trak(payload: &[u8]) -> (r: Option<(u32, u32)>)
    ensures
        r == track_dims(children(payload@)),
{
    let mut it = iter_child_boxes(payload);
    loop
        invariant
            track_dims(it.boxes()) == track_dims(children(payload@)),
        decreases it.left(),
    {
        match it.next() {
            Some((hdr, p)) => {
                if hdr.is("tkhd") {
                    match parse_tkhd(p) {
                        Some(d) => {
                            return Some(d);
                        },
                        None => {},
                    }
                }
            },
            None => {
                return None;
            },
        }
    }
}

/// What a `moov` box gives.
#[derive(Debug)]
pub struct MoovInfo {
    pub dims: Option<(u32, u32)>,
    pub duration_ms: Option<u64>,
    pub created: Option<DateTimeParts>,
    /// The place that the metadata items give.
    pub location: Option<Gps>,
    /// The place that a `©xyz` atom gives.
    pub xyz: Option<Gps>,
    pub tags: Vec<ContainerTag>,
    pub warnings: Vec<Warning>,
}

#[verifier::ext_equal]
pub struct MoovView {
    pub dims: Option<(u32, u32)>,
    pub duration_ms: Option<u64>,
    pub created: Option<DateTimeParts>,
    pub location: Option<Gps>,
    pub xyz: Option<Gps>,
    pub tags: Seq<ContainerTagView>,
    pub warnings: Seq<Warning>,
}

impl View for MoovInfo {
    type V = MoovView;

    open spec fn view(&self) -> MoovView {
        MoovView {
            dims: self.dims,
            duration_ms: self.duration_ms,
            created: self.created,
            location: self.location,
            xyz: self.xyz,
            tags: container_views(self.tags@),
            warnings: self.warnings@,
        }
    }
}

pub open spec fn either_place(a: Option<Gps>, b: Option<Gps>) -> Option<Gps> {
    match a {
        Some(_) => a,
        None => b,
    }
}

impl MoovView {
    pub open spec fn gps(self) -> Option<Gps> {
        either_place(self.location, self.xyz)
    }
}

impl MoovInfo {
    /// The place: that of the metadata items, else that of the `©xyz` atom.
    pub fn gps(&self) -> (r: Option<Gps>)
        ensures
            r == self@.gps(),
    {
        match self.location {
            Some(g) => Some(g),
            None => self.xyz,
        }
    }
}

/// The text of a user data atom: a length, a language and the text. A length that does
/// not fit stands for all there is.
pub open spec fn atom_text(p: Seq<u8>) -> Option<Seq<char>> {
    if p.len() < 4 {
        None
    } else if 4 + be16(p, 0) <= p.len() {
        utf8(p.subrange(4, 4 + be16(p, 0)))
    } else {
        utf8(tail(p, 4))
    }
}

fn read_atom_text<'a>(payload: &'a [u8]) -> (r: Option<&'a str>)
    ensures
        match r {
            Some(s) => atom_text(payload@) == Some(s@),
            None => atom_text(payload@) is None,
        },
{
    if payload.len() < 4 {
        return None;
    }
    let size: usize = read_be16(payload, 0) as usize;
    let end: usize = if size <= payload.len() - 4 {
        4 + size
    } else {
        payload.len()
    };
    utf8_text(part(payload, 4, end))
}

/// The place that a `©xyz` atom gives.
pub open spec fn xyz(p: Seq<u8>) -> Option<Gps> {
    match atom_text(p) {
        Some(s) => iso6709(s),
        None => None,
    }
}

pub fn parse_xyz(payload: &[u8]) -> (r: Option<Gps>)
    ensures
        r == xyz(payload@),
{
    match read_atom_text(payload) {
        Some(s) => parse_iso6709(s),
        None => None,
    }
}

/// Whether `kind` is that of a `©` atom.
pub open spec fn copyright_kind(kind: Seq<u8>) -> bool {
    kind.len() == 4 && kind[0] == 0xA9
}

/// What a user data atom adds.
pub open spec fn udta_step(m: MoovView, c: Child) -> MoovView {
    match atom_text(c.payload) {
        Some(s) if copyright_kind(c.header.kind) => MoovView {
            xyz: if c.header.kind.subrange(1, 4) == lit("xyz") {
                either_place(m.xyz, xyz(c.payload))
            } else {
                m.xyz
            },
            tags: m.tags.push(
                ContainerTagView {
                    source: ContainerSource::Udta,
                    key: latin1(c.header.kind),
                    value: ValueView::Text(s),
                },
            ),
            ..m
        },
        _ => m,
    }
}

/// What the atoms of a `udta` box add.
pub open spec fn udta(m: MoovView, cs: Seq<Child>) -> MoovView
    decreases cs.len(),
{
    if cs.len() == 0 {
        m
    } else {
        udta_step(udta(m, cs.drop_last()), cs.last())
    }
}

fn parse_udta(info: &mut MoovInfo, payload: &[u8])
    ensures
        final(info)@ == udta(old(info)@, children(payload@)),
{
    broadcast use group_views;

    let mut it = iter_child_boxes(payload);
    let ghost mut seen: Seq<Child> = seq![];
    let ghost entry = info@;
    assert(seen + it.boxes() =~= it.boxes());
    loop
        invariant
            entry == old(info)@,
            seen + it.boxes() == children(payload@),
            info@ == udta(entry, seen),
        decreases it.left(),
    {
        let ghost before = it.boxes();
        match it.next() {
            Some((hdr, p)) => {
                let ghost prior = info@;
                if hdr.kind[0] == 0xA9 {
                    match read_atom_text(p) {
                        Some(s) => {
                            if crate::bytes::is_str(part(hdr.kind.as_slice(), 1, 4), "xyz")
                                && info.xyz.is_none() {
                                info.xyz = parse_iso6709(s);
                            }
                            info.tags.push(
                                ContainerTag {
                                    source: ContainerSource::Udta,
                                    key: latin1_to_string(hdr.kind.as_slice()),
                                    value: Value::Text(s.to_owned()),
                                },
                            );
                        },
                        None => {},
                    }
                }
                proof {
                    assert(seen.push(before[0]) + it.boxes() =~= seen + before);
                    assert(seen.push(before[0]).drop_last() =~= seen);
                    seen = seen.push(before[0]);
                    assert(info@ =~= udta_step(prior, seen.last()));
                }
            },
            None => {
                assert(seen + before =~= seen);
                return ;
            },
        }
    }
}

/// The keys from `at` on, at most `n` of them.
pub open spec fn key_list(b: Seq<u8>, at: int, n: int) -> Seq<Seq<u8>>
    decreases n,
{
    if n <= 0 || at + 8 > b.len() || be32(b, at) < 8 || at + be32(b, at) > b.len() {
        seq![]
    } else {
        seq![b.subrange(at + 8, at + be32(b, at))] + key_list(b, at + be32(b, at), n - 1)
    }
}

/// The names that the payload of a `keys` box gives.
pub open spec fn keys(p: Seq<u8>) -> Seq<Seq<u8>> {
    if p.len() < 8 {
        seq![]
    } else {
        key_list(p, 8, be32(p, 4) as int)
    }
}

pub open spec fn slice_views(s: Seq<&[u8]>) -> Seq<Seq<u8>> {
    Seq::new(s.len(), |i: int| s[i]@)
}

fn parse_keys<'a>(payload: &'a [u8]) -> (r: Vec<&'a [u8]>)
    ensures
        slice_views(r@) == keys(payload@),
{
    let mut out: Vec<&'a [u8]> = Vec::new();
    if payload.len() < 8 {
        assert(slice_views(out@) =~= keys(payload@));
        return out;
    }
    let mut left: u32 = read_be32(payload, 4);
    let mut at: usize = 8;
    assert(slice_views(out@) + key_list(payload@, 8, left as int) =~= keys(payload@));
    while left > 0 && payload.len() - at >= 8
        invariant_except_break
            slice_views(out@) + key_list(payload@, at as int, left as int) == keys(payload@),
        invariant
            8 <= at <= payload.len(),
        ensures
            slice_views(out@) == keys(payload@),
        decreases left,
    {
        let size: u32 = read_be32(payload, at);
        if size < 8 || size as usize > payload.len() - at {
            assert(slice_views(out@) + seq![] =~= slice_views(out@));
            break;
        }
        let end: usize = at + size as usize;
        let key = part(payload, at + 8, end);
        let ghost before = slice_views(out@);
        out.push(key);
        proof {
            let rest = key_list(payload@, end as int, left - 1);
            assert(slice_views(out@) =~= before.push(key@));
            assert(before.push(key@) + rest =~= before + (seq![key@] + rest));
        }
        at = end;
        left -= 1;
    }
    assert(slice_views(out@) + seq![] =~= slice_views(out@));
    out
}

/// The value of a metadata item: a type, a locale and the bytes. Untyped and UTF-8
/// values are text where they can be.
pub open spec fn item_value(d: Seq<u8>) -> ValueView {
    let v = tail(d, 8);
    match utf8(v) {
        Some(s) if be32(d, 0) <= 1 => ValueView::Text(s),
        _ => ValueView::Bytes(v),
    }
}

/// What a metadata item with the given value adds.
pub open spec fn item_step(m: MoovView, key: Seq<char>, value: ValueView) -> MoovView {
    MoovView {
        location: match value {
            ValueView::Text(s) if key == "com.apple.quicktime.location.ISO6709"@ => either_place(
                m.location,
                iso6709(s),
            ),
            _ => m.location,
        },
        tags: m.tags.push(
            ContainerTagView { source: ContainerSource::QuickTimeMdta, key, value },
        ),
        ..m
    }
}

/// What an entry of an `ilst` box adds. Its type is the number of its key, from 1 on.
pub open spec fn ilst_step(m: MoovView, c: Child, names: Seq<Seq<u8>>) -> MoovView {
    let n = be32(c.header.kind, 0) as int;
    match first_payload(children(c.payload), lit("data")) {
        Some(d) if 1 <= n <= names.len() && d.len() >= 8 => match utf8(names[n - 1]) {
            Some(key) => item_step(m, key, item_value(d)),
            None => m,
        },
        _ => m,
    }
}

pub open spec fn ilst(m: MoovView, cs: Seq<Child>, names: Seq<Seq<u8>>) -> MoovView
    decreases cs.len(),
{
    if cs.len() == 0 {
        m
    } else {
        ilst_step(ilst(m, cs.drop_last(), names), cs.last(), names)
    }
}

fn parse_item(info: &mut MoovInfo, key: &str, d: &[u8])
    requires
        d@.len() >= 8,
    ensures
        final(info)@ == item_step(old(info)@, key@, item_value(d@)),
{
    broadcast use group_views;

    let kind: u32 = read_be32(d, 0);
    let v = part(d, 8, d.len());
    let value = match utf8_text(v) {
        Some(s) => if kind <= 1 {
            if info.location.is_none() && str_eq(key, "com.apple.quicktime.location.ISO6709") {
                info.location = parse_iso6709(s);
            }
            Value::Text(s.to_owned())
        } else {
            Value::Bytes(vstd::slice::slice_to_vec(v))
        },
        None => Value::Bytes(vstd::slice::slice_to_vec(v)),
    };
    assert(value@ == item_value(d@));
    info.tags.push(
        ContainerTag { source: ContainerSource::QuickTimeMdta, key: key.to_owned(), value },
    );
    assert(info@ =~= item_step(old(info)@, key@, item_value(d@)));
}

fn parse_ilst(info: &mut MoovInfo, payload: &[u8], names: &Vec<&[u8]>)
    ensures
        final(info)@ == ilst(old(info)@, children(payload@), slice_views(names@)),
{
    let mut it = iter_child_boxes(payload);
    let ghost mut seen: Seq<Child> = seq![];
    let ghost entry = info@;
    assert(seen + it.boxes() =~= it.boxes());
    loop
        invariant
            entry == old(info)@,
            seen + it.boxes() == children(payload@),
            info@ == ilst(entry, seen, slice_views(names@)),
        decreases it.left(),
    {
        let ghost before = it.boxes();
        match it.next() {
            Some((hdr, p)) => {
                let n: usize = read_be32(hdr.kind.as_slice(), 0) as usize;
                if 1 <= n && n <= names.len() {
                    match (find_first(p, "data"), utf8_text(names[n - 1])) {
                        (Some(d), Some(key)) => {
                            if d.len() >= 8 {
                                parse_item(info, key, d);
                            }
                        },
                        _ => {},
                    }
                }
                proof {
                    assert(seen.push(before[0]) + it.boxes() =~= seen + before);
                    assert(seen.push(before[0]).drop_last() =~= seen);
                    seen = seen.push(before[0]);
                }
            },
            None => {
                assert(seen + before =~= seen);
                return ;
            },
        }
    }
}

/// What a QuickTime `meta` box adds. Its handler has to be `mdta`.
pub open spec fn mdta(m: MoovView, cs: Seq<Child>) -> MoovView {
    match (
        first_payload(cs, lit("hdlr")),
        first_payload(cs, lit("keys")),
        first_payload(cs, lit("ilst")),
    ) {
        (Some(h), Some(k), Some(l)) => if h.len() >= 12 && h.subrange(8, 12) == lit("mdta") {
            ilst(m, children(l), keys(k))
        } else {
            m
        },
        _ => m,
    }
}

fn parse_mdta(info: &mut MoovInfo, payload: &[u8])
    ensures
        final(info)@ == mdta(old(info)@, children(payload@)),
{
    match (find_first(payload, "hdlr"), find_first(payload, "keys"), find_first(payload, "ilst")) {
        (Some(h), Some(k), Some(l)) => {
            if h.len() >= 12 && crate::bytes::is_str(part(h, 8, 12), "mdta") {
                let names = parse_keys(k);
                parse_ilst(info, l, &names);
            }
        },
        _ => {},
    }
}

/// What a child of the `moov` box at `base` adds.
pub open spec fn moov_step(m: MoovView, c: Child, base: u64) -> MoovView {
    if c.header.kind == lit("mvhd") {
        let t = mvhd(c.payload);
        MoovView {
            duration_ms: t.duration_ms,
            created: t.created,
            warnings: if t.timescale_invalid {
                m.warnings.push(Warning { offset: base, kind: WarnKind::UnrecognizedValue })
            } else {
                m.warnings
            },
            ..m
        }
    } else if c.header.kind == lit("trak") {
        MoovView {
            dims: match m.dims {
                Some(d) => Some(d),
                None => track_dims(children(c.payload)),
            },
            ..m
        }
    } else if c.header.kind == lit("udta") {
        udta(m, children(c.payload))
    } else if c.header.kind == lit("meta") {
        mdta(m, children(c.payload))
    } else {
        m
    }
}

pub open spec fn no_moov() -> MoovView {
    MoovView {
        dims: None,
        duration_ms: None,
        created: None,
        location: None,
        xyz: None,
        tags: seq![],
        warnings: seq![],
    }
}

/// What the boxes in a `moov` box at `base` give.
pub open spec fn moov(cs: Seq<Child>, base: u64) -> MoovView
    decreases cs.len(),
{
    if cs.len() == 0 {
        no_moov()
    } else {
        moov_step(moov(cs.drop_last(), base), cs.last(), base)
    }
}

/// Reads the payload of a `moov` box that stands at `base` in the file.
pub fn parse_moov(payload: &[u8], base: u64) -> (r: MoovInfo)
    ensures
        r@ == moov(children(payload@), base),
{
    let mut info = MoovInfo {
        dims: None,
        duration_ms: None,
        created: None,
        location: None,
        xyz: None,
        tags: Vec::new(),
        warnings: Vec::new(),
    };
    let mut it = iter_child_boxes(payload);
    let ghost mut seen: Seq<Child> = seq![];
    assert(seen + it.boxes() =~= it.boxes());
    assert(info@ =~= no_moov());
    loop
        invariant
            seen + it.boxes() == children(payload@),
            info@ == moov(seen, base),
        decreases it.left(),
    {
        let ghost before = it.boxes();
        match it.next() {
            Some((hdr, p)) => {
                let ghost prior = info@;
                if hdr.is("mvhd") {
                    let m = parse_mvhd(p);
                    info.duration_ms = m.duration_ms;
                    info.created = m.created;
                    if m.timescale_invalid {
                        info.warnings.push(
                            Warning { offset: base, kind: WarnKind::UnrecognizedValue },
                        );
                    }
                } else if hdr.is("trak") {
                    if info.dims.is_none() {
                        info.dims = parse_trak(p);
                    }
                } else if hdr.is("udta") {
                    parse_udta(&mut info, p);
                } else if hdr.is("meta") {
                    parse_mdta(&mut info, p);
                }
                proof {
                    assert(seen.push(before[0]) + it.boxes() =~= seen + before);
                    assert(seen.push(before[0]).drop_last() =~= seen);
                    seen = seen.push(before[0]);
                    assert(info@ =~= moov_step(prior, seen.last(), base));
                }
            },
            None => {
                assert(seen + before =~= seen);
                return info;
            },
        }
    }
}

} // verus!
