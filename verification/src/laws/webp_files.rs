//! WebP files, chunk by chunk: the sizes and the payloads that are read are those that the
//! chunks hold.
use vstd::prelude::*;

use crate::adapters::slice::metadata_of;
use crate::bytes::{has_prefix, le16, le32, lit, tail};
use crate::demand::{Demand, EventView, Local, PayloadKind};
use crate::driver::{finalized, handled_all, nothing, CollectorView};
use crate::formats::jpeg::lemma_exif_marker;
use crate::formats::webp::{
    chunk, chunk_dims, dims_len, le24, riff_webp, unmarked, webp_local, WebpMode,
};
use crate::laws::agreement::unit_run;
use crate::laws::files::{lemma_after, lemma_read, sized};
use crate::laws::plain_files::lemma_straight;
use crate::laws::webp_stripping::lemma_once_is_webp;
use crate::limits::Limits;
use crate::model::FileFormat;
use crate::probe::{any_local, probed, AnyMode};

verus! {

/// A number below two to the 32nd in four bytes, the least significant first.
pub open spec fn four_little(x: int) -> Seq<u8> {
    seq![
        (x % 256) as u8,
        (x / 256 % 256) as u8,
        (x / 65536 % 256) as u8,
        (x / 0x100_0000) as u8,
    ]
}

/// A chunk: its type, how long its data is, the data, and a byte that makes it even.
pub open spec fn a_chunk(kind: Seq<u8>, data: Seq<u8>) -> Seq<u8> {
    kind + four_little(data.len() as int) + data + (if data.len() % 2 == 1 {
        seq![0u8]
    } else {
        seq![]
    })
}

pub open spec fn all_chunks(cs: Seq<(Seq<u8>, Seq<u8>)>) -> Seq<u8>
    decreases cs.len(),
{
    if cs.len() == 0 {
        seq![]
    } else {
        a_chunk(cs[0].0, cs[0].1) + all_chunks(cs.drop_first())
    }
}

/// A WebP file of these chunks.
pub open spec fn webp_file(cs: Seq<(Seq<u8>, Seq<u8>)>) -> Seq<u8> {
    lit("RIFF") + four_little(all_chunks(cs).len() as int + 4) + lit("WEBP") + all_chunks(cs)
}

pub open spec fn four_letters(cs: Seq<(Seq<u8>, Seq<u8>)>) -> bool {
    forall|i: int| 0 <= i < cs.len() ==> (#[trigger] cs[i]).0.len() == 4
}

/// EXIF data without the marker that stands before it in JPEG files.
pub open spec fn bare_exif(d: Seq<u8>) -> Seq<u8> {
    if d.len() >= 6 && d[0] == 0x45 && d[1] == 0x78 && d[2] == 0x69 && d[3] == 0x66 && d[4] == 0
        && d[5] == 0 {
        d.skip(6)
    } else {
        d
    }
}

/// What a chunk tells. An extended header holds the width and the height less one, in three
/// bytes each; a lossy image behind its start code, in 14 bits each; a lossless image behind
/// its signature, less one, in 14 bits each, one after the other.
pub open spec fn chunk_tells(kind: Seq<u8>, d: Seq<u8>) -> Seq<EventView> {
    if kind == lit("EXIF") {
        seq![EventView::Payload { kind: PayloadKind::Exif, data: bare_exif(d) }]
    } else if kind == lit("XMP ") {
        seq![EventView::Payload { kind: PayloadKind::Xmp, data: d }]
    } else if kind == lit("VP8X") && d.len() >= 10 {
        sized(
            (d[4] + 256 * d[5] + 65536 * d[6] + 1) as u32,
            (d[7] + 256 * d[8] + 65536 * d[9] + 1) as u32,
        )
    } else if kind == lit("VP8 ") && d.len() >= 10 && d[3] == 0x9D && d[4] == 0x01 && d[5] == 0x2A {
        sized((d[6] + 256 * (d[7] % 64)) as u32, (d[8] + 256 * (d[9] % 64)) as u32)
    } else if kind == lit("VP8L") && d.len() >= 5 && d[0] == 0x2F {
        sized(
            (d[1] + 256 * (d[2] % 64) + 1) as u32,
            (d[2] / 64 + 4 * d[3] + 1024 * (d[4] % 16) + 1) as u32,
        )
    } else {
        seq![]
    }
}

/// What all of them tell, in their order.
pub open spec fn chunks_tell(cs: Seq<(Seq<u8>, Seq<u8>)>) -> Seq<EventView>
    decreases cs.len(),
{
    if cs.len() == 0 {
        seq![]
    } else {
        chunk_tells(cs[0].0, cs[0].1) + chunks_tell(cs.drop_first())
    }
}

proof fn lemma_words()
    ensures
        lit("RIFF").len() == 4,
        lit("WEBP").len() == 4,
        lit("EXIF") != lit("XMP "),
        lit("EXIF") != lit("VP8X"),
        lit("EXIF") != lit("VP8 "),
        lit("EXIF") != lit("VP8L"),
        lit("XMP ") != lit("VP8X"),
        lit("XMP ") != lit("VP8 "),
        lit("XMP ") != lit("VP8L"),
        lit("VP8X") != lit("VP8 "),
        lit("VP8X") != lit("VP8L"),
        lit("VP8 ") != lit("VP8L"),
{
    reveal_strlit("RIFF");
    reveal_strlit("WEBP");
    reveal_strlit("EXIF");
    reveal_strlit("XMP ");
    reveal_strlit("VP8X");
    reveal_strlit("VP8 ");
    reveal_strlit("VP8L");
    vstd::string::is_ascii_spec_bytes("RIFF");
    vstd::string::is_ascii_spec_bytes("WEBP");
    vstd::string::is_ascii_spec_bytes("EXIF");
    vstd::string::is_ascii_spec_bytes("XMP ");
    vstd::string::is_ascii_spec_bytes("VP8X");
    vstd::string::is_ascii_spec_bytes("VP8 ");
    vstd::string::is_ascii_spec_bytes("VP8L");
    assert(lit("EXIF")[0] == 0x45);
    assert(lit("XMP ")[0] == 0x58);
    assert(lit("VP8X")[0] == 0x56 && lit("VP8X")[3] == 0x58);
    assert(lit("VP8 ")[0] == 0x56 && lit("VP8 ")[3] == 0x20);
    assert(lit("VP8L")[0] == 0x56 && lit("VP8L")[3] == 0x4C);
}

proof fn lemma_unmarked(d: Seq<u8>)
    ensures
        unmarked(d) == bare_exif(d),
{
    lemma_exif_marker();
    let p = lit("Exif\0\0");
    if has_prefix(d, p) {
        let s = d.subrange(0, 6);
        assert(s[0] == d[0] && s[1] == d[1] && s[2] == d[2] && s[3] == d[3] && s[4] == d[4] && s[5]
            == d[5]);
        assert(tail(d, 6) =~= d.skip(6));
    } else if bare_exif(d) != d {
        assert(d.subrange(0, 6) =~= p);
    }
}

/// The size that a chunk gives.
proof fn lemma_size(kind: Seq<u8>, d: Seq<u8>)
    requires
        dims_len(kind) is Some,
    ensures
        ({
            let n = dims_len(kind).unwrap();
            let e = d.take(
                if n < d.len() {
                    n
                } else {
                    d.len() as int
                },
            );
            chunk_dims(kind, e) == chunk_tells(kind, d)
        }),
{
    lemma_words();
    let n = dims_len(kind).unwrap();
    let e = d.take(
        if n < d.len() {
            n
        } else {
            d.len() as int
        },
    );
    if kind == lit("VP8 ") && d.len() >= 10 {
        lemma_lossy(e, d);
    } else if kind == lit("VP8L") && d.len() >= 5 {
        lemma_lossless(e, d);
    } else if kind == lit("VP8X") && d.len() >= 10 {
        lemma_extended(e, d);
    }
    assert(chunk_dims(kind, e) =~= chunk_tells(kind, d));
}

proof fn lemma_fourteen(a: u8, b: u8)
    ensures
        (b as int * 0x100 + a) % 0x4000 == a + 256 * (b % 64),
{
}

proof fn lemma_lossy(e: Seq<u8>, d: Seq<u8>)
    requires
        d.len() >= 10,
        e == d.take(10),
    ensures
        le16(e, 6) % 0x4000 == d[6] + 256 * (d[7] % 64),
        le16(e, 8) % 0x4000 == d[8] + 256 * (d[9] % 64),
        e[3] == d[3] && e[4] == d[4] && e[5] == d[5],
{
    lemma_fourteen(d[6], d[7]);
    lemma_fourteen(d[8], d[9]);
}

proof fn lemma_bits(a: int, b: int, c: int, d: int)
    requires
        0 <= a < 256,
        0 <= b < 256,
        0 <= c < 256,
        0 <= d < 256,
    ensures
        ({
            let x = d * 0x100_0000 + c * 0x1_0000 + b * 0x100 + a;
            &&& x % 0x4000 == a + 256 * (b % 64)
            &&& x / 0x4000 % 0x4000 == b / 64 + 4 * c + 1024 * (d % 16)
        }),
{
    let x = d * 0x100_0000 + c * 0x1_0000 + b * 0x100 + a;
    assert(x == (b / 64 + 4 * c + 1024 * d) * 0x4000 + (a + 256 * (b % 64)));
    assert(x / 0x4000 == b / 64 + 4 * c + 1024 * d);
    assert(b / 64 + 4 * c + 1024 * d == (d / 16) * 0x4000 + (b / 64 + 4 * c + 1024 * (d % 16)));
}

proof fn lemma_lossless(e: Seq<u8>, d: Seq<u8>)
    requires
        d.len() >= 5,
        e == d.take(5),
    ensures
        le32(e, 1) % 0x4000 == d[1] + 256 * (d[2] % 64),
        le32(e, 1) / 0x4000 % 0x4000 == d[2] / 64 + 4 * d[3] + 1024 * (d[4] % 16),
        e[0] == d[0],
{
    lemma_bits(d[1] as int, d[2] as int, d[3] as int, d[4] as int);
}

proof fn lemma_extended(e: Seq<u8>, d: Seq<u8>)
    requires
        d.len() >= 10,
        e == d.take(10),
    ensures
        le24(e, 4) == d[4] + 256 * d[5] + 65536 * d[6],
        le24(e, 7) == d[7] + 256 * d[8] + 65536 * d[9],
{
}

spec fn at_chunk(left: int) -> AnyMode {
    AnyMode::Webp(WebpMode::Chunks { left: left as u64 })
}

/// The bytes of a chunk.
pub proof fn lemma_chunk(kind: Seq<u8>, d: Seq<u8>, x: Seq<u8>)
    requires
        kind.len() == 4,
        d.len() < 0xFFFF_FFFF,
    ensures
        ({
            let b = a_chunk(kind, d) + x;
            let n = 8 + d.len() + d.len() % 2;
            &&& a_chunk(kind, d).len() == n
            &&& b.subrange(0, 4) == kind
            &&& le32(b, 4) == d.len()
            &&& b.subrange(8, 8 + d.len() as int) == d
            &&& tail(b, n as int) == x
        }),
{
    let b = a_chunk(kind, d) + x;
    let n = d.len() as int;
    let s = four_little(n);
    assert(b.subrange(0, 4) =~= kind);
    assert(b[4] == s[0] && b[5] == s[1] && b[6] == s[2] && b[7] == s[3]);
    assert(n == n % 256 + 256 * (n / 256 % 256) + 65536 * (n / 65536 % 256) + 0x100_0000 * (n
        / 0x100_0000));
    assert(le32(b, 4) == n);
    assert(b.subrange(8, 8 + n) =~= d);
    assert(tail(b, 8 + n + n % 2) =~= x);
}

/// A unit that tells `es` and goes on `n` bytes further.
pub open spec fn moves_on(u: Local<AnyMode>, next: AnyMode, n: int, es: Seq<EventView>) -> bool {
    match u {
        Local::Next { st, len, events } => st == next && len == n && events == es,
        Local::Stop { st, len, events, demand } => st == next && events == es && (demand matches
            Demand::Skip(k) && len + k == n),
    }
}

pub proof fn lemma_moves_on(
    f: Seq<u8>,
    st: AnyMode,
    pos: int,
    next: AnyMode,
    n: int,
    es: Seq<EventView>,
    c: CollectorView,
)
    requires
        0 <= pos <= f.len(),
        n > 0,
        moves_on(any_local(st, tail(f, pos)), next, n, es),
    ensures
        unit_run(f, st, pos, c) == unit_run(f, next, pos + n, handled_all(c, es)),
{
}

proof fn lemma_unit(kind: Seq<u8>, d: Seq<u8>, x: Seq<u8>, left: int)
    requires
        kind.len() == 4,
        d.len() < 0xFFFF_0000,
        a_chunk(kind, d).len() + x.len() <= isize::MAX,
        8 + d.len() + d.len() % 2 <= left < 0x1_0000_0000,
    ensures
        moves_on(
            any_local(at_chunk(left), a_chunk(kind, d) + x),
            at_chunk(left - a_chunk(kind, d).len()),
            a_chunk(kind, d).len() as int,
            chunk_tells(kind, d),
        ),
{
    lemma_words();
    let b = a_chunk(kind, d) + x;
    lemma_chunk(kind, d, x);
    reveal(any_local);
    let n = d.len() as int;
    assert(chunk_of(left as u64, b) == webp_local(WebpMode::Chunks { left: left as u64 }, b));
    if dims_len(kind) is Some {
        lemma_size(kind, d);
        let k = dims_len(kind).unwrap();
        let e = if k < n {
            k
        } else {
            n
        };
        assert(b.subrange(8, 8 + e) =~= d.take(e)) by {
            assert(b.subrange(8, 8 + n).take(e) =~= b.subrange(8, 8 + e));
        }
    } else {
        lemma_unmarked(d);
    }
}

spec fn chunk_of(left: u64, b: Seq<u8>) -> Local<WebpMode> {
    chunk(left, b)
}

proof fn lemma_chunks(f: Seq<u8>, pos: int, cs: Seq<(Seq<u8>, Seq<u8>)>, c: CollectorView)
    requires
        four_letters(cs),
        0 <= pos <= f.len() <= isize::MAX,
        tail(f, pos) == all_chunks(cs),
        all_chunks(cs).len() < 0xFFFF_0000,
    ensures
        unit_run(f, at_chunk(all_chunks(cs).len() as int), pos, c) == handled_all(
            c,
            chunks_tell(cs),
        ),
    decreases cs.len(),
{
    let left = all_chunks(cs).len() as int;
    assert(tail(f, pos).len() == f.len() - pos);
    if cs.len() == 0 {
        reveal(any_local);
        assert(any_local(at_chunk(0), tail(f, pos)) matches Local::Stop { demand: Demand::Done, events, .. }
            && events.len() == 0);
        assert(handled_all(c, seq![]) == c);
    } else {
        let (k, d) = cs[0];
        let m = cs.drop_first();
        let x = all_chunks(m);
        assert(cs[0].0.len() == 4);
        lemma_chunk_len(k, d);
        lemma_unit(k, d, x, left);
        let n = a_chunk(k, d).len() as int;
        let es = chunk_tells(k, d);
        lemma_moves_on(f, at_chunk(left), pos, at_chunk(left - n), n, es, c);
        assert(tail(f, pos + n) =~= x) by {
            assert(tail(f, pos + n) =~= tail(tail(f, pos), n));
            assert(tail(a_chunk(k, d) + x, n) =~= x);
        }
        assert forall|i: int| 0 <= i < m.len() implies (#[trigger] m[i]).0.len() == 4 by {
            assert(m[i] == cs[i + 1]);
        }
        lemma_chunks(f, pos + n, m, handled_all(c, es));
        lemma_after(c, es, chunks_tell(m));
    }
}

proof fn lemma_chunk_len(kind: Seq<u8>, d: Seq<u8>)
    requires
        kind.len() == 4,
    ensures
        a_chunk(kind, d).len() == 8 + d.len() + d.len() % 2,
{
}

proof fn lemma_header(cs: Seq<(Seq<u8>, Seq<u8>)>)
    requires
        all_chunks(cs).len() < 0xFFFF_0000,
    ensures
        ({
            let f = webp_file(cs);
            let n = all_chunks(cs).len() as int;
            &&& probed(f) == FileFormat::Webp
            &&& tail(f, 12) == all_chunks(cs)
            &&& moves_on(
                any_local(AnyMode::Webp(WebpMode::Start), tail(f, 0)),
                at_chunk(n),
                12,
                seq![],
            )
        }),
{
    let f = webp_file(cs);
    lemma_header_bytes(all_chunks(cs));
    lemma_once_is_webp(f);
    assert(tail(f, 0) =~= f);
    reveal(any_local);
}

proof fn lemma_header_bytes(x: Seq<u8>)
    requires
        x.len() < 0xFFFF_0000,
    ensures
        ({
            let f = lit("RIFF") + four_little(x.len() as int + 4) + lit("WEBP") + x;
            &&& riff_webp(f)
            &&& le32(f, 4) == x.len() + 4
            &&& tail(f, 12) == x
        }),
{
    let n = x.len() as int + 4;
    let f = lit("RIFF") + four_little(n) + lit("WEBP") + x;
    lemma_words();
    assert(f.subrange(0, 4) =~= lit("RIFF"));
    assert(f.subrange(8, 12) =~= lit("WEBP"));
    let s = four_little(n);
    assert(f[4] == s[0] && f[5] == s[1] && f[6] == s[2] && f[7] == s[3]);
    lemma_little(n);
    assert(tail(f, 12) =~= x);
}

proof fn lemma_little(n: int)
    requires
        0 <= n < 0x1_0000_0000,
    ensures
        n == n % 256 + 256 * (n / 256 % 256) + 65536 * (n / 65536 % 256) + 0x100_0000 * (n
            / 0x100_0000),
        0 <= n / 0x100_0000 < 256,
{
}

/// A WebP file is read as what its chunks tell, one after the other: the sizes of the image
/// and the EXIF and XMP data, each under its kind, and nothing else.
#[verifier::rlimit(40)]
pub proof fn webp_chunks_are_read(cs: Seq<(Seq<u8>, Seq<u8>)>, l: Limits)
    requires
        four_letters(cs),
        all_chunks(cs).len() < 0xFFFF_0000,
        webp_file(cs).len() <= isize::MAX,
    ensures
        metadata_of(webp_file(cs), l) == Some(
            finalized(handled_all(nothing(l), chunks_tell(cs)), FileFormat::Webp),
        ),
{
    let f = webp_file(cs);
    let n = all_chunks(cs).len() as int;
    lemma_header(cs);
    let st = AnyMode::Webp(WebpMode::Start);
    lemma_straight(f, st, 0);
    lemma_read(f, l);
    lemma_moves_on(f, st, 0, at_chunk(n), 12, seq![], nothing(l));
    assert(handled_all(nothing(l), seq![]) == nothing(l));
    lemma_chunks(f, 12, cs, nothing(l));
}

} // verus!
