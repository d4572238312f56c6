//! What stripping does to the chunks of a WebP file.
use vstd::prelude::*;

use crate::adapters::strip_slice::stripped;
use crate::bytes::{le32, le32_bytes, lit, tail};
use crate::formats::webp::riff_webp;
use crate::laws::stripping::lemma_orientation_bytes;
use crate::laws::webp_files::{a_chunk, all_chunks, four_little, lemma_chunk, webp_file};
use crate::laws::webp_stripping::{lemma_once_is_webp, lemma_webp_body, webp_clean, webp_stripped_is_clean};
use crate::model::FileFormat;
use crate::probe::probed;
use crate::strip::exif_synth::orientation_bytes;
use crate::strip::jpeg::tiff_orientation;
use crate::strip::webp::{
    chunk_end, data_end, exif_chunk, last_orientation, new_flags, rebuild, rebuild_step,
    riff_kind, webp_body, Rebuilt,
};
use crate::strip::{CmdView, RemovedKind, StripOptions};

verus! {

/// The chunks that hold EXIF data, XMP, or a profile that is not to be kept.
pub open spec fn goes(c: (Seq<u8>, Seq<u8>), keep_icc: bool) -> bool {
    c.0 == lit("EXIF") || c.0 == lit("XMP ") || (c.0 == lit("ICCP") && !keep_icc)
}

/// The chunks that stay.
pub open spec fn left(cs: Seq<(Seq<u8>, Seq<u8>)>, keep_icc: bool) -> Seq<(Seq<u8>, Seq<u8>)>
    decreases cs.len(),
{
    if cs.len() == 0 {
        seq![]
    } else if goes(cs[0], keep_icc) {
        left(cs.drop_first(), keep_icc)
    } else {
        seq![cs[0]] + left(cs.drop_first(), keep_icc)
    }
}

/// What the last chunk with EXIF data gives.
pub open spec fn last_among(cs: Seq<(Seq<u8>, Seq<u8>)>) -> Option<u16>
    decreases cs.len(),
{
    if cs.len() == 0 {
        None
    } else if cs.last().0 == lit("EXIF") {
        tiff_orientation(cs.last().1)
    } else {
        last_among(cs.drop_last())
    }
}

/// A profile among the chunks.
pub open spec fn has_profile(cs: Seq<(Seq<u8>, Seq<u8>)>) -> bool {
    exists|i: int| 0 <= i < cs.len() && (#[trigger] cs[i]).0 == lit("ICCP")
}

/// Chunks of an image: none of them that tells what the file holds.
pub open spec fn image_chunks(cs: Seq<(Seq<u8>, Seq<u8>)>) -> bool {
    forall|i: int|
        0 <= i < cs.len() ==> (#[trigger] cs[i]).0.len() == 4 && cs[i].0 != lit("VP8X")
            && cs[i].1.len() < 0x8000_0000
}

/// A chunk with the smallest EXIF data, which holds an orientation and nothing else.
pub open spec fn orientation_alone(v: u16) -> (Seq<u8>, Seq<u8>) {
    (
        lit("EXIF"),
        seq![
            0x49u8, 0x49u8, 42u8, 0u8, 8u8, 0u8, 0u8, 0u8, 1u8, 0u8, 0x12u8, 0x01u8, 3u8, 0u8,
            1u8, 0u8, 0u8, 0u8, (v % 0x100) as u8, (v / 0x100) as u8, 0u8, 0u8, 0u8, 0u8, 0u8,
            0u8,
        ],
    )
}

/// The orientation that is put in.
pub open spec fn put_in(o: Option<u16>) -> Seq<(Seq<u8>, Seq<u8>)> {
    match o {
        Some(v) => seq![orientation_alone(v)],
        None => seq![],
    }
}

proof fn lemma_little(x: u32)
    ensures
        le32_bytes(x) == four_little(x as int),
{
    assert(le32_bytes(x) =~= four_little(x as int));
}

proof fn lemma_front(c: (Seq<u8>, Seq<u8>), x: Seq<u8>)
    requires
        c.0.len() == 4,
        c.1.len() < 0x8000_0000,
    ensures
        ({
            let t = a_chunk(c.0, c.1) + x;
            let n = a_chunk(c.0, c.1).len() as int;
            &&& n == 8 + c.1.len() + c.1.len() % 2
            &&& t.len() == n + x.len()
            &&& le32(t, 4) == c.1.len()
            &&& data_end(t) == 8 + c.1.len()
            &&& chunk_end(t) == n
            &&& t.subrange(0, 4) == c.0
            &&& t.subrange(8, data_end(t)) == c.1
            &&& t.subrange(0, n) == a_chunk(c.0, c.1)
            &&& tail(t, n) == x
        }),
{
    lemma_chunk(c.0, c.1, x);
    let t = a_chunk(c.0, c.1) + x;
    let n = a_chunk(c.0, c.1).len() as int;
    assert(t.subrange(0, n) =~= a_chunk(c.0, c.1));
    assert(t.subrange(8, 8 + c.1.len() as int) =~= c.1);
    assert(tail(t, n) =~= x);
}

proof fn lemma_words()
    ensures
        lit("EXIF").len() == 4,
        lit("XMP ").len() == 4,
        lit("ICCP").len() == 4,
        lit("VP8X").len() == 4,
        lit("VP8X") != lit("EXIF"),
        lit("VP8X") != lit("XMP "),
        lit("VP8X") != lit("ICCP"),
        lit("EXIF") != lit("ICCP"),
        lit("XMP ") != lit("ICCP"),
        lit("WEBP").len() == 4,
        lit("RIFF").len() == 4,
{
    reveal_strlit("EXIF");
    reveal_strlit("XMP ");
    reveal_strlit("ICCP");
    reveal_strlit("VP8X");
    reveal_strlit("WEBP");
    reveal_strlit("RIFF");
    vstd::string::is_ascii_spec_bytes("EXIF");
    vstd::string::is_ascii_spec_bytes("XMP ");
    vstd::string::is_ascii_spec_bytes("ICCP");
    vstd::string::is_ascii_spec_bytes("VP8X");
    vstd::string::is_ascii_spec_bytes("WEBP");
    vstd::string::is_ascii_spec_bytes("RIFF");
    assert(lit("EXIF")[0] == 0x45);
    assert(lit("XMP ")[0] == 0x58);
    assert(lit("ICCP")[0] == 0x49);
    assert(lit("VP8X")[0] == 0x56);
}

proof fn lemma_join(a: Seq<u8>, b: Seq<u8>, c: Seq<u8>)
    ensures
        a + (b + c) == a + b + c,
{
    assert(a + (b + c) =~= a + b + c);
}

proof fn lemma_chunks_of(c: (Seq<u8>, Seq<u8>), cs: Seq<(Seq<u8>, Seq<u8>)>)
    ensures
        all_chunks(seq![c] + cs) == a_chunk(c.0, c.1) + all_chunks(cs),
{
    assert((seq![c] + cs).drop_first() =~= cs);
}

proof fn lemma_profile(c: (Seq<u8>, Seq<u8>), cs: Seq<(Seq<u8>, Seq<u8>)>)
    ensures
        has_profile(seq![c] + cs) == (c.0 == lit("ICCP") || has_profile(cs)),
{
    let s = seq![c] + cs;
    if c.0 == lit("ICCP") {
        assert(s[0].0 == lit("ICCP"));
    }
    if has_profile(cs) {
        let i = choose|i: int| 0 <= i < cs.len() && (#[trigger] cs[i]).0 == lit("ICCP");
        assert(s[i + 1].0 == lit("ICCP"));
    }
    if has_profile(s) {
        let i = choose|i: int| 0 <= i < s.len() && (#[trigger] s[i]).0 == lit("ICCP");
        if i > 0 {
            assert(cs[i - 1].0 == lit("ICCP"));
        }
    }
}

/// One chunk of an image.
proof fn lemma_step(c: (Seq<u8>, Seq<u8>), x: Seq<u8>, r: Rebuilt, opts: StripOptions)
    requires
        c.0.len() == 4,
        c.1.len() < 0x8000_0000,
        c.0 != lit("VP8X"),
    ensures
        ({
            let t = a_chunk(c.0, c.1) + x;
            let s = rebuild_step(t, r, opts);
            &&& rebuild(t, r, opts) == rebuild(x, s, opts)
            &&& s.orientation == r.orientation
            &&& s.flags == r.flags
            &&& goes(c, opts.keep_icc) ==> s.body == r.body && s.icc == r.icc
            &&& !goes(c, opts.keep_icc) ==> s.body == r.body + a_chunk(c.0, c.1) && s.icc == (
            r.icc || c.0 == lit("ICCP"))
        }),
{
    lemma_front(c, x);
}

proof fn lemma_rebuild(cs: Seq<(Seq<u8>, Seq<u8>)>, r: Rebuilt, opts: StripOptions)
    requires
        image_chunks(cs),
    ensures
        ({
            let (s, rest) = rebuild(all_chunks(cs), r, opts);
            &&& rest.len() == 0
            &&& s.body == r.body + all_chunks(left(cs, opts.keep_icc))
            &&& s.orientation == r.orientation
            &&& s.flags == r.flags
            &&& s.icc == (r.icc || has_profile(left(cs, opts.keep_icc)))
        }),
    decreases cs.len(),
{
    if cs.len() == 0 {
        assert(r.body + all_chunks(left(cs, opts.keep_icc)) =~= r.body);
    } else {
        let c = cs[0];
        let m = cs.drop_first();
        assert(c.0.len() == 4 && c.0 != lit("VP8X") && c.1.len() < 0x8000_0000);
        assert forall|i: int| 0 <= i < m.len() implies (#[trigger] m[i]).0.len() == 4 && m[i].0 != lit(
            "VP8X",
        ) && m[i].1.len() < 0x8000_0000 by {
            assert(m[i] == cs[i + 1]);
        }
        let t = a_chunk(c.0, c.1) + all_chunks(m);
        lemma_step(c, all_chunks(m), r, opts);
        let s = rebuild_step(t, r, opts);
        lemma_rebuild(m, s, opts);
        let l = left(m, opts.keep_icc);
        lemma_chunks_of(c, l);
        lemma_profile(c, l);
        lemma_join(r.body, a_chunk(c.0, c.1), all_chunks(l));
    }
}

proof fn lemma_last(cs: Seq<(Seq<u8>, Seq<u8>)>, found: Option<u16>)
    requires
        forall|i: int| 0 <= i < cs.len() ==> (#[trigger] cs[i]).0.len() == 4 && cs[i].1.len() < 0x8000_0000,
    ensures
        last_orientation(all_chunks(cs), found) == last_listed(cs, found),
    decreases cs.len(),
{
    if cs.len() > 0 {
        let c = cs[0];
        let m = cs.drop_first();
        assert(c.0.len() == 4 && c.1.len() < 0x8000_0000);
        lemma_front(c, all_chunks(m));
        assert forall|i: int| 0 <= i < m.len() implies (#[trigger] m[i]).0.len() == 4 && m[i].1.len()
            < 0x8000_0000 by {
            assert(m[i] == cs[i + 1]);
        }
        lemma_last(
            m,
            if c.0 == lit("EXIF") {
                tiff_orientation(c.1)
            } else {
                found
            },
        );
    }
}

spec fn last_listed(cs: Seq<(Seq<u8>, Seq<u8>)>, found: Option<u16>) -> Option<u16>
    decreases cs.len(),
{
    if cs.len() == 0 {
        found
    } else {
        last_listed(
            cs.drop_first(),
            if cs[0].0 == lit("EXIF") {
                tiff_orientation(cs[0].1)
            } else {
                found
            },
        )
    }
}

proof fn lemma_listed(cs: Seq<(Seq<u8>, Seq<u8>)>, found: Option<u16>)
    ensures
        cs.len() > 0 ==> last_listed(cs, found) == (if cs.last().0 == lit("EXIF") {
            tiff_orientation(cs.last().1)
        } else {
            last_listed(cs.drop_last(), found)
        }),
    decreases cs.len(),
{
    if cs.len() > 1 {
        let m = cs.drop_first();
        let f = if cs[0].0 == lit("EXIF") {
            tiff_orientation(cs[0].1)
        } else {
            found
        };
        lemma_listed(m, f);
        let d = cs.drop_last();
        assert(m.drop_last() =~= d.drop_first());
        assert(d[0] == cs[0] && m.last() == cs.last());
        assert(last_listed(cs, found) == last_listed(m, f));
        assert(last_listed(d, found) == last_listed(d.drop_first(), f));
    } else if cs.len() == 1 {
        let f = if cs[0].0 == lit("EXIF") {
            tiff_orientation(cs[0].1)
        } else {
            found
        };
        assert(cs.last() == cs[0]);
        assert(last_listed(cs, found) == last_listed(cs.drop_first(), f));
        assert(last_listed(cs.drop_first(), f) == f);
        assert(last_listed(cs.drop_last(), found) == found);
    }
}

proof fn lemma_last_among(cs: Seq<(Seq<u8>, Seq<u8>)>)
    ensures
        last_listed(cs, None) == last_among(cs),
    decreases cs.len(),
{
    lemma_listed(cs, None);
    if cs.len() > 0 {
        lemma_last_among(cs.drop_last());
    }
}

proof fn lemma_exif_chunk(o: Option<u16>)
    ensures
        exif_chunk(o) == all_chunks(put_in(o)),
{
    match o {
        Some(v) => {
            lemma_orientation_bytes(v);
            lemma_little(26);
            let c = orientation_alone(v);
            assert(orientation_bytes(v) == c.1);
            assert(exif_chunk(o) =~= a_chunk(c.0, c.1));
            let none: Seq<(Seq<u8>, Seq<u8>)> = seq![];
            lemma_chunks_of(c, none);
            assert(seq![c] + none =~= seq![c]);
            assert(a_chunk(c.0, c.1) + all_chunks(none) =~= a_chunk(c.0, c.1));
        },
        None => {},
    }
}

proof fn lemma_all_joined(a: Seq<(Seq<u8>, Seq<u8>)>, b: Seq<(Seq<u8>, Seq<u8>)>)
    ensures
        all_chunks(a + b) == all_chunks(a) + all_chunks(b),
    decreases a.len(),
{
    if a.len() == 0 {
        assert(a + b =~= b);
        assert(all_chunks(a) + all_chunks(b) =~= all_chunks(b));
    } else {
        let m = a.drop_first();
        assert((a + b).drop_first() =~= m + b);
        lemma_all_joined(m, b);
        lemma_join(a_chunk(a[0].0, a[0].1), all_chunks(m), all_chunks(b));
    }
}

proof fn lemma_is_webp(cs: Seq<(Seq<u8>, Seq<u8>)>)
    ensures
        probed(webp_file(cs)) == FileFormat::Webp,
{
    lemma_words();
    let b = webp_file(cs);
    assert(b.subrange(0, 4) =~= lit("RIFF"));
    assert(b.subrange(8, 12) =~= lit("WEBP"));
    assert(riff_webp(b));
    lemma_once_is_webp(b);
}

proof fn lemma_wrapped(ds: Seq<(Seq<u8>, Seq<u8>)>)
    requires
        all_chunks(ds).len() < 0xFFFF_0000,
    ensures
        ({
            let body = lit("WEBP") + all_chunks(ds);
            lit("RIFF") + le32_bytes((body.len() % 0x1_0000_0000) as u32) + body == webp_file(ds)
        }),
{
    lemma_words();
    let body = lit("WEBP") + all_chunks(ds);
    lemma_little(body.len() as u32);
    let n = four_little(all_chunks(ds).len() as int + 4);
    assert(lit("RIFF") + n + body =~= lit("RIFF") + n + lit("WEBP") + all_chunks(ds));
}

/// A file of chunks, by the body of its stripped form.
proof fn lemma_file(cs: Seq<(Seq<u8>, Seq<u8>)>, opts: StripOptions, ds: Seq<(Seq<u8>, Seq<u8>)>)
    requires
        all_chunks(ds).len() < 0xFFFF_0000,
        webp_body(webp_file(cs), opts).0 == lit("WEBP") + all_chunks(ds),
    ensures
        stripped(webp_file(cs), opts) matches Ok(s) && s.out == webp_file(ds),
{
    let b = webp_file(cs);
    lemma_is_webp(cs);
    webp_stripped_is_clean(b, opts);
    lemma_webp_body(b, opts);
    lemma_wrapped(ds);
    lemma_clean(b, opts, lit("WEBP") + all_chunks(ds));
}

proof fn lemma_clean(b: Seq<u8>, opts: StripOptions, body: Seq<u8>)
    requires
        webp_body(b, opts).0 == body,
    ensures
        webp_clean(b, opts) == lit("RIFF") + le32_bytes((body.len() % 0x1_0000_0000) as u32) + body,
{
    lemma_webp_body(b, opts);
}

proof fn lemma_behind(cs: Seq<(Seq<u8>, Seq<u8>)>)
    ensures
        tail(webp_file(cs), 12) == all_chunks(cs),
{
    lemma_words();
    assert(tail(webp_file(cs), 12) =~= all_chunks(cs));
}

/// Stripping a simple WebP file takes out the chunks with metadata. The others stand in the
/// output as they were and in their order; behind them stands, where it is to be kept, the
/// orientation that the last EXIF data gave; and the size of it all is told anew.
pub proof fn simple_webp_chunks_stay(cs: Seq<(Seq<u8>, Seq<u8>)>, opts: StripOptions)
    requires
        image_chunks(cs),
        all_chunks(left(cs, opts.keep_icc)).len() < 0xF000_0000,
    ensures
        stripped(webp_file(cs), opts) matches Ok(s) && s.out == webp_file(
            left(cs, opts.keep_icc) + put_in(
                if opts.keep_orientation {
                    last_among(cs)
                } else {
                    None
                },
            ),
        ),
{
    let o = if opts.keep_orientation {
        last_among(cs)
    } else {
        None
    };
    lemma_behind(cs);
    assert forall|i: int| 0 <= i < cs.len() implies (#[trigger] cs[i]).0.len() == 4 && cs[i].1.len()
        < 0x8000_0000 by {}
    lemma_last(cs, None);
    lemma_last_among(cs);
    let r = Rebuilt {
        body: lit("WEBP"),
        orientation: o,
        flags: None,
        icc: false,
        removed: seq![],
    };
    lemma_rebuild(cs, r, opts);
    lemma_exif_chunk(o);
    let l = left(cs, opts.keep_icc);
    lemma_all_joined(l, put_in(o));
    lemma_join(lit("WEBP"), all_chunks(l), exif_chunk(o));
    lemma_put_len(o);
    let ds = l + put_in(o);
    let body = lit("WEBP") + all_chunks(ds);
    assert(body + seq![] =~= body);
    lemma_file(cs, opts, ds);
}

proof fn lemma_put_len(o: Option<u16>)
    ensures
        all_chunks(put_in(o)).len() <= 34,
{
    lemma_words();
    lemma_exif_chunk(o);
    match o {
        Some(v) => lemma_orientation_bytes(v),
        None => {},
    }
}

/// The byte that tells what a file holds: two bits, whether it has a profile, whether it is
/// clear in places, whether it has EXIF data, whether it has XMP, and two bits more.
pub open spec fn told(high: int, icc: bool, alpha: bool, exif: bool, xmp: bool, low: int) -> int {
    high * 64 + (if icc {
        32int
    } else {
        0
    }) + (if alpha {
        16int
    } else {
        0
    }) + (if exif {
        8int
    } else {
        0
    }) + (if xmp {
        4int
    } else {
        0
    }) + low
}

proof fn lemma_flags(x: u8, high: u8, icc: bool, alpha: bool, exif: bool, xmp: bool, low: u8, e: bool, i: bool)
    requires
        high < 4,
        low < 4,
        x == told(high as int, icc, alpha, exif, xmp, low as int),
    ensures
        new_flags(x, e, i) == told(high as int, i, alpha, e, false, low as int),
{
    let a = x & 0xD3u8;
    let base: u8 = (high * 64 + (if alpha {
        16int
    } else {
        0
    }) + low) as u8;
    let rest: u8 = ((if icc {
        32int
    } else {
        0
    }) + (if exif {
        8int
    } else {
        0
    }) + (if xmp {
        4int
    } else {
        0
    })) as u8;
    assert(x == base + rest);
    assert(base == high * 64 + low || base == high * 64 + 16 + low);
    assert(rest == 0 || rest == 4 || rest == 8 || rest == 12 || rest == 32 || rest == 36 || rest
        == 40 || rest == 44);
    assert((x & 0xD3u8) == base && (base | 0x08u8) == base + 8 && (base | 0x20u8) == base + 32
        && ((base | 0x08u8) | 0x20u8) == base + 40) by (bit_vector)
        requires
            high < 4,
            low < 4,
            x == base + rest,
            base == high * 64 + low || base == high * 64 + 16 + low,
            rest == 0 || rest == 4 || rest == 8 || rest == 12 || rest == 32 || rest == 36 || rest
                == 40 || rest == 44,
    ;
}

/// Stripping an extended WebP file takes out the chunks with metadata as well. The orientation
/// stands behind the first chunk, whose flags tell what is left: a profile that stayed, EXIF
/// data where the orientation was kept, no XMP, and all else as it was.
pub proof fn extended_webp_chunks_stay(
    data: Seq<u8>,
    high: u8,
    icc: bool,
    alpha: bool,
    exif: bool,
    xmp: bool,
    low: u8,
    cs: Seq<(Seq<u8>, Seq<u8>)>,
    opts: StripOptions,
)
    requires
        image_chunks(cs),
        1 <= data.len() < 0x1000_0000,
        high < 4,
        low < 4,
        data[0] == told(high as int, icc, alpha, exif, xmp, low as int),
        all_chunks(left(cs, opts.keep_icc)).len() < 0xE000_0000,
    ensures
        ({
            let o = if opts.keep_orientation {
                last_among(cs)
            } else {
                None
            };
            let l = left(cs, opts.keep_icc);
            let flags = told(high as int, has_profile(l), alpha, o is Some, false, low as int);
            stripped(webp_file(seq![(lit("VP8X"), data)] + cs), opts) matches Ok(s) && s.out
                == webp_file(
                seq![(lit("VP8X"), data.update(0, flags as u8))] + put_in(o) + l,
            )
        }),
{
    let o = if opts.keep_orientation {
        last_among(cs)
    } else {
        None
    };
    let l = left(cs, opts.keep_icc);
    lemma_flags(data[0], high, icc, alpha, exif, xmp, low, o is Some, has_profile(l));
    lemma_extended(data, cs, opts, o);
}

/// An extended file, by the byte with its flags.
proof fn lemma_extended(
    data: Seq<u8>,
    cs: Seq<(Seq<u8>, Seq<u8>)>,
    opts: StripOptions,
    o: Option<u16>,
)
    requires
        image_chunks(cs),
        1 <= data.len() < 0x1000_0000,
        all_chunks(left(cs, opts.keep_icc)).len() < 0xE000_0000,
        o == (if opts.keep_orientation {
            last_among(cs)
        } else {
            None
        }),
    ensures
        ({
            let l = left(cs, opts.keep_icc);
            let x = new_flags(data[0], o is Some, has_profile(l));
            stripped(webp_file(seq![(lit("VP8X"), data)] + cs), opts) matches Ok(s) && s.out
                == webp_file(seq![(lit("VP8X"), data.update(0, x))] + put_in(o) + l)
        }),
{
    let l = left(cs, opts.keep_icc);
    let x = new_flags(data[0], o is Some, has_profile(l));
    lemma_extended_body(data, cs, opts, o);
    lemma_ds_len(data.update(0, x), o, l);
    lemma_file(
        seq![(lit("VP8X"), data)] + cs,
        opts,
        seq![(lit("VP8X"), data.update(0, x))] + put_in(o) + l,
    );
}

proof fn lemma_ds_len(data: Seq<u8>, o: Option<u16>, l: Seq<(Seq<u8>, Seq<u8>)>)
    requires
        1 <= data.len() < 0x1000_0000,
        all_chunks(l).len() < 0xE000_0000,
    ensures
        all_chunks(seq![(lit("VP8X"), data)] + put_in(o) + l).len() < 0xFFFF_0000,
        all_chunks(seq![(lit("VP8X"), data)] + put_in(o) + l) == a_chunk(lit("VP8X"), data)
            + all_chunks(put_in(o)) + all_chunks(l),
{
    lemma_words();
    let c = (lit("VP8X"), data);
    lemma_all_joined(seq![c] + put_in(o), l);
    lemma_chunks_of(c, put_in(o));
    lemma_put_len(o);
    lemma_front(c, seq![]);
}

#[verifier::rlimit(40)]
proof fn lemma_extended_body(
    data: Seq<u8>,
    cs: Seq<(Seq<u8>, Seq<u8>)>,
    opts: StripOptions,
    o: Option<u16>,
)
    requires
        image_chunks(cs),
        1 <= data.len() < 0x1000_0000,
        all_chunks(left(cs, opts.keep_icc)).len() < 0xE000_0000,
        o == (if opts.keep_orientation {
            last_among(cs)
        } else {
            None
        }),
    ensures
        ({
            let l = left(cs, opts.keep_icc);
            let x = new_flags(data[0], o is Some, has_profile(l));
            webp_body(webp_file(seq![(lit("VP8X"), data)] + cs), opts).0 == lit("WEBP")
                + all_chunks(seq![(lit("VP8X"), data.update(0, x))] + put_in(o) + l)
        }),
{
    lemma_words();
    let first = (lit("VP8X"), data);
    let all = seq![first] + cs;
    let l = left(cs, opts.keep_icc);
    let x = new_flags(data[0], o is Some, has_profile(l));
    lemma_behind(all);
    lemma_extended_orientation(first, cs);
    let r = Rebuilt {
        body: lit("WEBP"),
        orientation: o,
        flags: None,
        icc: false,
        removed: seq![],
    };
    lemma_chunks_of(first, cs);
    let t = a_chunk(first.0, first.1) + all_chunks(cs);
    lemma_front(first, all_chunks(cs));
    let s = rebuild_step(t, r, opts);
    assert(riff_kind(lit("VP8X"), opts) is None);
    assert(s.body == lit("WEBP") + a_chunk(first.0, first.1) + exif_chunk(o));
    assert(s.flags == Some(12int) && s.orientation is None && !s.icc);
    assert(rebuild(t, r, opts) == rebuild(all_chunks(cs), s, opts));
    lemma_rebuild(cs, s, opts);
    lemma_exif_chunk(o);
    let p = all_chunks(put_in(o));
    let rest = all_chunks(l);
    let body = lit("WEBP") + a_chunk(lit("VP8X"), data) + p + rest;
    lemma_ds_len(data.update(0, x), o, l);
    lemma_updated(data, x, p, rest);
    let b = rebuild(t, r, opts).0.body;
    assert(b + seq![] =~= body);
    let flagged = body.update(12, x);
    assert(flagged + seq![] =~= flagged);
}

proof fn lemma_updated(data: Seq<u8>, x: u8, p: Seq<u8>, rest: Seq<u8>)
    requires
        data.len() >= 1,
    ensures
        ({
            let body = lit("WEBP") + a_chunk(lit("VP8X"), data) + p + rest;
            &&& body[12] == data[0]
            &&& body.update(12, x) == lit("WEBP") + (a_chunk(lit("VP8X"), data.update(0, x)) + p
                + rest)
            &&& body.len() > 12
        }),
{
    lemma_words();
    let body = lit("WEBP") + a_chunk(lit("VP8X"), data) + p + rest;
    assert(body[12] == data[0]);
    let d = data.update(0, x);
    assert(a_chunk(lit("VP8X"), d) =~= a_chunk(lit("VP8X"), data).update(8, x));
    assert(body.update(12, x) =~= lit("WEBP") + (a_chunk(lit("VP8X"), data).update(8, x) + p + rest));
}

proof fn lemma_extended_orientation(first: (Seq<u8>, Seq<u8>), cs: Seq<(Seq<u8>, Seq<u8>)>)
    requires
        image_chunks(cs),
        first.0 == lit("VP8X"),
        first.1.len() < 0x8000_0000,
    ensures
        last_orientation(all_chunks(seq![first] + cs), None) == last_among(cs),
{
    lemma_words();
    let all = seq![first] + cs;
    assert forall|i: int| 0 <= i < all.len() implies (#[trigger] all[i]).0.len() == 4
        && all[i].1.len() < 0x8000_0000 by {
        if i > 0 {
            assert(all[i] == cs[i - 1]);
        }
    }
    lemma_last(all, None);
    assert(all.drop_first() =~= cs);
    lemma_last_among(cs);
}

/// A chunk that goes is accounted for as what it holds, with all its bytes; one that stays is
/// not.
pub proof fn webp_chunks_are_accounted(
    c: (Seq<u8>, Seq<u8>),
    x: Seq<u8>,
    r: Rebuilt,
    opts: StripOptions,
)
    requires
        c.0.len() == 4,
        c.1.len() < 0x8000_0000,
    ensures
        ({
            let n = a_chunk(c.0, c.1).len() as u64;
            let s = rebuild_step(a_chunk(c.0, c.1) + x, r, opts).removed;
            &&& c.0 == lit("EXIF") ==> s == r.removed.push(
                CmdView::Account { len: n, kind: RemovedKind::Exif },
            )
            &&& c.0 == lit("XMP ") ==> s == r.removed.push(
                CmdView::Account { len: n, kind: RemovedKind::Xmp },
            )
            &&& c.0 == lit("ICCP") && !opts.keep_icc ==> s == r.removed.push(
                CmdView::Account { len: n, kind: RemovedKind::Icc },
            )
            &&& !goes(c, opts.keep_icc) ==> s == r.removed
        }),
{
    lemma_words();
    lemma_front(c, x);
    assert(lit("EXIF")[0] != lit("XMP ")[0]) by {
        reveal_strlit("EXIF");
        reveal_strlit("XMP ");
        vstd::string::is_ascii_spec_bytes("EXIF");
        vstd::string::is_ascii_spec_bytes("XMP ");
    }
}

} // verus!
