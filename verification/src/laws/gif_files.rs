//! GIF files, block by block: the size is that of the screen, and an XMP packet is told from
//! other blocks.
use vstd::arithmetic::power2::lemma2_to64;
use vstd::prelude::*;

use crate::adapters::slice::metadata_of;
use crate::bytes::{find_from, le16, lemma_find_from, lit, tail};
use crate::demand::{Demand, EventView, Local, PayloadKind};
use crate::driver::{finalized, handled_all, nothing, CollectorView};
use crate::formats::gif::{block, color_table, gif_signature, header, magic_from, packet, GifMode};
use crate::laws::agreement::unit_run;
use crate::laws::files::{lemma_after, lemma_read, sized};
use crate::laws::plain_files::lemma_straight;
use crate::laws::webp_files::{lemma_moves_on, moves_on};
use crate::limits::Limits;
use crate::model::FileFormat;
use crate::probe::{any_local, probed, AnyMode};

verus! {

/// How long a table of colours is: three bytes each, and two, four, up to 256 of them.
pub open spec fn colours(packed: int) -> int {
    if packed < 128 {
        0
    } else if packed % 8 == 0 {
        6
    } else if packed % 8 == 1 {
        12
    } else if packed % 8 == 2 {
        24
    } else if packed % 8 == 3 {
        48
    } else if packed % 8 == 4 {
        96
    } else if packed % 8 == 5 {
        192
    } else if packed % 8 == 6 {
        384
    } else {
        768
    }
}

/// Data in pieces of up to 255 bytes, and the empty piece that ends it.
pub open spec fn pieces(ds: Seq<Seq<u8>>) -> Seq<u8>
    decreases ds.len(),
{
    if ds.len() == 0 {
        seq![0u8]
    } else {
        seq![ds[0].len() as u8] + ds[0] + pieces(ds.drop_first())
    }
}

pub open spec fn short_pieces(ds: Seq<Seq<u8>>) -> bool {
    forall|i: int| 0 <= i < ds.len() ==> 1 <= (#[trigger] ds[i]).len() <= 255
}

/// A block of a GIF file.
pub enum Block {
    /// An image: where and how large it is, its colours, and its data.
    Image { place: Seq<u8>, packed: u8, table: Seq<u8>, code: u8, data: Seq<Seq<u8>> },
    /// An extension other than that of an application.
    Extension { label: u8, data: Seq<Seq<u8>> },
    /// An extension of an application.
    Application { size: u8, name: Seq<u8>, data: Seq<Seq<u8>> },
    /// XMP, and the trailer behind it.
    Packet { size: u8, text: Seq<u8>, trailer: Seq<u8> },
}

pub open spec fn block_bytes(k: Block) -> Seq<u8> {
    match k {
        Block::Image { place, packed, table, code, data } => seq![0x2Cu8] + place + seq![packed]
            + table + seq![code] + pieces(data),
        Block::Extension { label, data } => seq![0x21u8, label] + pieces(data),
        Block::Application { size, name, data } => seq![0x21u8, 0xFFu8, size] + name + pieces(data),
        Block::Packet { size, text, trailer } => seq![0x21u8, 0xFFu8, size] + lit("XMP DataXMP")
            + (text + trailer + seq![0u8]),
    }
}

/// The three bytes at `i` begin a trailer.
pub open spec fn trailer_at(b: Seq<u8>, i: int) -> bool {
    b[i] == 0x01 && b[i + 1] == 0xFF && b[i + 2] == 0xFE
}

/// A packet without a zero byte, up to its first trailer, if there is one.
pub open spec fn ends_so(text: Seq<u8>, trailer: Seq<u8>) -> bool {
    &&& forall|i: int| 0 <= i < (text + trailer).len() ==> (text + trailer)[i] != 0
    &&& forall|i: int|
        0 <= i < text.len() && i + 3 <= (text + trailer).len() ==> !#[trigger] trailer_at(
            text + trailer,
            i,
        )
    &&& trailer.len() > 0 ==> trailer.len() >= 3 && trailer_at(trailer, 0)
}

pub open spec fn proper(k: Block) -> bool {
    match k {
        Block::Image { place, packed, table, data, .. } => place.len() == 8 && table.len()
            == colours(packed as int) && short_pieces(data),
        Block::Extension { label, data } => label != 0xFF && short_pieces(data),
        Block::Application { name, data, .. } => name.len() == 11 && name != lit("XMP DataXMP")
            && short_pieces(data),
        Block::Packet { text, trailer, .. } => ends_so(text, trailer),
    }
}

/// What a block tells.
pub open spec fn block_tells(k: Block) -> Seq<EventView> {
    match k {
        Block::Packet { text, .. } => seq![
            EventView::Payload { kind: PayloadKind::Xmp, data: text },
        ],
        _ => seq![],
    }
}

pub open spec fn all_blocks(ks: Seq<Block>) -> Seq<u8>
    decreases ks.len(),
{
    if ks.len() == 0 {
        seq![]
    } else {
        block_bytes(ks[0]) + all_blocks(ks.drop_first())
    }
}

pub open spec fn blocks_tell(ks: Seq<Block>) -> Seq<EventView>
    decreases ks.len(),
{
    if ks.len() == 0 {
        seq![]
    } else {
        block_tells(ks[0]) + blocks_tell(ks.drop_first())
    }
}

pub open spec fn all_proper(ks: Seq<Block>) -> bool {
    forall|i: int| 0 <= i < ks.len() ==> proper(#[trigger] ks[i])
}

/// The size of the screen, the colours that all images share, and the blocks up to the end.
pub struct Gif {
    pub newer: bool,
    pub width: int,
    pub height: int,
    pub packed: u8,
    pub background: u8,
    pub aspect: u8,
    pub table: Seq<u8>,
    pub blocks: Seq<Block>,
    pub more: Seq<u8>,
}

pub open spec fn well_made(g: Gif) -> bool {
    &&& 0 <= g.width < 65536
    &&& 0 <= g.height < 65536
    &&& g.table.len() == colours(g.packed as int)
    &&& all_proper(g.blocks)
}

/// The header and the screen.
pub open spec fn screen_bytes(g: Gif) -> Seq<u8> {
    (if g.newer {
        lit("GIF89a")
    } else {
        lit("GIF87a")
    }) + seq![
        (g.width % 256) as u8,
        (g.width / 256) as u8,
        (g.height % 256) as u8,
        (g.height / 256) as u8,
        g.packed,
        g.background,
        g.aspect,
    ]
}

pub open spec fn gif_bytes(g: Gif) -> Seq<u8> {
    screen_bytes(g) + (g.table + (all_blocks(g.blocks) + (seq![0x3Bu8] + g.more)))
}

proof fn lemma_colours(p: u8)
    ensures
        color_table(p) == colours(p as int),
{
    lemma2_to64();
}

spec fn in_pieces() -> AnyMode {
    AnyMode::Gif(GifMode::SubBlocks)
}

spec fn at_block() -> AnyMode {
    AnyMode::Gif(GifMode::Block)
}

spec fn in_packet() -> AnyMode {
    AnyMode::Gif(GifMode::CapturingXmp)
}

proof fn lemma_nothing(c: CollectorView)
    ensures
        handled_all(c, seq![]) == c,
{
}

/// Pieces of data are passed over.
proof fn lemma_pieces(f: Seq<u8>, pos: int, ds: Seq<Seq<u8>>, x: Seq<u8>, c: CollectorView)
    requires
        0 <= pos <= f.len() <= isize::MAX,
        short_pieces(ds),
        tail(f, pos) == pieces(ds) + x,
    ensures
        unit_run(f, in_pieces(), pos, c) == unit_run(f, at_block(), pos + pieces(ds).len(), c),
        tail(f, pos + pieces(ds).len()) == x,
        pos + pieces(ds).len() + x.len() == f.len(),
    decreases ds.len(),
{
    let b = tail(f, pos);
    assert(b.len() == f.len() - pos);
    lemma_nothing(c);
    if ds.len() == 0 {
        assert(b[0] == 0);
        assert(moves_on(any_local(in_pieces(), b), at_block(), 1, seq![])) by {
            reveal(any_local);
        }
        lemma_moves_on(f, in_pieces(), pos, at_block(), 1, seq![], c);
        assert(tail(f, pos + 1) =~= tail(b, 1));
        assert(tail(b, 1) =~= x);
    } else {
        let d = ds[0];
        let m = ds.drop_first();
        let n = 1 + d.len() as int;
        assert(1 <= d.len() <= 255);
        assert(b[0] == d.len());
        assert(moves_on(any_local(in_pieces(), b), in_pieces(), n, seq![])) by {
            reveal(any_local);
        }
        lemma_moves_on(f, in_pieces(), pos, in_pieces(), n, seq![], c);
        assert(tail(f, pos + n) =~= tail(b, n));
        assert(tail(b, n) =~= pieces(m) + x);
        assert forall|i: int| 0 <= i < m.len() implies 1 <= (#[trigger] m[i]).len() <= 255 by {
            assert(m[i] == ds[i + 1]);
        }
        lemma_pieces(f, pos + n, m, x, c);
    }
}

/// A block that is passed over: `n` bytes of it, then pieces of data.
proof fn lemma_passed(
    f: Seq<u8>,
    pos: int,
    front: Seq<u8>,
    ds: Seq<Seq<u8>>,
    x: Seq<u8>,
    c: CollectorView,
)
    requires
        0 <= pos <= f.len() <= isize::MAX,
        short_pieces(ds),
        front.len() > 0,
        tail(f, pos) == front + pieces(ds) + x,
        moves_on(any_local(at_block(), tail(f, pos)), in_pieces(), front.len() as int, seq![]),
    ensures
        ({
            let n = (front + pieces(ds)).len();
            &&& unit_run(f, at_block(), pos, c) == unit_run(f, at_block(), pos + n, c)
            &&& tail(f, pos + n) == x
            &&& pos + n + x.len() == f.len()
        }),
{
    let n = front.len() as int;
    let b = tail(f, pos);
    assert(b.len() == f.len() - pos);
    lemma_nothing(c);
    lemma_moves_on(f, at_block(), pos, in_pieces(), n, seq![], c);
    assert(tail(f, pos + n) =~= tail(b, n));
    assert(tail(b, n) =~= pieces(ds) + x);
    lemma_pieces(f, pos + n, ds, x, c);
}

proof fn lemma_trailer(text: Seq<u8>, trailer: Seq<u8>, k: int)
    requires
        ends_so(text, trailer),
        0 <= k <= text.len(),
    ensures
        magic_from(text + trailer, k) == (if trailer.len() > 0 {
            Some(text.len() as int)
        } else {
            None
        }),
    decreases text.len() - k,
{
    let b = text + trailer;
    if k + 3 <= b.len() {
        if k < text.len() {
            assert(!trailer_at(b, k));
            lemma_trailer(text, trailer, k + 1);
        } else {
            assert(b[k] == trailer[0] && b[k + 1] == trailer[1] && b[k + 2] == trailer[2]);
            assert(trailer_at(trailer, 0));
        }
    }
}

proof fn lemma_packet(text: Seq<u8>, trailer: Seq<u8>, x: Seq<u8>)
    requires
        ends_so(text, trailer),
    ensures
        moves_on(
            any_local(in_packet(), text + trailer + seq![0u8] + x),
            at_block(),
            (text + trailer).len() as int + 1,
            seq![EventView::Payload { kind: PayloadKind::Xmp, data: text }],
        ),
{
    let t = text + trailer;
    let b = text + trailer + seq![0u8] + x;
    let n = t.len() as int;
    lemma_find_from(b, 0, 0);
    let z = find_from(b, 0, 0);
    assert(b[n] == 0);
    if z < n {
        assert(b[z] == t[z]);
    }
    assert(b.subrange(0, n) =~= t);
    lemma_trailer(text, trailer, 0);
    if trailer.len() == 0 {
        assert(t =~= text);
    }
    assert(b.subrange(0, text.len() as int) =~= text);
    lemma_lifted(b, n + 1, text);
}

proof fn lemma_lifted(b: Seq<u8>, n: int, text: Seq<u8>)
    requires
        packet(b) == (Local::Next {
            st: GifMode::Block,
            len: n,
            events: seq![EventView::Payload { kind: PayloadKind::Xmp, data: text }],
        }),
    ensures
        moves_on(
            any_local(in_packet(), b),
            at_block(),
            n,
            seq![EventView::Payload { kind: PayloadKind::Xmp, data: text }],
        ),
{
    reveal(any_local);
}

proof fn lemma_xmp_name()
    ensures
        lit("XMP DataXMP").len() == 11,
{
    reveal_strlit("XMP DataXMP");
    vstd::string::is_ascii_spec_bytes("XMP DataXMP");
}

/// One block.
#[verifier::rlimit(40)]
proof fn lemma_block(f: Seq<u8>, pos: int, k: Block, x: Seq<u8>, c: CollectorView)
    requires
        0 <= pos <= f.len() <= isize::MAX,
        proper(k),
        tail(f, pos) == block_bytes(k) + x,
    ensures
        unit_run(f, at_block(), pos, c) == unit_run(
            f,
            at_block(),
            pos + block_bytes(k).len(),
            handled_all(c, block_tells(k)),
        ),
        tail(f, pos + block_bytes(k).len()) == x,
        pos + block_bytes(k).len() + x.len() == f.len(),
{
    let b = tail(f, pos);
    assert(b.len() == f.len() - pos);
    lemma_nothing(c);
    lemma_xmp_name();
    match k {
        Block::Image { place, packed, table, code, data } => {
            let front = seq![0x2Cu8] + place + seq![packed] + table + seq![code];
            lemma_colours(packed);
            assert(b[0] == 0x2C && b[9] == packed);
            assert(pieces(data).len() >= 0);
            assert(moves_on(any_local(at_block(), b), in_pieces(), front.len() as int, seq![])) by {
                reveal(any_local);
            }
            lemma_passed(f, pos, front, data, x, c);
        },
        Block::Extension { label, data } => {
            assert(b[0] == 0x21 && b[1] == label);
            assert(moves_on(any_local(at_block(), b), in_pieces(), 2, seq![])) by {
                reveal(any_local);
            }
            lemma_passed(f, pos, seq![0x21u8, label], data, x, c);
        },
        Block::Application { size, name, data } => {
            let front = seq![0x21u8, 0xFFu8, size] + name;
            assert(b[0] == 0x21 && b[1] == 0xFF);
            assert(b.subrange(3, 14) =~= name);
            assert(moves_on(any_local(at_block(), b), in_pieces(), 14, seq![])) by {
                reveal(any_local);
            }
            lemma_passed(f, pos, front, data, x, c);
        },
        Block::Packet { size, text, trailer } => {
            assert(b[0] == 0x21 && b[1] == 0xFF);
            assert(b.subrange(3, 14) =~= lit("XMP DataXMP"));
            assert(moves_on(any_local(at_block(), b), in_packet(), 14, seq![])) by {
                reveal(any_local);
            }
            lemma_moves_on(f, at_block(), pos, in_packet(), 14, seq![], c);
            let rest = text + trailer + seq![0u8] + x;
            assert(tail(f, pos + 14) =~= tail(b, 14));
            assert(tail(b, 14) =~= rest);
            lemma_packet(text, trailer, x);
            let n = (text + trailer).len() as int + 1;
            lemma_moves_on(f, in_packet(), pos + 14, at_block(), n, block_tells(k), c);
            assert(tail(f, pos + 14 + n) =~= tail(rest, n));
            assert(tail(rest, n) =~= x);
        },
    }
}

proof fn lemma_blocks(f: Seq<u8>, pos: int, ks: Seq<Block>, more: Seq<u8>, c: CollectorView)
    requires
        0 <= pos <= f.len() <= isize::MAX,
        all_proper(ks),
        tail(f, pos) == all_blocks(ks) + (seq![0x3Bu8] + more),
    ensures
        unit_run(f, at_block(), pos, c) == handled_all(c, blocks_tell(ks)),
    decreases ks.len(),
{
    let b = tail(f, pos);
    assert(b.len() == f.len() - pos);
    if ks.len() == 0 {
        assert(b =~= seq![0x3Bu8] + more);
        assert(b[0] == 0x3B);
        lemma_nothing(c);
        assert(any_local(at_block(), b) matches Local::Stop { demand: Demand::Done, events, .. }
            && events.len() == 0) by {
            reveal(any_local);
        }
    } else {
        let k = ks[0];
        let m = ks.drop_first();
        let x = all_blocks(m) + (seq![0x3Bu8] + more);
        assert(b =~= block_bytes(k) + x);
        assert(proper(k));
        lemma_block(f, pos, k, x, c);
        assert forall|i: int| 0 <= i < m.len() implies proper(#[trigger] m[i]) by {
            assert(m[i] == ks[i + 1]);
        }
        lemma_blocks(
            f,
            pos + block_bytes(k).len(),
            m,
            more,
            handled_all(c, block_tells(k)),
        );
        lemma_after(c, block_tells(k), blocks_tell(m));
    }
}

proof fn lemma_signatures()
    ensures
        lit("GIF87a").len() == 6,
        lit("GIF89a").len() == 6,
        lit("GIF87a")[0] == 0x47 && lit("GIF89a")[0] == 0x47,
        lit("GIF87a")[1] == 0x49 && lit("GIF89a")[1] == 0x49,
{
    reveal_strlit("GIF87a");
    reveal_strlit("GIF89a");
    vstd::string::is_ascii_spec_bytes("GIF87a");
    vstd::string::is_ascii_spec_bytes("GIF89a");
}

proof fn lemma_screen(g: Gif, x: Seq<u8>)
    requires
        well_made(g),
        screen_bytes(g).len() + x.len() <= isize::MAX,
    ensures
        ({
            let f = screen_bytes(g) + (g.table + x);
            &&& screen_bytes(g).len() == 13
            &&& gif_signature(f)
            &&& moves_on(
                any_local(AnyMode::Gif(GifMode::Header), f),
                at_block(),
                13 + g.table.len() as int,
                sized(g.width as u32, g.height as u32),
            )
            &&& tail(f, 13 + g.table.len() as int) == x
        }),
{
    lemma_signatures();
    let f = screen_bytes(g) + (g.table + x);
    let name = if g.newer {
        lit("GIF89a")
    } else {
        lit("GIF87a")
    };
    assert(screen_bytes(g).len() == 13);
    assert(f.subrange(0, 6) =~= name);
    assert(f[6] == (g.width % 256) as u8 && f[7] == (g.width / 256) as u8);
    assert(f[8] == (g.height % 256) as u8 && f[9] == (g.height / 256) as u8);
    assert(f[10] == g.packed);
    lemma_colours(g.packed);
    assert(le16(f, 6) == g.width && le16(f, 8) == g.height);
    assert(tail(f, 13 + g.table.len() as int) =~= x);
    reveal(any_local);
}

/// A GIF file is read as the size of its screen and the XMP packets among its blocks.
#[verifier::rlimit(40)]
pub proof fn gif_blocks_are_read(g: Gif, l: Limits)
    requires
        well_made(g),
        gif_bytes(g).len() <= isize::MAX,
    ensures
        metadata_of(gif_bytes(g), l) == Some(
            finalized(
                handled_all(
                    nothing(l),
                    sized(g.width as u32, g.height as u32) + blocks_tell(g.blocks),
                ),
                FileFormat::Gif,
            ),
        ),
{
    let f = gif_bytes(g);
    let x = all_blocks(g.blocks) + (seq![0x3Bu8] + g.more);
    lemma_screen(g, x);
    lemma_gif_only(f);
    let st = AnyMode::Gif(GifMode::Header);
    lemma_straight(f, st, 0);
    lemma_read(f, l);
    assert(tail(f, 0) =~= f);
    let n = 13 + g.table.len() as int;
    let es = sized(g.width as u32, g.height as u32);
    lemma_moves_on(f, st, 0, at_block(), n, es, nothing(l));
    lemma_blocks(f, n, g.blocks, g.more, handled_all(nothing(l), es));
    lemma_after(nothing(l), es, blocks_tell(g.blocks));
}

proof fn lemma_gif_only(f: Seq<u8>)
    requires
        gif_signature(f),
    ensures
        probed(f) == FileFormat::Gif,
{
    lemma_signatures();
    reveal_strlit("RIFF");
    vstd::string::is_ascii_spec_bytes("RIFF");
    assert(lit("RIFF")[0] == 0x52);
    assert(f.subrange(0, 6)[0] == f[0] && f.subrange(0, 4)[0] == f[0]);
}

} // verus!
