//! The format of a file by its first bytes, and the parser for each format.
use vstd::prelude::*;

use crate::bytes::{is_str, lit, part, rest_of, tail};
use crate::containers::ebml::{
    element_header, elements, find_element, first_element, read_element_header,
};
use crate::demand::{pull_units, walk, Event, Local, MetaParser, Move, PullResult, PullView, Walker};
use crate::formats::bmff::{bmff_local, BmffMode, BmffParser};
use crate::formats::ebml::{ebml_local, EbmlMode, EbmlParser};
use crate::formats::gif::{gif_local, gif_signature, is_gif, GifMode, GifParser};
use crate::formats::jpeg::{jpeg_local, JpegMode, JpegParser};
use crate::formats::png::{is_png, png_local, signature, PngMode, PngParser};
use crate::formats::webp::{is_webp, riff_webp, webp_local, WebpMode, WebpParser};
use crate::limits::Limits;
use crate::model::FileFormat;

verus! {

/// So many bytes tell every format apart.
pub const PROBE_MAX: usize = 64;

/// The format that the brand of a `ftyp` box stands for.
pub open spec fn brand(b: Seq<u8>) -> FileFormat {
    if b == lit("avif") || b == lit("avis") {
        FileFormat::Avif
    } else if b == lit("heic") || b == lit("heix") || b == lit("heim") || b == lit("heis") || b
        == lit("hevc") || b == lit("hevx") || b == lit("mif1") || b == lit("msf1") {
        FileFormat::Heif
    } else if b == lit("qt  ") {
        FileFormat::Mov
    } else {
        FileFormat::Mp4
    }
}

/// The DocType in an EBML header, within the first bytes.
pub open spec fn doctype(b: Seq<u8>) -> Option<Seq<u8>> {
    let scan = if b.len() < PROBE_MAX {
        b
    } else {
        b.subrange(0, PROBE_MAX as int)
    };
    match element_header(scan) {
        Some(h) if h.id == 0x1A45_DFA3 => first_element(
            elements(tail(scan, h.header_len as int)),
            0x4282,
        ),
        _ => None,
    }
}

/// The format of an EBML file: not known as long as the DocType may still come.
pub open spec fn ebml_kind(b: Seq<u8>) -> FileFormat {
    match doctype(b) {
        Some(t) => if t == lit("webm") {
            FileFormat::Webm
        } else {
            FileFormat::Mkv
        },
        None => if b.len() >= PROBE_MAX {
            FileFormat::Mkv
        } else {
            FileFormat::Unknown
        },
    }
}

/// Whether `b` begins with the EBML magic number.
pub open spec fn ebml_magic(b: Seq<u8>) -> bool {
    b.len() >= 4 && b[0] == 0x1A && b[1] == 0x45 && b[2] == 0xDF && b[3] == 0xA3
}

/// The format of a file that begins with `b`.
pub open spec fn probed(b: Seq<u8>) -> FileFormat {
    if b.len() >= 2 && b[0] == 0xFF && b[1] == 0xD8 {
        FileFormat::Jpeg
    } else if signature(b) {
        FileFormat::Png
    } else if riff_webp(b) {
        FileFormat::Webp
    } else if gif_signature(b) {
        FileFormat::Gif
    } else if b.len() >= 12 && b.subrange(4, 8) == lit("ftyp") {
        brand(b.subrange(8, 12))
    } else if ebml_magic(b) {
        ebml_kind(b)
    } else {
        FileFormat::Unknown
    }
}

fn brand_to_format(b: &[u8]) -> (r: FileFormat)
    ensures
        r == brand(b@),
{
    if is_str(b, "avif") || is_str(b, "avis") {
        FileFormat::Avif
    } else if is_str(b, "heic") || is_str(b, "heix") || is_str(b, "heim") || is_str(b, "heis")
        || is_str(b, "hevc") || is_str(b, "hevx") || is_str(b, "mif1") || is_str(b, "msf1") {
        FileFormat::Heif
    } else if is_str(b, "qt  ") {
        FileFormat::Mov
    } else {
        FileFormat::Mp4
    }
}

fn find_doctype<'a>(buf: &'a [u8]) -> (r: Option<&'a [u8]>)
    ensures
        match r {
            Some(t) => doctype(buf@) == Some(t@),
            None => doctype(buf@) is None,
        },
{
    let scan = if buf.len() < PROBE_MAX {
        buf
    } else {
        part(buf, 0, PROBE_MAX)
    };
    match read_element_header(scan) {
        Some(h) => if h.id == 0x1A45_DFA3 {
            find_element(rest_of(scan, h.header_len as usize), 0x4282)
        } else {
            None
        },
        None => None,
    }
}

fn ebml_format(buf: &[u8]) -> (r: FileFormat)
    ensures
        r == ebml_kind(buf@),
{
    match find_doctype(buf) {
        Some(t) => if is_str(t, "webm") {
            FileFormat::Webm
        } else {
            FileFormat::Mkv
        },
        None => if buf.len() >= PROBE_MAX {
            FileFormat::Mkv
        } else {
            FileFormat::Unknown
        },
    }
}

/// Tells the format of a file by its first bytes.
pub fn probe(buf: &[u8]) -> (r: FileFormat)
    ensures
        r == probed(buf@),
{
    if buf.len() >= 2 && buf[0] == 0xFF && buf[1] == 0xD8 {
        return FileFormat::Jpeg;
    }
    if is_png(buf) {
        return FileFormat::Png;
    }
    if is_webp(buf) {
        return FileFormat::Webp;
    }
    if is_gif(buf) {
        return FileFormat::Gif;
    }
    if buf.len() >= 12 && is_str(part(buf, 4, 8), "ftyp") {
        return brand_to_format(part(buf, 8, 12));
    }
    if buf.len() >= 4 && buf[0] == 0x1A && buf[1] == 0x45 && buf[2] == 0xDF && buf[3] == 0xA3 {
        return ebml_format(buf);
    }
    FileFormat::Unknown
}

/// The parser of any format.
#[derive(Debug)]
pub enum AnyParser {
    Jpeg(JpegParser),
    Png(PngParser),
    Webp(WebpParser),
    Gif(GifParser),
    Bmff(BmffParser),
    Ebml(EbmlParser),
}

pub enum AnyMode {
    Jpeg(JpegMode),
    Png(PngMode),
    Webp(WebpMode),
    Gif(GifMode),
    Bmff(BmffMode),
    Ebml(EbmlMode),
}

/// The same move with the modes taken through `f`.
pub open spec fn with_mode<S, T>(l: Local<S>, f: spec_fn(S) -> T) -> Local<T> {
    match l {
        Local::Next { st, len, events } => Local::Next { st: f(st), len, events },
        Local::Stop { st, len, events, demand } => Local::Stop { st: f(st), len, events, demand },
    }
}

#[verifier::opaque]
pub open spec fn any_local(st: AnyMode, b: Seq<u8>) -> Local<AnyMode> {
    match st {
        AnyMode::Jpeg(m) => with_mode(jpeg_local(m, b), |m: JpegMode| AnyMode::Jpeg(m)),
        AnyMode::Png(m) => with_mode(png_local(m, b), |m: PngMode| AnyMode::Png(m)),
        AnyMode::Webp(m) => with_mode(webp_local(m, b), |m: WebpMode| AnyMode::Webp(m)),
        AnyMode::Gif(m) => with_mode(gif_local(m, b), |m: GifMode| AnyMode::Gif(m)),
        AnyMode::Bmff(m) => with_mode(bmff_local(m, b), |m: BmffMode| AnyMode::Bmff(m)),
        AnyMode::Ebml(m) => with_mode(ebml_local(m, b), |m: EbmlMode| AnyMode::Ebml(m)),
    }
}

impl Walker for AnyParser {
    type Mode = AnyMode;

    open spec fn mode(&self) -> AnyMode {
        match self {
            AnyParser::Jpeg(p) => AnyMode::Jpeg(p.mode()),
            AnyParser::Png(p) => AnyMode::Png(p.mode()),
            AnyParser::Webp(p) => AnyMode::Webp(p.mode()),
            AnyParser::Gif(p) => AnyMode::Gif(p.mode()),
            AnyParser::Bmff(p) => AnyMode::Bmff(p.mode()),
            AnyParser::Ebml(p) => AnyMode::Ebml(p.mode()),
        }
    }

    open spec fn local(st: AnyMode, rest: Seq<u8>) -> Local<AnyMode> {
        any_local(st, rest)
    }

    fn advance<'a>(&mut self, rest: &'a [u8], events: &mut Vec<Event<'a>>) -> (m: Move) {
        reveal(any_local);
        match self {
            AnyParser::Jpeg(p) => p.advance(rest, events),
            AnyParser::Png(p) => p.advance(rest, events),
            AnyParser::Webp(p) => p.advance(rest, events),
            AnyParser::Gif(p) => p.advance(rest, events),
            AnyParser::Bmff(p) => p.advance(rest, events),
            AnyParser::Ebml(p) => p.advance(rest, events),
        }
    }
}

impl MetaParser for AnyParser {
    type State = AnyMode;

    open spec fn state(&self) -> AnyMode {
        self.mode()
    }

    open spec fn step(st: AnyMode, input: Seq<u8>) -> (AnyMode, PullView) {
        walk::<AnyParser>(st, input, 0, seq![])
    }

    fn pull<'a>(&mut self, input: &'a [u8]) -> (r: PullResult<'a>) {
        pull_units(self, input)
    }
}

/// Where the parser for a format starts.
pub open spec fn start_mode(fmt: FileFormat, limits: Limits) -> Option<AnyMode> {
    match fmt {
        FileFormat::Jpeg => Some(AnyMode::Jpeg(JpegMode::Start)),
        FileFormat::Png => Some(AnyMode::Png(PngMode::Start)),
        FileFormat::Webp => Some(AnyMode::Webp(WebpMode::Start)),
        FileFormat::Gif => Some(AnyMode::Gif(GifMode::Header)),
        FileFormat::Heif | FileFormat::Avif | FileFormat::Mp4 | FileFormat::Mov => Some(
            AnyMode::Bmff(BmffMode::Walk { at: 0, max_tags: limits.max_tags }),
        ),
        FileFormat::Mkv | FileFormat::Webm => Some(AnyMode::Ebml(EbmlMode::Walk)),
        FileFormat::Unknown => None,
    }
}

/// The parser for a format.
pub fn parser_for(fmt: FileFormat, limits: Limits) -> (r: Option<AnyParser>)
    ensures
        match r {
            Some(p) => start_mode(fmt, limits) == Some(p.mode()),
            None => start_mode(fmt, limits) is None,
        },
{
    match fmt {
        FileFormat::Jpeg => Some(AnyParser::Jpeg(JpegParser::new())),
        FileFormat::Png => Some(AnyParser::Png(PngParser::new())),
        FileFormat::Webp => Some(AnyParser::Webp(WebpParser::new())),
        FileFormat::Gif => Some(AnyParser::Gif(GifParser::new())),
        FileFormat::Heif | FileFormat::Avif | FileFormat::Mp4 | FileFormat::Mov => Some(
            AnyParser::Bmff(BmffParser::with_limits(limits)),
        ),
        FileFormat::Mkv | FileFormat::Webm => Some(AnyParser::Ebml(EbmlParser::new())),
        FileFormat::Unknown => None,
    }
}

} // verus!
