//! Files of formats that are read from front to back, whatever they hold: of these all
//! readers agree.
use vstd::prelude::*;

use crate::adapters::push::{push_finished, push_start};
use crate::adapters::slice::metadata_of;
use crate::bytes::tail;
use crate::demand::{Demand, Local};
use crate::fixtures::corpus::push_run;
use crate::fixtures::oracle::{seek_read, verdict};
use crate::laws::agreement::{
    joined, push_agrees_with_slice, push_all, room, straight, straight_file,
};
use crate::laws::readers::{
    feeding, feeding_agrees, pieces_agree, readable, readers_agree, reading, reading_agrees,
    seeking_agrees, short_files_fit,
};
use crate::limits::Limits;
use crate::model::FileFormat;
use crate::probe::{any_local, probed, start_mode, AnyMode};

verus! {

/// Formats whose parsers never look back: JPEG, PNG, GIF, WebP, Matroska and WebM. An unknown
/// format is not read at all.
pub open spec fn plain_format(fmt: FileFormat) -> bool {
    match fmt {
        FileFormat::Jpeg
        | FileFormat::Png
        | FileFormat::Gif
        | FileFormat::Webp
        | FileFormat::Mkv
        | FileFormat::Webm
        | FileFormat::Unknown => true,
        _ => false,
    }
}

/// Parsers of plain formats go straight on.
pub proof fn lemma_straight(f: Seq<u8>, st: AnyMode, pos: int)
    requires
        !(st is Bmff),
    ensures
        straight(f, st, pos),
    decreases room(f, pos),
{
    if pos <= f.len() {
        lemma_unit(st, tail(f, pos));
        match any_local(st, tail(f, pos)) {
            Local::Next { st: next, len, .. } => {
                if 0 < len {
                    lemma_straight(f, next, pos + len);
                }
            },
            Local::Stop { st: next, len, demand, .. } => match demand {
                Demand::Skip(n) => {
                    if pos + len + n > pos {
                        lemma_straight(f, next, pos + len + n);
                    }
                },
                _ => {},
            },
        }
    }
}

/// A unit of a plain format does not seek, and a parser stays with its format.
proof fn lemma_unit(st: AnyMode, b: Seq<u8>)
    requires
        !(st is Bmff),
    ensures
        match any_local(st, b) {
            Local::Next { st: next, .. } => !(next is Bmff),
            Local::Stop { st: next, demand, .. } => !(next is Bmff) && !(demand is SeekTo),
        },
{
    reveal(any_local);
}

/// Files of plain formats can be read straight through.
pub proof fn plain_files_are_straight(f: Seq<u8>, limits: Limits)
    requires
        plain_format(probed(f)),
    ensures
        straight_file(f, limits),
{
    match start_mode(probed(f), limits) {
        Some(m) => lemma_straight(f, m, 0),
        None => {},
    }
}

/// A file of a plain format that is no longer than the driver may hold back is readable,
/// however it arrives.
pub proof fn plain_files_are_readable(f: Seq<u8>, limits: Limits)
    requires
        f.len() <= isize::MAX,
        f.len() <= limits.max_retained_bytes,
        plain_format(probed(f)),
    ensures
        readable(f, limits),
{
    plain_files_are_straight(f, limits);
    short_files_fit(f, limits);
}

/// Such a file gives the same whether it is fed in any pieces to the last one, or fed until
/// the stream wants no more, or read in one buffer.
pub proof fn plain_streams_agree(chunks: Seq<Seq<u8>>, limits: Limits)
    requires
        joined(chunks).len() <= isize::MAX,
        joined(chunks).len() <= limits.max_retained_bytes,
        plain_format(probed(joined(chunks))),
    ensures
        push_finished(push_all(limits, chunks)) == metadata_of(joined(chunks), limits),
        feeding(push_start(limits), chunks) == metadata_of(joined(chunks), limits),
{
    plain_files_are_readable(joined(chunks), limits);
    push_agrees_with_slice(chunks, limits);
    feeding_agrees(chunks, limits);
}

/// Such a file gives the same from a source that reads on in pieces of any sizes as in one
/// buffer.
pub proof fn plain_sources_agree(pieces: Seq<Seq<u8>>, limits: Limits)
    requires
        forall|i: int| 0 <= i < pieces.len() ==> (#[trigger] pieces[i]).len() > 0,
        joined(pieces).len() <= isize::MAX,
        joined(pieces).len() <= limits.max_retained_bytes,
        plain_format(probed(joined(pieces))),
    ensures
        reading(push_start(limits), pieces) == metadata_of(joined(pieces), limits),
{
    plain_files_are_readable(joined(pieces), limits);
    reading_agrees(pieces, limits);
}

/// Such a file gives the same in pieces of any one length, with seeks, and in one buffer:
/// the readers agree.
pub proof fn plain_readers_agree(f: Seq<u8>, chunk: int, limits: Limits)
    requires
        chunk > 0,
        f.len() <= isize::MAX,
        f.len() <= limits.max_retained_bytes,
        plain_format(probed(f)),
    ensures
        push_run(push_start(limits), f, 0, chunk) == metadata_of(f, limits),
        seek_read(f, limits) == metadata_of(f, limits),
        !(verdict(f, limits) is Disagree),
{
    plain_files_are_readable(f, limits);
    pieces_agree(f, chunk, limits);
    seeking_agrees(f, limits);
    readers_agree(f, limits);
}

} // verus!
