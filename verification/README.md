# omni_meta

Reads the metadata of images and videos, and strips it from images.

Reading gives two layers: raw tags as they were found (EXIF, XMP, QuickTime keys, PNG
texts) and unified fields that are derived from them (size, orientation, camera, time of
creation, position, texts). JPEG, PNG, GIF, WebP, HEIF/AVIF, MP4/MOV and Matroska/WebM are
read; JPEG, PNG and WebP are stripped. Local damage in a file becomes a warning. Only a
format that is not known is an error.

A parser never touches a source. It sees a window of bytes and says what it found and what
it needs next; drivers over whole buffers, over streams in pieces and over sources that can
seek all serve the same parsers.

## Layout

- `src/demand.rs`, `src/driver.rs`: parsers and the drivers that serve them
- `src/formats/`, `src/containers/`, `src/codecs/`: the formats, boxes and elements, EXIF
  and XMP
- `src/probe.rs`: telling formats apart
- `src/normalize.rs`, `src/dates.rs`, `src/geo.rs`, `src/double.rs`, `src/sidecar.rs`: the
  unified fields
- `src/adapters/`: buffers, streams, and what a blocking source does next
- `src/strip/`: the strippers
- `src/fixtures/`: builders of small files, a corpus, and a comparison of all readers
- `src/fuzzing.rs`, `src/compare.rs`: entry points for fuzzers, equality of metadata
- `src/laws/`: what holds of the library as a whole
- `app/`: `std::io` sources and sinks, a counting allocator, fuzz targets, seeds

## What is proved

Every function states its result exactly, over sequences of bytes and characters. On top of
that `src/laws/` proves, among other things:

- of a file that can be read straight through, and that never has a stream hold back more
  than the limits allow, feeding a stream in any pieces, seeking where a skip is hinted, or
  stopping once nothing more is wanted gives what the file in one buffer gives
  (`agreement.rs`, `readers.rs`). JPEG, PNG, GIF, WebP and Matroska files are read straight
  through whatever they hold (`plain_files.rs`); HEIF and MP4 files are where no payload
  stands at or before the place that names it
- whatever a parser asks for, a driver over a buffer gives up after a bounded number of
  pulls; with a parser that keeps to its window, a driver over a stream asks for at least
  one byte where it asks, and is done for good at the end (`driving.rs`)
- no reader keeps more tags, and no stream holds back more bytes, than the limits allow
  (`bounds.rs`)
- stripping twice is stripping once (`stripping.rs`, `webp_stripping.rs`)
- in a stripped file a reader finds the orientation that was kept and no other tag, unless
  a WebP file ends in a metadata chunk that lacks its padding, or is longer than its header
  can say (`residue.rs`, `webp_residue.rs`)
- every byte of a stripped file is kept or reported as removed, but for scraps behind the
  end (`accounting.rs`), and a source that arrives in any pieces is stripped as the file in
  one buffer is (`sources.rs`)
- a sidecar keeps every field that was there, but for the text fields of files with PNG
  texts, which come after it (`sidecars.rs`)
- what the builders of boxes, chunks and elements write, the readers read back
  (`round_trips.rs`, `built_meta.rs`)

The laws on whole files speak of files of at most `isize::MAX` bytes, as slices are.

Believed without proof are `String::push` and `core::str::from_utf8`, in `src/text.rs`, and
that `{:?}` writes the same text of the same result, in `src/fixtures/oracle.rs`.
