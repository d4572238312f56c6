//! Builders of small files of every format, for tests and as seeds of a corpus.
pub mod bmff;
pub mod corpus;
pub mod ebml;
pub mod golden;
pub mod images;
pub mod jpeg;
pub mod oracle;
pub mod parts;

pub use bmff::{
    bmff_box, bmff_infe, bmff_ispe, bmff_meta, build_mov_with_gps_and_mdta, fixture_bmff_heic,
    fixture_bmff_mp4, fixture_bmff_mp4_container_tags, fixture_bmff_mp4_moov_after_mdat,
    fixture_bmff_mp4_v1, mp4_mvhd_v0, mp4_mvhd_v1, mp4_tkhd_v0, qt_meta_typed,
    qt_meta_with_keys_local,
};
pub use corpus::{bmff_corpus, ebml_corpus, file_corpus, push_drive, tiff_corpus, xmp_corpus};
pub use ebml::{
    ebml_elem, ebml_header, ebml_info, ebml_video_track, fixture_ebml,
    fixture_ebml_unknown_size_segment,
};
pub use golden::{golden_corpus, GoldenRawTag, GoldenSample};
pub use images::{
    fixture_gif, fixture_png, fixture_png_compressed_itxt, fixture_webp, fixture_webp_vp8l,
    png_chunk, riff_chunk,
};
pub use oracle::{adapters_outcome, Agreement};
pub use jpeg::{
    build_jpeg_with_gps_ifd, fixture_exif_subifd, fixture_huge_nonmeta, fixture_large_nonmeta,
    fixture_plain, fixture_truncated, fixture_with_sof, make_tiff, make_tiff_datetime_original,
    make_tiff_gps_list, make_tiff_subifd, make_tiff_thumbnail, wrap_jpeg, wrap_jpeg_tiff,
};
