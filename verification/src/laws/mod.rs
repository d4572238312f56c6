//! What holds of the library as a whole.
pub mod agreement;
pub mod readers;
pub mod plain_files;
pub mod accounting;
pub mod driving;
pub mod round_trips;
pub mod built_meta;
pub mod stability;
pub mod sources;
pub mod times;
pub mod stripping;
pub mod brands;
pub mod coordinates;
pub mod exif_data;
pub mod fields;
pub mod files;
pub mod gathering;
pub mod gif_files;
pub mod heif_files;
pub mod image_items;
pub mod item_places;
pub mod jpeg_files;
pub mod jpeg_pieces;
pub mod matroska;
pub mod movie_files;
pub mod movies;
pub mod places;
pub mod png_files;
pub mod png_pieces;
pub mod webp_files;
pub mod webp_stripping;
pub mod residue;
pub mod webp_pieces;
pub mod webp_residue;
pub mod xmp_packets;
pub mod bounds;
pub mod sidecars;
