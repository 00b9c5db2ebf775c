//! Reading, editing and writing SHP sprites (palette-indexed animation frames).
pub mod shp;
pub mod shp_decode;
pub mod shp_format;
pub mod shp_roundtrip;
pub mod color_match;
pub mod palette;
pub mod rgba;
pub mod paste;
pub mod render;
pub mod history;
pub mod preview;
pub mod tool;
pub mod draw;
pub mod line;
pub mod shapes;
pub mod fill;
pub mod image_io;
pub mod palette_groups;
pub mod picture;
pub mod shp_offset;
