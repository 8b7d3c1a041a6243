//! Sprite atlas packing: transparency trimming, rectangle packing with a
//! grow-and-retry policy, composition of the atlas pixel buffer, and the
//! Godot resource text that points into it.
pub mod raster;
pub mod trim;
pub mod layout;
pub mod compose;
pub mod packer;
pub mod slash_path;
pub mod tres_writer;

pub use raster::{Image, Rect, Rgba};
pub use trim::trim_transparency;
pub use layout::Placement;
pub use compose::compose;
pub use packer::{ImageInfo, PackedSheet, SpritePacker, SpritePackingError, next_sheet_size};
pub use tres_writer::{AtlasResourceWriter, ResourceFormat, decimal_string};
