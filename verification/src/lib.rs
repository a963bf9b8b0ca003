//! Slicing of packed sprite-atlas images into named, frame-indexed sheets.
//!
//! Given one packed atlas image and an ordered list of sub-rectangles, the
//! library copies each rectangle out into a tightly packed sub-image, pairs
//! descriptor resources with image resources by normalized logical path, and
//! collects the resulting sheets into a registry queryable by path and frame
//! index.

pub mod image;
pub mod matching;
pub mod paths;
pub mod rect;
pub mod sheets;

pub use image::extract_rectangle;
pub use image::split_image_by_rectangles;
pub use image::PixelBuffer;
pub use matching::match_pairs;
pub use matching::DescriptorResource;
pub use matching::ImageResource;
pub use matching::MatchedTriple;
pub use paths::normalize_path;
pub use rect::Rect;
pub use sheets::build_registry;
pub use sheets::create_sprite_sheets;
pub use sheets::DuplicatePathError;
pub use sheets::SpriteSheet;
pub use sheets::SpriteSheets;
