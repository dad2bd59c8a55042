//! Nearest-color growth of an image in which every pixel gets a distinct color.
//!
//! The library holds the verified parts: bitmaps, points and boxes of the RGB cube,
//! the octree index used for nearest-color search, the image buffer, a sharded map,
//! and the single-threaded growth engine.

pub mod points;
pub mod bounding_box;
pub mod nn_search_3d;
pub mod octree_leafy;
pub mod atomicbitmask;
pub mod image;
pub mod color_generator;
pub mod crashmap;
