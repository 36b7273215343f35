//! Map annotation files: points and line segments, each on one line of text,
//! parsed into items and drawn as an SVG document framed by their bounding box.
//! Coordinates are kept as signed integers in millionths of a map unit.

pub mod map_draw;
pub mod map_items;
pub mod text;
