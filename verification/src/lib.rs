//! The parts of a path tracer that deal in whole numbers and in order: the size of the
//! picture, the scene as a row of objects with the walk that finds the nearest, the limit on
//! the rays that are sent in a row, and the text of the finished picture.

pub mod camera;
pub mod color;
pub mod hittable_list;
pub mod render;
pub mod single;
