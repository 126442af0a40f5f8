//! A grid world of rivers and roads: which unit edges carry a feature, how
//! wide it renders at each vertex, and which tiles must be redrawn after an
//! edit.
//!
//! Widths are held as unsigned integers: the bit pattern of a non-negative
//! single-precision number. On those patterns the order of the integers is
//! the order of the numbers, and zero is zero, so the wider of two widths and
//! the test for a width above zero are exact.
pub mod artist;
pub mod coloring;
pub mod geometry;
pub mod junction;
pub mod matrix;
pub mod road_set;
pub mod rotation;
pub mod slab;
pub mod terrain;
pub mod world;
