//! The logic behind a set of generated paintings: a perfect maze with the
//! way through it, and stitching patterns whose unit segments are merged
//! into strokes. What is drawn, and how, is left to the program that uses
//! this library.
pub mod acyclic;
pub mod building;
pub mod carving;
pub mod chains;
pub mod grid;
pub mod hitomezashi;
pub mod image;
pub mod maze;
pub mod order;
pub mod patterns;
pub mod rabbit;
pub mod random;
pub mod runs;
pub mod search;
pub mod solving;
pub mod strokes;
pub mod text;
pub mod utils;
