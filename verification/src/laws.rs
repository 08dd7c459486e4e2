//! What holds of the library as a whole.

pub mod artwork;
pub mod battery;
pub mod blending;
pub mod circles;
pub mod contours;
pub mod curves;
pub mod direction;
pub mod doubles;
pub mod frame;
pub mod geometry;
pub mod ink;
pub mod marks;
pub mod outlines;
pub mod picture;
pub mod pieces;
pub mod room;
pub mod roundness;
pub mod shares;
pub mod solidity;
pub mod strokes;
pub mod within;
