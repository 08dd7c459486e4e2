//! Resolution-independent icon drawing.
//!
//! An icon is geometry in a box of 1000 by 1000 units, rasterised at whatever
//! size the layout asks for: [`shapes`] and the status marks give the geometry
//! of an icon, [`render`](render()) gives its pixels.
//!
//! # Why geometry
//!
//! A bitmap can be scaled by whole cells only, because a resampled bitmap
//! blurs, and blur is the one thing a panel with sixteen grey levels cannot
//! render convincingly. At three pixels per cell a book is a fat rounded blob
//! and a diagonal is a staircase.
//!
//! # Why coverage, when thin antialiased strokes are supposed to ghost
//!
//! The renderer picks its waveform from the pixels themselves, so an icon with
//! grey edges is driven by the same sixteen-level update that draws the
//! sentence beside it. What ghosts on E Ink is a *two-level* waveform crushing
//! antialiased edges: that is a waveform choice, not an antialiasing one.
//!
//! # Why applications cannot supply paths
//!
//! An application names a [`Glyph`] and the runtime draws it. Arbitrary path
//! data from an application is an untrusted input to a scanline rasteriser and
//! a way for one application to draw something indistinguishable from a system
//! control.
//!
//! # How a picture is defined
//!
//! What is drawn is stated without reference to how it is computed. An outline
//! is flattened to contours ([`flatten`]), a stroke is the union of simple
//! polygons ([`stroke`]), every polygon becomes edges in one direction
//! ([`edge`]), and a pixel is as dark as the share of its sub-scanline positions
//! whose winding number is not zero ([`fill`]).

pub mod angle;
pub mod binary64;
pub mod cache;
pub mod chess;
pub mod coverage;
pub mod curve;
pub mod edge;
pub mod fill;
pub mod flatten;
pub mod glyph;
pub mod icon;
pub mod laws;
pub mod line_art;
pub mod mark;
pub mod path;
pub mod piece_art;
pub mod render;
pub mod root;
pub mod stroke;

pub use cache::{chess_coverage, ChessCache};
pub use chess::ColoredCoverage;
pub use coverage::Coverage;
pub use glyph::{Glyph, Percent, Signal};
pub use icon::shapes;
pub use mark::{back_arrow, battery, bluetooth, wifi, WEIGHT};
pub use path::{Cmd, Path, Shape, UNITS};
pub use render::render;
