//! Terrain preview and shaded-relief rendering core.
//!
//! Turns a sparse set of user-placed control points (position, erodibility,
//! ocean flag) into pixel-buffer products: a fast preview raster labeling
//! every pixel with its nearest control point, and a shaded-relief raster
//! derived from an elevation field. Coordinates and scalar weights are held
//! as fixed-point integers so that every rule can be stated and proved
//! exactly.

pub mod boundary;
pub mod node;
pub mod preview;
pub mod queue;
pub mod ramp;
pub mod render;
pub mod sample;
pub mod shade;
