//! Layout core of a tiling window manager.
//!
//! The library owns the spatial and structural state of one virtual desktop:
//! windows grouped into containers, containers split along an axis, a focus
//! per container, and the recursive layout pass that assigns every visible
//! node a location and size.  Protocol plumbing, input decoding and rendering
//! live outside; they drive this core through plain values (ids, rectangles,
//! booleans) and read the computed geometry back out of the tree.

pub mod backend;
pub mod container;
pub mod geometry;
pub mod inputs;
pub mod layout;
pub mod node;
pub mod nodemap;
pub mod window;
pub mod workspace;

pub use geometry::{Point, Size, Rect};
