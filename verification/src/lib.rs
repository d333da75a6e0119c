//! Voxel grids of harmonic coordinates for cage-based deformation.
//!
//! A [`Cage`] is a closed surface of quads. A [`Grid`] covers the bounding
//! box of a cage with voxels and gives every voxel on or inside the cage
//! one weight per vertex of the cage. The grid is filled in four steps:
//!
//! 1. [`Grid::new`] builds the grid with every voxel unclassified.
//! 2. [`Grid::mark_boundaries`] (or [`Grid::mark_boundaries_simple`])
//!    turns every voxel that a triangle of the cage touches into a boundary
//!    voxel and writes the weights of the triangle's corners into it. It
//!    fails as a whole, and writes nothing, for a cage with a face that has
//!    no area.
//! 3. [`Grid::fill_exterior`] floods the exterior from the corner of the
//!    grid, and [`Grid::mark_interior`] gives every voxel that is left a
//!    zeroed coordinate vector.
//! 4. [`Grid::smooth_basic`] relaxes the interior until it is settled.
//!
//! [`Grid::build`] runs all four.
//!
//! The grid stores weights and moves them, but it does no arithmetic on
//! them: a [`Weight`] is the bit pattern of a single-precision number.
//! Whether a triangle has an area, whether it touches a voxel and with
//! which weights, how neighbouring weights are blended and when the field
//! is settled is told to the grid by the functions that the caller hands to
//! these steps. Everything else, the
//! classification of the voxels, the layout of the coordinate buffer and
//! the order of all reads and writes, is decided here and proved.

pub mod cage;
pub mod cell;
pub mod fill;
pub mod grid;
pub mod lattice;
pub mod pipeline;
pub mod raster;
pub mod relax;
pub mod sweep;
pub mod tally;
pub mod vector;
pub mod weight;

pub use cage::Cage;
pub use cell::GridCell;
pub use grid::{Grid, GridError, GridView};
pub use relax::Relaxation;
pub use weight::Weight;
