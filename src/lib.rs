//! Tile grids for broad-phase continuous collision detection.
//!
//! A [`TileNet`] is a dense, row-major grid of tiles. Views walk a clipped
//! rectangle of it, and a [`TileSet`] walks the tiles under a sequence of
//! cell coordinates, skipping those that fall outside the grid.
//!
//! A moving object draws one [`Line`] per vertex along its queued move; the
//! supercover of each line lists every cell it passes through, the covers
//! are merged nearest first, and the object inspects the tiles under them.
//! It then accepts its move or shrinks it and tries again, a bounded number
//! of times ([`Collable::solve`]).
//!
//! Coordinates are fixed point, [`geometry::SCALE`] sub-units to a cell,
//! and range over 2^24 cells either way of the origin.
pub mod collable;
pub mod geometry;
pub mod grid;
pub mod merge;
pub mod sampler;
pub mod solve;
pub mod view;

pub use collable::Collable;
pub use geometry::{Line, Vector};
pub use grid::TileNet;
pub use sampler::TileSet;
pub use solve::{SolveState, MAX_ITERATIONS};
pub use view::TileView;
