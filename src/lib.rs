//! Dense, flat-backed arrays of two and three dimensions, addressed by
//! coordinates in row-major order (x fastest, then y, then z).
pub mod array2d;
pub mod array3d;
pub mod index;

pub use array2d::{Array2D, Coord2D};
pub use array3d::{Array3D, Coord3D};
