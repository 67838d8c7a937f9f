//! Dense deformation fields on a regular grid.
//!
//! A field is read from two files: a text header, which gives the size of the
//! grid along each axis and the spacing of each axis, and a voxel file, which
//! holds a displacement vector of three little-endian single-precision
//! components for every grid point. To evaluate the field at a point, the
//! point is located in a cell of the grid and the vectors at the corners of
//! that cell are blended.
//!
//! This crate reads the two files, finds the place of a grid point in the
//! voxel file, locates the cell around a point and gathers its corners. It
//! carries coordinates and displacements as IEEE-754 bit patterns and reads
//! them with integer arithmetic: the whole part of a coordinate, the test for
//! a not-a-number, the widening of a stored component to double precision.
//! The floating-point arithmetic of the blend is left to the caller.
pub mod binary32;
pub mod binary64;
pub mod cell;
pub mod error;
pub mod gis;
pub mod grid;
pub mod header;
pub mod header_text;
pub mod numeral;
pub mod point;
pub mod storage;
pub mod text;
