//! Why a header or a voxel file is refused.
use vstd::prelude::*;

verus! {

/// The ways in which the two files of a field can fail to be in the one
/// dialect that is understood: three-component single-precision vectors,
/// little-endian, stored as flat binary.
#[derive(Clone, Copy, Debug, PartialEq, Eq)]
pub enum FormatError {
    /// The first line of the header holds no grid size.
    MissingDimensions,
    /// A token of the first line is not a positive integer that fits the
    /// machine word.
    BadDimension,
    /// The value of a spacing key is not a decimal number.
    BadSpacing,
    /// A spacing key names an axis that the first line does not declare.
    NoSuchAxis,
    /// The element type is not `POINT3DF`.
    UnsupportedElementType,
    /// The byte order is not `DCBA`.
    UnsupportedByteOrder,
    /// The storage model is not `binar`.
    UnsupportedStorage,
    /// The grid has fewer than three axes.
    TooFewDimensions,
    /// One of the three spatial axes is longer than a cell index can count.
    DimensionTooLarge,
    /// The voxel file does not hold three four-byte components for each
    /// grid point.
    DataSizeMismatch,
}

} // verus!
