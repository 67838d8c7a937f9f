//! The voxel file of a field: little-endian four-byte components, three for
//! each grid point, the first axis varying fastest.
use crate::error::FormatError;
use crate::binary32::widen;
use crate::binary32::widens_to;
use crate::point::Point3dd;
use crate::point::Point3df;
use byteorder::ByteOrder;
use byteorder::LittleEndian;
use vstd::prelude::*;

verus! {

/// The `i`-th little-endian four-byte word of `bytes`.
pub open spec fn word_at(bytes: Seq<u8>, i: int) -> u32 {
    (bytes[4 * i] + 0x100 * bytes[4 * i + 1] + 0x1_0000 * bytes[4 * i + 2] + 0x100_0000 * bytes[4
        * i + 3]) as u32
}

/// The words that a whole number of four-byte groups holds.
pub open spec fn decoded(bytes: Seq<u8>) -> Seq<u32> {
    Seq::new(bytes.len() / 4, |i: int| word_at(bytes, i))
}

/// The three components stored for grid point `index`.
pub open spec fn vector_at(data: Seq<u32>, index: int) -> Seq<u32> {
    data.subrange(3 * index, 3 * index + 3)
}

/// Whether each of the three components of `double` stands for the same
/// thing as the component of `single` in its place.
pub open spec fn widened(single: Seq<u32>, double: Seq<u64>) -> bool {
    &&& widens_to(single[0], double[0])
    &&& widens_to(single[1], double[1])
    &&& widens_to(single[2], double[2])
}

/// `byteorder::LittleEndian::read_u32_into`: fills `dst` with the words of
/// `src`, each read from four bytes with the least significant byte first.
/// It panics unless `src` has exactly four bytes for each word of `dst`.
#[verifier::external_body]
fn read_words(src: &[u8], dst: &mut Vec<u32>)
    requires
        src@.len() == 4 * old(dst)@.len(),
    ensures
        final(dst)@ == decoded(src@),
{
    LittleEndian::read_u32_into(src, dst.as_mut_slice())
}

/// The components of a field, in file order, as bit patterns.
#[derive(Debug)]
pub struct GISArrayData(Vec<u32>);

impl View for GISArrayData {
    type V = Seq<u32>;

    closed spec fn view(&self) -> Seq<u32> {
        self.0@
    }
}

impl GISArrayData {
    /// Decodes the bytes of a voxel file. They must come in groups of four.
    pub fn decode(bytes: &[u8]) -> (r: Result<Self, FormatError>)
        ensures
            match r {
                Ok(data) => bytes@.len() % 4 == 0 && data@ == decoded(bytes@),
                Err(e) => bytes@.len() % 4 != 0 && e == FormatError::DataSizeMismatch,
            },
    {
        let size: usize = bytes.len();
        if size % 4 != 0 {
            return Err(FormatError::DataSizeMismatch);
        }
        let mut data: Vec<u32> = vec![0u32; size / 4];
        read_words(bytes, &mut data);
        Ok(GISArrayData(data))
    }

    /// The number of components.
    pub fn len(&self) -> (n: usize)
        ensures
            n == self@.len(),
    {
        self.0.len()
    }

    /// Whether there is no component at all.
    pub fn is_empty(&self) -> (b: bool)
        ensures
            b == (self@.len() == 0),
    {
        self.0.len() == 0
    }

    /// The vector of grid point `index` in double precision, if the data
    /// reach that far.
    pub fn point3dd(&self, index: usize) -> (r: Option<Point3dd>)
        ensures
            match r {
                Some(p) => 3 * index + 3 <= self@.len() && widened(
                    vector_at(self@, index as int),
                    p@,
                ),
                None => 3 * index + 3 > self@.len(),
            },
    {
        match self.point3df(index) {
            Some(stored) => Some(
                Point3dd([widen(stored.0[0]), widen(stored.0[1]), widen(stored.0[2])]),
            ),
            None => None,
        }
    }

    /// The stored vector of grid point `index`, if the data reach that far.
    pub fn point3df(&self, index: usize) -> (r: Option<Point3df>)
        ensures
            match r {
                Some(p) => 3 * index + 3 <= self@.len() && p@ == vector_at(self@, index as int),
                None => 3 * index + 3 > self@.len(),
            },
    {
        let n: usize = self.0.len();
        if n < 3 || index > (n - 3) / 3 {
            return None;
        }
        let p = Point3df([self.0[3 * index], self.0[3 * index + 1], self.0[3 * index + 2]]);
        assert(p@ =~= vector_at(self@, index as int));
        Some(p)
    }
}

} // verus!
