//! Points with three components: grid positions, whose components are
//! integers, and displacements and coordinates, whose components are carried
//! as IEEE-754 bit patterns.
use crate::binary32;
use crate::binary64;
use vstd::prelude::*;

verus! {

/// The number of components of a point.
pub const K: usize = 3;

/// A grid position: one signed index per spatial axis.
#[derive(Clone, Copy, Debug, PartialEq, Eq)]
pub struct Point3di(pub [i32; 3]);

/// A displacement as it is stored: the single-precision bit pattern of each
/// component.
#[derive(Clone, Copy, Debug, PartialEq, Eq)]
pub struct Point3df(pub [u32; 3]);

/// A coordinate: the double-precision bit pattern of each component.
#[derive(Clone, Copy, Debug, PartialEq, Eq)]
pub struct Point3dd(pub [u64; 3]);

impl View for Point3di {
    type V = Seq<i32>;

    open spec fn view(&self) -> Seq<i32> {
        self.0@
    }
}

impl View for Point3df {
    type V = Seq<u32>;

    open spec fn view(&self) -> Seq<u32> {
        self.0@
    }
}

impl View for Point3dd {
    type V = Seq<u64>;

    open spec fn view(&self) -> Seq<u64> {
        self.0@
    }
}

impl Point3di {
    /// Multiplies every component by `factor`.
    pub fn scale(&mut self, factor: i32) -> (r: &mut Self)
        requires
            forall|k: int|
                0 <= k < 3 ==> i32::MIN <= #[trigger] old(self)@[k] * factor <= i32::MAX,
        ensures
            r@ =~= seq![
                (old(self)@[0] * factor) as i32,
                (old(self)@[1] * factor) as i32,
                (old(self)@[2] * factor) as i32,
            ],
            *final(self) == *final(r),
    {
        assert(i32::MIN <= self@[0] * factor <= i32::MAX);
        assert(i32::MIN <= self@[1] * factor <= i32::MAX);
        assert(i32::MIN <= self@[2] * factor <= i32::MAX);
        self.0 = [self.0[0] * factor, self.0[1] * factor, self.0[2] * factor];
        self
    }

    /// Adds `rhs` to this point, component by component.
    pub fn add_assign(&mut self, rhs: Point3di)
        requires
            forall|k: int|
                0 <= k < 3 ==> i32::MIN <= #[trigger] old(self)@[k] + rhs@[k] <= i32::MAX,
        ensures
            final(self)@ =~= seq![
                (old(self)@[0] + rhs@[0]) as i32,
                (old(self)@[1] + rhs@[1]) as i32,
                (old(self)@[2] + rhs@[2]) as i32,
            ],
    {
        assert(i32::MIN <= self@[0] + rhs@[0] <= i32::MAX);
        assert(i32::MIN <= self@[1] + rhs@[1] <= i32::MAX);
        assert(i32::MIN <= self@[2] + rhs@[2] <= i32::MAX);
        self.0 = [self.0[0] + rhs.0[0], self.0[1] + rhs.0[1], self.0[2] + rhs.0[2]];
    }

    /// The number of components.
    pub fn dimensions(&self) -> (n: usize)
        ensures
            n == 3,
    {
        K
    }

    /// The component at `index`.
    pub fn get(&self, index: usize) -> (c: i32)
        requires
            index < 3,
        ensures
            c == self@[index as int],
    {
        self.0[index]
    }

    /// The point whose components are the first three of `v`, if it has as
    /// many.
    pub fn from_vec(v: &Vec<i32>) -> (r: Option<Self>)
        ensures
            match r {
                Some(p) => v@.len() >= 3 && p@ =~= v@.take(3),
                None => v@.len() < 3,
            },
    {
        if v.len() < 3 {
            None
        } else {
            Some(Point3di([v[0], v[1], v[2]]))
        }
    }

    /// The components, in order.
    pub fn to_vec(&self) -> (v: Vec<i32>)
        ensures
            v@ =~= self@,
    {
        vec![self.0[0], self.0[1], self.0[2]]
    }
}

impl Point3df {
    /// Whether any component is a not-a-number.
    pub fn is_nan(&self) -> (b: bool)
        ensures
            b == (binary32::is_nan(self@[0]) || binary32::is_nan(self@[1]) || binary32::is_nan(
                self@[2],
            )),
    {
        binary32::is_nan_bits(self.0[0]) || binary32::is_nan_bits(self.0[1])
            || binary32::is_nan_bits(self.0[2])
    }

    /// The number of components.
    pub fn dimensions(&self) -> (n: usize)
        ensures
            n == 3,
    {
        K
    }

    /// The bit pattern of the component at `index`.
    pub fn get(&self, index: usize) -> (c: u32)
        requires
            index < 3,
        ensures
            c == self@[index as int],
    {
        self.0[index]
    }

    /// The point whose components are the first three of `v`, if it has as
    /// many.
    pub fn from_vec(v: &Vec<u32>) -> (r: Option<Self>)
        ensures
            match r {
                Some(p) => v@.len() >= 3 && p@ =~= v@.take(3),
                None => v@.len() < 3,
            },
    {
        if v.len() < 3 {
            None
        } else {
            Some(Point3df([v[0], v[1], v[2]]))
        }
    }

    /// The bit patterns of the components, in order.
    pub fn to_vec(&self) -> (v: Vec<u32>)
        ensures
            v@ =~= self@,
    {
        vec![self.0[0], self.0[1], self.0[2]]
    }
}

impl Point3dd {
    /// The point that stands for "no value": every component is a
    /// not-a-number.
    pub fn nan() -> (p: Self)
        ensures
            forall|k: int| 0 <= k < 3 ==> binary64::is_nan(#[trigger] p@[k]),
    {
        let p = Point3dd([binary64::NAN, binary64::NAN, binary64::NAN]);
        assert(binary64::is_nan(binary64::NAN));
        p
    }

    /// Whether any component is a not-a-number.
    pub fn is_nan(&self) -> (b: bool)
        ensures
            b == (binary64::is_nan(self@[0]) || binary64::is_nan(self@[1]) || binary64::is_nan(
                self@[2],
            )),
    {
        binary64::is_nan_bits(self.0[0]) || binary64::is_nan_bits(self.0[1])
            || binary64::is_nan_bits(self.0[2])
    }

    /// The number of components.
    pub fn dimensions(&self) -> (n: usize)
        ensures
            n == 3,
    {
        K
    }

    /// The bit pattern of the component at `index`.
    pub fn get(&self, index: usize) -> (c: u64)
        requires
            index < 3,
        ensures
            c == self@[index as int],
    {
        self.0[index]
    }

    /// The point whose components are the first three of `v`, if it has as
    /// many.
    pub fn from_vec(v: &Vec<u64>) -> (r: Option<Self>)
        ensures
            match r {
                Some(p) => v@.len() >= 3 && p@ =~= v@.take(3),
                None => v@.len() < 3,
            },
    {
        if v.len() < 3 {
            None
        } else {
            Some(Point3dd([v[0], v[1], v[2]]))
        }
    }

    /// The bit patterns of the components, in order.
    pub fn to_vec(&self) -> (v: Vec<u64>)
        ensures
            v@ =~= self@,
    {
        vec![self.0[0], self.0[1], self.0[2]]
    }
}

} // verus!
