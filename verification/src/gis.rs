//! A deformation field on a regular grid: for every grid point a
//! displacement vector, and for every axis a spacing.
use crate::binary64::in_range;
use crate::binary64::whole_below;
use crate::binary64::whole_part;
use crate::cell::lemma_has_corner;
use crate::cell::step;
use crate::cell::Cell;
use crate::cell::Corner;
use crate::cell::Stencil;
use crate::error::FormatError;
use crate::grid::all_positive;
use crate::grid::inside;
use crate::grid::lemma_offset_bound;
use crate::grid::lemma_product_prefix;
use crate::grid::lemma_product_step;
use crate::grid::offset;
use crate::grid::product;
use crate::grid::volume;
use crate::header::all_floats;
use crate::header::header_of;
use crate::header::parse_header;
use crate::header::texts;
use crate::header::Header;
use crate::header::HeaderModel;
use crate::point::Point3dd;
use crate::point::Point3df;
use crate::point::Point3di;
use crate::storage::decoded;
use crate::storage::vector_at;
use crate::storage::widened;
use crate::storage::GISArrayData;
use vstd::prelude::*;

verus! {

/// The largest size that a spatial axis can have: cell indices are signed
/// 32-bit numbers.
pub const MAX_SPATIAL_SIZE: usize = 0x7fff_ffff;

/// The kind of value stored at each grid point.
#[derive(Clone, Copy, Debug, PartialEq, Eq)]
pub enum ElementType {
    /// Three single-precision components.
    Point3Df,
}

/// What a field is: the grid sizes, the numeral of each axis's spacing, the
/// flags of the spatial axes that are treated as having no extent, and the
/// stored components in file order.
pub ghost struct FieldModel {
    pub dimensions: Seq<usize>,
    pub spacing: Seq<Seq<u8>>,
    pub flat: Seq<bool>,
    pub data: Seq<u32>,
}

impl FieldModel {
    /// What holds of every field: three spatial axes at least, each short
    /// enough for a cell index; a spacing for every axis; and three stored
    /// components for every grid point.
    pub open spec fn wf(self) -> bool {
        &&& self.dimensions.len() >= 3
        &&& all_positive(self.dimensions)
        &&& forall|k: int| 0 <= k < 3 ==> #[trigger] self.dimensions[k] <= MAX_SPATIAL_SIZE
        &&& self.spacing.len() == self.dimensions.len()
        &&& all_floats(self.spacing)
        &&& self.flat.len() == 3
        &&& self.data.len() == 3 * product(self.dimensions)
    }

    /// The stored vector of a grid point.
    pub open spec fn vector(self, position: Seq<usize>) -> Seq<u32> {
        vector_at(self.data, offset(self.dimensions, position) as int)
    }

    /// Whether the field covers a point given in grid steps: along each
    /// spatial axis the coordinate is at least zero and less than the size.
    pub open spec fn covers(self, p: Seq<u64>) -> bool {
        forall|k: int| 0 <= k < 3 ==> in_range(#[trigger] p[k], self.dimensions[k] as nat)
    }

    /// The lower index, along axis `k`, of the cell around a covered point:
    /// the whole part of the coordinate.
    pub open spec fn lower(self, p: Seq<u64>, k: int) -> int {
        whole_part(p[k]) as int
    }

    /// The upper index, along axis `k`, of the cell around a covered point:
    /// one more than the lower index, unless the axis is flat or the grid
    /// ends there.
    pub open spec fn upper(self, p: Seq<u64>, k: int) -> int {
        if self.flat[k] || self.lower(p, k) + 1 >= self.dimensions[k] {
            self.lower(p, k)
        } else {
            self.lower(p, k) + 1
        }
    }

    /// Whether `cell` is the cell around the covered point `p`.
    pub open spec fn cell_around(self, p: Seq<u64>, cell: Cell) -> bool {
        forall|k: int|
            0 <= k < 3 ==> (#[trigger] cell.lower@[k]) == self.lower(p, k) && cell.upper@[k]
                == self.upper(p, k)
    }

    /// Whether a cell lies in the grid: it is made as cells are, and along
    /// each spatial axis its upper index is on the axis.
    pub open spec fn holds(self, cell: Cell) -> bool {
        &&& cell.wf()
        &&& forall|k: int| 0 <= k < 3 ==> (#[trigger] cell.upper@[k]) < self.dimensions[k]
    }

    /// The corner of a cell that candidate `n` stands for.
    pub open spec fn corner(self, cell: Cell, n: int) -> CornerModel {
        let position = cell.corner_position(n);
        CornerModel {
            position,
            steps: seq![step(n, 0), step(n, 1), step(n, 2)],
            delta: self.vector(
                seq![position[0] as usize, position[1] as usize, position[2] as usize],
            ),
        }
    }

    /// The corners of a cell among the first `n` candidates, in order.
    pub open spec fn corners_upto(self, cell: Cell, n: nat) -> Seq<CornerModel>
        decreases n,
    {
        if n == 0 {
            Seq::empty()
        } else if cell.has_corner(n - 1) {
            self.corners_upto(cell, (n - 1) as nat).push(self.corner(cell, n - 1))
        } else {
            self.corners_upto(cell, (n - 1) as nat)
        }
    }

    /// The corners of a cell with their stored vectors. The first axis
    /// varies fastest; an axis on which the cell has no extent is visited
    /// once.
    pub open spec fn corners(self, cell: Cell) -> Seq<CornerModel> {
        self.corners_upto(cell, 8)
    }
}

/// What a corner is: its grid position, its steps from the lowest corner,
/// and the bit patterns of its vector as stored.
pub ghost struct CornerModel {
    pub position: Seq<i32>,
    pub steps: Seq<int>,
    pub delta: Seq<u32>,
}

/// Whether `found` is the corner `model`, with its stored vector in double
/// precision.
pub open spec fn corner_matches(found: Corner, model: CornerModel) -> bool {
    &&& found.position@ == model.position
    &&& found.steps@.len() == 3
    &&& forall|k: int| 0 <= k < 3 ==> (#[trigger] found.steps@[k]) == model.steps[k]
    &&& widened(model.delta, found.delta@)
}

/// Whether `found` are the corners `models`: as many, in the same order.
pub open spec fn corners_match(found: Seq<Corner>, models: Seq<CornerModel>) -> bool {
    &&& found.len() == models.len()
    &&& forall|n: int| 0 <= n < found.len() ==> corner_matches(#[trigger] found[n], models[n])
}

/// The field that a header and the bytes of a voxel file make, or why they
/// make none. The grid must have three axes or more, none of the first three
/// longer than `MAX_SPATIAL_SIZE`, and the voxel file must hold twelve bytes
/// for every grid point.
pub open spec fn assembled(h: HeaderModel, bytes: Seq<u8>) -> Result<FieldModel, FormatError> {
    if h.dimensions.len() < 3 {
        Err(FormatError::TooFewDimensions)
    } else if h.dimensions[0] > MAX_SPATIAL_SIZE || h.dimensions[1] > MAX_SPATIAL_SIZE
        || h.dimensions[2] > MAX_SPATIAL_SIZE {
        Err(FormatError::DimensionTooLarge)
    } else if bytes.len() != 12 * product(h.dimensions) {
        Err(FormatError::DataSizeMismatch)
    } else {
        Ok(
            FieldModel {
                dimensions: h.dimensions,
                spacing: h.spacing,
                flat: seq![false, false, false],
                data: decoded(bytes),
            },
        )
    }
}

/// The field that a header text and the bytes of a voxel file make, or why
/// they make none. The header is judged first.
pub open spec fn loaded(header: Seq<u8>, bytes: Seq<u8>) -> Result<FieldModel, FormatError> {
    match header_of(header) {
        Err(e) => Err(e),
        Ok(h) => assembled(h, bytes),
    }
}

/// A cell in the grid has as many corners as the product of its spans: eight
/// where it has extent along every axis, and half as many for every axis
/// along which it has none.
pub proof fn lemma_corner_count(field: FieldModel, cell: Cell)
    requires
        cell.wf(),
    ensures
        field.corners(cell).len() == cell.span(0) * cell.span(1) * cell.span(2),
{
    lemma_has_corner(cell, 0);
    lemma_has_corner(cell, 1);
    lemma_has_corner(cell, 2);
    lemma_has_corner(cell, 3);
    lemma_has_corner(cell, 4);
    lemma_has_corner(cell, 5);
    lemma_has_corner(cell, 6);
    lemma_has_corner(cell, 7);
    let a = cell.span(0);
    let b = cell.span(1);
    let c = cell.span(2);
    assert(1 <= a <= 2 && 1 <= b <= 2 && 1 <= c <= 2) by {
        assert(0 <= cell.lower@[0] && 0 <= cell.lower@[1] && 0 <= cell.lower@[2]);
    }
    let one_more_row = if b == 2 {
        a
    } else {
        0
    };
    assert(field.corners_upto(cell, 0).len() == 0);
    assert(field.corners_upto(cell, 1).len() == 1);
    assert(field.corners_upto(cell, 2).len() == a);
    assert(field.corners_upto(cell, 3).len() == a + if b == 2 { 1int } else { 0 });
    assert(field.corners_upto(cell, 4).len() == a + one_more_row);
    assert(a * b == a + one_more_row) by (nonlinear_arith)
        requires
            1 <= b <= 2,
            one_more_row == if b == 2 { a } else { 0 },
    ;
    if c == 2 {
        assert(field.corners_upto(cell, 5).len() == a * b + 1);
        assert(field.corners_upto(cell, 6).len() == a * b + a);
        assert(field.corners_upto(cell, 7).len() == a * b + a + if b == 2 { 1int } else { 0 });
        assert(field.corners_upto(cell, 8).len() == a * b + a * b);
    } else {
        assert(field.corners_upto(cell, 5).len() == a * b);
        assert(field.corners_upto(cell, 6).len() == a * b);
        assert(field.corners_upto(cell, 7).len() == a * b);
        assert(field.corners_upto(cell, 8).len() == a * b);
    }
    assert(a * b * c == if c == 2 { a * b + a * b } else { a * b }) by (nonlinear_arith)
        requires
            1 <= c <= 2,
    ;
}

/// The first corner of a cell is its lowest: the grid point at the whole
/// parts of the coordinates, with the vector stored there.
pub proof fn lemma_first_corner(field: FieldModel, cell: Cell)
    requires
        cell.wf(),
    ensures
        field.corners(cell).len() >= 1,
        field.corners(cell)[0].position == cell.lower@,
        field.corners(cell)[0].steps == seq![0int, 0int, 0int],
        field.corners(cell)[0].delta == field.vector(
            seq![cell.lower@[0] as usize, cell.lower@[1] as usize, cell.lower@[2] as usize],
        ),
{
    lemma_has_corner(cell, 0);
    assert(0 <= cell.lower@[0] && 0 <= cell.lower@[1] && 0 <= cell.lower@[2]);
    assert(cell.corner_position(0) =~= cell.lower@);
    assert(field.corners_upto(cell, 0).len() == 0);
    assert(field.corners_upto(cell, 1) == field.corners_upto(cell, 0).push(field.corner(cell, 0)));
    lemma_corners_grow(field, cell, 1, 8);
}

/// Away from the far edge of the grid and from flat axes, the cell around a
/// point has extent along every axis, and so eight corners.
pub proof fn lemma_inner_cell_has_eight_corners(field: FieldModel, p: Seq<u64>, cell: Cell)
    requires
        field.wf(),
        field.covers(p),
        field.cell_around(p, cell),
        forall|k: int|
            0 <= k < 3 ==> !(#[trigger] field.flat[k]) && field.lower(p, k) + 1
                < field.dimensions[k],
    ensures
        field.holds(cell),
        field.corners(cell).len() == 8,
{
    assert(!field.flat[0] && !field.flat[1] && !field.flat[2]);
    assert(cell.lower@[0] == field.lower(p, 0) && cell.upper@[0] == cell.lower@[0] + 1);
    assert(cell.lower@[1] == field.lower(p, 1) && cell.upper@[1] == cell.lower@[1] + 1);
    assert(cell.lower@[2] == field.lower(p, 2) && cell.upper@[2] == cell.lower@[2] + 1);
    lemma_corner_count(field, cell);
    let a = cell.span(0);
    let b = cell.span(1);
    let c = cell.span(2);
    assert(a * b * c == 8) by (nonlinear_arith)
        requires
            a == 2,
            b == 2,
            c == 2,
    ;
}

/// The cell around a point depends on the point only through the whole
/// parts of its coordinates: points that agree in these lie in the same
/// cell, and are blended from the same corners.
pub proof fn lemma_cell_depends_on_whole_parts(
    field: FieldModel,
    p: Seq<u64>,
    q: Seq<u64>,
    c: Cell,
    d: Cell,
)
    requires
        field.cell_around(p, c),
        field.cell_around(q, d),
        forall|k: int| 0 <= k < 3 ==> #[trigger] field.lower(p, k) == field.lower(q, k),
    ensures
        c.lower@ == d.lower@,
        c.upper@ == d.upper@,
        field.corners(c) == field.corners(d),
{
    assert forall|k: int| 0 <= k < 3 implies c.lower@[k] == d.lower@[k] && c.upper@[k]
        == d.upper@[k] by {
        assert(field.lower(p, k) == field.lower(q, k));
        assert(c.lower@[k] == field.lower(p, k));
        assert(d.lower@[k] == field.lower(q, k));
    }
    assert(c.lower@ =~= d.lower@);
    assert(c.upper@ =~= d.upper@);
    lemma_corners_of_equal_cells(field, c, d, 8);
}

/// Cells with the same lowest and highest corner have the same corners.
pub proof fn lemma_corners_of_equal_cells(field: FieldModel, c: Cell, d: Cell, n: nat)
    requires
        c.lower@ == d.lower@,
        c.upper@ == d.upper@,
    ensures
        field.corners_upto(c, n) == field.corners_upto(d, n),
    decreases n,
{
    if n > 0 {
        lemma_corners_of_equal_cells(field, c, d, (n - 1) as nat);
        lemma_has_corner(c, n - 1);
        lemma_has_corner(d, n - 1);
        assert(c.corner_position(n - 1) =~= d.corner_position(n - 1));
    }
}

/// More candidates only add corners at the end.
pub proof fn lemma_corners_grow(field: FieldModel, cell: Cell, n: nat, more: nat)
    requires
        n <= more,
    ensures
        field.corners_upto(cell, n).len() <= field.corners_upto(cell, more).len(),
        forall|i: int|
            0 <= i < field.corners_upto(cell, n).len() ==> field.corners_upto(cell, more)[i]
                == field.corners_upto(cell, n)[i],
    decreases more - n,
{
    if n < more {
        lemma_corners_grow(field, cell, n, (more - 1) as nat);
    }
}

/// A deformation field.
#[derive(Debug)]
pub struct GISTransform {
    dimensions: Vec<usize>,
    element_type: ElementType,
    spacing: Vec<Vec<u8>>,
    flat: Vec<bool>,
    data: GISArrayData,
}

impl View for GISTransform {
    type V = FieldModel;

    closed spec fn view(&self) -> FieldModel {
        FieldModel {
            dimensions: self.dimensions@,
            spacing: texts(self.spacing@),
            flat: self.flat@,
            data: self.data@,
        }
    }
}

impl GISTransform {
    #[verifier::type_invariant]
    spec fn well_formed(&self) -> bool {
        self@.wf()
    }

    /// Makes a field of its header and the bytes of its voxel file.
    pub fn new(header: Header, bytes: &[u8]) -> (r: Result<Self, FormatError>)
        ensures
            match r {
                Ok(field) => assembled(header@, bytes@) == Ok::<FieldModel, FormatError>(
                    field@,
                ) && field@.wf(),
                Err(e) => assembled(header@, bytes@) == Err::<FieldModel, FormatError>(e),
            },
    {
        let (dimensions, spacing) = header.into_parts();
        if dimensions.len() < 3 {
            return Err(FormatError::TooFewDimensions);
        }
        if dimensions[0] > MAX_SPATIAL_SIZE || dimensions[1] > MAX_SPATIAL_SIZE || dimensions[2]
            > MAX_SPATIAL_SIZE {
            return Err(FormatError::DimensionTooLarge);
        }
        let size: usize = bytes.len();
        let points = match volume(&dimensions) {
            Some(points) => points,
            None => {
                return Err(FormatError::DataSizeMismatch);
            },
        };
        if size % 12 != 0 || size / 12 != points {
            return Err(FormatError::DataSizeMismatch);
        }
        let data = match GISArrayData::decode(bytes) {
            Ok(data) => data,
            Err(e) => {
                return Err(e);
            },
        };
        let flat: Vec<bool> = vec![false, false, false];
        assert(flat@ =~= seq![false, false, false]);
        let field = GISTransform {
            dimensions,
            element_type: ElementType::Point3Df,
            spacing,
            flat,
            data,
        };
        Ok(field)
    }

    /// Makes a field of the text of its header and the bytes of its voxel
    /// file.
    pub fn load(header: &[u8], bytes: &[u8]) -> (r: Result<Self, FormatError>)
        ensures
            match r {
                Ok(field) => loaded(header@, bytes@) == Ok::<FieldModel, FormatError>(field@)
                    && field@.wf(),
                Err(e) => loaded(header@, bytes@) == Err::<FieldModel, FormatError>(e),
            },
    {
        match parse_header(header) {
            Ok(parsed) => GISTransform::new(parsed, bytes),
            Err(e) => Err(e),
        }
    }

    /// The number of grid points.
    pub fn len(&self) -> (n: usize)
        ensures
            n == product(self@.dimensions),
    {
        proof {
            use_type_invariant(self);
        }
        self.data.len() / 3
    }

    /// Whether the field stores nothing.
    pub fn is_empty(&self) -> (b: bool)
        ensures
            b == (self@.data.len() == 0),
    {
        self.data.is_empty()
    }

    /// The size of the grid along each axis.
    pub fn dimensions(&self) -> (dimensions: &Vec<usize>)
        ensures
            dimensions@ == self@.dimensions,
    {
        &self.dimensions
    }

    /// The spacing of each axis, as the header wrote it.
    pub fn spacing(&self) -> (spacing: &Vec<Vec<u8>>)
        ensures
            texts(spacing@) == self@.spacing,
    {
        &self.spacing
    }

    /// The place of a grid point in file order, if `position` names one.
    pub fn index(&self, position: Vec<usize>) -> (r: Option<usize>)
        ensures
            match r {
                Some(index) => inside(self@.dimensions, position@) && index == offset(
                    self@.dimensions,
                    position@,
                ),
                None => !inside(self@.dimensions, position@),
            },
    {
        proof {
            use_type_invariant(self);
        }
        let stored: usize = self.data.len();
        let mut index: usize = 0;
        let mut stride: usize = 1;
        let mut i: usize = 0;
        proof {
            assert(self.dimensions@.take(0) == Seq::<usize>::empty());
            assert(position@.take(0) == Seq::<usize>::empty());
        }
        while i < position.len()
            invariant
                i <= position.len(),
                i <= self.dimensions@.len(),
                self@.wf(),
                self@.dimensions == self.dimensions@,
                stored == 3 * product(self.dimensions@),
                inside(self.dimensions@, position@.take(i as int)),
                index == offset(self.dimensions@, position@.take(i as int)),
                stride == product(self.dimensions@.take(i as int)),
            decreases position.len() - i,
        {
            if i >= self.dimensions.len() {
                return None;
            }
            let v: usize = position[i];
            let d: usize = self.dimensions[i];
            if v >= d {
                return None;
            }
            proof {
                let sizes = self.dimensions@;
                let longer = position@.take(i + 1);
                assert(longer.drop_last() == position@.take(i as int));
                assert(longer.last() == v);
                assert(inside(sizes, longer)) by {
                    assert forall|j: int| 0 <= j < longer.len() implies #[trigger] longer[j]
                        < sizes[j] by {
                        if j < i {
                            assert(position@.take(i as int)[j] == longer[j]);
                        }
                    }
                }
                lemma_offset_bound(sizes, longer);
                lemma_product_step(sizes, i as int);
                lemma_product_prefix(sizes, i + 1);
                let next = product(sizes.take(i + 1)) as int;
                assert(offset(sizes, longer) == index + v * stride);
                assert(next == stride * d);
                assert(stride * v == v * stride && 0 <= stride * v) by (nonlinear_arith)
                    requires
                        0 <= v,
                        0 <= stride,
                ;
                assert(index + stride * v < next);
                assert(next <= usize::MAX);
            }
            index = index + stride * v;
            stride = stride * d;
            i = i + 1;
        }
        proof {
            assert(position@.take(position.len() as int) == position@);
        }
        Some(index)
    }

    /// The stored vector of a grid point, if `position` names one.
    pub fn point3df(&self, position: Vec<usize>) -> (r: Option<Point3df>)
        ensures
            match r {
                Some(p) => inside(self@.dimensions, position@) && p@ == self@.vector(position@),
                None => !inside(self@.dimensions, position@),
            },
    {
        proof {
            use_type_invariant(self);
            if inside(self@.dimensions, position@) {
                lemma_offset_bound(self@.dimensions, position@);
                lemma_product_prefix(self@.dimensions, position@.len() as int);
            }
        }
        match self.index(position) {
            Some(index) => self.data.point3df(index),
            None => None,
        }
    }

    /// The stored vector of a grid point in double precision, if `position`
    /// names one.
    pub fn point3dd(&self, position: Vec<usize>) -> (r: Option<Point3dd>)
        ensures
            match r {
                Some(p) => inside(self@.dimensions, position@) && widened(
                    self@.vector(position@),
                    p@,
                ),
                None => !inside(self@.dimensions, position@),
            },
    {
        proof {
            use_type_invariant(self);
            if inside(self@.dimensions, position@) {
                lemma_offset_bound(self@.dimensions, position@);
                lemma_product_prefix(self@.dimensions, position@.len() as int);
            }
        }
        match self.index(position) {
            Some(index) => self.data.point3dd(index),
            None => None,
        }
    }

    /// The vector stored at grid position `(i, j, k)`, in double precision,
    /// if there is such a position.
    pub fn ctrl_point_delta(&self, i: i32, j: i32, k: i32) -> (r: Option<Point3dd>)
        ensures
            match r {
                Some(p) => 0 <= i < self@.dimensions[0] && 0 <= j < self@.dimensions[1] && 0 <= k
                    < self@.dimensions[2] && widened(
                    self@.vector(seq![i as usize, j as usize, k as usize]),
                    p@,
                ),
                None => !(0 <= i < self@.dimensions[0] && 0 <= j < self@.dimensions[1] && 0 <= k
                    < self@.dimensions[2]),
            },
    {
        proof {
            use_type_invariant(self);
        }
        if i < 0 || j < 0 || k < 0 {
            return None;
        }
        let position: Vec<usize> = vec![i as usize, j as usize, k as usize];
        assert(position@ =~= seq![i as usize, j as usize, k as usize]);
        self.point3dd(position)
    }

    /// The cell around a point given in grid steps, if the field covers the
    /// point.
    pub fn locate(&self, p: &Point3dd) -> (r: Option<Cell>)
        ensures
            match r {
                Some(cell) => self@.covers(p@) && self@.cell_around(p@, cell) && self@.holds(cell),
                None => !self@.covers(p@),
            },
    {
        proof {
            use_type_invariant(self);
        }
        let mut lower = Point3di([0, 0, 0]);
        let mut upper = Point3di([0, 0, 0]);
        let mut k: usize = 0;
        while k < 3
            invariant
                k <= 3,
                self@.wf(),
                self@.dimensions == self.dimensions@,
                self@.flat == self.flat@,
                forall|a: int|
                    0 <= a < k ==> {
                        &&& in_range(#[trigger] p@[a], self.dimensions@[a] as nat)
                        &&& lower@[a] == self@.lower(p@, a)
                        &&& upper@[a] == self@.upper(p@, a)
                    },
            decreases 3 - k,
        {
            let size: usize = self.dimensions[k];
            match whole_below(p.0[k], size as u32) {
                Some(whole) => {
                    let low: i32 = whole as i32;
                    let high: i32 = if self.flat[k] || low + 1 >= size as i32 {
                        low
                    } else {
                        low + 1
                    };
                    lower.0[k] = low;
                    upper.0[k] = high;
                },
                None => {
                    assert(!in_range(p@[k as int], self@.dimensions[k as int] as nat));
                    return None;
                },
            }
            k = k + 1;
        }
        let cell = Cell { lower, upper };
        proof {
            assert(in_range(p@[0], self.dimensions@[0] as nat));
            assert(in_range(p@[1], self.dimensions@[1] as nat));
            assert(in_range(p@[2], self.dimensions@[2] as nat));
            assert(cell.upper@[0] == self@.upper(p@, 0));
            assert(cell.upper@[1] == self@.upper(p@, 1));
            assert(cell.upper@[2] == self@.upper(p@, 2));
        }
        Some(cell)
    }

    /// The corners of a cell with their stored vectors, if the cell lies in
    /// the grid.
    pub fn corners(&self, cell: &Cell) -> (r: Option<Vec<Corner>>)
        ensures
            match r {
                Some(found) => self@.holds(*cell) && corners_match(found@, self@.corners(*cell)),
                None => !self@.holds(*cell),
            },
    {
        proof {
            use_type_invariant(self);
        }
        let mut k: usize = 0;
        while k < 3
            invariant
                k <= 3,
                self@.wf(),
                self@.dimensions == self.dimensions@,
                forall|a: int|
                    0 <= a < k ==> 0 <= (#[trigger] cell.lower@[a]) <= cell.upper@[a]
                        <= cell.lower@[a] + 1,
                forall|a: int| 0 <= a < k ==> (#[trigger] cell.upper@[a]) < self.dimensions@[a],
            decreases 3 - k,
        {
            let low: i32 = cell.lower.0[k];
            let high: i32 = cell.upper.0[k];
            if low < 0 || high < low || high - low > 1 {
                assert(!(0 <= cell.lower@[k as int] <= cell.upper@[k as int] <= cell.lower@[k as int]
                    + 1));
                return None;
            }
            if high as usize >= self.dimensions[k] {
                assert(!(cell.upper@[k as int] < self@.dimensions[k as int]));
                return None;
            }
            k = k + 1;
        }
        let mut found: Vec<Corner> = Vec::new();
        let mut n: usize = 0;
        while n < 8
            invariant
                n <= 8,
                self@.wf(),
                self@.holds(*cell),
                corners_match(found@, self@.corners_upto(*cell, n as nat)),
            decreases 8 - n,
        {
            let steps: [usize; 3] = [n % 2, (n / 2) % 2, n / 4];
            let i: i32 = cell.lower.0[0] + steps[0] as i32;
            let j: i32 = cell.lower.0[1] + steps[1] as i32;
            let k: i32 = cell.lower.0[2] + steps[2] as i32;
            proof {
                lemma_has_corner(*cell, n as int);
                assert(cell.upper@[0] < self@.dimensions[0]);
                assert(cell.upper@[1] < self@.dimensions[1]);
                assert(cell.upper@[2] < self@.dimensions[2]);
            }
            if i <= cell.upper.0[0] && j <= cell.upper.0[1] && k <= cell.upper.0[2] {
                let delta = self.ctrl_point_delta(i, j, k).unwrap();
                let corner = Corner { position: Point3di([i, j, k]), steps, delta };
                found.push(corner);
                proof {
                    assert(corner.position@ =~= cell.corner_position(n as int));
                    assert(corner_matches(corner, self@.corner(*cell, n as int)));
                }
            }
            n = n + 1;
        }
        Some(found)
    }

    /// The cell around a point given in grid steps, with its corners and
    /// their stored vectors, if the field covers the point.
    pub fn stencil(&self, p: &Point3dd) -> (r: Option<Stencil>)
        ensures
            match r {
                Some(found) => {
                    &&& self@.covers(p@)
                    &&& self@.cell_around(p@, found.cell)
                    &&& self@.holds(found.cell)
                    &&& corners_match(found.corners@, self@.corners(found.cell))
                },
                None => !self@.covers(p@),
            },
    {
        match self.locate(p) {
            Some(cell) => match self.corners(&cell) {
                Some(corners) => Some(Stencil { cell, corners }),
                None => None,
            },
            None => None,
        }
    }
}

} // verus!
