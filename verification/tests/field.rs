use spatial_transforms::error::FormatError;
use spatial_transforms::cell::Cell;
use spatial_transforms::gis::GISTransform;
use spatial_transforms::gis::MAX_SPATIAL_SIZE;
use spatial_transforms::grid::volume;
use spatial_transforms::point::Point3dd;
use spatial_transforms::point::Point3df;
use spatial_transforms::point::Point3di;
use spatial_transforms::storage::GISArrayData;

/// The voxel file of a grid whose vector at `(i, j, k)` is
/// `[i, 10 j, 100 k + 0.5]`.
fn ramp(nx: usize, ny: usize, nz: usize) -> Vec<u8> {
    let mut bytes = Vec::new();
    for k in 0..nz {
        for j in 0..ny {
            for i in 0..nx {
                for c in [i as f32, 10.0 * j as f32, 100.0 * k as f32 + 0.5] {
                    bytes.extend_from_slice(&c.to_le_bytes());
                }
            }
        }
    }
    bytes
}

fn ramp_field() -> GISTransform {
    GISTransform::load(b"4 5 6\n-type POINT3DF\n-dx 0.5 -dy 2 -dz 1e1\n", &ramp(4, 5, 6)).unwrap()
}

fn grid_point(x: f64, y: f64, z: f64) -> Point3dd {
    Point3dd([x.to_bits(), y.to_bits(), z.to_bits()])
}

fn singles(p: Point3df) -> [f32; 3] {
    [f32::from_bits(p.0[0]), f32::from_bits(p.0[1]), f32::from_bits(p.0[2])]
}

fn doubles(p: Point3dd) -> [f64; 3] {
    [f64::from_bits(p.0[0]), f64::from_bits(p.0[1]), f64::from_bits(p.0[2])]
}

#[test]
fn words_are_read_least_significant_byte_first() {
    let data = GISArrayData::decode(&[0x78, 0x56, 0x34, 0x12, 0, 0, 0x80, 0x3f, 1, 0, 0, 0]).unwrap();
    assert_eq!(data.len(), 3);
    assert!(!data.is_empty());
    assert_eq!(data.point3df(0), Some(Point3df([0x1234_5678, 0x3f80_0000, 1])));
    assert_eq!(data.point3df(1), None);
}

#[test]
fn bytes_must_come_in_fours() {
    for n in [1, 2, 3, 5, 13] {
        assert_eq!(
            GISArrayData::decode(&vec![0u8; n]).unwrap_err(),
            FormatError::DataSizeMismatch
        );
    }
    let none = GISArrayData::decode(&[]).unwrap();
    assert!(none.is_empty());
    assert_eq!(none.point3df(0), None);
    assert_eq!(none.point3dd(0), None);
}

#[test]
fn stored_vectors_are_found_by_index() {
    let data = GISArrayData::decode(&ramp(2, 2, 1)).unwrap();
    assert_eq!(data.len(), 12);
    assert_eq!(singles(data.point3df(0).unwrap()), [0.0, 0.0, 0.5]);
    assert_eq!(singles(data.point3df(1).unwrap()), [1.0, 0.0, 0.5]);
    assert_eq!(singles(data.point3df(3).unwrap()), [1.0, 10.0, 0.5]);
    assert_eq!(doubles(data.point3dd(2).unwrap()), [0.0, 10.0, 0.5]);
    assert_eq!(data.point3df(4), None);
    assert_eq!(data.point3dd(4), None);
    assert_eq!(data.point3df(usize::MAX), None);
    assert_eq!(data.point3df(usize::MAX / 3), None);
}

#[test]
fn a_field_knows_its_grid() {
    let field = ramp_field();
    assert_eq!(field.dimensions(), &vec![4, 5, 6]);
    assert_eq!(field.len(), 120);
    assert!(!field.is_empty());
    let spacing: Vec<&[u8]> = field.spacing().iter().map(|s| s.as_slice()).collect();
    let expected: Vec<&[u8]> = vec![b"0.5", b"2", b"1e1"];
    assert_eq!(spacing, expected);
}

#[test]
fn the_first_axis_varies_fastest() {
    let field = ramp_field();
    assert_eq!(field.index(vec![0, 0, 0]), Some(0));
    assert_eq!(field.index(vec![1, 0, 0]), Some(1));
    assert_eq!(field.index(vec![0, 1, 0]), Some(4));
    assert_eq!(field.index(vec![0, 0, 1]), Some(20));
    assert_eq!(field.index(vec![1, 2, 3]), Some(69));
    assert_eq!(field.index(vec![3, 4, 5]), Some(119));
    assert_eq!(field.index(vec![3, 4]), Some(19));
    assert_eq!(field.index(vec![2]), Some(2));
    assert_eq!(field.index(vec![]), Some(0));
}

#[test]
fn positions_off_the_grid_have_no_index() {
    let field = ramp_field();
    assert_eq!(field.index(vec![4, 0, 0]), None);
    assert_eq!(field.index(vec![0, 5, 0]), None);
    assert_eq!(field.index(vec![0, 0, 6]), None);
    assert_eq!(field.index(vec![0, 0, 0, 0]), None);
    assert_eq!(field.index(vec![usize::MAX, usize::MAX, usize::MAX]), None);
    assert_eq!(field.point3df(vec![4, 0, 0]), None);
    assert_eq!(field.point3dd(vec![0, 0, 6]), None);
}

#[test]
fn vectors_are_found_by_position() {
    let field = ramp_field();
    assert_eq!(singles(field.point3df(vec![1, 2, 3]).unwrap()), [1.0, 20.0, 300.5]);
    assert_eq!(doubles(field.point3dd(vec![3, 4, 5]).unwrap()), [3.0, 40.0, 500.5]);
    assert_eq!(doubles(field.point3dd(vec![2, 1]).unwrap()), [2.0, 10.0, 0.5]);
    assert_eq!(doubles(field.ctrl_point_delta(1, 2, 3).unwrap()), [1.0, 20.0, 300.5]);
    assert_eq!(field.ctrl_point_delta(-1, 2, 3), None);
    assert_eq!(field.ctrl_point_delta(1, -1, 3), None);
    assert_eq!(field.ctrl_point_delta(1, 2, -1), None);
    assert_eq!(field.ctrl_point_delta(4, 2, 3), None);
    assert_eq!(field.ctrl_point_delta(1, 5, 3), None);
    assert_eq!(field.ctrl_point_delta(1, 2, 6), None);
}

#[test]
fn a_fourth_axis_is_stored_but_not_blended() {
    let mut bytes = ramp(2, 2, 2);
    bytes.extend_from_slice(&ramp(2, 2, 2));
    let field = GISTransform::load(b"2 2 2 2\n-dt 3", &bytes).unwrap();
    assert_eq!(field.len(), 16);
    assert_eq!(field.index(vec![1, 1, 1, 1]), Some(15));
    assert_eq!(singles(field.point3df(vec![1, 0, 0, 1]).unwrap()), [1.0, 0.0, 0.5]);
    assert_eq!(doubles(field.ctrl_point_delta(1, 1, 1).unwrap()), [1.0, 10.0, 100.5]);
}

#[test]
fn header_failures_come_first() {
    assert_eq!(GISTransform::load(b"", &[]).unwrap_err(), FormatError::MissingDimensions);
    assert_eq!(
        GISTransform::load(b"-type POINT3DF\n-dx 1", &ramp(1, 1, 1)).unwrap_err(),
        FormatError::BadDimension
    );
    assert_eq!(
        GISTransform::load(b"4 4\n-om ascii", &[1, 2, 3]).unwrap_err(),
        FormatError::UnsupportedStorage
    );
}

#[test]
fn a_grid_needs_three_axes() {
    assert_eq!(GISTransform::load(b"4", &ramp(4, 1, 1)).unwrap_err(), FormatError::TooFewDimensions);
    assert_eq!(
        GISTransform::load(b"4 4", &ramp(4, 4, 1)).unwrap_err(),
        FormatError::TooFewDimensions
    );
    assert!(GISTransform::load(b"4 4 1", &ramp(4, 4, 1)).is_ok());
}

#[test]
fn spatial_axes_must_fit_a_cell_index() {
    assert_eq!(MAX_SPATIAL_SIZE, i32::MAX as usize);
    if usize::MAX as u128 > u32::MAX as u128 {
        for header in ["2147483648 1 1", "1 2147483648 1", "1 1 4294967296"] {
            assert_eq!(
                GISTransform::load(header.as_bytes(), &[]).unwrap_err(),
                FormatError::DimensionTooLarge
            );
        }
    }
    assert_eq!(
        GISTransform::load(b"2147483647 1 1", &[]).unwrap_err(),
        FormatError::DataSizeMismatch
    );
}

#[test]
fn the_voxel_file_must_match_the_grid() {
    let bytes = ramp(2, 2, 2);
    assert!(GISTransform::load(b"2 2 2", &bytes).is_ok());
    assert_eq!(GISTransform::load(b"2 2 3", &bytes).unwrap_err(), FormatError::DataSizeMismatch);
    assert_eq!(GISTransform::load(b"2 2 1", &bytes).unwrap_err(), FormatError::DataSizeMismatch);
    assert_eq!(
        GISTransform::load(b"2 2 2", &bytes[..95]).unwrap_err(),
        FormatError::DataSizeMismatch
    );
    assert_eq!(
        GISTransform::load(b"2 2 2", &bytes[..92]).unwrap_err(),
        FormatError::DataSizeMismatch
    );
    assert_eq!(GISTransform::load(b"2 2 2", &[]).unwrap_err(), FormatError::DataSizeMismatch);
    let huge = format!("{} {} {} 3", i32::MAX, i32::MAX, i32::MAX);
    assert_eq!(
        GISTransform::load(huge.as_bytes(), &bytes).unwrap_err(),
        FormatError::DataSizeMismatch
    );
}

#[test]
fn a_cell_inside_the_grid_has_extent_everywhere() {
    let field = ramp_field();
    let cell = field.locate(&grid_point(1.25, 2.5, 3.75)).unwrap();
    assert_eq!(cell, Cell { lower: Point3di([1, 2, 3]), upper: Point3di([2, 3, 4]) });
    let cell = field.locate(&grid_point(0.0, 0.0, 0.0)).unwrap();
    assert_eq!(cell, Cell { lower: Point3di([0, 0, 0]), upper: Point3di([1, 1, 1]) });
    let cell = field.locate(&grid_point(-0.0, 2.0, 4.999)).unwrap();
    assert_eq!(cell, Cell { lower: Point3di([0, 2, 4]), upper: Point3di([1, 3, 5]) });
}

#[test]
fn a_cell_at_the_far_edge_is_collapsed() {
    let field = ramp_field();
    let cell = field.locate(&grid_point(3.0, 2.5, 3.5)).unwrap();
    assert_eq!(cell, Cell { lower: Point3di([3, 2, 3]), upper: Point3di([3, 3, 4]) });
    let cell = field.locate(&grid_point(3.999, 4.5, 5.25)).unwrap();
    assert_eq!(cell, Cell { lower: Point3di([3, 4, 5]), upper: Point3di([3, 4, 5]) });
    let flat = GISTransform::load(b"4 4 1", &ramp(4, 4, 1)).unwrap();
    let cell = flat.locate(&grid_point(1.5, 1.5, 0.5)).unwrap();
    assert_eq!(cell, Cell { lower: Point3di([1, 1, 0]), upper: Point3di([2, 2, 0]) });
}

#[test]
fn points_off_the_grid_have_no_cell() {
    let field = ramp_field();
    for (x, y, z) in [
        (4.0, 1.0, 1.0),
        (1.0, 5.0, 1.0),
        (1.0, 1.0, 6.0),
        (-0.001, 1.0, 1.0),
        (1.0, -1.0, 1.0),
        (1.0, 1.0, -5.0e-324),
        (f64::NAN, 1.0, 1.0),
        (1.0, f64::INFINITY, 1.0),
        (1.0, 1.0, f64::NEG_INFINITY),
        (1.0e30, 1.0, 1.0),
    ] {
        assert_eq!(field.locate(&grid_point(x, y, z)), None, "{} {} {}", x, y, z);
        assert_eq!(field.stencil(&grid_point(x, y, z)), None, "{} {} {}", x, y, z);
    }
}

#[test]
fn corners_are_visited_first_axis_fastest() {
    let field = ramp_field();
    let found = field.stencil(&grid_point(1.25, 2.5, 3.75)).unwrap();
    assert_eq!(found.cell, Cell { lower: Point3di([1, 2, 3]), upper: Point3di([2, 3, 4]) });
    let positions: Vec<[i32; 3]> = found.corners.iter().map(|c| c.position.0).collect();
    assert_eq!(
        positions,
        vec![
            [1, 2, 3],
            [2, 2, 3],
            [1, 3, 3],
            [2, 3, 3],
            [1, 2, 4],
            [2, 2, 4],
            [1, 3, 4],
            [2, 3, 4]
        ]
    );
    let steps: Vec<[usize; 3]> = found.corners.iter().map(|c| c.steps).collect();
    assert_eq!(
        steps,
        vec![
            [0, 0, 0],
            [1, 0, 0],
            [0, 1, 0],
            [1, 1, 0],
            [0, 0, 1],
            [1, 0, 1],
            [0, 1, 1],
            [1, 1, 1]
        ]
    );
    for corner in &found.corners {
        let [i, j, k] = corner.position.0;
        assert_eq!(
            doubles(corner.delta),
            [i as f64, 10.0 * j as f64, 100.0 * k as f64 + 0.5]
        );
    }
}

#[test]
fn steps_lead_from_the_lowest_corner() {
    let field = ramp_field();
    for (x, y, z) in [(1.25, 2.5, 3.75), (3.5, 1.5, 1.5), (1.5, 4.5, 5.5), (3.5, 4.5, 5.5)] {
        let found = field.stencil(&grid_point(x, y, z)).unwrap();
        for corner in &found.corners {
            for k in 0..3 {
                assert_eq!(
                    found.cell.lower.0[k] + corner.steps[k] as i32,
                    corner.position.0[k]
                );
                assert!(corner.position.0[k] <= found.cell.upper.0[k]);
            }
        }
    }
}

#[test]
fn the_volume_is_the_product_of_the_sizes() {
    assert_eq!(volume(&vec![]), Some(1));
    assert_eq!(volume(&vec![7]), Some(7));
    assert_eq!(volume(&vec![448, 486, 403]), Some(87_744_384));
    assert_eq!(volume(&vec![4, 0, 4]), Some(0));
    assert_eq!(volume(&vec![usize::MAX, 1, 1]), Some(usize::MAX));
    assert_eq!(volume(&vec![usize::MAX, 2]), None);
    assert_eq!(volume(&vec![usize::MAX, usize::MAX, 0]), Some(0));
    assert_eq!(volume(&vec![1 << 16, 1 << 16, 1 << 16, 1 << 16, 1 << 16]), None);
}

#[test]
fn a_collapsed_axis_is_visited_once() {
    let field = ramp_field();
    let corners = |x: f64, y: f64, z: f64| -> Vec<[i32; 3]> {
        let found = field.stencil(&grid_point(x, y, z)).unwrap();
        found.corners.iter().map(|c| c.position.0).collect()
    };
    assert_eq!(corners(3.5, 1.5, 1.5), vec![[3, 1, 1], [3, 2, 1], [3, 1, 2], [3, 2, 2]]);
    assert_eq!(corners(1.5, 4.5, 1.5), vec![[1, 4, 1], [2, 4, 1], [1, 4, 2], [2, 4, 2]]);
    assert_eq!(corners(1.5, 1.5, 5.5), vec![[1, 1, 5], [2, 1, 5], [1, 2, 5], [2, 2, 5]]);
    assert_eq!(corners(3.5, 4.5, 1.5), vec![[3, 4, 1], [3, 4, 2]]);
    assert_eq!(corners(3.5, 1.5, 5.5), vec![[3, 1, 5], [3, 2, 5]]);
    assert_eq!(corners(1.5, 4.5, 5.5), vec![[1, 4, 5], [2, 4, 5]]);
    assert_eq!(corners(3.5, 4.5, 5.5), vec![[3, 4, 5]]);
}

#[test]
fn cells_off_the_grid_have_no_corners() {
    let field = ramp_field();
    let cell = |lower: [i32; 3], upper: [i32; 3]| Cell {
        lower: Point3di(lower),
        upper: Point3di(upper),
    };
    assert_eq!(field.corners(&cell([0, 0, 0], [1, 1, 1])).unwrap().len(), 8);
    assert_eq!(field.corners(&cell([3, 4, 5], [3, 4, 5])).unwrap().len(), 1);
    assert_eq!(field.corners(&cell([3, 4, 5], [4, 4, 5])), None);
    assert_eq!(field.corners(&cell([3, 4, 5], [3, 5, 5])), None);
    assert_eq!(field.corners(&cell([3, 4, 5], [3, 4, 6])), None);
    assert_eq!(field.corners(&cell([-1, 0, 0], [0, 0, 0])), None);
    assert_eq!(field.corners(&cell([0, 0, 0], [2, 0, 0])), None);
    assert_eq!(field.corners(&cell([1, 1, 1], [0, 1, 1])), None);
    assert_eq!(field.corners(&cell([i32::MIN, 0, 0], [i32::MAX, 0, 0])), None);
    assert_eq!(field.corners(&cell([i32::MAX, 0, 0], [i32::MAX, 0, 0])), None);
}

#[test]
fn the_first_corner_is_the_lowest() {
    let field = ramp_field();
    for (x, y, z) in [(0.0, 0.0, 0.0), (1.0, 2.0, 3.0), (3.5, 4.25, 5.75), (2.999, 0.5, 4.0)] {
        let found = field.stencil(&grid_point(x, y, z)).unwrap();
        let expected = [x.floor() as i32, y.floor() as i32, z.floor() as i32];
        assert_eq!(found.cell.lower.0, expected);
        assert_eq!(found.corners[0].position.0, expected);
        assert_eq!(
            found.corners[0].delta,
            field.ctrl_point_delta(expected[0], expected[1], expected[2]).unwrap()
        );
    }
}
