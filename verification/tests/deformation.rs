use spatial_transforms::error::FormatError;
use spatial_transforms::gis::GISTransform;
use spatial_transforms::point::Point3dd;

/// The voxel file of a grid with the vector `voxel(i, j, k)` at `(i, j, k)`.
fn voxels(n: [usize; 3], voxel: &dyn Fn(usize, usize, usize) -> [f32; 3]) -> Vec<u8> {
    let mut bytes = Vec::new();
    for k in 0..n[2] {
        for j in 0..n[1] {
            for i in 0..n[0] {
                for c in voxel(i, j, k) {
                    bytes.extend_from_slice(&c.to_le_bytes());
                }
            }
        }
    }
    bytes
}

fn spacing(field: &GISTransform) -> Vec<f64> {
    field
        .spacing()
        .iter()
        .map(|s| std::str::from_utf8(s).unwrap().parse::<f64>().unwrap())
        .collect()
}

/// The displacement at a point given in millimetres: the stored vectors at
/// the corners of the cell around it, each weighted by the product of its
/// weights along the three axes.
fn displacement(field: &GISTransform, p: [f64; 3]) -> [f64; 3] {
    let s = spacing(field);
    let g = [p[0] / s[0], p[1] / s[1], p[2] / s[2]];
    let found = match field.stencil(&Point3dd([g[0].to_bits(), g[1].to_bits(), g[2].to_bits()])) {
        Some(found) => found,
        None => return [f64::NAN; 3],
    };
    let lower = found.cell.lower.0;
    let upper = found.cell.upper.0;
    let mut bt = [[0f64; 2]; 3];
    for k in 0..3 {
        if upper[k] == lower[k] {
            bt[k] = [1.0, 0.0];
        } else {
            bt[k][1] = g[k] - f64::from(lower[k]);
            bt[k][0] = 1.0 - bt[k][1];
        }
    }
    let mut sum = [0f64; 3];
    for corner in &found.corners {
        for c in 0..3 {
            let mut v = f64::from_bits(corner.delta.0[c]);
            for k in 0..3 {
                v *= bt[k][corner.steps[k]];
            }
            sum[c] += v;
        }
    }
    sum
}

fn deformation(field: &GISTransform, p: [f64; 3]) -> [f64; 3] {
    let d = displacement(field, p);
    [p[0] + d[0], p[1] + d[1], p[2] + d[2]]
}

fn uniform() -> GISTransform {
    let bytes = voxels([4, 4, 4], &|_, _, _| [1.0, 0.0, 0.0]);
    GISTransform::load(b"4 4 4\n-type POINT3DF\n-bo DCBA\n-om binar\n", &bytes).unwrap()
}

/// A field whose vector at `(i, j, k)` is `[i + 2 j, j * k, 0.25 - k]`, on a
/// grid with steps of 0.5, 2 and 4 millimetres.
fn sheared() -> GISTransform {
    let bytes = voxels(
        [5, 4, 3],
        &|i, j, k| [(i + 2 * j) as f32, (j * k) as f32, 0.25 - k as f32],
    );
    GISTransform::load(b"5 4 3\n-dx 0.5 -dy 2 -dz 4\n", &bytes).unwrap()
}

#[test]
fn displacement_adds_to_the_point() {
    assert_eq!(deformation(&uniform(), [1.0, 1.0, 1.0]), [2.0, 1.0, 1.0]);
    assert_eq!(deformation(&uniform(), [0.0, 0.0, 0.0]), [1.0, 0.0, 0.0]);
    assert_eq!(deformation(&uniform(), [2.5, 0.25, 3.75]), [3.5, 0.25, 3.75]);
}

#[test]
fn the_far_boundary_is_outside() {
    let r = deformation(&uniform(), [4.0, 1.0, 1.0]);
    assert!(r[0].is_nan() && r[1].is_nan() && r[2].is_nan());
    // The largest coordinate below the boundary is inside, in the last cell.
    let below = f64::from_bits(4.0f64.to_bits() - 1);
    assert_eq!(deformation(&uniform(), [below, 1.0, 1.0]), [below + 1.0, 1.0, 1.0]);
}

#[test]
fn every_point_outside_is_tainted() {
    let field = sheared();
    for p in [
        [-0.1, 1.0, 1.0],
        [2.5, 1.0, 1.0],
        [1.0, 8.0, 1.0],
        [1.0, -2.0, 1.0],
        [1.0, 1.0, 12.0],
        [1.0, 1.0, -1.0e-300],
        [100.0, 100.0, 100.0],
        [f64::NAN, 1.0, 1.0],
        [1.0, f64::INFINITY, 1.0],
    ] {
        let r = deformation(&field, p);
        let bits = Point3dd([r[0].to_bits(), r[1].to_bits(), r[2].to_bits()]);
        assert!(bits.is_nan(), "{:?}", p);
    }
}

#[test]
fn points_well_inside_are_finite() {
    let field = sheared();
    for a in 0..20 {
        for b in 0..20 {
            for c in 0..20 {
                let p = [
                    0.5 + 0.05 * a as f64,
                    2.0 + 0.2 * b as f64,
                    4.0 + 0.19 * c as f64,
                ];
                let r = deformation(&field, p);
                assert!(r.iter().all(|x| x.is_finite()), "{:?}", p);
            }
        }
    }
}

#[test]
fn a_vertex_has_its_stored_vector() {
    let field = sheared();
    for i in 0..5 {
        for j in 0..4 {
            for k in 0..3 {
                let p = [0.5 * i as f64, 2.0 * j as f64, 4.0 * k as f64];
                let stored = field.ctrl_point_delta(i, j, k).unwrap();
                let expected = [
                    f64::from_bits(stored.0[0]),
                    f64::from_bits(stored.0[1]),
                    f64::from_bits(stored.0[2]),
                ];
                assert_eq!(displacement(&field, p), expected);
                assert_eq!(
                    expected,
                    [(i + 2 * j) as f64, (j * k) as f64, 0.25 - k as f64]
                );
            }
        }
    }
}

#[test]
fn blending_is_linear_along_an_axis() {
    let field = sheared();
    // Between the grid points (1, 1, 1) and (2, 1, 1), half a millimetre apart.
    let low = displacement(&field, [0.5, 2.0, 4.0]);
    let high = displacement(&field, [1.0, 2.0, 4.0]);
    assert_eq!(low, [3.0, 1.0, -0.75]);
    assert_eq!(high, [4.0, 1.0, -0.75]);
    assert_eq!(displacement(&field, [0.625, 2.0, 4.0]), [3.25, 1.0, -0.75]);
    assert_eq!(displacement(&field, [0.75, 2.0, 4.0]), [3.5, 1.0, -0.75]);
    assert_eq!(displacement(&field, [0.875, 2.0, 4.0]), [3.75, 1.0, -0.75]);
    let mut before = low[0];
    for step in 1..=64 {
        let x = 0.5 + 0.5 * step as f64 / 64.0;
        let here = displacement(&field, [x, 2.0, 4.0])[0];
        assert!(low[0] <= here && here <= high[0]);
        assert!(before <= here);
        assert!(here - before <= 1.0 / 64.0 + 1e-12);
        before = here;
    }
    // Along the third axis the second component falls from 1 to 2 times j.
    assert_eq!(displacement(&field, [0.5, 4.0, 6.0]), [5.0, 3.0, -1.25]);
}

#[test]
fn blending_in_the_middle_of_a_cell() {
    let field = sheared();
    // Grid point (1.5, 1.5, 0.5): the mean of the eight corners.
    assert_eq!(displacement(&field, [0.75, 3.0, 2.0]), [4.5, 0.75, -0.25]);
    assert_eq!(deformation(&field, [0.75, 3.0, 2.0]), [5.25, 3.75, 1.75]);
}

#[test]
fn the_last_plane_is_not_blended_across() {
    let field = sheared();
    // Grid point (4.5, 1, 1): the first axis ends at 4, so the value is that
    // of the grid point (4, 1, 1).
    assert_eq!(displacement(&field, [2.25, 2.0, 4.0]), [6.0, 1.0, -0.75]);
    // Grid point (1, 3.5, 2.5): the last plane of the second and third axes.
    assert_eq!(displacement(&field, [0.5, 7.0, 10.0]), [7.0, 6.0, -1.75]);
}

#[test]
fn a_stored_not_a_number_taints_its_cell() {
    let bytes = voxels(
        [3, 3, 3],
        &|i, j, k| if (i, j, k) == (1, 1, 1) { [f32::NAN, 0.0, 0.0] } else { [1.0, 2.0, 3.0] },
    );
    let field = GISTransform::load(b"3 3 3", &bytes).unwrap();
    let r = deformation(&field, [0.5, 0.5, 0.5]);
    assert!(r[0].is_nan());
    assert_eq!((r[1], r[2]), (2.25, 3.125));
    assert!(Point3dd([r[0].to_bits(), r[1].to_bits(), r[2].to_bits()]).is_nan());
}

#[test]
fn a_header_without_sizes_makes_no_field() {
    let bytes = voxels([4, 4, 4], &|_, _, _| [1.0, 0.0, 0.0]);
    assert_eq!(
        GISTransform::load(b"-type POINT3DF\n-bo DCBA\n-om binar\n", &bytes).unwrap_err(),
        FormatError::BadDimension
    );
    assert_eq!(
        GISTransform::load(b"\n-type POINT3DF\n", &bytes).unwrap_err(),
        FormatError::MissingDimensions
    );
    assert_eq!(GISTransform::load(b"", &bytes).unwrap_err(), FormatError::MissingDimensions);
}
