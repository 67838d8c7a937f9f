use spatial_transforms::binary64;
use spatial_transforms::point::Point3dd;
use spatial_transforms::point::Point3df;
use spatial_transforms::point::Point3di;
use spatial_transforms::point::K;

#[test]
fn points_have_three_components() {
    assert_eq!(K, 3);
    assert_eq!(Point3di([1, 2, 3]).dimensions(), 3);
    assert_eq!(Point3df([1, 2, 3]).dimensions(), 3);
    assert_eq!(Point3dd([1, 2, 3]).dimensions(), 3);
}

#[test]
fn scaling_multiplies_every_component() {
    let mut p = Point3di([1, -2, 3]);
    p.scale(4);
    assert_eq!(p, Point3di([4, -8, 12]));
    p.scale(-1).scale(2);
    assert_eq!(p, Point3di([-8, 16, -24]));
}

#[test]
fn adding_goes_component_by_component() {
    let mut p = Point3di([1, -2, 3]);
    p.add_assign(Point3di([10, 20, -30]));
    assert_eq!(p, Point3di([11, 18, -27]));
}

#[test]
fn components_are_read_by_index() {
    let p = Point3di([7, 8, 9]);
    assert_eq!((p.get(0), p.get(1), p.get(2)), (7, 8, 9));
    let q = Point3df([7, 8, 9]);
    assert_eq!((q.get(0), q.get(1), q.get(2)), (7, 8, 9));
    let r = Point3dd([7, 8, 9]);
    assert_eq!((r.get(0), r.get(1), r.get(2)), (7, 8, 9));
}

#[test]
fn points_come_from_the_first_three_of_a_vector() {
    assert_eq!(Point3di::from_vec(&vec![1, 2, 3, 4]), Some(Point3di([1, 2, 3])));
    assert_eq!(Point3di::from_vec(&vec![1, 2]), None);
    assert_eq!(Point3df::from_vec(&vec![1, 2, 3]), Some(Point3df([1, 2, 3])));
    assert_eq!(Point3df::from_vec(&vec![]), None);
    assert_eq!(Point3dd::from_vec(&vec![1, 2, 3, 4, 5]), Some(Point3dd([1, 2, 3])));
    assert_eq!(Point3dd::from_vec(&vec![1]), None);
    assert_eq!(Point3di([1, 2, 3]).to_vec(), vec![1, 2, 3]);
    assert_eq!(Point3df([1, 2, 3]).to_vec(), vec![1, 2, 3]);
    assert_eq!(Point3dd([1, 2, 3]).to_vec(), vec![1, 2, 3]);
}

#[test]
fn one_bad_component_taints_the_point() {
    let one = 1.0f64.to_bits();
    let nan = f64::NAN.to_bits();
    assert!(!Point3dd([one, one, one]).is_nan());
    assert!(Point3dd([nan, one, one]).is_nan());
    assert!(Point3dd([one, nan, one]).is_nan());
    assert!(Point3dd([one, one, nan]).is_nan());
    assert!(!Point3dd([f64::INFINITY.to_bits(), one, one]).is_nan());
    let one = 1.0f32.to_bits();
    let nan = f32::NAN.to_bits();
    assert!(!Point3df([one, one, one]).is_nan());
    assert!(Point3df([nan, one, one]).is_nan());
    assert!(Point3df([one, nan, one]).is_nan());
    assert!(Point3df([one, one, nan]).is_nan());
}

#[test]
fn the_sentinel_is_not_a_number_throughout() {
    let p = Point3dd::nan();
    assert!(p.is_nan());
    for k in 0..3 {
        assert!(f64::from_bits(p.get(k)).is_nan());
        assert_eq!(p.get(k), binary64::NAN);
    }
}
