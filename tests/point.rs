use orthtree::point::Point;
use orthtree::D;

#[test]
fn it_works() {}

#[test]
fn test_creating_point() {
    assert!(Point::zero().get(0) == 0);
    assert!(Point::zero().get(D - 1) == 0);

    assert!(Point::zero() == Point::from(0));

    assert!(Point::from(10).get(0) == 10);
    assert!(Point::from(10).get(D - 1) == 10);
}

#[test]
fn test_deref_point() {
    let mut point = Point::from(10);

    assert!(point.0[0] == 10);
    point.0[0] = 15;
    assert!(point.0[0] == 15);
}

#[test]
fn test_dividing_point() {
    assert!(Point::from(10).div(&Point::from(5)) == Point::from(2));
    assert!(Point::from(10).div_scalar(5) == Point::from(2));
}

#[test]
fn dividing_truncates_each_coordinate() {
    let p = Point::new([7, 20]).div(&Point::new([2, 3]));
    assert_eq!(p.0, [3, 6]);
    let q = Point::new([9, 4]).div_scalar(4);
    assert_eq!(q.0, [2, 1]);
}

#[test]
fn scaling_multiplies_each_coordinate() {
    let p = Point::new([3, 5]).mul(4);
    assert_eq!(p.0, [12, 20]);
    assert!(Point::new([3, 5]).mul(0) == Point::zero());
}

#[test]
fn points_compare_by_every_coordinate() {
    assert!(Point::new([1, 2]) == Point::new([1, 2]));
    assert!(Point::new([1, 2]) != Point::new([2, 1]));
    assert!(Point::new([1, 2]) != Point::new([1, 3]));
}
