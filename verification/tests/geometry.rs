use patchsplit::point::Point;

#[test]
fn point_new_and_getters() {
    let p = Point::new(3, -4);
    assert_eq!(p.get_x(), 3);
    assert_eq!(p.get_y(), -4);
}

#[test]
fn point_zero_is_origin() {
    let z = Point::zero();
    assert_eq!(z.get_x(), 0);
    assert_eq!(z.get_y(), 0);
}

#[test]
fn translate_adds_componentwise() {
    let p = Point::new(10, -3).translate(Point::new(-4, 7));
    assert_eq!(p.get_x(), 6);
    assert_eq!(p.get_y(), 4);
}

#[test]
fn distance_sq_is_exact() {
    let a = Point::new(0, 0);
    let b = Point::new(3, 4);
    assert_eq!(a.distance_sq(&b), 25);
    assert_eq!(b.distance_sq(&b), 0);
}

#[test]
fn to_uint_rejects_negative_components() {
    assert_eq!(Point::new(-1, 5).to_uint(), None);
    assert_eq!(Point::new(5, -1).to_uint(), None);
    assert_eq!(Point::new(7, 9).to_uint(), Some((7, 9)));
}

#[test]
fn to_uint_rejects_values_beyond_u32() {
    assert_eq!(Point::new(u32::MAX as i64 + 1, 0).to_uint(), None);
    assert_eq!(Point::new(u32::MAX as i64, 0).to_uint(), Some((u32::MAX, 0)));
}
